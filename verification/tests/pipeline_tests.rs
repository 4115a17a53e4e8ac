use itinerary_core::combine::combinations;
use itinerary_core::model::Location;
use itinerary_core::rank::dedup;
use itinerary_core::scoring::{filter_and_score, score, ScoredEntry};
use itinerary_core::suggestion::Suggestion;
use itinerary_core::{suggest, Place, PlaceInfo, PlaceType, PromptAnalyses, SuggestError};

fn tags(names: &[&str]) -> Vec<String> {
    names.iter().map(|s| s.to_string()).collect()
}

fn place(title: &str, pt: PlaceType, x: i64, y: i64, tag_names: &[&str]) -> Place {
    Place {
        title: title.to_string(),
        category: String::new(),
        place_type: pt,
        region: String::new(),
        neighbourhood: String::new(),
        location: Location { x, y },
        tags: tags(tag_names),
    }
}

fn interp(entries: Vec<(PlaceType, &[&str])>) -> PromptAnalyses {
    PromptAnalyses {
        place_infos: entries
            .into_iter()
            .map(|(pt, ts)| PlaceInfo { place_type: pt, tags: tags(ts) })
            .collect(),
        total_count: None,
    }
}

#[test]
fn score_counts_shared_tags() {
    let p = place("P", PlaceType::Museum, 0, 0, &["a", "b", "c"]);
    assert_eq!(score(&p, &tags(&["b", "c", "d"])), 2);
    assert_eq!(score(&p, &tags(&["z"])), 0);
    assert_eq!(score(&p, &tags(&[])), 0);
}

#[test]
fn filter_excludes_wrong_type_and_zero_overlap() {
    let catalog = vec![
        place("M1", PlaceType::Museum, 0, 0, &["a"]),
        place("R1", PlaceType::Restaurant, 0, 0, &["a"]),
        place("M2", PlaceType::Museum, 0, 0, &["z"]),
        place("M3", PlaceType::Museum, 0, 0, &["a", "b"]),
    ];
    let info = PlaceInfo { place_type: PlaceType::Museum, tags: tags(&["a", "b"]) };
    let scored = filter_and_score(&catalog, &info);
    let titles: Vec<&str> = scored.iter().map(|s| s.place.title.as_str()).collect();
    assert_eq!(titles, vec!["M1", "M3"]);
    assert_eq!(scored[0].score, 1);
    assert_eq!(scored[1].score, 2);
}

#[test]
fn combination_count_is_product() {
    let e = |i: usize| ScoredEntry { idx: i, score: 1 };
    let lists = vec![vec![e(0), e(1)], vec![e(2), e(3), e(4)]];
    let combos = combinations(&lists).unwrap();
    assert_eq!(combos.len(), 6);
    // Row-major order: the last list varies fastest.
    assert_eq!(combos[0], vec![e(0), e(2)]);
    assert_eq!(combos[1], vec![e(0), e(3)]);
    assert_eq!(combos[5], vec![e(1), e(4)]);
}

#[test]
fn combination_count_with_empty_list_is_zero() {
    let e = |i: usize| ScoredEntry { idx: i, score: 1 };
    let lists = vec![vec![e(0), e(1)], vec![]];
    let combos = combinations(&lists).unwrap();
    assert_eq!(combos.len(), 0);
}

#[test]
fn combination_space_over_ceiling_is_rejected() {
    let entries: Vec<ScoredEntry> = (0..70).map(|i| ScoredEntry { idx: i, score: 1 }).collect();
    let lists = vec![entries.clone(), entries];
    assert_eq!(combinations(&lists), Err(SuggestError::CombinationSpaceTooLarge));
}

#[test]
fn dedup_collapses_equal_place_multisets() {
    let catalog = vec![
        place("M1", PlaceType::Museum, 0, 0, &["a"]),
        place("M2", PlaceType::Museum, 0, 0, &["a"]),
    ];
    let e = |i: usize| ScoredEntry { idx: i, score: 1 };
    // (M1, M2) and (M2, M1) carry the same places.
    let combos = vec![vec![e(0), e(1)], vec![e(1), e(0)]];
    let kept = dedup(&catalog, &combos);
    assert_eq!(kept, vec![vec![e(0), e(1)]]);
    // (M1, M1) and (M1, M2) do not.
    let combos = vec![vec![e(0), e(0)], vec![e(0), e(1)]];
    let kept = dedup(&catalog, &combos);
    assert_eq!(kept.len(), 2);
}

#[test]
fn end_to_end_prefers_higher_relevance() {
    let catalog = vec![
        place("M1", PlaceType::Museum, 100, 100, &["a", "b"]),
        place("M2", PlaceType::Museum, 100, 100, &["a"]),
        place("R1", PlaceType::Restaurant, 120, 120, &["c"]),
    ];
    let analyses = interp(vec![
        (PlaceType::Museum, &["a", "b"]),
        (PlaceType::Restaurant, &["c"]),
    ]);
    let suggestions = suggest(&catalog, &analyses).unwrap();
    assert_eq!(suggestions.len(), 2);
    assert_eq!(suggestions[0].selected_place.title, "M1");
    assert_eq!(suggestions[0].places.len(), 2);
    assert_eq!(suggestions[0].places[0].title, "M1");
    assert_eq!(suggestions[0].places[1].title, "M2");
    assert_eq!(suggestions[1].selected_place.title, "R1");
    assert_eq!(suggestions[1].places.len(), 1);
}

#[test]
fn end_to_end_prefers_compact_route_on_equal_relevance() {
    let catalog = vec![
        place("Far museum", PlaceType::Museum, 10_000_000, 10_000_000, &["a"]),
        place("Near museum", PlaceType::Museum, 200, 200, &["a"]),
        place("R1", PlaceType::Restaurant, 100, 100, &["c"]),
    ];
    let analyses = interp(vec![
        (PlaceType::Museum, &["a"]),
        (PlaceType::Restaurant, &["c"]),
    ]);
    let suggestions = suggest(&catalog, &analyses).unwrap();
    assert_eq!(suggestions[0].selected_place.title, "Near museum");
}

#[test]
fn tie_breaks_to_enumeration_order() {
    let catalog = vec![
        place("First", PlaceType::Museum, 0, 0, &["a"]),
        place("Second", PlaceType::Museum, 0, 0, &["a"]),
    ];
    let analyses = interp(vec![(PlaceType::Museum, &["a"])]);
    let suggestions = suggest(&catalog, &analyses).unwrap();
    assert_eq!(suggestions[0].selected_place.title, "First");
}

#[test]
fn no_match_reports_no_valid_itinerary() {
    let catalog = vec![
        place("M1", PlaceType::Museum, 0, 0, &["a"]),
        place("R1", PlaceType::Restaurant, 0, 0, &["c"]),
    ];
    let analyses = interp(vec![(PlaceType::Museum, &["z"])]);
    assert_eq!(suggest(&catalog, &analyses).unwrap_err(), SuggestError::NoValidItinerary);
}

#[test]
fn empty_interpretation_reports_no_valid_itinerary() {
    let catalog = vec![place("M1", PlaceType::Museum, 0, 0, &["a"])];
    let analyses = interp(vec![]);
    assert_eq!(suggest(&catalog, &analyses).unwrap_err(), SuggestError::NoValidItinerary);
}

#[test]
fn category_without_candidates_is_dropped() {
    let catalog = vec![
        place("M1", PlaceType::Museum, 0, 0, &["a"]),
        place("R1", PlaceType::Restaurant, 0, 0, &["c"]),
    ];
    let analyses = interp(vec![
        (PlaceType::Museum, &["a"]),
        (PlaceType::Restaurant, &["z"]),
    ]);
    let suggestions = suggest(&catalog, &analyses).unwrap();
    assert_eq!(suggestions.len(), 1);
    assert_eq!(suggestions[0].selected_place.title, "M1");
}

#[test]
fn oversized_request_reports_too_large() {
    let catalog: Vec<Place> =
        (0..70).map(|i| place(&format!("M{i}"), PlaceType::Museum, 0, 0, &["a"])).collect();
    let analyses = interp(vec![
        (PlaceType::Museum, &["a"]),
        (PlaceType::Museum, &["a"]),
    ]);
    assert_eq!(suggest(&catalog, &analyses).unwrap_err(), SuggestError::CombinationSpaceTooLarge);
}

#[test]
fn too_many_stops_reports_too_large() {
    let catalog = vec![place("M1", PlaceType::Museum, 0, 0, &["a"])];
    let analyses = interp((0..25).map(|_| (PlaceType::Museum, &["a"][..])).collect());
    assert_eq!(suggest(&catalog, &analyses).unwrap_err(), SuggestError::CombinationSpaceTooLarge);
}

#[test]
fn suggest_is_deterministic() {
    let catalog = vec![
        place("M1", PlaceType::Museum, 5, 17, &["a", "b"]),
        place("M2", PlaceType::Museum, 90, 3, &["a", "c"]),
        place("H1", PlaceType::Historical, 44, 12, &["d"]),
        place("R1", PlaceType::Restaurant, 7, 81, &["e"]),
    ];
    let analyses = interp(vec![
        (PlaceType::Museum, &["a", "b", "c"]),
        (PlaceType::Historical, &["d"]),
        (PlaceType::Restaurant, &["e"]),
    ]);
    let first = suggest(&catalog, &analyses).unwrap();
    let second = suggest(&catalog, &analyses).unwrap();
    assert_eq!(format!("{first:?}"), format!("{second:?}"));
}

#[test]
fn cycling_wraps_both_ways() {
    let p1 = place("P1", PlaceType::Museum, 0, 0, &[]);
    let p2 = place("P2", PlaceType::Museum, 0, 0, &[]);
    let p3 = place("P3", PlaceType::Museum, 0, 0, &[]);
    let mut s = Suggestion {
        places: vec![p1.clone(), p2.clone(), p3.clone()],
        selected_place: p2.clone(),
    };
    s.next();
    assert_eq!(s.selected_place, p3);
    s.next();
    assert_eq!(s.selected_place, p1);
    s.prev();
    assert_eq!(s.selected_place, p3);
    s.prev();
    assert_eq!(s.selected_place, p2);
}

#[test]
fn cycling_next_then_prev_restores_selection() {
    let p1 = place("P1", PlaceType::Museum, 0, 0, &[]);
    let p2 = place("P2", PlaceType::Museum, 0, 0, &[]);
    let mut s = Suggestion { places: vec![p1.clone(), p2.clone()], selected_place: p1.clone() };
    s.next();
    s.prev();
    assert_eq!(s.selected_place, p1);
    s.prev();
    s.next();
    assert_eq!(s.selected_place, p1);
}

#[test]
fn cycling_single_candidate_stays_put() {
    let p1 = place("P1", PlaceType::Museum, 0, 0, &[]);
    let mut s = Suggestion { places: vec![p1.clone()], selected_place: p1.clone() };
    s.next();
    assert_eq!(s.selected_place, p1);
    s.prev();
    assert_eq!(s.selected_place, p1);
}

#[test]
fn duplicate_categories_share_the_catalog() {
    // Two museum slots over a catalog of two museums: after collapsing
    // combinations with equal place multisets, the winner is still a pair.
    let catalog = vec![
        place("M1", PlaceType::Museum, 0, 0, &["a", "b"]),
        place("M2", PlaceType::Museum, 0, 0, &["a"]),
    ];
    let analyses = interp(vec![
        (PlaceType::Museum, &["a", "b"]),
        (PlaceType::Museum, &["a", "b"]),
    ]);
    let suggestions = suggest(&catalog, &analyses).unwrap();
    assert_eq!(suggestions.len(), 2);
    // Highest total relevance is the pair (M1, M1).
    assert_eq!(suggestions[0].selected_place.title, "M1");
    assert_eq!(suggestions[1].selected_place.title, "M1");
}
