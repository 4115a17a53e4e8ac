use std::collections::VecDeque;

use itinerary_core::chat::{maintain_conversational_context, split_text_into_chunks};
use itinerary_core::model::Location;
use itinerary_core::{Place, PlaceType, State, SuggestError};

fn place(title: &str, pt: PlaceType, region: &str) -> Place {
    Place {
        title: title.to_string(),
        category: String::new(),
        place_type: pt,
        region: region.to_string(),
        neighbourhood: String::new(),
        location: Location { x: 0, y: 0 },
        tags: Vec::new(),
    }
}

#[test]
fn label_round_trip_museum() {
    let label = PlaceType::Museum.label();
    assert_eq!(PlaceType::from_label(&label), Some(PlaceType::Museum));
}

#[test]
fn label_round_trip_historical() {
    let label = PlaceType::Historical.label();
    assert_eq!(PlaceType::from_label(&label), Some(PlaceType::Historical));
}

#[test]
fn label_round_trip_restaurant() {
    let label = PlaceType::Restaurant.label();
    assert_eq!(PlaceType::from_label(&label), Some(PlaceType::Restaurant));
}

#[test]
fn labels_are_localized() {
    assert_eq!(PlaceType::Museum.label(), "موزه");
    assert_eq!(PlaceType::Historical.label(), "مکان تاریخی");
    assert_eq!(PlaceType::Restaurant.label(), "رستوران");
}

#[test]
fn unknown_label_is_rejected() {
    let bad = "کافه".to_string();
    assert_eq!(PlaceType::from_label(&bad), None);
    assert_eq!(
        PlaceType::parse_label(&bad),
        Err(SuggestError::UnknownPlaceType)
    );
    assert_eq!(
        PlaceType::parse_label(&PlaceType::Museum.label()),
        Ok(PlaceType::Museum)
    );
}

#[test]
fn place_equality_is_identity_only() {
    let a = place("Golestan Palace", PlaceType::Historical, "District 12");
    let b = place("Golestan Palace", PlaceType::Historical, "elsewhere");
    let c = place("Golestan Palace", PlaceType::Museum, "District 12");
    let d = place("Niavaran Palace", PlaceType::Historical, "District 12");
    assert_eq!(a, b);
    assert_ne!(a, c);
    assert_ne!(a, d);
}

#[test]
fn default_state() {
    let s = State::default();
    assert_eq!(s.prompt_text, "");
    assert_eq!(s.sessions.len(), 0);
    assert!(s.is_sidebar_visible);
    assert!(!s.answering);
}

#[test]
fn chunks_of_even_text() {
    let chunks = split_text_into_chunks("abcdef", 2);
    assert_eq!(chunks, vec!["ab".to_string(), "cd".to_string(), "ef".to_string()]);
}

#[test]
fn chunks_with_short_tail() {
    let chunks = split_text_into_chunks("abcde", 2);
    assert_eq!(chunks, vec!["ab".to_string(), "cd".to_string(), "e".to_string()]);
}

#[test]
fn chunks_of_empty_text() {
    let chunks = split_text_into_chunks("", 3);
    assert_eq!(chunks.len(), 0);
}

#[test]
fn chunks_count_characters_not_bytes() {
    let chunks = split_text_into_chunks("موزه", 3);
    assert_eq!(chunks, vec!["موز".to_string(), "ه".to_string()]);
}

#[test]
fn context_grows_until_bound() {
    let history: VecDeque<String> = VecDeque::new();
    let history = maintain_conversational_context("one".to_string(), history, 2);
    let history = maintain_conversational_context("two".to_string(), history, 2);
    assert_eq!(history, VecDeque::from(vec!["one".to_string(), "two".to_string()]));
}

#[test]
fn context_drops_oldest_at_bound() {
    let history = VecDeque::from(vec!["one".to_string(), "two".to_string()]);
    let history = maintain_conversational_context("three".to_string(), history, 2);
    assert_eq!(history, VecDeque::from(vec!["two".to_string(), "three".to_string()]));
}
