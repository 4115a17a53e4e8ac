//! The itinerary pipeline: candidate filtering per requested category,
//! combination generation, ranking, and suggestion building.
//!
//! Coverage policy: a requested category with no matching candidate is
//! dropped from the itinerary (partial coverage); only when no category
//! survives does the pipeline report [`SuggestError::NoValidItinerary`].
//! The whole pipeline is a function of the catalog and the query
//! interpretation alone, so its outcome is deterministic.

use vstd::prelude::*;

use crate::combine::{
    cartesian, combinations, lemma_cartesian_members, lemma_combination_count, lemma_product_pos,
    product_of, MAX_COMBINATIONS,
};
use crate::model::{Place, PlaceInfoView, PlaceView, PromptAnalyses, SuggestError};
use crate::rank::{
    best_index, catalog_wf, combo_wf, dedup, dedup_spec, lemma_dedup_correct, select_best,
    MAX_STOPS,
};
use crate::scoring::{
    candidates, catalog_bounded, filter_and_score_entries, lemma_filter_correct, ScoredEntry,
};
use crate::suggestion::{Suggestion, SuggestionView};

verus! {

/// The candidate lists of the first `n` requested entries that have any
/// candidate at all, in request order.
pub open spec fn surviving_upto(catalog: Seq<PlaceView>, infos: Seq<PlaceInfoView>, n: int) -> Seq<
    Seq<ScoredEntry>,
>
    decreases n,
{
    if n <= 0 {
        Seq::empty()
    } else {
        let rest = surviving_upto(catalog, infos, n - 1);
        if candidates(catalog, infos[n - 1]).len() > 0 {
            rest.push(candidates(catalog, infos[n - 1]))
        } else {
            rest
        }
    }
}

/// The candidate lists of the requested entries that survive filtering
/// (have at least one candidate), in request order.
pub open spec fn surviving_lists(catalog: Seq<PlaceView>, infos: Seq<PlaceInfoView>) -> Seq<
    Seq<ScoredEntry>,
> {
    surviving_upto(catalog, infos, infos.len() as int)
}

/// Every surviving candidate list is non-empty.
pub proof fn lemma_surviving_nonempty(catalog: Seq<PlaceView>, infos: Seq<PlaceInfoView>, n: int)
    ensures
        forall|j: int|
            0 <= j < surviving_upto(catalog, infos, n).len() ==> (#[trigger] surviving_upto(
                catalog,
                infos,
                n,
            )[j]).len() > 0,
    decreases n,
{
    if n > 0 {
        lemma_surviving_nonempty(catalog, infos, n - 1);
        let rest = surviving_upto(catalog, infos, n - 1);
        let cur = surviving_upto(catalog, infos, n);
        assert forall|j: int| 0 <= j < cur.len() implies (#[trigger] cur[j]).len() > 0 by {
            if j < rest.len() {
                assert(cur[j] == rest[j]);
            } else {
                assert(cur[j] == candidates(catalog, infos[n - 1]));
            }
        }
    }
}

/// The suggestions assembled from the surviving candidate lists and the
/// winning combination: per surviving category, all its candidates and
/// the winner's pick for it.
pub open spec fn build_suggestions(
    catalog: Seq<PlaceView>,
    lists: Seq<Seq<ScoredEntry>>,
    winner: Seq<ScoredEntry>,
) -> Seq<SuggestionView> {
    Seq::new(
        lists.len(),
        |j: int|
            SuggestionView {
                places: Seq::new(lists[j].len(), |q: int| catalog[lists[j][q].idx as int]),
                selected_place: catalog[winner[j].idx as int],
            },
    )
}

/// The whole pipeline as a mathematical function of the catalog and the
/// query interpretation: filter and score per requested category, drop
/// empty categories, enumerate and deduplicate the combinations, pick the
/// best-ranked one, and package the result; or the error that applies.
pub open spec fn spec_suggest(catalog: Seq<PlaceView>, infos: Seq<PlaceInfoView>) -> Result<
    Seq<SuggestionView>,
    SuggestError,
> {
    let lists = surviving_lists(catalog, infos);
    if lists.len() == 0 {
        Err(SuggestError::NoValidItinerary)
    } else if lists.len() > MAX_STOPS {
        Err(SuggestError::CombinationSpaceTooLarge)
    } else if product_of(lists) > MAX_COMBINATIONS {
        Err(SuggestError::CombinationSpaceTooLarge)
    } else {
        let kept = dedup_spec(catalog, cartesian(lists));
        let winner = kept[best_index(catalog, kept)];
        Ok(build_suggestions(catalog, lists, winner))
    }
}

/// Determinism: the outcome of the pipeline is fully determined by the
/// catalog and the query interpretation, so two runs on identical inputs
/// agree exactly — on the winning itinerary and on the order of every
/// suggestion's candidates.
pub proof fn lemma_suggest_deterministic(
    catalog: Seq<PlaceView>,
    infos: Seq<PlaceInfoView>,
    r1: Result<Seq<SuggestionView>, SuggestError>,
    r2: Result<Seq<SuggestionView>, SuggestError>,
)
    requires
        r1 == spec_suggest(catalog, infos),
        r2 == spec_suggest(catalog, infos),
    ensures
        r1 == r2,
{
}

/// Package one suggestion per surviving category: all the category's
/// candidates, with the winning combination's pick for it selected.
fn build_output(
    all_places: &Vec<Place>,
    lists: &Vec<Vec<ScoredEntry>>,
    winning: &Vec<ScoredEntry>,
) -> (out: Vec<Suggestion>)
    requires
        winning@.len() == lists.deep_view().len(),
        forall|j2: int|
            0 <= j2 < lists.deep_view().len() ==> combo_wf(
                all_places.deep_view(),
                #[trigger] lists.deep_view()[j2],
            ),
        combo_wf(all_places.deep_view(), winning@),
    ensures
        out.deep_view() =~~= build_suggestions(
            all_places.deep_view(),
            lists.deep_view(),
            winning@,
        ),
{
    let ghost cv = all_places.deep_view();
    let ghost lv = lists.deep_view();
    let ghost winner = winning@;
    let mut out: Vec<Suggestion> = Vec::new();
    let mut j: usize = 0;
    while j < lists.len()
        invariant
            j <= lists.len(),
            cv == all_places.deep_view(),
            lv == lists.deep_view(),
            winner == winning@,
            winner.len() == lv.len(),
            forall|j2: int| 0 <= j2 < lv.len() ==> combo_wf(cv, #[trigger] lv[j2]),
            combo_wf(cv, winner),
            out.deep_view() =~~= build_suggestions(cv, lv, winner).subrange(0, j as int),
        decreases lists.len() - j,
    {
        let slot = &lists[j];
        assert(slot@ == lv[j as int]);
        let mut places: Vec<Place> = Vec::new();
        let mut q: usize = 0;
        while q < slot.len()
            invariant
                q <= slot.len(),
                cv == all_places.deep_view(),
                slot@ == lv[j as int],
                j < lv.len(),
                forall|j2: int| 0 <= j2 < lv.len() ==> combo_wf(cv, #[trigger] lv[j2]),
                places.deep_view() =~= Seq::new(
                    lv[j as int].len(),
                    |q2: int| cv[lv[j as int][q2].idx as int],
                ).subrange(0, q as int),
            decreases slot.len() - q,
        {
            let e = slot[q];
            proof {
                assert(lv[j as int][q as int].idx < cv.len());
            }
            let ghost old_places = places.deep_view();
            places.push(all_places[e.idx].clone());
            proof {
                assert(places.deep_view() =~= old_places.push(
                    cv[lv[j as int][q as int].idx as int],
                ));
                let full = Seq::new(lv[j as int].len(), |q2: int| cv[lv[j as int][q2].idx as int]);
                assert(full.subrange(0, (q + 1) as int) =~= full.subrange(0, q as int).push(
                    full[q as int],
                ));
            }
            q = q + 1;
        }
        proof {
            let full = Seq::new(lv[j as int].len(), |q2: int| cv[lv[j as int][q2].idx as int]);
            assert(places.deep_view() =~= full.subrange(0, full.len() as int));
            assert(places.deep_view() =~= full);
        }
        let we = winning[j];
        proof {
            assert(we == winner[j as int]);
            assert(winner[j as int].idx < cv.len());
        }
        let selected = all_places[we.idx].clone();
        let ghost old_out = out.deep_view();
        out.push(Suggestion { places, selected_place: selected });
        proof {
            let built = build_suggestions(cv, lv, winner);
            assert(out.deep_view() =~~= old_out.push(
                SuggestionView {
                    places: Seq::new(
                        lv[j as int].len(),
                        |q2: int| cv[lv[j as int][q2].idx as int],
                    ),
                    selected_place: cv[winner[j as int].idx as int],
                },
            ));
            assert(built.subrange(0, (j + 1) as int) =~= built.subrange(0, j as int).push(
                built[j as int],
            ));
            assert(out.deep_view()[out.deep_view().len() - 1] =~~= built[j as int]);
        }
        j = j + 1;
    }
    proof {
        let built = build_suggestions(cv, lv, winner);
        assert(out.deep_view() =~~= built.subrange(0, built.len() as int));
        assert(out.deep_view() =~~= built);
    }
    out
}

/// Compute the itinerary suggestions for a query interpretation over the
/// flat catalog: the result is exactly [`spec_suggest`] of the inputs.
#[verifier::rlimit(60)]
pub fn suggest(all_places: &Vec<Place>, analyses: &PromptAnalyses) -> (r: Result<
    Vec<Suggestion>,
    SuggestError,
>)
    requires
        catalog_wf(all_places.deep_view()),
    ensures
        ({
            let s = spec_suggest(all_places.deep_view(), analyses.infos());
            match r {
                Ok(sugs) => s == Ok::<Seq<SuggestionView>, SuggestError>(sugs.deep_view()),
                Err(e) => s == Err::<Seq<SuggestionView>, SuggestError>(e),
            }
        }),
{
    let ghost cv = all_places.deep_view();
    let ghost iv = analyses.infos();
    proof {
        assert forall|i: int| 0 <= i < cv.len() implies (#[trigger] cv[i]).tags.len()
            <= usize::MAX by {
            assert(cv[i].tags == all_places@[i].tags.deep_view());
            assert(all_places@[i].tags.len() == all_places@[i].tags@.len());
        }
        assert(all_places.len() == all_places@.len());
        assert(cv.len() <= usize::MAX);
        assert(catalog_bounded(cv));
    }
    // Filter and score each requested category; drop the empty ones.
    let mut lists: Vec<Vec<ScoredEntry>> = Vec::new();
    let mut i: usize = 0;
    while i < analyses.place_infos.len()
        invariant
            i <= analyses.place_infos.len(),
            cv == all_places.deep_view(),
            iv == analyses.infos(),
            catalog_bounded(cv),
            catalog_wf(cv),
            lists.deep_view() =~~= surviving_upto(cv, iv, i as int),
            forall|j: int|
                0 <= j < lists.deep_view().len() ==> combo_wf(cv, #[trigger] lists.deep_view()[j]),
        decreases analyses.place_infos.len() - i,
    {
        proof {
            assert(analyses.place_infos@[i as int]@ == iv[i as int]);
        }
        let cand = filter_and_score_entries(all_places, &analyses.place_infos[i]);
        proof {
            lemma_filter_correct(cv, iv[i as int]);
        }
        if cand.len() > 0 {
            let ghost old_lists = lists.deep_view();
            lists.push(cand);
            proof {
                assert(lists.deep_view() =~~= old_lists.push(candidates(cv, iv[i as int])));
            }
        }
        i = i + 1;
    }
    proof {
        assert(iv.len() == analyses.place_infos.len());
    }
    let ghost lv = surviving_lists(cv, iv);
    assert(lists.deep_view() == lv);
    if lists.len() == 0 {
        return Err(SuggestError::NoValidItinerary);
    }
    if lists.len() > MAX_STOPS {
        return Err(SuggestError::CombinationSpaceTooLarge);
    }
    // Enumerate the combination space, guarded by the size ceiling.
    let combos = match combinations(&lists) {
        Ok(cs) => cs,
        Err(e) => {
            return Err(e);
        },
    };
    let ghost cd = combos.deep_view();
    proof {
        assert(cd == cartesian(lv));
        lemma_surviving_nonempty(cv, iv, iv.len() as int);
        lemma_product_pos(lv);
        lemma_combination_count(lv);
        lemma_cartesian_members(lv);
        assert(cd.len() > 0);
        assert forall|m: int| 0 <= m < cd.len() implies combo_wf(cv, #[trigger] cd[m]) by {
            let c = cd[m];
            assert(c.len() == lv.len());
            assert forall|j: int| 0 <= j < c.len() implies (#[trigger] c[j]).idx < cv.len() by {
                assert(lv[j].contains(c[j]));
                let q = choose|q: int| 0 <= q < lv[j].len() && lv[j][q] == c[j];
                assert(combo_wf(cv, lv[j]));
            }
        }
    }
    // Collapse combinations that resolve to the same multiset of places.
    let kept = dedup(all_places, &combos);
    let ghost kd = kept.deep_view();
    proof {
        lemma_dedup_correct(cv, cd);
        assert(kd == dedup_spec(cv, cd));
        assert(kd.len() > 0);
        assert forall|m: int| 0 <= m < kd.len() implies combo_wf(cv, #[trigger] kd[m]) && (
        #[trigger] kd[m]).len() <= MAX_STOPS by {
            assert(cd.contains(dedup_spec(cv, cd)[m]));
            let j = choose|j: int| 0 <= j < cd.len() && cd[j] == kd[m];
            assert(cd[j].len() == lv.len());
        }
    }
    // Deterministically select the best-ranked combination.
    let b = select_best(all_places, &kept);
    proof {
        crate::rank::lemma_best_minimal(cv, kd);
    }
    let ghost winner = kd[b as int];
    proof {
        assert(cd.contains(dedup_spec(cv, cd)[b as int]));
        assert(winner.len() == lv.len());
        assert forall|j2: int| 0 <= j2 < lv.len() implies lv[j2].contains(
            #[trigger] winner[j2],
        ) by {
            let j = choose|j: int| 0 <= j < cd.len() && cd[j] == winner;
            assert(cartesian(lv)[j] == winner);
        }
    }
    // Package one suggestion per surviving category.
    let winning = &kept[b];
    assert(winning@ == winner);
    let out = build_output(all_places, &lists, winning);
    proof {
        assert(out.deep_view() == build_suggestions(cv, lv, winner));
        assert(spec_suggest(cv, iv) == Ok::<Seq<SuggestionView>, SuggestError>(
            build_suggestions(cv, lv, winner),
        ));
    }
    Ok(out)
}

/// Every suggestion the pipeline returns is well-formed: its candidate
/// list is non-empty, and the selected place is literally one of its
/// candidates.
pub proof fn lemma_suggest_wf(catalog: Seq<PlaceView>, infos: Seq<PlaceInfoView>)
    ensures
        match spec_suggest(catalog, infos) {
            Ok(sv) => forall|j: int|
                0 <= j < sv.len() ==> (#[trigger] sv[j]).wf() && exists|q: int|
                    0 <= q < sv[j].places.len() && sv[j].selected_place == sv[j].places[q],
            Err(_) => true,
        },
{
    let lists = surviving_lists(catalog, infos);
    if spec_suggest(catalog, infos) is Ok {
        let kept = dedup_spec(catalog, cartesian(lists));
        let winner = kept[best_index(catalog, kept)];
        let sv = build_suggestions(catalog, lists, winner);
        lemma_surviving_nonempty(catalog, infos, infos.len() as int);
        lemma_product_pos(lists);
        lemma_combination_count(lists);
        lemma_cartesian_members(lists);
        lemma_dedup_correct(catalog, cartesian(lists));
        crate::rank::lemma_best_minimal(catalog, kept);
        assert(cartesian(lists).contains(
            dedup_spec(catalog, cartesian(lists))[best_index(catalog, kept)],
        ));
        let m = choose|m: int| 0 <= m < cartesian(lists).len() && cartesian(lists)[m] == winner;
        assert(winner.len() == lists.len());
        assert forall|j: int| 0 <= j < sv.len() implies (#[trigger] sv[j]).wf() && exists|q: int|
            0 <= q < sv[j].places.len() && sv[j].selected_place == sv[j].places[q] by {
            assert(lists[j].contains(winner[j]));
            let q = choose|q: int| 0 <= q < lists[j].len() && lists[j][q] == winner[j];
            assert(sv[j].places[q] == catalog[lists[j][q].idx as int]);
            assert(sv[j].selected_place == catalog[winner[j].idx as int]);
            assert(sv[j].places.len() == lists[j].len());
            assert(crate::model::place_identity_eq(sv[j].places[q], sv[j].selected_place));
        }
    }
}

} // verus!

