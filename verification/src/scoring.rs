//! Candidate filtering and relevance scoring.
//!
//! For one requested entry of a query interpretation, the candidates are
//! all places of the requested category whose tag set shares at least one
//! tag with the requested tags; each candidate is annotated with its
//! relevance score, the number of its tags that occur in the requested
//! tag set.

use vstd::prelude::*;

use crate::model::{Place, PlaceInfo, PlaceInfoView, PlaceScoring, PlaceView};

verus! {

/// Whether the tag `t` occurs in the tag list `tags`.
pub open spec fn has_tag(tags: Seq<Seq<char>>, t: Seq<char>) -> bool {
    exists|i: int| 0 <= i < tags.len() && tags[i] == t
}

/// Relevance score: how many entries of `ptags` (a place's tag list)
/// occur in `qtags` (the requested tags).
pub open spec fn tag_overlap(ptags: Seq<Seq<char>>, qtags: Seq<Seq<char>>) -> nat
    decreases ptags.len(),
{
    if ptags.len() == 0 {
        0
    } else {
        tag_overlap(ptags.drop_last(), qtags) + if has_tag(qtags, ptags.last()) {
            1nat
        } else {
            0nat
        }
    }
}

/// The score never exceeds the number of the place's tags.
pub proof fn lemma_overlap_le_len(ptags: Seq<Seq<char>>, qtags: Seq<Seq<char>>)
    ensures
        tag_overlap(ptags, qtags) <= ptags.len(),
    decreases ptags.len(),
{
    if ptags.len() > 0 {
        lemma_overlap_le_len(ptags.drop_last(), qtags);
    }
}

/// Decide whether the tag `t` occurs in `tags`.
pub fn contains_tag(tags: &Vec<String>, t: &String) -> (r: bool)
    ensures
        r == has_tag(tags.deep_view(), t@),
{
    let mut j: usize = 0;
    while j < tags.len()
        invariant
            j <= tags.len(),
            forall|m: int| 0 <= m < j ==> tags.deep_view()[m] != t@,
        decreases tags.len() - j,
    {
        if tags[j] == *t {
            assert(tags.deep_view()[j as int] == t@);
            return true;
        }
        j = j + 1;
    }
    false
}

/// Compute the relevance score of `place` against the requested `tags`:
/// the number of the place's tags that occur in `tags`.
pub fn score(place: &Place, tags: &Vec<String>) -> (r: usize)
    ensures
        r == tag_overlap(place@.tags, tags.deep_view()),
{
    let mut r: usize = 0;
    let mut i: usize = 0;
    while i < place.tags.len()
        invariant
            i <= place.tags.len(),
            r == tag_overlap(place@.tags.subrange(0, i as int), tags.deep_view()),
            r <= i,
        decreases place.tags.len() - i,
    {
        let ghost pre = place@.tags.subrange(0, i as int);
        if contains_tag(tags, &place.tags[i]) {
            r = r + 1;
        }
        proof {
            assert(place@.tags.subrange(0, (i + 1) as int).drop_last() =~= pre);
            assert(place@.tags.subrange(0, (i + 1) as int).last() == place@.tags[i as int]);
        }
        i = i + 1;
    }
    assert(place@.tags.subrange(0, place.tags.len() as int) =~= place@.tags);
    r
}

/// The score of a place against a requested tag set is the cardinality of
/// the intersection of the two tag sets, provided the place lists each of
/// its tags once.
pub proof fn lemma_score_is_intersection_size(ptags: Seq<Seq<char>>, qtags: Seq<Seq<char>>)
    requires
        ptags.no_duplicates(),
    ensures
        tag_overlap(ptags, qtags) == ptags.to_set().intersect(qtags.to_set()).len(),
    decreases ptags.len(),
{
    broadcast use vstd::set::group_set_axioms, vstd::seq_lib::seq_to_set_is_finite;

    if ptags.len() == 0 {
        assert(ptags.to_set().intersect(qtags.to_set()) =~= Set::empty());
    } else {
        let rest = ptags.drop_last();
        let t = ptags.last();
        assert(rest.no_duplicates());
        lemma_score_is_intersection_size(rest, qtags);
        assert(!rest.contains(t));
        assert(!rest.to_set().contains(t));
        assert(ptags.to_set() =~= rest.to_set().insert(t)) by {
            broadcast use vstd::seq_lib::lemma_seq_contains_after_push;

            assert(rest.push(t) =~= ptags);
        }
        rest.lemma_cardinality_of_set();
        if has_tag(qtags, t) {
            assert(qtags.to_set().contains(t));
            assert(ptags.to_set().intersect(qtags.to_set()) =~= rest.to_set().intersect(
                qtags.to_set(),
            ).insert(t));
            assert(!rest.to_set().intersect(qtags.to_set()).contains(t));
        } else {
            assert(!qtags.to_set().contains(t)) by {
                if qtags.to_set().contains(t) {
                    assert(qtags.contains(t));
                    assert(has_tag(qtags, t));
                }
            }
            assert(ptags.to_set().intersect(qtags.to_set()) =~= rest.to_set().intersect(
                qtags.to_set(),
            ));
        }
    }
}

/// One candidate for a category slot: the index of the place in the flat
/// catalog, with its relevance score.
#[derive(Clone, Copy, PartialEq, Eq, Structural, Debug)]
pub struct ScoredEntry {
    pub idx: usize,
    pub score: usize,
}

impl DeepView for ScoredEntry {
    type V = ScoredEntry;

    open spec fn deep_view(&self) -> ScoredEntry {
        *self
    }
}

/// Whether `p` qualifies as a candidate for the requested entry `info`:
/// same category, and at least one shared tag.
pub open spec fn place_matches(p: PlaceView, info: PlaceInfoView) -> bool {
    p.place_type == info.place_type && tag_overlap(p.tags, info.tags) > 0
}

/// The candidate list drawn from the first `n` places of the catalog, in
/// catalog order.
pub open spec fn candidates_upto(catalog: Seq<PlaceView>, info: PlaceInfoView, n: int) -> Seq<
    ScoredEntry,
>
    decreases n,
{
    if n <= 0 {
        Seq::empty()
    } else {
        let rest = candidates_upto(catalog, info, n - 1);
        if place_matches(catalog[n - 1], info) {
            rest.push(
                ScoredEntry {
                    idx: (n - 1) as usize,
                    score: tag_overlap(catalog[n - 1].tags, info.tags) as usize,
                },
            )
        } else {
            rest
        }
    }
}

/// The full candidate list of `info` over `catalog`, in catalog order.
pub open spec fn candidates(catalog: Seq<PlaceView>, info: PlaceInfoView) -> Seq<ScoredEntry> {
    candidates_upto(catalog, info, catalog.len() as int)
}

/// Filter the catalog to the candidates of one requested entry and score
/// each of them.
pub fn filter_and_score_entries(all: &Vec<Place>, info: &PlaceInfo) -> (r: Vec<ScoredEntry>)
    ensures
        r@ == candidates(all.deep_view(), info@),
{
    let mut r: Vec<ScoredEntry> = Vec::new();
    let mut i: usize = 0;
    while i < all.len()
        invariant
            i <= all.len(),
            r@ =~= candidates_upto(all.deep_view(), info@, i as int),
        decreases all.len() - i,
    {
        let s = score(&all[i], &info.tags);
        if s > 0 && matches_type(&all[i], info) {
            r.push(ScoredEntry { idx: i, score: s });
        }
        i = i + 1;
    }
    assert(r@ =~= candidates(all.deep_view(), info@));
    r
}

/// Whether the place's category equals the requested category.
fn matches_type(place: &Place, info: &PlaceInfo) -> (r: bool)
    ensures
        r == (place@.place_type == info@.place_type),
{
    place.place_type == info.place_type
}

/// Filter the catalog to the candidates of one requested entry and return
/// each as a place together with its relevance score, in catalog order.
pub fn filter_and_score(all: &Vec<Place>, info: &PlaceInfo) -> (r: Vec<PlaceScoring>)
    ensures
        r.deep_view().len() == candidates(all.deep_view(), info@).len(),
        forall|k: int|
            0 <= k < r.deep_view().len() ==> {
                let e = candidates(all.deep_view(), info@)[k];
                #[trigger] r.deep_view()[k] == (crate::model::PlaceScoringView {
                    place: all.deep_view()[e.idx as int],
                    score: e.score as nat,
                })
            },
{
    let ghost cv = all.deep_view();
    proof {
        assert forall|i: int| 0 <= i < cv.len() implies (#[trigger] cv[i]).tags.len()
            <= usize::MAX by {
            assert(cv[i].tags == all@[i].tags.deep_view());
            assert(all@[i].tags.len() == all@[i].tags@.len());
        }
        assert(all.len() == all@.len());
        assert(catalog_bounded(cv));
        lemma_filter_correct(cv, info@);
    }
    let entries = filter_and_score_entries(all, info);
    let ghost ev = candidates(cv, info@);
    let mut r: Vec<PlaceScoring> = Vec::new();
    let mut k: usize = 0;
    while k < entries.len()
        invariant
            k <= entries.len(),
            cv == all.deep_view(),
            entries@ == ev,
            ev == candidates(cv, info@),
            forall|m: int| 0 <= m < ev.len() ==> (#[trigger] ev[m]).idx < cv.len(),
            r.deep_view().len() == k,
            forall|m: int|
                0 <= m < k ==> {
                    let e = ev[m];
                    #[trigger] r.deep_view()[m] == (crate::model::PlaceScoringView {
                        place: cv[e.idx as int],
                        score: e.score as nat,
                    })
                },
        decreases entries.len() - k,
    {
        let e = entries[k];
        let ghost old_r = r.deep_view();
        r.push(PlaceScoring { place: all[e.idx].clone(), score: e.score });
        proof {
            assert(r.deep_view() =~= old_r.push(
                crate::model::PlaceScoringView { place: cv[e.idx as int], score: e.score as nat },
            ));
        }
        k = k + 1;
    }
    r
}

/// A catalog whose tag lists could come from actual memory: no place has
/// more tags than fit in a machine word. Views of real catalogs always
/// satisfy this.
pub open spec fn catalog_bounded(catalog: Seq<PlaceView>) -> bool {
    &&& catalog.len() <= usize::MAX
    &&& forall|i: int| 0 <= i < catalog.len() ==> (#[trigger] catalog[i]).tags.len() <= usize::MAX
}

/// Filter correctness: the candidate list of a requested entry contains
/// exactly the places of the requested category with at least one shared
/// tag — every candidate is such a place, carries that place's exact
/// score, and appears in catalog order; and every such place appears.
pub proof fn lemma_filter_correct(catalog: Seq<PlaceView>, info: PlaceInfoView)
    requires
        catalog_bounded(catalog),
    ensures
        forall|k: int|
            0 <= k < candidates(catalog, info).len() ==> {
                let e = #[trigger] candidates(catalog, info)[k];
                &&& e.idx < catalog.len()
                &&& place_matches(catalog[e.idx as int], info)
                &&& e.score == tag_overlap(catalog[e.idx as int].tags, info.tags)
            },
        forall|i: int|
            0 <= i < catalog.len() && place_matches(#[trigger] catalog[i], info) ==> exists|k: int|
                0 <= k < candidates(catalog, info).len() && candidates(catalog, info)[k].idx == i,
        forall|k1: int, k2: int|
            0 <= k1 < k2 < candidates(catalog, info).len() ==> #[trigger] candidates(
                catalog,
                info,
            )[k1].idx < #[trigger] candidates(catalog, info)[k2].idx,
{
    lemma_candidates_upto_correct(catalog, info, catalog.len() as int);
}

proof fn lemma_candidates_upto_correct(catalog: Seq<PlaceView>, info: PlaceInfoView, n: int)
    requires
        n <= catalog.len(),
        catalog_bounded(catalog),
    ensures
        forall|k: int|
            0 <= k < candidates_upto(catalog, info, n).len() ==> {
                let e = #[trigger] candidates_upto(catalog, info, n)[k];
                &&& e.idx < n
                &&& place_matches(catalog[e.idx as int], info)
                &&& e.score == tag_overlap(catalog[e.idx as int].tags, info.tags)
            },
        forall|i: int|
            0 <= i < n && place_matches(#[trigger] catalog[i], info) ==> exists|k: int|
                0 <= k < candidates_upto(catalog, info, n).len() && candidates_upto(
                    catalog,
                    info,
                    n,
                )[k].idx == i,
        forall|k1: int, k2: int|
            0 <= k1 < k2 < candidates_upto(catalog, info, n).len() ==> #[trigger] candidates_upto(
                catalog,
                info,
                n,
            )[k1].idx < #[trigger] candidates_upto(catalog, info, n)[k2].idx,
    decreases n,
{
    if n > 0 {
        lemma_candidates_upto_correct(catalog, info, n - 1);
        let prev = candidates_upto(catalog, info, n - 1);
        let cur = candidates_upto(catalog, info, n);
        if place_matches(catalog[n - 1], info) {
            assert(cur == prev.push(
                ScoredEntry {
                    idx: (n - 1) as usize,
                    score: tag_overlap(catalog[n - 1].tags, info.tags) as usize,
                },
            ));
            assert(tag_overlap(catalog[n - 1].tags, info.tags) <= usize::MAX) by {
                lemma_overlap_le_len(catalog[n - 1].tags, info.tags);
            }
            assert(forall|i: int|
                0 <= i < n && place_matches(#[trigger] catalog[i], info) ==> exists|k: int|
                    0 <= k < cur.len() && cur[k].idx == i) by {
                assert(forall|i: int|
                    0 <= i < n - 1 && place_matches(#[trigger] catalog[i], info) ==> exists|k: int|
                        0 <= k < cur.len() && cur[k].idx == i) by {
                    assert(forall|k: int| 0 <= k < prev.len() ==> cur[k] == prev[k]);
                }
                assert(cur[cur.len() - 1].idx == n - 1);
            }
        }
    }
}

} // verus!
