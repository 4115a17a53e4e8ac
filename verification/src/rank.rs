//! Itinerary ranking: cost of a combination, deduplication of
//! combinations that resolve to the same multiset of places, and the
//! deterministic selection of the best-ranked combination.
//!
//! The ranking policy combines route compactness and tag relevance. For a
//! combination of `k` stops with total closed-loop route distance `R` and
//! score sum `S`, the real-valued cost of the ranking policy is
//! `w_d * (R / D) - w_r * ((S / k) / s)` with distance weight `w_d`,
//! relevance weight `w_r`, distance normalization `D` and relevance
//! normalization `s`; lower cost is better. All combinations compared in
//! one run have the same number of stops, so multiplying by the positive
//! constant `D * s * k` turns the cost into the exact integer key
//! `w_d * s * k * R - w_r * D * S`, compared without any rounding. The
//! sign convention is the invariant: more relevance lowers the key, more
//! distance raises it; the weights themselves are policy constants.

use vstd::prelude::*;

use crate::distance::{distance, spec_distance, MAX_LEG};
use crate::model::{Place, PlaceType, PlaceView};
use crate::scoring::ScoredEntry;
use crate::suggestion::lemma_mod_wrap;

verus! {

/// Weight of route compactness in the combined cost.
pub const DISTANCE_WEIGHT: u64 = 1;

/// Weight of tag relevance in the combined cost; relevance is favored.
pub const RELEVANCE_WEIGHT: u64 = 9;

/// Relevance normalization divisor: roughly how many overlapping tags are
/// expected to matter.
pub const RELEVANCE_NORM: u64 = 3;

/// Distance normalization divisor, in microdegree units (roughly a 20 km
/// city tour), bringing distance onto a scale comparable to relevance.
pub const DISTANCE_NORM: u64 = 180_000;

/// Hard ceiling on the number of stops (surviving categories) of one
/// request; keeps all ranking arithmetic far away from overflow.
pub const MAX_STOPS: usize = 24;

/// Every place of the catalog has a coordinate on the globe.
pub open spec fn catalog_wf(catalog: Seq<PlaceView>) -> bool {
    forall|i: int| 0 <= i < catalog.len() ==> (#[trigger] catalog[i]).wf()
}

/// Every entry of the combination points into the catalog.
pub open spec fn combo_wf(catalog: Seq<PlaceView>, combo: Seq<ScoredEntry>) -> bool {
    forall|j: int| 0 <= j < combo.len() ==> (#[trigger] combo[j]).idx < catalog.len()
}

/// The `j`-th leg of the closed tour: from stop `j` to the following stop,
/// wrapping from the last stop back to the first.
pub open spec fn leg(catalog: Seq<PlaceView>, combo: Seq<ScoredEntry>, j: int) -> int {
    spec_distance(
        catalog[combo[j].idx as int].location,
        catalog[combo[(j + 1) % (combo.len() as int)].idx as int].location,
    )
}

/// Sum of the first `n` legs.
pub open spec fn route_dist_upto(catalog: Seq<PlaceView>, combo: Seq<ScoredEntry>, n: int) -> int
    decreases n,
{
    if n <= 0 {
        0
    } else {
        route_dist_upto(catalog, combo, n - 1) + leg(catalog, combo, n - 1)
    }
}

/// Closed-loop route distance of the combination: the sum of the distances
/// between consecutive stops, including the leg from the last stop back to
/// the first.
pub open spec fn route_distance(catalog: Seq<PlaceView>, combo: Seq<ScoredEntry>) -> int {
    route_dist_upto(catalog, combo, combo.len() as int)
}

/// Sum of the relevance scores of the combination's stops.
pub open spec fn score_sum(combo: Seq<ScoredEntry>) -> int
    decreases combo.len(),
{
    if combo.len() == 0 {
        0
    } else {
        score_sum(combo.drop_last()) + combo.last().score
    }
}

/// The integer ranking key of a combination; lower is better. See the
/// module documentation for its derivation from the real-valued cost.
pub open spec fn cost_key(catalog: Seq<PlaceView>, combo: Seq<ScoredEntry>) -> int {
    DISTANCE_WEIGHT * RELEVANCE_NORM * combo.len() * route_distance(catalog, combo)
        - RELEVANCE_WEIGHT * DISTANCE_NORM * score_sum(combo)
}

/// Each leg is a distance, hence non-negative and at most [`MAX_LEG`]; the
/// route of `n` stops is bounded by `n * MAX_LEG`.
proof fn lemma_route_dist_bounds(catalog: Seq<PlaceView>, combo: Seq<ScoredEntry>, n: int)
    requires
        catalog_wf(catalog),
        combo_wf(catalog, combo),
        0 <= n <= combo.len(),
    ensures
        0 <= route_dist_upto(catalog, combo, n) <= n * MAX_LEG,
    decreases n,
{
    if n > 0 {
        lemma_route_dist_bounds(catalog, combo, n - 1);
        crate::suggestion::lemma_mod_range(n, combo.len() as int);
        lemma_leg_bounds(catalog, combo, n - 1);
        assert((n - 1) * MAX_LEG + MAX_LEG == n * MAX_LEG) by (nonlinear_arith);
    } else {
        assert(n * MAX_LEG == 0) by (nonlinear_arith)
            requires
                n == 0,
        ;
    }
}

/// One leg lies between `0` and [`MAX_LEG`].
proof fn lemma_leg_bounds(catalog: Seq<PlaceView>, combo: Seq<ScoredEntry>, j: int)
    requires
        catalog_wf(catalog),
        combo_wf(catalog, combo),
        0 <= j < combo.len(),
    ensures
        0 <= leg(catalog, combo, j) <= MAX_LEG,
{
    crate::suggestion::lemma_mod_range(j + 1, combo.len() as int);
    let a = catalog[combo[j].idx as int].location;
    let b = catalog[combo[(j + 1) % (combo.len() as int)].idx as int].location;
    crate::distance::lemma_distance_bounds(a, b);
}

/// The score sum of `n` stops, each of which fits a machine word, is
/// non-negative and at most `n` machine words.
proof fn lemma_score_sum_bounds(combo: Seq<ScoredEntry>)
    ensures
        0 <= score_sum(combo) <= combo.len() * (usize::MAX as int),
    decreases combo.len(),
{
    if combo.len() > 0 {
        lemma_score_sum_bounds(combo.drop_last());
        assert((combo.len() - 1) * (usize::MAX as int) + (usize::MAX as int) == combo.len() * (
        usize::MAX as int)) by (nonlinear_arith);
    } else {
        assert(combo.len() * (usize::MAX as int) == 0) by (nonlinear_arith)
            requires
                combo.len() == 0,
        ;
    }
}

/// Compute the ranking key of one combination.
pub fn compute_cost_key(catalog: &Vec<Place>, combo: &Vec<ScoredEntry>) -> (r: i128)
    requires
        catalog_wf(catalog.deep_view()),
        combo_wf(catalog.deep_view(), combo@),
        combo.len() <= MAX_STOPS,
    ensures
        r as int == cost_key(catalog.deep_view(), combo@),
{
    let ghost cv = catalog.deep_view();
    let n = combo.len();
    let mut dist_total: u64 = 0;
    let mut j: usize = 0;
    while j < n
        invariant
            j <= n,
            n == combo.len(),
            cv == catalog.deep_view(),
            catalog_wf(cv),
            combo_wf(cv, combo@),
            n <= MAX_STOPS,
            dist_total == route_dist_upto(cv, combo@, j as int),
            dist_total <= (j as int) * MAX_LEG,
        decreases n - j,
    {
        let jn: usize = if j + 1 == n {
            0
        } else {
            j + 1
        };
        proof {
            lemma_mod_wrap((j + 1) as int, n as int);
            assert(combo@[j as int].idx < catalog.len());
            assert(combo@[jn as int].idx < catalog.len());
            assert(cv[combo@[j as int].idx as int].wf());
            assert(cv[combo@[jn as int].idx as int].wf());
        }
        let d = distance(
            &catalog[combo[j].idx].location,
            &catalog[combo[jn].idx].location,
        );
        proof {
            assert(d as int == leg(cv, combo@, j as int));
            assert((j as int) * MAX_LEG + MAX_LEG == ((j + 1) as int) * MAX_LEG)
                by (nonlinear_arith);
            assert((j as int) * MAX_LEG <= 24 * MAX_LEG) by (nonlinear_arith)
                requires
                    0 <= j <= 24,
            ;
        }
        dist_total = dist_total + d;
        j = j + 1;
    }
    let mut score_total: u128 = 0;
    let mut j: usize = 0;
    while j < n
        invariant
            j <= n,
            n == combo.len(),
            score_total == score_sum(combo@.subrange(0, j as int)),
            score_total <= (j as u128) * (u64::MAX as u128),
        decreases n - j,
    {
        let s = combo[j].score;
        proof {
            let sub = combo@.subrange(0, (j + 1) as int);
            assert(sub.drop_last() =~= combo@.subrange(0, j as int));
            assert(sub.last() == combo@[j as int]);
            assert((j as u128) * (u64::MAX as u128) + (u64::MAX as u128) == ((j + 1) as u128) * (
            u64::MAX as u128)) by (nonlinear_arith);
            assert(s as u128 <= u64::MAX as u128);
        }
        score_total = score_total + (s as u128);
        j = j + 1;
    }
    assert(combo@.subrange(0, n as int) =~= combo@);
    proof {
        lemma_route_dist_bounds(cv, combo@, n as int);
        lemma_score_sum_bounds(combo@);
        assert((n as int) * MAX_LEG <= 24 * MAX_LEG) by (nonlinear_arith)
            requires
                0 <= n <= 24,
        ;
        assert(score_total <= 24u128 * (u64::MAX as u128)) by (nonlinear_arith)
            requires
                score_total <= (n as u128) * (u64::MAX as u128),
                0 <= n <= 24,
        ;
    }
    proof {
        assert((DISTANCE_WEIGHT as i128) * (RELEVANCE_NORM as i128) == 3i128) by (nonlinear_arith)
            requires
                DISTANCE_WEIGHT == 1u64,
                RELEVANCE_NORM == 3u64,
        ;
        assert((RELEVANCE_WEIGHT as i128) * (DISTANCE_NORM as i128) == 1_620_000i128)
            by (nonlinear_arith)
            requires
                RELEVANCE_WEIGHT == 9u64,
                DISTANCE_NORM == 180_000u64,
        ;
        assert(0 <= 3i128 * (n as i128) * (dist_total as i128) <= 3i128 * 24i128 * (24i128
            * (MAX_LEG as i128))) by (nonlinear_arith)
            requires
                0 <= n <= 24,
                0 <= dist_total as i128 <= 24i128 * (MAX_LEG as i128),
        ;
        assert(0 <= 1_620_000i128 * (score_total as i128) <= 1_620_000i128 * (24i128 * (
        u64::MAX as i128))) by (nonlinear_arith)
            requires
                0 <= score_total as i128 <= 24i128 * (u64::MAX as i128),
        ;
    }
    let weighted_dist: i128 = (DISTANCE_WEIGHT as i128) * (RELEVANCE_NORM as i128) * (n as i128)
        * (dist_total as i128);
    let weighted_score: i128 = (RELEVANCE_WEIGHT as i128) * (DISTANCE_NORM as i128) * (
    score_total as i128);
    weighted_dist - weighted_score
}

/// The sign convention of the ranking key, an invariant of the policy:
/// between combinations with the same number of stops, higher total
/// relevance strictly lowers the key when route distance is unchanged,
/// and a longer route strictly raises it when relevance is unchanged.
/// Lower key is better.
pub proof fn lemma_cost_sign_convention(
    catalog: Seq<PlaceView>,
    a: Seq<ScoredEntry>,
    b: Seq<ScoredEntry>,
)
    ensures
        a.len() == b.len() && route_distance(catalog, a) == route_distance(catalog, b)
            && score_sum(a) > score_sum(b) ==> cost_key(catalog, a) < cost_key(catalog, b),
        a.len() == b.len() && a.len() > 0 && score_sum(a) == score_sum(b) && route_distance(
            catalog,
            a,
        ) > route_distance(catalog, b) ==> cost_key(catalog, a) > cost_key(catalog, b),
{
    let k = a.len() as int;
    let ra = route_distance(catalog, a);
    let rb = route_distance(catalog, b);
    let sa = score_sum(a);
    let sb = score_sum(b);
    assert(sa > sb ==> RELEVANCE_WEIGHT * DISTANCE_NORM * sa > RELEVANCE_WEIGHT * DISTANCE_NORM
        * sb) by (nonlinear_arith)
        requires
            RELEVANCE_WEIGHT == 9u64,
            DISTANCE_NORM == 180_000u64,
    ;
    assert(k > 0 && ra > rb ==> DISTANCE_WEIGHT * RELEVANCE_NORM * k * ra > DISTANCE_WEIGHT
        * RELEVANCE_NORM * k * rb) by (nonlinear_arith)
        requires
            DISTANCE_WEIGHT == 1u64,
            RELEVANCE_NORM == 3u64,
    ;
}

/// Whether the entry denotes the place identified by `(title, pt)`.
pub open spec fn entry_denotes(
    catalog: Seq<PlaceView>,
    e: ScoredEntry,
    title: Seq<char>,
    pt: PlaceType,
) -> bool {
    catalog[e.idx as int].title == title && catalog[e.idx as int].place_type == pt
}

/// How many stops of the combination denote the place identified by
/// `(title, pt)`.
pub open spec fn count_matching(
    catalog: Seq<PlaceView>,
    combo: Seq<ScoredEntry>,
    title: Seq<char>,
    pt: PlaceType,
) -> nat
    decreases combo.len(),
{
    if combo.len() == 0 {
        0
    } else {
        count_matching(catalog, combo.drop_last(), title, pt) + if entry_denotes(
            catalog,
            combo.last(),
            title,
            pt,
        ) {
            1nat
        } else {
            0nat
        }
    }
}

/// Two combinations resolve to the same multiset of places, by place
/// identity: they have the same length and every place identity occurs
/// equally often in both.
pub open spec fn same_place_multiset(
    catalog: Seq<PlaceView>,
    a: Seq<ScoredEntry>,
    b: Seq<ScoredEntry>,
) -> bool {
    &&& a.len() == b.len()
    &&& forall|title: Seq<char>, pt: PlaceType|
        #![trigger count_matching(catalog, a, title, pt)]
        #![trigger count_matching(catalog, b, title, pt)]
        count_matching(catalog, a, title, pt) == count_matching(catalog, b, title, pt)
}

/// The place identities a combination resolves to, stop by stop.
pub open spec fn place_ids(catalog: Seq<PlaceView>, combo: Seq<ScoredEntry>) -> Seq<
    (Seq<char>, PlaceType),
> {
    combo.map_values(
        |e: ScoredEntry| (catalog[e.idx as int].title, catalog[e.idx as int].place_type),
    )
}

/// The per-identity count agrees with the multiset count of the
/// combination's place identities.
proof fn lemma_count_is_multiset_count(
    catalog: Seq<PlaceView>,
    combo: Seq<ScoredEntry>,
    title: Seq<char>,
    pt: PlaceType,
)
    ensures
        count_matching(catalog, combo, title, pt) == place_ids(catalog, combo).to_multiset().count(
            (title, pt),
        ),
    decreases combo.len(),
{
    broadcast use vstd::seq_lib::group_to_multiset_ensures;

    if combo.len() == 0 {
        assert(place_ids(catalog, combo) =~= Seq::empty());
        assert(Seq::<(Seq<char>, PlaceType)>::empty().to_multiset().count((title, pt)) == 0);
    } else {
        lemma_count_is_multiset_count(catalog, combo.drop_last(), title, pt);
        let last = combo.last();
        let pid = (catalog[last.idx as int].title, catalog[last.idx as int].place_type);
        assert(place_ids(catalog, combo) =~= place_ids(catalog, combo.drop_last()).push(pid));
        assert(place_ids(catalog, combo.drop_last()).push(pid).to_multiset() =~= place_ids(
            catalog,
            combo.drop_last(),
        ).to_multiset().insert(pid));
        if entry_denotes(catalog, last, title, pt) {
            assert(pid == (title, pt));
        } else {
            assert(pid != (title, pt));
        }
    }
}

/// [`same_place_multiset`] means exactly that the two combinations
/// resolve to the same multiset of place identities.
pub proof fn lemma_same_place_multiset_is_multiset_eq(
    catalog: Seq<PlaceView>,
    a: Seq<ScoredEntry>,
    b: Seq<ScoredEntry>,
)
    ensures
        same_place_multiset(catalog, a, b) <==> (a.len() == b.len() && place_ids(catalog,
        a).to_multiset() == place_ids(catalog, b).to_multiset()),
{
    broadcast use vstd::seq_lib::group_to_multiset_ensures;

    if same_place_multiset(catalog, a, b) {
        assert forall|pid: (Seq<char>, PlaceType)|
            #[trigger] place_ids(catalog, a).to_multiset().count(pid) == place_ids(catalog,
            b).to_multiset().count(pid) by {
            lemma_count_is_multiset_count(catalog, a, pid.0, pid.1);
            lemma_count_is_multiset_count(catalog, b, pid.0, pid.1);
        }
        assert(place_ids(catalog, a).to_multiset() =~= place_ids(catalog, b).to_multiset());
    }
    if a.len() == b.len() && place_ids(catalog, a).to_multiset() == place_ids(catalog,
    b).to_multiset() {
        assert forall|title: Seq<char>, pt: PlaceType|
            #![trigger count_matching(catalog, a, title, pt)]
            #![trigger count_matching(catalog, b, title, pt)]
            count_matching(catalog, a, title, pt) == count_matching(catalog, b, title, pt) by {
            lemma_count_is_multiset_count(catalog, a, title, pt);
            lemma_count_is_multiset_count(catalog, b, title, pt);
        }
    }
}

/// Place-multiset equivalence is transitive.
proof fn lemma_same_trans(
    catalog: Seq<PlaceView>,
    a: Seq<ScoredEntry>,
    b: Seq<ScoredEntry>,
    c: Seq<ScoredEntry>,
)
    requires
        same_place_multiset(catalog, a, b),
        same_place_multiset(catalog, b, c),
    ensures
        same_place_multiset(catalog, a, c),
{
    assert forall|title: Seq<char>, pt: PlaceType|
        #![trigger count_matching(catalog, a, title, pt)]
        #![trigger count_matching(catalog, c, title, pt)]
        count_matching(catalog, a, title, pt) == count_matching(catalog, c, title, pt) by {
        assert(count_matching(catalog, a, title, pt) == count_matching(catalog, b, title, pt));
    }
}

/// A positive count exhibits a stop with that identity.
proof fn lemma_count_pos(
    catalog: Seq<PlaceView>,
    combo: Seq<ScoredEntry>,
    title: Seq<char>,
    pt: PlaceType,
)
    requires
        count_matching(catalog, combo, title, pt) > 0,
    ensures
        exists|j: int|
            0 <= j < combo.len() && entry_denotes(catalog, #[trigger] combo[j], title, pt),
    decreases combo.len(),
{
    if entry_denotes(catalog, combo.last(), title, pt) {
        assert(combo[combo.len() - 1] == combo.last());
    } else {
        lemma_count_pos(catalog, combo.drop_last(), title, pt);
        let j = choose|j: int|
            0 <= j < combo.drop_last().len() && entry_denotes(
                catalog,
                #[trigger] combo.drop_last()[j],
                title,
                pt,
            );
        assert(combo[j] == combo.drop_last()[j]);
    }
}

/// Count the stops of the combination that denote the place identified by
/// `(title, pt)`.
fn count_place(
    catalog: &Vec<Place>,
    combo: &Vec<ScoredEntry>,
    title: &String,
    pt: PlaceType,
) -> (r: usize)
    requires
        combo_wf(catalog.deep_view(), combo@),
    ensures
        r == count_matching(catalog.deep_view(), combo@, title@, pt),
{
    let ghost cv = catalog.deep_view();
    let mut r: usize = 0;
    let mut j: usize = 0;
    while j < combo.len()
        invariant
            j <= combo.len(),
            cv == catalog.deep_view(),
            combo_wf(cv, combo@),
            r == count_matching(cv, combo@.subrange(0, j as int), title@, pt),
            r <= j,
        decreases combo.len() - j,
    {
        let e = combo[j];
        proof {
            let sub = combo@.subrange(0, (j + 1) as int);
            assert(sub.drop_last() =~= combo@.subrange(0, j as int));
            assert(sub.last() == combo@[j as int]);
        }
        if catalog[e.idx].title == *title && matches_place_type(&catalog[e.idx], pt) {
            assert(entry_denotes(cv, combo@[j as int], title@, pt));
            r = r + 1;
        } else {
            assert(!entry_denotes(cv, combo@[j as int], title@, pt));
        }
        j = j + 1;
    }
    assert(combo@.subrange(0, combo.len() as int) =~= combo@);
    r
}

/// Whether the place's category is `pt`.
fn matches_place_type(place: &Place, pt: PlaceType) -> (r: bool)
    ensures
        r == (place@.place_type == pt),
{
    place.place_type == pt
}

/// Decide whether two combinations resolve to the same multiset of places.
fn same_places(catalog: &Vec<Place>, a: &Vec<ScoredEntry>, b: &Vec<ScoredEntry>) -> (r: bool)
    requires
        combo_wf(catalog.deep_view(), a@),
        combo_wf(catalog.deep_view(), b@),
    ensures
        r == same_place_multiset(catalog.deep_view(), a@, b@),
{
    let ghost cv = catalog.deep_view();
    if a.len() != b.len() {
        return false;
    }
    let mut j: usize = 0;
    while j < a.len()
        invariant
            j <= a.len(),
            cv == catalog.deep_view(),
            combo_wf(cv, a@),
            combo_wf(cv, b@),
            a.len() == b.len(),
            forall|m: int|
                0 <= m < j ==> {
                    let e = #[trigger] a@[m];
                    count_matching(cv, a@, catalog.deep_view()[e.idx as int].title, catalog.deep_view()[e.idx as int].place_type)
                        == count_matching(cv, b@, catalog.deep_view()[e.idx as int].title, catalog.deep_view()[e.idx as int].place_type)
                },
        decreases a.len() - j,
    {
        let e = a[j];
        let ca = count_place(catalog, a, &catalog[e.idx].title, e_place_type(catalog, e));
        let cb = count_place(catalog, b, &catalog[e.idx].title, e_place_type(catalog, e));
        if ca != cb {
            return false;
        }
        j = j + 1;
    }
    let mut j: usize = 0;
    while j < b.len()
        invariant
            j <= b.len(),
            cv == catalog.deep_view(),
            combo_wf(cv, a@),
            combo_wf(cv, b@),
            a.len() == b.len(),
            forall|m: int|
                0 <= m < a.len() ==> {
                    let e = #[trigger] a@[m];
                    count_matching(cv, a@, cv[e.idx as int].title, cv[e.idx as int].place_type)
                        == count_matching(cv, b@, cv[e.idx as int].title, cv[e.idx as int].place_type)
                },
            forall|m: int|
                0 <= m < j ==> {
                    let e = #[trigger] b@[m];
                    count_matching(cv, a@, cv[e.idx as int].title, cv[e.idx as int].place_type)
                        == count_matching(cv, b@, cv[e.idx as int].title, cv[e.idx as int].place_type)
                },
        decreases b.len() - j,
    {
        let e = b[j];
        let ca = count_place(catalog, a, &catalog[e.idx].title, e_place_type(catalog, e));
        let cb = count_place(catalog, b, &catalog[e.idx].title, e_place_type(catalog, e));
        if ca != cb {
            return false;
        }
        j = j + 1;
    }
    proof {
        assert forall|title: Seq<char>, pt: PlaceType|
            #![trigger count_matching(cv, a@, title, pt)]
            #![trigger count_matching(cv, b@, title, pt)]
            count_matching(cv, a@, title, pt) == count_matching(cv, b@, title, pt) by {
            if count_matching(cv, a@, title, pt) > 0 {
                lemma_count_pos(cv, a@, title, pt);
                let w = choose|w: int|
                    0 <= w < a@.len() && entry_denotes(catalog.deep_view(), #[trigger] a@[w], title, pt);
                assert(cv[a@[w].idx as int].title == title);
                assert(cv[a@[w].idx as int].place_type == pt);
            } else if count_matching(cv, b@, title, pt) > 0 {
                lemma_count_pos(cv, b@, title, pt);
                let w = choose|w: int|
                    0 <= w < b@.len() && entry_denotes(catalog.deep_view(), #[trigger] b@[w], title, pt);
                assert(cv[b@[w].idx as int].title == title);
                assert(cv[b@[w].idx as int].place_type == pt);
            }
        }
    }
    true
}

/// The category of the place an entry points at.
fn e_place_type(catalog: &Vec<Place>, e: ScoredEntry) -> (r: PlaceType)
    requires
        (e.idx as int) < catalog.deep_view().len(),
    ensures
        r == catalog.deep_view()[e.idx as int].place_type,
{
    catalog[e.idx].place_type
}

/// Whether some combination of `combos` resolves to the same multiset of
/// places as `c`.
pub open spec fn has_equivalent(
    catalog: Seq<PlaceView>,
    combos: Seq<Seq<ScoredEntry>>,
    c: Seq<ScoredEntry>,
) -> bool {
    exists|m: int| 0 <= m < combos.len() && same_place_multiset(catalog, combos[m], c)
}

/// The combinations with duplicates collapsed: of every group of
/// combinations resolving to the same multiset of places, only the first
/// (in enumeration order) is kept.
pub open spec fn dedup_spec(
    catalog: Seq<PlaceView>,
    combos: Seq<Seq<ScoredEntry>>,
) -> Seq<Seq<ScoredEntry>>
    decreases combos.len(),
{
    if combos.len() == 0 {
        Seq::empty()
    } else {
        let d = dedup_spec(catalog, combos.drop_last());
        if has_equivalent(catalog, combos.drop_last(), combos.last()) {
            d
        } else {
            d.push(combos.last())
        }
    }
}

/// Every combination of the combination list points into the catalog.
pub open spec fn combos_wf(catalog: Seq<PlaceView>, combos: Seq<Seq<ScoredEntry>>) -> bool {
    forall|m: int| 0 <= m < combos.len() ==> combo_wf(catalog, #[trigger] combos[m])
}

/// What deduplication guarantees: the kept combinations are combinations
/// of the input in input order; no two kept combinations resolve to the
/// same multiset of places; every input combination has a kept
/// representative; and a non-empty input keeps at least one.
pub proof fn lemma_dedup_correct(catalog: Seq<PlaceView>, combos: Seq<Seq<ScoredEntry>>)
    ensures
        forall|m: int|
            0 <= m < dedup_spec(catalog, combos).len() ==> combos.contains(
                #[trigger] dedup_spec(catalog, combos)[m],
            ),
        forall|m1: int, m2: int|
            0 <= m1 < m2 < dedup_spec(catalog, combos).len() ==> !same_place_multiset(
                catalog,
                dedup_spec(catalog, combos)[m1],
                dedup_spec(catalog, combos)[m2],
            ),
        forall|j: int|
            0 <= j < combos.len() ==> has_equivalent(
                catalog,
                dedup_spec(catalog, combos),
                #[trigger] combos[j],
            ),
        combos.len() > 0 ==> dedup_spec(catalog, combos).len() > 0,
    decreases combos.len(),
{
    if combos.len() > 0 {
        let prefix = combos.drop_last();
        let last = combos.last();
        lemma_dedup_correct(catalog, prefix);
        let d = dedup_spec(catalog, prefix);
        let whole = dedup_spec(catalog, combos);
        assert(combos[combos.len() - 1] == last);
        assert forall|m: int| 0 <= m < d.len() implies combos.contains(d[m]) by {
            assert(prefix.contains(d[m]));
            let j = choose|j: int| 0 <= j < prefix.len() && prefix[j] == d[m];
            assert(combos[j] == d[m]);
        }
        if has_equivalent(catalog, prefix, last) {
            assert(whole == d);
            // The last combination keeps its representative through the
            // already deduplicated prefix.
            let j = choose|j: int|
                0 <= j < prefix.len() && same_place_multiset(catalog, prefix[j], last);
            assert(has_equivalent(catalog, d, prefix[j]));
            let m = choose|m: int|
                0 <= m < d.len() && same_place_multiset(catalog, d[m], prefix[j]);
            lemma_same_trans(catalog, d[m], prefix[j], last);
            assert(has_equivalent(catalog, whole, combos[combos.len() - 1]));
            assert forall|j2: int| 0 <= j2 < combos.len() implies has_equivalent(
                catalog,
                whole,
                #[trigger] combos[j2],
            ) by {
                if j2 < combos.len() - 1 {
                    assert(combos[j2] == prefix[j2]);
                }
            }
        } else {
            assert(whole == d.push(last));
            // The newly kept combination is equivalent to none of the
            // earlier kept ones.
            assert forall|m1: int, m2: int|
                0 <= m1 < m2 < whole.len() implies !same_place_multiset(
                catalog,
                whole[m1],
                whole[m2],
            ) by {
                if m2 == whole.len() - 1 {
                    assert(whole[m2] == last);
                    assert(whole[m1] == d[m1]);
                    if same_place_multiset(catalog, whole[m1], last) {
                        assert(prefix.contains(d[m1]));
                        let j = choose|j: int| 0 <= j < prefix.len() && prefix[j] == d[m1];
                        assert(same_place_multiset(catalog, prefix[j], last));
                        assert(has_equivalent(catalog, prefix, last));
                    }
                } else {
                    assert(whole[m1] == d[m1] && whole[m2] == d[m2]);
                }
            }
            assert forall|j2: int| 0 <= j2 < combos.len() implies has_equivalent(
                catalog,
                whole,
                #[trigger] combos[j2],
            ) by {
                if j2 < combos.len() - 1 {
                    assert(combos[j2] == prefix[j2]);
                    assert(has_equivalent(catalog, d, prefix[j2]));
                    let m = choose|m: int|
                        0 <= m < d.len() && same_place_multiset(catalog, d[m], prefix[j2]);
                    assert(whole[m] == d[m]);
                } else {
                    assert(whole[whole.len() - 1] == last);
                }
            }
            assert forall|m: int| 0 <= m < whole.len() implies combos.contains(whole[m]) by {
                if m < whole.len() - 1 {
                    assert(whole[m] == d[m]);
                    assert(combos.contains(d[m]));
                } else {
                    assert(whole[m] == combos[combos.len() - 1]);
                }
            }
        }
    }
}

/// Decide whether some kept combination is place-equivalent to `c`.
fn contains_equivalent(catalog: &Vec<Place>, kept: &Vec<Vec<ScoredEntry>>, c: &Vec<ScoredEntry>) -> (r:
    bool)
    requires
        combos_wf(catalog.deep_view(), kept.deep_view()),
        combo_wf(catalog.deep_view(), c@),
    ensures
        r == has_equivalent(catalog.deep_view(), kept.deep_view(), c@),
{
    let ghost cv = catalog.deep_view();
    let mut m: usize = 0;
    while m < kept.len()
        invariant
            m <= kept.len(),
            cv == catalog.deep_view(),
            combos_wf(cv, kept.deep_view()),
            combo_wf(cv, c@),
            forall|k: int|
                0 <= k < m ==> !same_place_multiset(cv, #[trigger] kept.deep_view()[k], c@),
        decreases kept.len() - m,
    {
        assert(kept.deep_view()[m as int] == kept@[m as int]@);
        if same_places(catalog, &kept[m], c) {
            return true;
        }
        m = m + 1;
    }
    false
}

/// Collapse combinations resolving to the same multiset of places,
/// keeping the first of each group.
#[verifier::rlimit(80)]
pub fn dedup(catalog: &Vec<Place>, combos: &Vec<Vec<ScoredEntry>>) -> (r: Vec<Vec<ScoredEntry>>)
    requires
        combos_wf(catalog.deep_view(), combos.deep_view()),
    ensures
        r.deep_view() == dedup_spec(catalog.deep_view(), combos.deep_view()),
{
    let ghost cv = catalog.deep_view();
    let ghost dv = combos.deep_view();
    let mut r: Vec<Vec<ScoredEntry>> = Vec::new();
    let mut i: usize = 0;
    while i < combos.len()
        invariant
            i <= combos.len(),
            cv == catalog.deep_view(),
            dv == combos.deep_view(),
            combos_wf(cv, dv),
            r.deep_view() =~~= dedup_spec(cv, dv.subrange(0, i as int)),
            combos_wf(cv, r.deep_view()),
            forall|j: int|
                0 <= j < i ==> has_equivalent(cv, r.deep_view(), #[trigger] dv[j]),
            forall|m: int|
                0 <= m < r.deep_view().len() ==> dv.subrange(0, i as int).contains(
                    #[trigger] r.deep_view()[m],
                ),
        decreases combos.len() - i,
    {
        let ghost pre = dv.subrange(0, i as int);
        let ghost sub1 = dv.subrange(0, (i + 1) as int);
        proof {
            assert(sub1.drop_last() =~= pre);
            assert(sub1.last() == dv[i as int]);
            assert(combos.deep_view()[i as int] == combos@[i as int]@);
        }
        let found = contains_equivalent(catalog, &r, &combos[i]);
        if found {
            // An equivalent combination was already kept, so an equivalent
            // one already occurred earlier in the input.
            proof {
                let m = choose|m: int|
                    0 <= m < r.deep_view().len() && same_place_multiset(
                        cv,
                        r.deep_view()[m],
                        dv[i as int],
                    );
                assert(pre.contains(r.deep_view()[m]));
                let j = choose|j: int| 0 <= j < pre.len() && pre[j] == r.deep_view()[m];
                assert(has_equivalent(cv, pre, dv[i as int]));
                assert(dedup_spec(cv, sub1) == dedup_spec(cv, pre));
            }
        } else {
            // No equivalent kept combination, so no equivalent input
            // combination occurred earlier either.
            proof {
                if has_equivalent(cv, pre, dv[i as int]) {
                    let j = choose|j: int|
                        0 <= j < pre.len() && same_place_multiset(cv, pre[j], dv[i as int]);
                    assert(pre[j] == dv[j]);
                    assert(has_equivalent(cv, r.deep_view(), dv[j]));
                    let m = choose|m: int|
                        0 <= m < r.deep_view().len() && same_place_multiset(
                            cv,
                            r.deep_view()[m],
                            dv[j],
                        );
                    lemma_same_trans(cv, r.deep_view()[m], dv[j], dv[i as int]);
                    assert(false);
                }
            }
            let ghost old_r = r.deep_view();
            let kept = copy_entries(&combos[i]);
            r.push(kept);
            proof {
                assert(kept@ == dv[i as int]);
                assert(r.deep_view() =~~= old_r.push(dv[i as int]));
                assert(r.deep_view() =~~= dedup_spec(cv, sub1));
                assert forall|j: int| 0 <= j < i + 1 implies has_equivalent(
                    cv,
                    r.deep_view(),
                    #[trigger] dv[j],
                ) by {
                    if j < i {
                        let m = choose|m: int|
                            0 <= m < old_r.len() && same_place_multiset(cv, old_r[m], dv[j]);
                        assert(r.deep_view()[m] == old_r[m]);
                    } else {
                        assert(r.deep_view()[r.deep_view().len() - 1] == dv[i as int]);
                    }
                }
                assert forall|m: int| 0 <= m < r.deep_view().len() implies sub1.contains(
                    #[trigger] r.deep_view()[m],
                ) by {
                    if m < old_r.len() {
                        assert(r.deep_view()[m] == old_r[m]);
                        assert(pre.contains(old_r[m]));
                        let j = choose|j: int| 0 <= j < pre.len() && pre[j] == old_r[m];
                        assert(sub1[j] == pre[j]);
                    } else {
                        assert(r.deep_view()[m] == sub1[sub1.len() - 1]);
                    }
                }
            }
        }
        i = i + 1;
    }
    assert(dv.subrange(0, combos.len() as int) =~= dv);
    r
}

/// Copy a combination (entries are plain values).
fn copy_entries(c: &Vec<ScoredEntry>) -> (r: Vec<ScoredEntry>)
    ensures
        r@ == c@,
{
    let mut r: Vec<ScoredEntry> = Vec::new();
    let mut j: usize = 0;
    while j < c.len()
        invariant
            j <= c.len(),
            r@ =~= c@.subrange(0, j as int),
        decreases c.len() - j,
    {
        r.push(c[j]);
        assert(c@.subrange(0, (j + 1) as int) =~= c@.subrange(0, j as int).push(c@[j as int]));
        j = j + 1;
    }
    assert(r@ =~= c@);
    r
}

/// The index of the best-ranked combination among the first `n`: the one
/// with the lowest cost key, the earliest on a tie.
pub open spec fn best_upto(catalog: Seq<PlaceView>, combos: Seq<Seq<ScoredEntry>>, n: int) -> int
    decreases n,
{
    if n <= 1 {
        0
    } else {
        let b = best_upto(catalog, combos, n - 1);
        if cost_key(catalog, combos[n - 1]) < cost_key(catalog, combos[b]) {
            n - 1
        } else {
            b
        }
    }
}

/// The index of the best-ranked combination: the one with the lowest cost
/// key, the earliest on a tie.
pub open spec fn best_index(catalog: Seq<PlaceView>, combos: Seq<Seq<ScoredEntry>>) -> int {
    best_upto(catalog, combos, combos.len() as int)
}

/// The selected combination ranks no worse than any other, and strictly
/// better than every earlier one — so selection among ties is the
/// deterministic earliest-wins rule.
pub proof fn lemma_best_minimal(catalog: Seq<PlaceView>, combos: Seq<Seq<ScoredEntry>>)
    requires
        combos.len() > 0,
    ensures
        0 <= best_index(catalog, combos) < combos.len(),
        forall|j: int|
            0 <= j < combos.len() ==> cost_key(catalog, combos[best_index(catalog, combos)])
                <= cost_key(catalog, #[trigger] combos[j]),
        forall|j: int|
            0 <= j < best_index(catalog, combos) ==> cost_key(
                catalog,
                combos[best_index(catalog, combos)],
            ) < cost_key(catalog, #[trigger] combos[j]),
{
    lemma_best_upto_minimal(catalog, combos, combos.len() as int);
}

proof fn lemma_best_upto_minimal(catalog: Seq<PlaceView>, combos: Seq<Seq<ScoredEntry>>, n: int)
    requires
        1 <= n <= combos.len(),
    ensures
        0 <= best_upto(catalog, combos, n) < n,
        forall|j: int|
            0 <= j < n ==> cost_key(catalog, combos[best_upto(catalog, combos, n)]) <= cost_key(
                catalog,
                #[trigger] combos[j],
            ),
        forall|j: int|
            0 <= j < best_upto(catalog, combos, n) ==> cost_key(
                catalog,
                combos[best_upto(catalog, combos, n)],
            ) < cost_key(catalog, #[trigger] combos[j]),
    decreases n,
{
    if n > 1 {
        lemma_best_upto_minimal(catalog, combos, n - 1);
    }
}

/// Select the best-ranked combination: the lowest cost key, the earliest
/// on a tie.
pub fn select_best(catalog: &Vec<Place>, combos: &Vec<Vec<ScoredEntry>>) -> (b: usize)
    requires
        catalog_wf(catalog.deep_view()),
        combos_wf(catalog.deep_view(), combos.deep_view()),
        combos.len() > 0,
        forall|m: int| 0 <= m < combos.len() ==> (#[trigger] combos.deep_view()[m]).len() <= MAX_STOPS,
    ensures
        b as int == best_index(catalog.deep_view(), combos.deep_view()),
{
    let ghost cv = catalog.deep_view();
    let ghost dv = combos.deep_view();
    assert(combos@[0]@ == dv[0]);
    let mut best: usize = 0;
    let mut best_key: i128 = compute_cost_key(catalog, &combos[0]);
    let mut m: usize = 1;
    while m < combos.len()
        invariant
            1 <= m <= combos.len(),
            cv == catalog.deep_view(),
            dv == combos.deep_view(),
            catalog_wf(cv),
            combos_wf(cv, dv),
            forall|k: int| 0 <= k < combos.len() ==> (#[trigger] dv[k]).len() <= MAX_STOPS,
            (best as int) == best_upto(cv, dv, m as int),
            best < m,
            best_key as int == cost_key(cv, dv[best as int]),
        decreases combos.len() - m,
    {
        assert(combos@[m as int]@ == dv[m as int]);
        let key = compute_cost_key(catalog, &combos[m]);
        if key < best_key {
            best = m;
            best_key = key;
        }
        m = m + 1;
    }
    best
}

} // verus!
