//! The externally visible result shape: one suggestion per requested
//! category, holding every qualifying candidate and the currently selected
//! one, which a caller may cycle through without re-running the ranking.

use vstd::prelude::*;

use crate::model::{place_identity_eq, Place, PlaceView};

verus! {

/// Mathematical value of a [`Suggestion`].
pub ghost struct SuggestionView {
    pub places: Seq<PlaceView>,
    pub selected_place: PlaceView,
}

impl SuggestionView {
    /// The invariant of a well-formed suggestion: it has at least one
    /// candidate, and the selected place is one of the candidates (by
    /// place identity).
    pub open spec fn wf(self) -> bool {
        &&& self.places.len() >= 1
        &&& exists|i: int|
            0 <= i < self.places.len() && place_identity_eq(self.places[i], self.selected_place)
    }
}

/// The result for one category slot: all qualifying candidates of that
/// category, plus the currently displayed one.
#[derive(Debug)]
pub struct Suggestion {
    pub places: Vec<Place>,
    pub selected_place: Place,
}

impl View for Suggestion {
    type V = SuggestionView;

    open spec fn view(&self) -> SuggestionView {
        SuggestionView {
            places: self.places.deep_view(),
            selected_place: self.selected_place@,
        }
    }
}

impl DeepView for Suggestion {
    type V = SuggestionView;

    open spec fn deep_view(&self) -> SuggestionView {
        self@
    }
}

/// The first index at or after `j` whose place is identical (by place
/// identity) to `p`; the length of the list if there is none.
pub open spec fn first_match_from(places: Seq<PlaceView>, p: PlaceView, j: int) -> int
    decreases places.len() - j,
{
    if j < 0 || j >= places.len() {
        places.len() as int
    } else if place_identity_eq(places[j], p) {
        j
    } else {
        first_match_from(places, p, j + 1)
    }
}

/// The position of the first candidate identical to `p`.
pub open spec fn position_of(places: Seq<PlaceView>, p: PlaceView) -> int {
    first_match_from(places, p, 0)
}

/// The selection after cycling forward: the candidate after the selected
/// one's position, wrapping around.
pub open spec fn next_selected(s: SuggestionView) -> PlaceView {
    s.places[(position_of(s.places, s.selected_place) + 1) % (s.places.len() as int)]
}

/// The selection after cycling backward: the candidate before the selected
/// one's position, wrapping around.
pub open spec fn prev_selected(s: SuggestionView) -> PlaceView {
    s.places[(position_of(s.places, s.selected_place) + s.places.len() - 1) % (
    s.places.len() as int)]
}

/// No two candidates of the list denote the same place.
pub open spec fn distinct_identities(places: Seq<PlaceView>) -> bool {
    forall|j: int, k: int|
        0 <= j < k < places.len() ==> !place_identity_eq(
            #[trigger] places[j],
            #[trigger] places[k],
        )
}

impl Suggestion {
    /// Find the position of the currently selected place among the
    /// candidates (the first identical one).
    pub fn position_of_selected(&self) -> (i: usize)
        requires
            self@.wf(),
        ensures
            i < self.places.len(),
            i == position_of(self@.places, self@.selected_place),
            place_identity_eq(self@.places[i as int], self@.selected_place),
    {
        let mut i: usize = 0;
        while i < self.places.len()
            invariant
                i <= self.places.len(),
                self@.wf(),
                first_match_from(self@.places, self@.selected_place, 0) == first_match_from(
                    self@.places,
                    self@.selected_place,
                    i as int,
                ),
                forall|j: int|
                    0 <= j < i ==> !place_identity_eq(
                        #[trigger] self@.places[j],
                        self@.selected_place,
                    ),
            decreases self.places.len() - i,
        {
            if self.places[i] == self.selected_place {
                return i;
            }
            i = i + 1;
        }
        proof {
            let w = choose|w: int|
                0 <= w < self@.places.len() && place_identity_eq(
                    self@.places[w],
                    self@.selected_place,
                );
            assert(false);
        }
        0
    }

    /// Cycle the selection forward to the next candidate, wrapping
    /// circularly. The candidate list is unchanged.
    pub fn next(&mut self)
        requires
            old(self)@.wf(),
        ensures
            final(self)@.places == old(self)@.places,
            final(self)@.selected_place == next_selected(old(self)@),
            final(self)@.wf(),
    {
        let i = self.position_of_selected();
        let n = self.places.len();
        let ni: usize = if i + 1 == n {
            0
        } else {
            i + 1
        };
        proof {
            lemma_mod_wrap((i + 1) as int, n as int);
        }
        assert(ni as int == (position_of(self@.places, self@.selected_place) + 1) % (n as int));
        let ghost pre = self@.places;
        self.selected_place = self.places[ni].clone();
        assert(self@.places =~= pre);
        assert(place_identity_eq(self@.places[ni as int], self@.selected_place));
    }

    /// Cycle the selection backward to the previous candidate, wrapping
    /// circularly. The candidate list is unchanged.
    pub fn prev(&mut self)
        requires
            old(self)@.wf(),
        ensures
            final(self)@.places == old(self)@.places,
            final(self)@.selected_place == prev_selected(old(self)@),
            final(self)@.wf(),
    {
        let i = self.position_of_selected();
        let n = self.places.len();
        let ni: usize = if i == 0 {
            n - 1
        } else {
            i - 1
        };
        proof {
            lemma_mod_wrap(i + n - 1 as int, n as int);
        }
        assert(ni as int == (position_of(self@.places, self@.selected_place) + n - 1) % (n as int));
        let ghost pre = self@.places;
        self.selected_place = self.places[ni].clone();
        assert(self@.places =~= pre);
        assert(place_identity_eq(self@.places[ni as int], self@.selected_place));
    }
}

/// In a list without identity duplicates, the first match of the `k`-th
/// candidate is `k` itself.
proof fn lemma_position_of_distinct(places: Seq<PlaceView>, k: int, j: int)
    requires
        distinct_identities(places),
        0 <= j <= k < places.len(),
        forall|m: int| j <= m < k ==> !place_identity_eq(#[trigger] places[m], places[k]),
    ensures
        first_match_from(places, places[k], j) == k,
    decreases places.len() - j,
{
    if j < k {
        lemma_position_of_distinct(places, k, j + 1);
    }
}

/// Cycling invariant: on a suggestion whose candidates are pairwise
/// distinct (by place identity), cycling forward and then backward — or
/// backward and then forward — returns the selection to the place it
/// started at.
pub proof fn lemma_cycling_round_trip(s: SuggestionView)
    requires
        s.wf(),
        distinct_identities(s.places),
        exists|i: int| 0 <= i < s.places.len() && s.selected_place == s.places[i],
    ensures
        prev_selected(SuggestionView { places: s.places, selected_place: next_selected(s) })
            == s.selected_place,
        next_selected(SuggestionView { places: s.places, selected_place: prev_selected(s) })
            == s.selected_place,
{
    let n = s.places.len() as int;
    let k0 = choose|i: int| 0 <= i < s.places.len() && s.selected_place == s.places[i];
    let k = position_of(s.places, s.selected_place);
    assert(place_identity_eq(s.places[k0], s.selected_place));
    lemma_first_match_finds(s.places, s.selected_place, k0);
    assert(0 <= k < n);
    assert(place_identity_eq(s.places[k], s.places[k0]));
    assert(s.selected_place == s.places[k0]);
    // Since identities are distinct and the selected place is literally an
    // element, the first identical element is that element itself.
    assert(k == k0) by {
        if k < k0 {
            assert(place_identity_eq(s.places[k], s.places[k0]));
        }
        if k0 < k {
            lemma_position_of_distinct(s.places, k0, 0);
        }
    }
    let kn = (k + 1) % n;
    assert(0 <= kn < n) by {
        lemma_mod_range(k + 1, n);
    }
    let fwd = SuggestionView { places: s.places, selected_place: next_selected(s) };
    assert(fwd.selected_place == s.places[kn]);
    lemma_position_of_distinct(s.places, kn, 0);
    assert(position_of(s.places, fwd.selected_place) == kn);
    assert((kn + n - 1) % n == k) by {
        lemma_cycle_inverse(k, n);
    }
    let kp = (k + n - 1) % n;
    assert(0 <= kp < n) by {
        lemma_mod_range(k + n - 1, n);
    }
    let bwd = SuggestionView { places: s.places, selected_place: prev_selected(s) };
    assert(bwd.selected_place == s.places[kp]);
    lemma_position_of_distinct(s.places, kp, 0);
    assert(position_of(s.places, bwd.selected_place) == kp);
    assert((kp + 1) % n == k) by {
        lemma_cycle_inverse(k, n);
    }
}

/// If some element at `w` matches, the first match lies at or before `w`
/// and is a real match.
proof fn lemma_first_match_finds(places: Seq<PlaceView>, p: PlaceView, w: int)
    requires
        0 <= w < places.len(),
        place_identity_eq(places[w], p),
    ensures
        0 <= position_of(places, p) <= w,
        place_identity_eq(places[position_of(places, p)], p),
{
    lemma_first_match_bounded(places, p, 0, w);
}

proof fn lemma_first_match_bounded(places: Seq<PlaceView>, p: PlaceView, j: int, w: int)
    requires
        0 <= j <= w < places.len(),
        place_identity_eq(places[w], p),
    ensures
        j <= first_match_from(places, p, j) <= w,
        place_identity_eq(places[first_match_from(places, p, j)], p),
    decreases places.len() - j,
{
    if !place_identity_eq(places[j], p) {
        lemma_first_match_bounded(places, p, j + 1, w);
    }
}

/// `(x % n)` lies in `[0, n)` for positive `n`.
pub(crate) proof fn lemma_mod_range(x: int, n: int)
    requires
        n > 0,
    ensures
        0 <= x % n < n,
{
    assert(0 <= x % n < n) by (nonlinear_arith)
        requires
            n > 0,
    ;
}

/// For `0 <= x < 2 * n`, taking `x` modulo `n` subtracts `n` exactly when
/// `x` reaches `n`.
pub(crate) proof fn lemma_mod_wrap(x: int, n: int)
    requires
        n > 0,
        0 <= x < 2 * n,
    ensures
        x % n == if x < n {
            x
        } else {
            x - n
        },
{
    assert(x % n == if x < n {
        x
    } else {
        x - n
    }) by (nonlinear_arith)
        requires
            n > 0 && 0 <= x < 2 * n,
    ;
}

/// Stepping forward then backward (or backward then forward) around a
/// cycle of length `n` is the identity.
proof fn lemma_cycle_inverse(k: int, n: int)
    requires
        0 <= k < n,
    ensures
        ((k + 1) % n + n - 1) % n == k,
        ((k + n - 1) % n + 1) % n == k,
{
    if k + 1 == n {
        assert((k + 1) % n == 0) by (nonlinear_arith)
            requires
                k + 1 == n && n > 0,
        ;
        assert((n - 1) % n == n - 1) by (nonlinear_arith)
            requires
                n > 0,
        ;
    } else {
        assert((k + 1) % n == k + 1) by (nonlinear_arith)
            requires
                0 <= k + 1 < n,
        ;
        assert((k + 1 + n - 1) % n == k) by (nonlinear_arith)
            requires
                0 <= k < n,
        ;
    }
    if k == 0 {
        assert((0 + n - 1) % n == n - 1) by (nonlinear_arith)
            requires
                n > 0,
        ;
        assert((n - 1 + 1) % n == 0) by (nonlinear_arith)
            requires
                n > 0,
        ;
    } else {
        assert((k + n - 1) % n == k - 1) by (nonlinear_arith)
            requires
                1 <= k < n,
        ;
        assert((k - 1 + 1) % n == k) by (nonlinear_arith)
            requires
                1 <= k < n,
        ;
    }
}

} // verus!
