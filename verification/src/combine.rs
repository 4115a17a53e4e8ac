//! Combination generation: the Cartesian product of the per-category
//! candidate lists, one place per requested category.
//!
//! The product is enumerated in row-major order, the last category varying
//! fastest, so enumeration is exhaustive and deterministic. Because the
//! product grows multiplicatively, generation is guarded by a fixed size
//! ceiling; a request whose product would exceed it is rejected with
//! [`SuggestError::CombinationSpaceTooLarge`] instead of hanging.

use vstd::prelude::*;

use crate::model::SuggestError;
use crate::scoring::ScoredEntry;

verus! {

/// Hard ceiling on the number of generated combinations.
pub const MAX_COMBINATIONS: usize = 4096;

/// All extensions of the single combination `c` by one option each, in
/// option order.
pub open spec fn extend_one(c: Seq<ScoredEntry>, opts: Seq<ScoredEntry>) -> Seq<Seq<ScoredEntry>>
    decreases opts.len(),
{
    if opts.len() == 0 {
        Seq::empty()
    } else {
        extend_one(c, opts.drop_last()).push(c.push(opts.last()))
    }
}

/// All extensions of each of `combos` by one option each: combination-major,
/// option-minor order.
pub open spec fn extend_all(
    combos: Seq<Seq<ScoredEntry>>,
    opts: Seq<ScoredEntry>,
) -> Seq<Seq<ScoredEntry>>
    decreases combos.len(),
{
    if combos.len() == 0 {
        Seq::empty()
    } else {
        extend_all(combos.drop_last(), opts) + extend_one(combos.last(), opts)
    }
}

/// The Cartesian product of the candidate lists: every way of choosing one
/// entry from each list, in row-major order with the last list varying
/// fastest.
pub open spec fn cartesian(lists: Seq<Seq<ScoredEntry>>) -> Seq<Seq<ScoredEntry>>
    decreases lists.len(),
{
    if lists.len() == 0 {
        seq![Seq::empty()]
    } else {
        extend_all(cartesian(lists.drop_last()), lists.last())
    }
}

/// The product of the list lengths.
pub open spec fn product_of(lists: Seq<Seq<ScoredEntry>>) -> nat
    decreases lists.len(),
{
    if lists.len() == 0 {
        1
    } else {
        product_of(lists.drop_last()) * lists.last().len()
    }
}

proof fn lemma_extend_one_len(c: Seq<ScoredEntry>, opts: Seq<ScoredEntry>)
    ensures
        extend_one(c, opts).len() == opts.len(),
    decreases opts.len(),
{
    if opts.len() > 0 {
        lemma_extend_one_len(c, opts.drop_last());
    }
}

proof fn lemma_extend_all_len(combos: Seq<Seq<ScoredEntry>>, opts: Seq<ScoredEntry>)
    ensures
        extend_all(combos, opts).len() == combos.len() * opts.len(),
    decreases combos.len(),
{
    if combos.len() > 0 {
        lemma_extend_all_len(combos.drop_last(), opts);
        lemma_extend_one_len(combos.last(), opts);
        assert((combos.len() - 1) * opts.len() + opts.len() == combos.len() * opts.len())
            by (nonlinear_arith);
    } else {
        assert(combos.len() * opts.len() == 0) by (nonlinear_arith)
            requires
                combos.len() == 0,
        ;
    }
}

/// Combination completeness: the number of combinations equals the product
/// of the candidate-list sizes (so it is zero as soon as one list is
/// empty).
pub proof fn lemma_combination_count(lists: Seq<Seq<ScoredEntry>>)
    ensures
        cartesian(lists).len() == product_of(lists),
    decreases lists.len(),
{
    if lists.len() > 0 {
        lemma_combination_count(lists.drop_last());
        lemma_extend_all_len(cartesian(lists.drop_last()), lists.last());
    }
}

/// Every generated combination picks exactly one entry from each candidate
/// list, in list order.
pub proof fn lemma_cartesian_members(lists: Seq<Seq<ScoredEntry>>)
    ensures
        forall|m: int|
            0 <= m < cartesian(lists).len() ==> (#[trigger] cartesian(lists)[m]).len()
                == lists.len(),
        forall|m: int, j: int|
            0 <= m < cartesian(lists).len() && 0 <= j < lists.len() ==> lists[j].contains(
                #[trigger] cartesian(lists)[m][j],
            ),
    decreases lists.len(),
{
    if lists.len() > 0 {
        lemma_cartesian_members(lists.drop_last());
        lemma_extend_all_members(cartesian(lists.drop_last()), lists.last(), lists);
    }
}

/// Helper: extending suitable partial combinations with options drawn
/// from the last list yields suitable full combinations.
proof fn lemma_extend_all_members(
    combos: Seq<Seq<ScoredEntry>>,
    opts: Seq<ScoredEntry>,
    lists: Seq<Seq<ScoredEntry>>,
)
    requires
        lists.len() > 0,
        forall|q: int| 0 <= q < opts.len() ==> lists.last().contains(#[trigger] opts[q]),
        forall|m: int| 0 <= m < combos.len() ==> (#[trigger] combos[m]).len() == lists.len() - 1,
        forall|m: int, j: int|
            0 <= m < combos.len() && 0 <= j < lists.len() - 1 ==> lists[j].contains(
                #[trigger] combos[m][j],
            ),
    ensures
        forall|m: int|
            0 <= m < extend_all(combos, opts).len() ==> (#[trigger] extend_all(combos, opts)[m]).len()
                == lists.len(),
        forall|m: int, j: int|
            0 <= m < extend_all(combos, opts).len() && 0 <= j < lists.len() ==> lists[j].contains(
                #[trigger] extend_all(combos, opts)[m][j],
            ),
    decreases combos.len(),
{
    if combos.len() > 0 {
        lemma_extend_all_members(combos.drop_last(), opts, lists);
        lemma_extend_one_members(combos.last(), opts, lists);
        let whole = extend_all(combos, opts);
        let left = extend_all(combos.drop_last(), opts);
        let right = extend_one(combos.last(), opts);
        assert forall|m: int| 0 <= m < whole.len() implies (#[trigger] whole[m]).len()
            == lists.len() by {
            if m < left.len() {
                assert(whole[m] == left[m]);
            } else {
                assert(whole[m] == right[m - left.len()]);
            }
        }
        assert forall|m: int, j: int|
            0 <= m < whole.len() && 0 <= j < lists.len() implies lists[j].contains(
            #[trigger] whole[m][j],
        ) by {
            if m < left.len() {
                assert(whole[m] == left[m]);
            } else {
                assert(whole[m] == right[m - left.len()]);
            }
        }
    }
}

/// Helper: every extension of one suitable partial combination is a
/// suitable full combination.
proof fn lemma_extend_one_members(
    c: Seq<ScoredEntry>,
    opts: Seq<ScoredEntry>,
    lists: Seq<Seq<ScoredEntry>>,
)
    requires
        lists.len() > 0,
        forall|q: int| 0 <= q < opts.len() ==> lists.last().contains(#[trigger] opts[q]),
        c.len() == lists.len() - 1,
        forall|j: int| 0 <= j < lists.len() - 1 ==> lists[j].contains(#[trigger] c[j]),
    ensures
        forall|m: int|
            0 <= m < extend_one(c, opts).len() ==> (#[trigger] extend_one(c, opts)[m]).len()
                == lists.len(),
        forall|m: int, j: int|
            0 <= m < extend_one(c, opts).len() && 0 <= j < lists.len() ==> lists[j].contains(
                #[trigger] extend_one(c, opts)[m][j],
            ),
    decreases opts.len(),
{
    if opts.len() > 0 {
        lemma_extend_one_members(c, opts.drop_last(), lists);
        let whole = extend_one(c, opts);
        let prev = extend_one(c, opts.drop_last());
        let ext = c.push(opts.last());
        assert(lists.last().contains(opts.last()));
        assert forall|m: int| 0 <= m < whole.len() implies (#[trigger] whole[m]).len()
            == lists.len() by {
            if m < prev.len() {
                assert(whole[m] == prev[m]);
            } else {
                assert(whole[m] == ext);
            }
        }
        assert forall|m: int, j: int|
            0 <= m < whole.len() && 0 <= j < lists.len() implies lists[j].contains(
            #[trigger] whole[m][j],
        ) by {
            if m < prev.len() {
                assert(whole[m] == prev[m]);
            } else {
                assert(whole[m] == ext);
                if j < lists.len() - 1 {
                    assert(ext[j] == c[j]);
                } else {
                    assert(ext[j] == opts.last());
                }
            }
        }
    }
}

/// If one candidate list is empty, there is no combination at all.
pub proof fn lemma_empty_list_no_combos(lists: Seq<Seq<ScoredEntry>>, j: int)
    requires
        0 <= j < lists.len(),
        lists[j].len() == 0,
    ensures
        product_of(lists) == 0,
        cartesian(lists).len() == 0,
    decreases lists.len(),
{
    lemma_combination_count(lists);
    if j == lists.len() - 1 {
        assert(product_of(lists.drop_last()) * lists.last().len() == 0) by (nonlinear_arith)
            requires
                lists.last().len() == 0,
        ;
    } else {
        lemma_empty_list_no_combos(lists.drop_last(), j);
        assert(lists.drop_last()[j] == lists[j]);
        assert(0 * lists.last().len() == 0) by (nonlinear_arith);
    }
}

/// With only non-empty candidate lists, the product of the lengths is
/// positive.
pub proof fn lemma_product_pos(lists: Seq<Seq<ScoredEntry>>)
    requires
        forall|j: int| 0 <= j < lists.len() ==> (#[trigger] lists[j]).len() > 0,
    ensures
        product_of(lists) >= 1,
    decreases lists.len(),
{
    if lists.len() > 0 {
        lemma_product_pos(lists.drop_last());
        assert(product_of(lists.drop_last()) * lists.last().len() >= 1) by (nonlinear_arith)
            requires
                product_of(lists.drop_last()) >= 1,
                lists.last().len() >= 1,
        ;
    }
}

/// With only non-empty candidate lists, the product over a prefix never
/// exceeds the product over the whole.
proof fn lemma_product_prefix(lists: Seq<Seq<ScoredEntry>>, i: int)
    requires
        0 <= i <= lists.len(),
        forall|j: int| 0 <= j < lists.len() ==> (#[trigger] lists[j]).len() > 0,
    ensures
        product_of(lists.subrange(0, i)) <= product_of(lists),
    decreases lists.len() - i,
{
    if i == lists.len() {
        assert(lists.subrange(0, i) =~= lists);
    } else {
        lemma_product_prefix(lists, i + 1);
        let a = lists.subrange(0, i);
        let b = lists.subrange(0, i + 1);
        assert(b.drop_last() =~= a);
        assert(b.last() == lists[i]);
        assert(product_of(a) <= product_of(a) * b.last().len()) by (nonlinear_arith)
            requires
                b.last().len() >= 1,
                product_of(a) >= 0,
        ;
    }
}

/// Copy a combination (entries are plain values).
fn copy_combo(c: &Vec<ScoredEntry>) -> (r: Vec<ScoredEntry>)
    ensures
        r@ == c@,
{
    let mut r: Vec<ScoredEntry> = Vec::new();
    let mut j: usize = 0;
    while j < c.len()
        invariant
            j <= c.len(),
            r@ =~= c@.subrange(0, j as int),
        decreases c.len() - j,
    {
        r.push(c[j]);
        assert(c@.subrange(0, (j + 1) as int) =~= c@.subrange(0, j as int).push(c@[j as int]));
        j = j + 1;
    }
    assert(r@ =~= c@);
    r
}

/// Generate every combination of one candidate per list, or reject the
/// request when the combination space exceeds [`MAX_COMBINATIONS`].
pub fn combinations(lists: &Vec<Vec<ScoredEntry>>) -> (r: Result<
    Vec<Vec<ScoredEntry>>,
    SuggestError,
>)
    ensures
        match r {
            Ok(cs) => product_of(lists.deep_view()) <= MAX_COMBINATIONS && cs.deep_view()
                == cartesian(lists.deep_view()),
            Err(e) => e == SuggestError::CombinationSpaceTooLarge && product_of(lists.deep_view())
                > MAX_COMBINATIONS,
        },
{
    let ghost lv = lists.deep_view();
    // A single empty candidate list empties the whole product.
    let mut i: usize = 0;
    while i < lists.len()
        invariant
            i <= lists.len(),
            lv == lists.deep_view(),
            forall|j: int| 0 <= j < i ==> (#[trigger] lv[j]).len() > 0,
        decreases lists.len() - i,
    {
        if lists[i].len() == 0 {
            proof {
                lemma_empty_list_no_combos(lv, i as int);
            }
            let empty: Vec<Vec<ScoredEntry>> = Vec::new();
            assert(empty.deep_view() =~~= cartesian(lv));
            return Ok(empty);
        }
        i = i + 1;
    }
    // All lists are non-empty: partial products grow monotonically, so the
    // ceiling check may stop at the first prefix that exceeds it.
    let mut prod: usize = 1;
    let mut i: usize = 0;
    while i < lists.len()
        invariant
            i <= lists.len(),
            lv == lists.deep_view(),
            forall|j: int| 0 <= j < lv.len() ==> (#[trigger] lv[j]).len() > 0,
            prod == product_of(lv.subrange(0, i as int)),
            prod <= MAX_COMBINATIONS,
        decreases lists.len() - i,
    {
        let n = lists[i].len();
        proof {
            assert((prod as u128) * (n as u128) <= 4096u128 * 0xFFFF_FFFF_FFFF_FFFFu128)
                by (nonlinear_arith)
                requires
                    prod <= 4096,
                    n as u128 <= 0xFFFF_FFFF_FFFF_FFFFu128,
            ;
        }
        let wide: u128 = (prod as u128) * (n as u128);
        proof {
            assert(lv.subrange(0, (i + 1) as int).drop_last() =~= lv.subrange(0, i as int));
            assert(lv.subrange(0, (i + 1) as int).last() == lv[i as int]);
        }
        if wide > MAX_COMBINATIONS as u128 {
            proof {
                lemma_product_prefix(lv, (i + 1) as int);
            }
            return Err(SuggestError::CombinationSpaceTooLarge);
        }
        prod = wide as usize;
        i = i + 1;
    }
    assert(lv.subrange(0, lists.len() as int) =~= lv);
    // Generate, list by list; after list `i` the accumulator holds the
    // product of the first `i` lists.
    let mut acc: Vec<Vec<ScoredEntry>> = Vec::new();
    acc.push(Vec::new());
    assert(acc.deep_view() =~~= cartesian(lv.subrange(0, 0)));
    let mut i: usize = 0;
    while i < lists.len()
        invariant
            i <= lists.len(),
            lv == lists.deep_view(),
            acc.deep_view() =~~= cartesian(lv.subrange(0, i as int)),
        decreases lists.len() - i,
    {
        let ghost prev = cartesian(lv.subrange(0, i as int));
        let opts = &lists[i];
        let mut next: Vec<Vec<ScoredEntry>> = Vec::new();
        let mut a: usize = 0;
        while a < acc.len()
            invariant
                a <= acc.len(),
                acc.deep_view() == prev,
                opts@ == lv[i as int],
                i < lists.len(),
                lv == lists.deep_view(),
                next.deep_view() =~~= extend_all(prev.subrange(0, a as int), opts@),
            decreases acc.len() - a,
        {
            let c = &acc[a];
            assert(c@ =~= prev[a as int]);
            let mut q: usize = 0;
            while q < opts.len()
                invariant
                    q <= opts.len(),
                    a < acc.len(),
                    acc.deep_view() == prev,
                    c@ == prev[a as int],
                    c == &acc[a as int],
                    next.deep_view() =~~= extend_all(prev.subrange(0, a as int), opts@)
                        + extend_one(prev[a as int], opts@.subrange(0, q as int)),
                decreases opts.len() - q,
            {
                let mut ext = copy_combo(c);
                ext.push(opts[q]);
                let ghost old_next = next.deep_view();
                next.push(ext);
                proof {
                    assert(ext.deep_view() =~= prev[a as int].push(opts@[q as int]));
                    assert(next.deep_view() =~~= old_next.push(ext.deep_view()));
                    let sub1 = opts@.subrange(0, (q + 1) as int);
                    assert(sub1.drop_last() =~= opts@.subrange(0, q as int));
                    assert(sub1.last() == opts@[q as int]);
                }
                q = q + 1;
            }
            proof {
                assert(opts@.subrange(0, opts.len() as int) =~= opts@);
                let sub = prev.subrange(0, (a + 1) as int);
                assert(sub.drop_last() =~= prev.subrange(0, a as int));
                assert(sub.last() == prev[a as int]);
                assert(next.deep_view() =~~= extend_all(prev.subrange(0, (a + 1) as int), opts@));
            }
            a = a + 1;
        }
        proof {
            assert(prev.subrange(0, acc.len() as int) =~= prev);
            let sub = lv.subrange(0, (i + 1) as int);
            assert(sub.drop_last() =~= lv.subrange(0, i as int));
            assert(sub.last() == lv[i as int]);
            assert(next.deep_view() =~~= cartesian(lv.subrange(0, (i + 1) as int)));
        }
        acc = next;
        i = i + 1;
    }
    assert(lv.subrange(0, lists.len() as int) =~= lv);
    Ok(acc)
}

} // verus!
