//! Helpers of the conversational layer around the assistant: splitting
//! document text into fixed-size chunks, and maintaining a bounded window
//! of conversational context.

use vstd::prelude::*;
use vstd::string::StrSliceExecFns;

verus! {

/// Split a text into consecutive chunks of `chunk_size` characters each;
/// the last chunk holds whatever remains and may be shorter. Every
/// character of the text ends up in exactly one chunk, in order.
pub fn split_text_into_chunks(text: &str, chunk_size: usize) -> (r: Vec<String>)
    requires
        chunk_size > 0,
    ensures
        r.deep_view().len() == (text@.len() + chunk_size - 1) / (chunk_size as int),
        forall|k: int|
            0 <= k < r.deep_view().len() ==> #[trigger] r.deep_view()[k] == text@.subrange(
                k * (chunk_size as int),
                if (k + 1) * (chunk_size as int) <= text@.len() {
                    (k + 1) * (chunk_size as int)
                } else {
                    text@.len() as int
                },
            ),
{
    let n = text.unicode_len();
    let mut r: Vec<String> = Vec::new();
    proof {
        assert(r.deep_view().len() * (chunk_size as int) == 0) by (nonlinear_arith)
            requires
                r.deep_view().len() == 0,
        ;
    }
    let mut i: usize = 0;
    while i < n
        invariant
            i <= n,
            n == text@.len(),
            chunk_size > 0,
            i == r.deep_view().len() * (chunk_size as int) || (i == n && n <= r.deep_view().len()
                * (chunk_size as int) < n + chunk_size),
            i < n ==> i == r.deep_view().len() * (chunk_size as int),
            forall|k: int|
                0 <= k < r.deep_view().len() ==> #[trigger] r.deep_view()[k] == text@.subrange(
                    k * (chunk_size as int),
                    if (k + 1) * (chunk_size as int) <= n {
                        (k + 1) * (chunk_size as int)
                    } else {
                        n as int
                    },
                ),
        decreases n - i,
    {
        let end: usize = if n - i < chunk_size {
            n
        } else {
            i + chunk_size
        };
        let chunk = text.substring_char(i, end).to_owned();
        let ghost old_r = r.deep_view();
        let ghost k = r.deep_view().len() as int;
        r.push(chunk);
        proof {
            assert(r.deep_view() =~= old_r.push(chunk@));
            assert(k * (chunk_size as int) == i);
            assert((k + 1) * (chunk_size as int) == i + chunk_size) by (nonlinear_arith)
                requires
                    k * (chunk_size as int) == i,
            ;
            assert forall|k2: int| 0 <= k2 < r.deep_view().len() implies #[trigger] r.deep_view()[k2]
                == text@.subrange(
                k2 * (chunk_size as int),
                if (k2 + 1) * (chunk_size as int) <= n {
                    (k2 + 1) * (chunk_size as int)
                } else {
                    n as int
                },
            ) by {
                if k2 < k {
                    assert(r.deep_view()[k2] == old_r[k2]);
                } else {
                    assert(r.deep_view()[k2] == chunk@);
                }
            }
        }
        i = end;
    }
    proof {
        let m = r.deep_view().len() as int;
        let c = chunk_size as int;
        if n == 0 {
            assert(m == 0) by (nonlinear_arith)
                requires
                    c > 0,
                    m >= 0,
                    m * c == 0 || 0 <= m * c < c,
            ;
            assert((0 + c - 1) / c == 0) by (nonlinear_arith)
                requires
                    c > 0,
            ;
        } else {
            assert(n <= m * c < n + c);
            assert(m == (n + c - 1) / c) by (nonlinear_arith)
                requires
                    c > 0,
                    n <= m * c < n + c,
                    n >= 1,
            ;
        }
    }
    r
}

/// Append the newest response to the conversational context, first
/// dropping the oldest entry when the window has already reached
/// `max_context_length`: the window keeps the most recent responses.
pub fn maintain_conversational_context(
    response: String,
    context_history: std::collections::VecDeque<String>,
    max_context_length: usize,
) -> (r: std::collections::VecDeque<String>)
    ensures
        context_history@.len() < max_context_length ==> r@ == context_history@.push(response),
        context_history@.len() >= max_context_length && context_history@.len() > 0 ==> r@
            == context_history@.drop_first().push(response),
        context_history@.len() == 0 && max_context_length == 0 ==> r@ == seq![response],
{
    let mut history = context_history;
    if history.len() >= max_context_length {
        let _ = history.pop_front();
    }
    history.push_back(response);
    proof {
        if context_history@.len() == 0 && max_context_length == 0 {
            assert(history@ =~= seq![response]);
        }
    }
    history
}

} // verus!
