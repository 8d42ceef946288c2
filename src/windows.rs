//! Fixed-width windows over a half-open range of row keys.
use vstd::prelude::*;

verus! {

/// The upper bound of the window that starts at `low`.
pub open spec fn window_end(low: u64, stop: u64, step: u64) -> u64 {
    if stop - low > step {
        (low + step) as u64
    } else {
        stop
    }
}

/// The windows of width `step` that cover `[low, stop)`, in order.
pub open spec fn window_seq(low: u64, stop: u64, step: u64) -> Seq<(u64, u64)>
    decreases stop - low,
{
    if low >= stop || step == 0 {
        Seq::empty()
    } else {
        seq![(low, window_end(low, stop, step))].add(window_seq(window_end(low, stop, step), stop, step))
    }
}

/// The windows tile `[start, stop)`: the first starts at `start`, each one is
/// non-empty and at most `step` wide, each starts where the one before ended,
/// and the last ends at `stop`.
pub open spec fn tiles(w: Seq<(u64, u64)>, start: u64, stop: u64, step: u64) -> bool {
    &&& (start == stop <==> w.len() == 0)
    &&& w.len() > 0 ==> w[0].0 == start && w[w.len() - 1].1 == stop
    &&& forall|i: int| 0 <= i < w.len() ==> w[i].0 < w[i].1 && w[i].1 - w[i].0 <= step && w[i].1
        <= stop
    &&& forall|i: int| 0 <= i < w.len() - 1 ==> #[trigger] w[i + 1].0 == w[i].1
}

/// For every `low <= stop` and `step > 0` the windows tile `[low, stop)`.
pub proof fn lemma_window_seq_tiles(low: u64, stop: u64, step: u64)
    requires
        low <= stop,
        step > 0,
    ensures
        tiles(window_seq(low, stop, step), low, stop, step),
    decreases stop - low,
{
    if low < stop {
        let e = window_end(low, stop, step);
        lemma_window_seq_tiles(e, stop, step);
        let rest = window_seq(e, stop, step);
        let w = window_seq(low, stop, step);
        assert(w == seq![(low, e)].add(rest));
        assert forall|i: int| 0 <= i < w.len() - 1 implies #[trigger] w[i + 1].0 == w[i].1 by {
            if i > 0 {
                assert(w[i] == rest[i - 1]);
                assert(w[i + 1] == rest[i]);
                assert(rest[(i - 1) + 1].0 == rest[i - 1].1);
            } else {
                let e2 = window_end(e, stop, step);
                assert(rest == seq![(e, e2)].add(window_seq(e2, stop, step)));
                assert(w[1] == rest[0]);
            }
        }
        assert forall|i: int| 0 <= i < w.len() implies w[i].0 < w[i].1 && w[i].1 - w[i].0 <= step
            && w[i].1 <= stop by {
            if i > 0 {
                assert(w[i] == rest[i - 1]);
            }
        }
    }
}

/// There are as many windows as `step` goes into `stop - low`, rounded up.
pub proof fn lemma_window_count(low: u64, stop: u64, step: u64)
    requires
        low <= stop,
        step > 0,
    ensures
        window_seq(low, stop, step).len() == (stop - low + step - 1) / (step as int),
    decreases stop - low,
{
    let d = stop - low;
    if low < stop {
        let e = window_end(low, stop, step);
        lemma_window_count(e, stop, step);
        if d > step {
            vstd::arithmetic::div_mod::lemma_div_plus_one(d - 1, step as int);
            assert(stop - e + step - 1 == d - 1);
            assert(d + step - 1 == step + (d - 1));
        } else {
            assert(stop - e + step - 1 == step - 1);
            vstd::arithmetic::div_mod::lemma_basic_div(step - 1, step as int);
            vstd::arithmetic::div_mod::lemma_basic_div(d - 1, step as int);
            vstd::arithmetic::div_mod::lemma_div_plus_one(d - 1, step as int);
            assert(d + step - 1 == step + (d - 1));
        }
    } else {
        vstd::arithmetic::div_mod::lemma_basic_div(step - 1, step as int);
    }
}

/// The window that starts at `low`, or `None` once `low` has reached `stop`.
pub fn next_window(low: u64, stop: u64, step: u64) -> (r: Option<(u64, u64)>)
    requires
        step > 0,
    ensures
        low >= stop ==> r is None,
        low < stop ==> r == Some((low, window_end(low, stop, step))),
{
    if low >= stop {
        None
    } else if stop - low > step {
        Some((low, low + step))
    } else {
        Some((low, stop))
    }
}

/// Splits `[start, stop)` into consecutive windows of width at most `step`.
pub fn windows(start: u64, stop: u64, step: u64) -> (r: Vec<(u64, u64)>)
    requires
        start <= stop,
        step > 0,
    ensures
        r@ == window_seq(start, stop, step),
        tiles(r@, start, stop, step),
        r@.len() == (stop - start + step - 1) / (step as int),
{
    let mut out: Vec<(u64, u64)> = Vec::new();
    let mut low: u64 = start;
    let mut done = false;
    while !done
        invariant
            start <= low <= stop,
            step > 0,
            out@.add(window_seq(low, stop, step)) == window_seq(start, stop, step),
            done ==> low == stop,
        decreases stop - low + if done { 0int } else { 1int },
    {
        match next_window(low, stop, step) {
            None => {
                done = true;
            },
            Some(w) => {
                let ghost before = out@;
                out.push(w);
                proof {
                    assert(window_seq(low, stop, step) == seq![w].add(
                        window_seq(w.1, stop, step),
                    ));
                    assert(before.add(seq![w].add(window_seq(w.1, stop, step))) == out@.add(
                        window_seq(w.1, stop, step),
                    ));
                }
                low = w.1;
            },
        }
    }
    proof {
        assert(out@.add(window_seq(low, stop, step)) == out@);
        lemma_window_seq_tiles(start, stop, step);
        lemma_window_count(start, stop, step);
    }
    out
}

} // verus!
