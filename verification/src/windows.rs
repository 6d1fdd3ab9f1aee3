use vstd::prelude::*;

verus! {

/// The window of `period` prices that starts at `start`.
pub open spec fn window<T>(prices: Seq<T>, start: int, period: int) -> Seq<T> {
    prices.subrange(start, start + period)
}

/// How many windows of `period` prices fit in `len` prices.
pub open spec fn window_count(len: int, period: int) -> int {
    len - period + 1
}

/// `r` is a result of `envelope` on the window of `period` prices that starts
/// at `start`.
pub open spec fn result_on_window<T, R, F: Fn(&[T]) -> R>(
    envelope: F,
    prices: Seq<T>,
    start: int,
    period: int,
    r: R,
) -> bool {
    exists|w: &[T]| w@ == window(prices, start, period) && #[trigger] call_ensures(envelope, (w,), r)
}

/// `out` holds, in order, a result of `envelope` on each window of `period`
/// prices.
pub open spec fn rolled<T, R, F: Fn(&[T]) -> R>(
    envelope: F,
    prices: Seq<T>,
    period: int,
    out: Seq<R>,
) -> bool {
    &&& out.len() == window_count(prices.len() as int, period)
    &&& forall|i: int|
        0 <= i < out.len() ==> #[trigger] result_on_window(envelope, prices, i, period, out[i])
}

/// `envelope` may be called on every window of `period` prices.
pub open spec fn callable_on_windows<T, R, F: Fn(&[T]) -> R>(
    envelope: F,
    prices: Seq<T>,
    period: int,
) -> bool {
    forall|i: int, w: &[T]|
        #![trigger window(prices, i, period), call_requires(envelope, (w,))]
        0 <= i < window_count(prices.len() as int, period) && w@ == window(prices, i, period)
            ==> call_requires(envelope, (w,))
}

/// `envelope` gives one result only for each slice it is called on.
pub open spec fn determined<T, R, F: Fn(&[T]) -> R>(envelope: F) -> bool {
    forall|w: &[T], r1: R, r2: R|
        #[trigger] call_ensures(envelope, (w,), r1) && #[trigger] call_ensures(envelope, (w,), r2)
            ==> r1 == r2
}

/// Applies `envelope` to every window of `period` consecutive prices, from the
/// window that starts at the first price to the one that ends at the last.
pub fn rolling_envelopes<T, R, F: Fn(&[T]) -> R>(prices: &[T], period: usize, envelope: F) -> (out:
    Vec<R>)
    requires
        0 < period <= prices@.len(),
        callable_on_windows(envelope, prices@, period as int),
    ensures
        rolled(envelope, prices@, period as int, out@),
        out@.len() == prices@.len() - period + 1,
        forall|i: int, w: &[T]|
            0 <= i < out@.len() && w@ =~= prices@.subrange(i, i + period) ==> #[trigger] call_ensures(
                envelope,
                (w,),
                out@[i],
            ),
{
    let length = prices.len();
    let loop_max = length - period + 1;
    let mut out: Vec<R> = Vec::new();
    for i in 0..loop_max
        invariant
            loop_max == prices@.len() - period + 1,
            length == prices@.len(),
            0 < period <= prices@.len(),
            callable_on_windows(envelope, prices@, period as int),
            out@.len() == i,
            forall|k: int|
                0 <= k < i ==> #[trigger] result_on_window(
                    envelope,
                    prices@,
                    k,
                    period as int,
                    out@[k],
                ),
    {
        assert(i + period <= prices@.len());
        let w = vstd::slice::slice_subrange(prices, i, i + period);
        assert(w@ == window(prices@, i as int, period as int));
        let r = envelope(w);
        let ghost prev = out@;
        out.push(r);
        assert forall|k: int| 0 <= k < i + 1 implies #[trigger] result_on_window(
            envelope,
            prices@,
            k,
            period as int,
            out@[k],
        ) by {
            if k < i {
                assert(out@[k] == prev[k]);
            }
        }
    }
    proof {
        lemma_rolled_meaning(envelope, prices@, period as int, out@);
    }
    out
}

/// The previous value handed to the envelope of window `i`: `previous` for the
/// first window, else the middle value of the envelope of the window before.
pub open spec fn carried<T>(previous: T, out: Seq<(T, T, T)>, i: int) -> T {
    if i == 0 {
        previous
    } else {
        out[i - 1].1
    }
}

/// `r` is a result of `envelope` on the window of `period` prices that starts
/// at `start`, handed `previous`.
pub open spec fn chain_result_on_window<T, F: Fn(&[T], T) -> (T, T, T)>(
    envelope: F,
    prices: Seq<T>,
    start: int,
    period: int,
    previous: T,
    r: (T, T, T),
) -> bool {
    exists|w: &[T]|
        w@ == window(prices, start, period) && #[trigger] call_ensures(envelope, (w, previous), r)
}

/// `out` holds, in order, a result of `envelope` on each window of `period`
/// prices, each call handed the middle value of the envelope before it, and the
/// first call handed `previous`.
pub open spec fn chained<T, F: Fn(&[T], T) -> (T, T, T)>(
    envelope: F,
    prices: Seq<T>,
    period: int,
    previous: T,
    out: Seq<(T, T, T)>,
) -> bool {
    &&& out.len() == window_count(prices.len() as int, period)
    &&& forall|i: int|
        0 <= i < out.len() ==> #[trigger] chain_result_on_window(
            envelope,
            prices,
            i,
            period,
            carried(previous, out, i),
            out[i],
        )
}

/// `envelope` may be called on every window of `period` prices with any
/// previous value.
pub open spec fn chain_callable_on_windows<T, F: Fn(&[T], T) -> (T, T, T)>(
    envelope: F,
    prices: Seq<T>,
    period: int,
) -> bool {
    forall|i: int, w: &[T], p: T|
        #![trigger window(prices, i, period), call_requires(envelope, (w, p))]
        0 <= i < window_count(prices.len() as int, period) && w@ == window(prices, i, period)
            ==> call_requires(envelope, (w, p))
}

/// `envelope` gives one result only for each slice and previous value it is
/// called on.
pub open spec fn chain_determined<T, F: Fn(&[T], T) -> (T, T, T)>(envelope: F) -> bool {
    forall|w: &[T], p: T, r1: (T, T, T), r2: (T, T, T)|
        #[trigger] call_ensures(envelope, (w, p), r1) && #[trigger] call_ensures(
            envelope,
            (w, p),
            r2,
        ) ==> r1 == r2
}

/// Applies `envelope` to every window of `period` consecutive prices in order,
/// handing the first call `previous` and each later call the middle value of
/// the envelope computed just before it.
pub fn chained_envelopes<T: Copy, F: Fn(&[T], T) -> (T, T, T)>(
    prices: &[T],
    period: usize,
    previous: T,
    envelope: F,
) -> (out: Vec<(T, T, T)>)
    requires
        0 < period <= prices@.len(),
        chain_callable_on_windows(envelope, prices@, period as int),
    ensures
        chained(envelope, prices@, period as int, previous, out@),
        out@.len() == prices@.len() - period + 1,
        forall|w: &[T]|
            w@ =~= prices@.subrange(0, period as int) ==> #[trigger] call_ensures(
                envelope,
                (w, previous),
                out@[0],
            ),
        forall|i: int, w: &[T]|
            1 <= i < out@.len() && w@ =~= prices@.subrange(i, i + period) ==> #[trigger] call_ensures(
                envelope,
                (w, out@[i - 1].1),
                out@[i],
            ),
{
    let length = prices.len();
    let loop_max = length - period + 1;
    let mut out: Vec<(T, T, T)> = Vec::new();
    let mut carry: T = previous;
    for i in 0..loop_max
        invariant
            loop_max == prices@.len() - period + 1,
            length == prices@.len(),
            0 < period <= prices@.len(),
            chain_callable_on_windows(envelope, prices@, period as int),
            out@.len() == i,
            carry == carried(previous, out@, i as int),
            forall|k: int|
                0 <= k < i ==> #[trigger] chain_result_on_window(
                    envelope,
                    prices@,
                    k,
                    period as int,
                    carried(previous, out@, k),
                    out@[k],
                ),
    {
        assert(i + period <= prices@.len());
        let w = vstd::slice::slice_subrange(prices, i, i + period);
        assert(w@ == window(prices@, i as int, period as int));
        let r = envelope(w, carry);
        let ghost prev = out@;
        out.push(r);
        assert forall|k: int| 0 <= k < i + 1 implies #[trigger] chain_result_on_window(
            envelope,
            prices@,
            k,
            period as int,
            carried(previous, out@, k),
            out@[k],
        ) by {
            if k < i {
                assert(out@[k] == prev[k]);
                assert(carried(previous, out@, k) == carried(previous, prev, k));
            } else {
                assert(carried(previous, out@, k) == carry);
            }
        }
        carry = r.1;
    }
    proof {
        lemma_chained_meaning(envelope, prices@, period as int, previous, out@);
    }
    out
}

/// The most recent price together with the number of prices.
pub open spec fn latest<T>(prices: Seq<T>) -> (T, usize) {
    (prices.last(), prices.len() as usize)
}

/// The most recent price and the number of prices.
pub fn latest_price<T: Copy>(prices: &[T]) -> (res: (T, usize))
    requires
        prices@.len() > 0,
    ensures
        res == latest(prices@),
        res.0 == prices@[prices@.len() - 1],
        res.1 == prices@.len(),
{
    let length = prices.len();
    (prices[length - 1], length)
}

/// Two non-empty runs of prices with the same length and the same last price
/// have the same latest price and count: nothing else of the prices reaches
/// the single McGinley envelope.
pub proof fn lemma_latest_depends_on_last_and_length<T>(a: Seq<T>, b: Seq<T>)
    requires
        a.len() == b.len(),
        a.len() > 0,
        a.last() == b.last(),
    ensures
        latest(a) == latest(b),
{
}

/// For an envelope that gives one result only per slice, there is one rolling
/// outcome: two rollings over the same prices and period are equal.
pub proof fn lemma_rolled_unique<T, R, F: Fn(&[T]) -> R>(
    envelope: F,
    prices: Seq<T>,
    period: int,
    out1: Seq<R>,
    out2: Seq<R>,
)
    requires
        determined(envelope),
        rolled(envelope, prices, period, out1),
        rolled(envelope, prices, period, out2),
    ensures
        out1 == out2,
{
    assert forall|i: int| 0 <= i < out1.len() implies out1[i] == out2[i] by {
        assert(result_on_window(envelope, prices, i, period, out1[i]));
        assert(result_on_window(envelope, prices, i, period, out2[i]));
        let w1 = choose|w: &[T]|
            w@ == window(prices, i, period) && #[trigger] call_ensures(envelope, (w,), out1[i]);
        let w2 = choose|w: &[T]|
            w@ == window(prices, i, period) && #[trigger] call_ensures(envelope, (w,), out2[i]);
        assert(w1 =~= w2);
    }
    assert(out1 =~= out2);
}

/// The first `n` envelopes of two chains over the same prices, period and
/// previous value agree, for an envelope that gives one result only.
proof fn lemma_chained_agree_upto<T, F: Fn(&[T], T) -> (T, T, T)>(
    envelope: F,
    prices: Seq<T>,
    period: int,
    previous: T,
    out1: Seq<(T, T, T)>,
    out2: Seq<(T, T, T)>,
    n: int,
)
    requires
        chain_determined(envelope),
        chained(envelope, prices, period, previous, out1),
        chained(envelope, prices, period, previous, out2),
        0 <= n <= out1.len(),
    ensures
        forall|i: int| 0 <= i < n ==> out1[i] == out2[i],
    decreases n,
{
    if n > 0 {
        lemma_chained_agree_upto(envelope, prices, period, previous, out1, out2, n - 1);
        let i = n - 1;
        assert(carried(previous, out1, i) == carried(previous, out2, i));
        let p = carried(previous, out1, i);
        assert(chain_result_on_window(envelope, prices, i, period, p, out1[i]));
        assert(chain_result_on_window(envelope, prices, i, period, p, out2[i]));
        let w1 = choose|w: &[T]|
            w@ == window(prices, i, period) && #[trigger] call_ensures(envelope, (w, p), out1[i]);
        let w2 = choose|w: &[T]|
            w@ == window(prices, i, period) && #[trigger] call_ensures(envelope, (w, p), out2[i]);
        assert(w1 =~= w2);
    }
}

/// For an envelope that gives one result only per slice and previous value,
/// there is one chain: two chains over the same prices, period and previous
/// value are equal.
pub proof fn lemma_chained_unique<T, F: Fn(&[T], T) -> (T, T, T)>(
    envelope: F,
    prices: Seq<T>,
    period: int,
    previous: T,
    out1: Seq<(T, T, T)>,
    out2: Seq<(T, T, T)>,
)
    requires
        chain_determined(envelope),
        chained(envelope, prices, period, previous, out1),
        chained(envelope, prices, period, previous, out2),
    ensures
        out1 == out2,
{
    lemma_chained_agree_upto(envelope, prices, period, previous, out1, out2, out1.len() as int);
    assert(out1 =~= out2);
}

/// Rolling over the prices from the `k`-th on gives the envelopes from the
/// `k`-th on: dropping old prices drops their windows and changes no other.
pub proof fn lemma_rolled_skip<T, R, F: Fn(&[T]) -> R>(
    envelope: F,
    prices: Seq<T>,
    period: int,
    out: Seq<R>,
    k: int,
)
    requires
        0 < period,
        rolled(envelope, prices, period, out),
        0 <= k < out.len(),
    ensures
        rolled(envelope, prices.skip(k), period, out.skip(k)),
{
    assert forall|i: int| 0 <= i < out.skip(k).len() implies #[trigger] result_on_window(
        envelope,
        prices.skip(k),
        i,
        period,
        out.skip(k)[i],
    ) by {
        assert(window(prices.skip(k), i, period) =~= window(prices, i + k, period));
        assert(result_on_window(envelope, prices, i + k, period, out[i + k]));
    }
}

/// For an envelope that gives one result only, rolling again over the prices
/// from the `k`-th on reproduces exactly the envelopes from the `k`-th on.
pub proof fn lemma_rolled_skip_exact<T, R, F: Fn(&[T]) -> R>(
    envelope: F,
    prices: Seq<T>,
    period: int,
    out: Seq<R>,
    rest: Seq<R>,
    k: int,
)
    requires
        0 < period,
        determined(envelope),
        rolled(envelope, prices, period, out),
        rolled(envelope, prices.skip(k), period, rest),
        0 <= k < out.len(),
    ensures
        rest == out.skip(k),
{
    lemma_rolled_skip(envelope, prices, period, out, k);
    lemma_rolled_unique(envelope, prices.skip(k), period, rest, out.skip(k));
}

/// Rolling over the first `m` prices gives the first envelopes of the rolling
/// over all of them: new prices add windows and change no earlier one.
pub proof fn lemma_rolled_take<T, R, F: Fn(&[T]) -> R>(
    envelope: F,
    prices: Seq<T>,
    period: int,
    out: Seq<R>,
    m: int,
)
    requires
        0 < period <= m <= prices.len(),
        rolled(envelope, prices, period, out),
    ensures
        rolled(envelope, prices.take(m), period, out.take(window_count(m, period))),
{
    let short = out.take(window_count(m, period));
    assert forall|i: int| 0 <= i < short.len() implies #[trigger] result_on_window(
        envelope,
        prices.take(m),
        i,
        period,
        short[i],
    ) by {
        assert(window(prices.take(m), i, period) =~= window(prices, i, period));
        assert(result_on_window(envelope, prices, i, period, out[i]));
    }
}

/// A chain started from the `k`-th window with the middle value of the
/// envelope before it as its previous value gives the envelopes from the
/// `k`-th on: a chain can be resumed where it stopped.
pub proof fn lemma_chained_resume<T, F: Fn(&[T], T) -> (T, T, T)>(
    envelope: F,
    prices: Seq<T>,
    period: int,
    previous: T,
    out: Seq<(T, T, T)>,
    k: int,
)
    requires
        0 < period,
        chained(envelope, prices, period, previous, out),
        0 < k < out.len(),
    ensures
        chained(envelope, prices.skip(k), period, out[k - 1].1, out.skip(k)),
{
    assert forall|i: int| 0 <= i < out.skip(k).len() implies #[trigger] chain_result_on_window(
        envelope,
        prices.skip(k),
        i,
        period,
        carried(out[k - 1].1, out.skip(k), i),
        out.skip(k)[i],
    ) by {
        assert(window(prices.skip(k), i, period) =~= window(prices, i + k, period));
        assert(carried(out[k - 1].1, out.skip(k), i) == carried(previous, out, i + k));
        assert(chain_result_on_window(
            envelope,
            prices,
            i + k,
            period,
            carried(previous, out, i + k),
            out[i + k],
        ));
    }
}

/// For an envelope that gives one result only, a chain resumed from the
/// `k`-th window with the middle value of the envelope before it reproduces
/// exactly the envelopes from the `k`-th on.
pub proof fn lemma_chained_resume_exact<T, F: Fn(&[T], T) -> (T, T, T)>(
    envelope: F,
    prices: Seq<T>,
    period: int,
    previous: T,
    out: Seq<(T, T, T)>,
    rest: Seq<(T, T, T)>,
    k: int,
)
    requires
        0 < period,
        chain_determined(envelope),
        chained(envelope, prices, period, previous, out),
        chained(envelope, prices.skip(k), period, out[k - 1].1, rest),
        0 < k < out.len(),
    ensures
        rest == out.skip(k),
{
    lemma_chained_resume(envelope, prices, period, previous, out, k);
    lemma_chained_unique(envelope, prices.skip(k), period, out[k - 1].1, rest, out.skip(k));
}

/// Chaining over the first `m` prices gives the first envelopes of the chain
/// over all of them.
pub proof fn lemma_chained_take<T, F: Fn(&[T], T) -> (T, T, T)>(
    envelope: F,
    prices: Seq<T>,
    period: int,
    previous: T,
    out: Seq<(T, T, T)>,
    m: int,
)
    requires
        0 < period <= m <= prices.len(),
        chained(envelope, prices, period, previous, out),
    ensures
        chained(envelope, prices.take(m), period, previous, out.take(window_count(m, period))),
{
    let short = out.take(window_count(m, period));
    assert forall|i: int| 0 <= i < short.len() implies #[trigger] chain_result_on_window(
        envelope,
        prices.take(m),
        i,
        period,
        carried(previous, short, i),
        short[i],
    ) by {
        assert(window(prices.take(m), i, period) =~= window(prices, i, period));
        assert(carried(previous, short, i) == carried(previous, out, i));
        assert(chain_result_on_window(
            envelope,
            prices,
            i,
            period,
            carried(previous, out, i),
            out[i],
        ));
    }
}

/// With a period as long as the prices there is one window, all the prices,
/// and the one envelope is a result of `envelope` on them.
pub proof fn lemma_rolled_full_period<T, R, F: Fn(&[T]) -> R>(
    envelope: F,
    prices: Seq<T>,
    out: Seq<R>,
)
    requires
        prices.len() > 0,
        rolled(envelope, prices, prices.len() as int, out),
    ensures
        out.len() == 1,
        exists|w: &[T]| w@ == prices && #[trigger] call_ensures(envelope, (w,), out[0]),
{
    assert(window(prices, 0, prices.len() as int) =~= prices);
    assert(result_on_window(envelope, prices, 0, prices.len() as int, out[0]));
}

/// With a period as long as the prices the chain has one window, all the
/// prices, and its envelope is a result of `envelope` on them and `previous`.
pub proof fn lemma_chained_full_period<T, F: Fn(&[T], T) -> (T, T, T)>(
    envelope: F,
    prices: Seq<T>,
    previous: T,
    out: Seq<(T, T, T)>,
)
    requires
        prices.len() > 0,
        chained(envelope, prices, prices.len() as int, previous, out),
    ensures
        out.len() == 1,
        exists|w: &[T]| w@ == prices && #[trigger] call_ensures(envelope, (w, previous), out[0]),
{
    assert(window(prices, 0, prices.len() as int) =~= prices);
    assert(carried(previous, out, 0) == previous);
    assert(chain_result_on_window(envelope, prices, 0, prices.len() as int, previous, out[0]));
}


/// What a rolling outcome is, in terms of the prices alone: one result per
/// window, `prices.len() - period + 1` of them, the `i`-th a result of
/// `envelope` on the prices from index `i` up to `i + period`.
pub proof fn lemma_rolled_meaning<T, R, F: Fn(&[T]) -> R>(
    envelope: F,
    prices: Seq<T>,
    period: int,
    out: Seq<R>,
)
    requires
        rolled(envelope, prices, period, out),
    ensures
        out.len() == prices.len() - period + 1,
        forall|i: int, w: &[T]|
            0 <= i < out.len() && w@ =~= prices.subrange(i, i + period) ==> #[trigger] call_ensures(
                envelope,
                (w,),
                out[i],
            ),
{
    assert forall|i: int, w: &[T]|
        0 <= i < out.len() && w@ =~= prices.subrange(i, i + period) implies #[trigger] call_ensures(
            envelope,
            (w,),
            out[i],
        ) by {
        assert(result_on_window(envelope, prices, i, period, out[i]));
        let v = choose|v: &[T]|
            v@ == window(prices, i, period) && #[trigger] call_ensures(envelope, (v,), out[i]);
        assert(v =~= w);
    }
}

/// What a chain is, in terms of the prices alone: one envelope per window,
/// `prices.len() - period + 1` of them, the first a result of `envelope` on
/// the first `period` prices and `previous`, each later one on its window and
/// the middle value of the envelope just before it.
pub proof fn lemma_chained_meaning<T, F: Fn(&[T], T) -> (T, T, T)>(
    envelope: F,
    prices: Seq<T>,
    period: int,
    previous: T,
    out: Seq<(T, T, T)>,
)
    requires
        chained(envelope, prices, period, previous, out),
    ensures
        out.len() == prices.len() - period + 1,
        out.len() > 0 ==> forall|w: &[T]|
            w@ =~= prices.subrange(0, period) ==> #[trigger] call_ensures(
                envelope,
                (w, previous),
                out[0],
            ),
        forall|i: int, w: &[T]|
            1 <= i < out.len() && w@ =~= prices.subrange(i, i + period) ==> #[trigger] call_ensures(
                envelope,
                (w, out[i - 1].1),
                out[i],
            ),
{
    if out.len() > 0 {
        assert forall|w: &[T]| w@ =~= prices.subrange(0, period) implies #[trigger] call_ensures(
            envelope,
            (w, previous),
            out[0],
        ) by {
            assert(chain_result_on_window(envelope, prices, 0, period, carried(previous, out, 0), out[0]));
            let v = choose|v: &[T]|
                v@ == window(prices, 0, period) && #[trigger] call_ensures(envelope, (v, previous), out[0]);
            assert(v =~= w);
        }
    }
    assert forall|i: int, w: &[T]|
        1 <= i < out.len() && w@ =~= prices.subrange(i, i + period) implies #[trigger] call_ensures(
            envelope,
            (w, out[i - 1].1),
            out[i],
        ) by {
        assert(chain_result_on_window(envelope, prices, i, period, carried(previous, out, i), out[i]));
        let v = choose|v: &[T]|
            v@ == window(prices, i, period) && #[trigger] call_ensures(envelope, (v, out[i - 1].1), out[i]);
        assert(v =~= w);
    }
}

/// The latest price of non-empty prices is the last one, and the count is the
/// number of prices.
pub proof fn lemma_latest_meaning<T>(prices: Seq<T>)
    requires
        0 < prices.len() <= usize::MAX,
    ensures
        latest(prices).0 == prices[prices.len() - 1],
        latest(prices).1 == prices.len(),
{
}

} // verus!
