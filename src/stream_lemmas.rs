//! What reassembly guarantees over whole runs of segments.
use vstd::prelude::*;
use crate::reassembler::{
    advance, can_advance, drain, empty_stream, lemma_advance_shrinks, observe, passed, seq_after,
    StreamModel, SEQ_MODULUS,
};

verus! {

/// The bytes of `segs`, one after another.
pub open spec fn flatten(segs: Seq<Seq<u8>>) -> Seq<u8>
    decreases segs.len(),
{
    if segs.len() == 0 {
        Seq::empty()
    } else {
        flatten(segs.drop_last()) + segs.last()
    }
}

/// How far into the stream segment `i` of `segs` starts.
pub open spec fn offset_of(segs: Seq<Seq<u8>>, i: int) -> nat {
    flatten(segs.subrange(0, i)).len()
}

/// The sequence number at which segment `i` starts when the first starts at
/// `start`.
pub open spec fn start_of(segs: Seq<Seq<u8>>, start: usize, i: int) -> usize {
    (start + offset_of(segs, i)) as usize
}

/// Whether `segs`, laid end to end from `start`, are each non-empty and stay
/// below the point where sequence numbers wrap.
pub open spec fn tiles(segs: Seq<Seq<u8>>, start: usize) -> bool {
    &&& forall|i: int| 0 <= i < segs.len() ==> #[trigger] segs[i].len() > 0
    &&& start + flatten(segs).len() < SEQ_MODULUS
}

/// Whether `order` lists each index of `0..n` exactly once.
pub open spec fn is_permutation(order: Seq<int>, n: int) -> bool {
    &&& order.len() == n
    &&& order.no_duplicates()
    &&& forall|t: int| 0 <= t < order.len() ==> 0 <= #[trigger] order[t] < n
    &&& forall|i: int| 0 <= i < n ==> #[trigger] order.contains(i)
}

/// Segment `i` offered, then every segment that continues the stream
/// appended.
pub open spec fn deliver_one(m: StreamModel, segs: Seq<Seq<u8>>, start: usize, i: int) -> StreamModel {
    drain(observe(m, start_of(segs, start, i), segs[i]))
}

/// The segments of `segs` delivered in the order `order`.
pub open spec fn deliver(m: StreamModel, segs: Seq<Seq<u8>>, start: usize, order: Seq<int>) -> StreamModel
    decreases order.len(),
{
    if order.len() == 0 {
        m
    } else {
        deliver_one(deliver(m, segs, start, order.drop_last()), segs, start, order.last())
    }
}

/// Delivering the first `t + 1` indices of `order` is delivering the first
/// `t` and then index `order[t]`: one `add_packet` and one `reassemble`.
pub proof fn lemma_deliver_next(m: StreamModel, segs: Seq<Seq<u8>>, start: usize, order: Seq<int>, t: int)
    requires
        0 <= t < order.len(),
    ensures
        deliver(m, segs, start, order.take(t + 1)) == deliver_one(
            deliver(m, segs, start, order.take(t)),
            segs,
            start,
            order[t],
        ),
        deliver(m, segs, start, order.take(order.len() as int)) == deliver(m, segs, start, order),
{
    assert(order.take(t + 1).drop_last() =~= order.take(t));
    assert(order.take(order.len() as int) =~= order);
}

/// The indices that `order` has delivered.
pub open spec fn delivered(order: Seq<int>) -> Set<int> {
    Set::new(|i: int| order.contains(i))
}

/// The stream holds segments `0..k` and expects segment `k`; every other
/// delivered segment waits under its own sequence number, and nothing else
/// waits.
pub open spec fn placed(m: StreamModel, segs: Seq<Seq<u8>>, start: usize, d: Set<int>, k: int) -> bool {
    &&& 0 <= k <= segs.len()
    &&& m.next == Some(start_of(segs, start, k))
    &&& m.data == flatten(segs.subrange(0, k))
    &&& m.pending.dom().finite()
    &&& forall|i: int| 0 <= i < k ==> #[trigger] d.contains(i)
    &&& forall|i: int|
        k <= i < segs.len() && #[trigger] d.contains(i) ==> m.pending.contains_key(
            start_of(segs, start, i),
        ) && m.pending[start_of(segs, start, i)] == segs[i]
    &&& forall|q: usize| #[trigger]
        m.pending.contains_key(q) ==> exists|i: int|
            k <= i < segs.len() && d.contains(i) && q == #[trigger] start_of(segs, start, i)
}

/// `placed`, with segment `k` not yet delivered.
pub open spec fn settled(m: StreamModel, segs: Seq<Seq<u8>>, start: usize, d: Set<int>, k: int) -> bool {
    placed(m, segs, start, d, k) && (k == segs.len() || !d.contains(k))
}

proof fn lemma_offset_step(segs: Seq<Seq<u8>>, i: int)
    requires
        0 <= i < segs.len(),
    ensures
        flatten(segs.subrange(0, i + 1)) == flatten(segs.subrange(0, i)) + segs[i],
        offset_of(segs, i + 1) == offset_of(segs, i) + segs[i].len(),
{
    assert(segs.subrange(0, i + 1).drop_last() =~= segs.subrange(0, i));
}

proof fn lemma_offset_increases(segs: Seq<Seq<u8>>, start: usize, i: int, j: int)
    requires
        tiles(segs, start),
        0 <= i < j <= segs.len(),
    ensures
        offset_of(segs, i) + segs[i].len() <= offset_of(segs, j),
    decreases j - i,
{
    lemma_offset_step(segs, i);
    if i + 1 < j {
        lemma_offset_increases(segs, start, i + 1, j);
        assert(segs[i + 1].len() > 0);
    }
}

proof fn lemma_offset_bounded(segs: Seq<Seq<u8>>, start: usize, i: int)
    requires
        tiles(segs, start),
        0 <= i <= segs.len(),
    ensures
        offset_of(segs, i) <= flatten(segs).len(),
        start + offset_of(segs, i) < SEQ_MODULUS,
        start_of(segs, start, i) == start + offset_of(segs, i),
{
    assert(segs.subrange(0, segs.len() as int) =~= segs);
    if i < segs.len() {
        lemma_offset_increases(segs, start, i, segs.len() as int);
    }
}

proof fn lemma_start_of_increases(segs: Seq<Seq<u8>>, start: usize, i: int, j: int)
    requires
        tiles(segs, start),
        0 <= i < j <= segs.len(),
    ensures
        start_of(segs, start, i) < start_of(segs, start, j),
{
    lemma_offset_increases(segs, start, i, j);
    lemma_offset_bounded(segs, start, i);
    lemma_offset_bounded(segs, start, j);
    assert(segs[i].len() > 0);
}

/// A sequence number at or past the end of `len` bytes from `n`, below the
/// wrap point, is not covered by them.
proof fn lemma_not_passed(n: usize, len: nat, k: usize)
    requires
        n + len <= k < SEQ_MODULUS,
    ensures
        !passed(n, len, k),
{
    assert forall|j: nat| j < len implies #[trigger] seq_after(n, j) != k by {
        vstd::arithmetic::div_mod::lemma_small_mod((n + j) as nat, SEQ_MODULUS as nat);
    }
}

/// Draining a placed stream appends the delivered run that starts at `k`.
proof fn lemma_drain_settles(m: StreamModel, segs: Seq<Seq<u8>>, start: usize, d: Set<int>, k: int) -> (k2: int)
    requires
        tiles(segs, start),
        placed(m, segs, start, d, k),
        forall|i: int| #[trigger] d.contains(i) ==> 0 <= i < segs.len(),
    ensures
        k <= k2,
        settled(drain(m), segs, start, d, k2),
    decreases segs.len() - k,
{
    let n = segs.len() as int;
    if k < n && d.contains(k) {
        let key = start_of(segs, start, k);
        assert(m.pending.contains_key(key));
        assert(can_advance(m));
        let m2 = advance(m);
        lemma_advance_shrinks(m);
        assert(drain(m) == drain(m2));
        lemma_offset_step(segs, k);
        lemma_offset_bounded(segs, start, k);
        lemma_offset_bounded(segs, start, k + 1);
        assert(m2.next == Some(start_of(segs, start, k + 1))) by {
            vstd::arithmetic::div_mod::lemma_small_mod(
                (start + offset_of(segs, k + 1)) as nat,
                SEQ_MODULUS as nat,
            );
        }
        assert forall|i: int| k + 1 <= i < segs.len() && #[trigger] d.contains(i) implies m2.pending.contains_key(
            start_of(segs, start, i),
        ) && m2.pending[start_of(segs, start, i)] == segs[i] by {
            lemma_start_of_increases(segs, start, k, i);
            lemma_offset_bounded(segs, start, i);
            if i > k + 1 {
                lemma_start_of_increases(segs, start, k + 1, i);
            }
            lemma_not_passed(key, segs[k].len(), start_of(segs, start, i));
        }
        assert forall|q: usize| #[trigger] m2.pending.contains_key(q) implies exists|i: int|
            k + 1 <= i < segs.len() && d.contains(i) && q == #[trigger] start_of(segs, start, i) by {
            assert(m.pending.contains_key(q));
            let i = choose|i: int|
                k <= i < segs.len() && d.contains(i) && q == #[trigger] start_of(segs, start, i);
            assert(i != k);
        }
        assert forall|i: int| 0 <= i < k + 1 implies #[trigger] d.contains(i) by {}
        lemma_drain_settles(m2, segs, start, d, k + 1)
    } else {
        let key = start_of(segs, start, k);
        if m.pending.contains_key(key) {
            let i = choose|i: int|
                k <= i < segs.len() && d.contains(i) && key == #[trigger] start_of(segs, start, i);
            if i != k {
                lemma_start_of_increases(segs, start, k, i);
            }
        }
        assert(!can_advance(m));
        assert(drain(m) == m);
        k
    }
}

proof fn lemma_deliver_settles(segs: Seq<Seq<u8>>, start: usize, order: Seq<int>) -> (k: int)
    requires
        tiles(segs, start),
        order.no_duplicates(),
        forall|t: int| 0 <= t < order.len() ==> 0 <= #[trigger] order[t] < segs.len(),
    ensures
        settled(deliver(empty_stream(Some(start)), segs, start, order), segs, start, delivered(order), k),
    decreases order.len(),
{
    let d = delivered(order);
    assert forall|i: int| #[trigger] d.contains(i) implies 0 <= i < segs.len() by {
        let t = order.index_of(i);
    }
    if order.len() == 0 {
        let m = empty_stream(Some(start));
        assert(segs.subrange(0, 0) =~= Seq::<Seq<u8>>::empty());
        assert(m.data =~= flatten(segs.subrange(0, 0)));
        lemma_offset_bounded(segs, start, 0);
        assert(!d.contains(0));
        0
    } else {
        let prev = order.drop_last();
        let j = order.last();
        assert forall|t: int| 0 <= t < prev.len() implies 0 <= #[trigger] prev[t] < segs.len() by {
            assert(prev[t] == order[t]);
        }
        assert(prev.no_duplicates()) by {
            assert forall|a: int, b: int| 0 <= a < prev.len() && 0 <= b < prev.len() && a != b implies prev[a] != prev[b] by {
                assert(prev[a] == order[a] && prev[b] == order[b]);
            }
        }
        let k0 = lemma_deliver_settles(segs, start, prev);
        let d0 = delivered(prev);
        let m0 = deliver(empty_stream(Some(start)), segs, start, prev);
        assert(order =~= prev.push(j));
        assert(!d0.contains(j)) by {
            if prev.contains(j) {
                let t = prev.index_of(j);
                assert(order[t] == order[order.len() - 1]);
            }
        }
        assert forall|i: int| #[trigger] d.contains(i) <==> d0.contains(i) || i == j by {
            if prev.contains(i) {
                let t = prev.index_of(i);
                assert(order[t] == i);
            }
            if order.contains(i) && i != j {
                let t = order.index_of(i);
                assert(prev[t] == i);
            }
            assert(order[order.len() - 1] == j);
        }
        assert(j >= k0);
        lemma_offset_bounded(segs, start, k0);
        lemma_offset_bounded(segs, start, j);
        if j > k0 {
            lemma_start_of_increases(segs, start, k0, j);
        }
        let m1 = observe(m0, start_of(segs, start, j), segs[j]);
        assert(m1.pending == m0.pending.insert(start_of(segs, start, j), segs[j]));
        assert forall|i: int| k0 <= i < segs.len() && #[trigger] d.contains(i) implies m1.pending.contains_key(
            start_of(segs, start, i),
        ) && m1.pending[start_of(segs, start, i)] == segs[i] by {
            if i != j {
                if i < j {
                    lemma_start_of_increases(segs, start, i, j);
                } else {
                    lemma_start_of_increases(segs, start, j, i);
                }
            }
        }
        assert forall|q: usize| #[trigger] m1.pending.contains_key(q) implies exists|i: int|
            k0 <= i < segs.len() && d.contains(i) && q == #[trigger] start_of(segs, start, i) by {
            if q != start_of(segs, start, j) {
                assert(m0.pending.contains_key(q));
                let i = choose|i: int|
                    k0 <= i < segs.len() && d0.contains(i) && q == #[trigger] start_of(segs, start, i);
                assert(d.contains(i));
            } else {
                assert(d.contains(j));
            }
        }
        assert forall|i: int| 0 <= i < k0 implies #[trigger] d.contains(i) by {
            assert(d0.contains(i));
        }
        assert(placed(m1, segs, start, d, k0));
        lemma_drain_settles(m1, segs, start, d, k0)
    }
}

/// Segments that tile a range of the stream, offered in any order to a
/// reassembler reset to the range's start, each offer followed by a drain,
/// leave the same state as offering them in stream order: the whole range
/// reassembled, nothing pending.
pub proof fn lemma_reassembly_order_invariant(segs: Seq<Seq<u8>>, start: usize, order: Seq<int>)
    requires
        tiles(segs, start),
        is_permutation(order, segs.len() as int),
    ensures
        deliver(empty_stream(Some(start)), segs, start, order) == (StreamModel {
            next: Some(start_of(segs, start, segs.len() as int)),
            pending: Map::empty(),
            data: flatten(segs),
        }),
        deliver(empty_stream(Some(start)), segs, start, order) == deliver(
            empty_stream(Some(start)),
            segs,
            start,
            Seq::new(segs.len(), |i: int| i),
        ),
{
    let n = segs.len() as int;
    let k = lemma_deliver_settles(segs, start, order);
    let m = deliver(empty_stream(Some(start)), segs, start, order);
    if k < n {
        assert(order.contains(k));
        assert(delivered(order).contains(k));
    }
    assert(segs.subrange(0, n) =~= segs);
    assert forall|q: usize| !m.pending.contains_key(q) by {
        if m.pending.contains_key(q) {
            let i = choose|i: int|
                k <= i < segs.len() && delivered(order).contains(i) && q == #[trigger] start_of(segs, start, i);
        }
    }
    assert(m.pending =~= Map::empty());
    let id = Seq::new(segs.len(), |i: int| i);
    assert forall|i: int| 0 <= i < n implies #[trigger] id.contains(i) by {
        assert(id[i] == i);
    }
    assert(is_permutation(id, n));
    let k2 = lemma_deliver_settles(segs, start, id);
    let m2 = deliver(empty_stream(Some(start)), segs, start, id);
    if k2 < n {
        assert(id.contains(k2));
        assert(delivered(id).contains(k2));
    }
    assert forall|q: usize| !m2.pending.contains_key(q) by {
        if m2.pending.contains_key(q) {
            let i = choose|i: int|
                k2 <= i < segs.len() && delivered(id).contains(i) && q == #[trigger] start_of(segs, start, i);
        }
    }
    assert(m2.pending =~= Map::empty());
}

/// One call on a reassembler: a segment offered, or a drain.
pub enum StreamOp {
    Observe(usize, Seq<u8>),
    Drain,
}

/// The state after the call `op`.
pub open spec fn apply(m: StreamModel, op: StreamOp) -> StreamModel {
    match op {
        StreamOp::Observe(seq, payload) => observe(m, seq, payload),
        StreamOp::Drain => drain(m),
    }
}

/// The state after the calls `ops`, first to last.
pub open spec fn run(m: StreamModel, ops: Seq<StreamOp>) -> StreamModel
    decreases ops.len(),
{
    if ops.len() == 0 {
        m
    } else {
        apply(run(m, ops.drop_last()), ops.last())
    }
}

/// Running the first `t + 1` calls of `ops` is running the first `t` and
/// then call `ops[t]`.
pub proof fn lemma_run_next(m: StreamModel, ops: Seq<StreamOp>, t: int)
    requires
        0 <= t < ops.len(),
    ensures
        run(m, ops.take(t + 1)) == apply(run(m, ops.take(t)), ops[t]),
        run(m, ops.take(ops.len() as int)) == run(m, ops),
{
    assert(ops.take(t + 1).drop_last() =~= ops.take(t));
    assert(ops.take(ops.len() as int) =~= ops);
}

/// Whether `ops` offered the segment `payload` at `seq`.
pub open spec fn was_observed(ops: Seq<StreamOp>, seq: usize, payload: Seq<u8>) -> bool {
    exists|t: int| 0 <= t < ops.len() && #[trigger] ops[t] == StreamOp::Observe(seq, payload)
}

/// Whether each segment of `c` starts where the previous one ends, the first
/// at `from`, and the last ends at `to`.
pub open spec fn is_chain(c: Seq<(usize, Seq<u8>)>, from: usize, to: usize) -> bool {
    &&& c.len() == 0 ==> to == from
    &&& c.len() > 0 ==> c[0].0 == from && to == seq_after(c.last().0, c.last().1.len())
    &&& forall|j: int| 0 <= j < c.len() - 1 ==> #[trigger] c[j + 1].0 == seq_after(c[j].0, c[j].1.len())
}

/// The bytes of the segments of `c`, one after another.
pub open spec fn chain_bytes(c: Seq<(usize, Seq<u8>)>) -> Seq<u8>
    decreases c.len(),
{
    if c.len() == 0 {
        Seq::empty()
    } else {
        chain_bytes(c.drop_last()) + c.last().1
    }
}

/// Whether every segment of `c` was offered by `ops`.
pub open spec fn chain_observed(c: Seq<(usize, Seq<u8>)>, ops: Seq<StreamOp>) -> bool {
    forall|j: int| 0 <= j < c.len() ==> was_observed(ops, #[trigger] c[j].0, c[j].1)
}

/// What holds of the state after `ops`, with `w` the start of the stream and
/// the chain of segments it holds.
pub open spec fn gapless(m: StreamModel, ops: Seq<StreamOp>, n0: Option<usize>, w: (usize, Seq<(usize, Seq<u8>)>)) -> bool {
    &&& forall|q: usize| #[trigger] m.pending.contains_key(q) ==> was_observed(ops, q, m.pending[q])
    &&& m.next is None ==> m.data.len() == 0 && n0 is None
    &&& m.next matches Some(e) ==> {
        &&& is_chain(w.1, w.0, e)
        &&& chain_observed(w.1, ops)
        &&& m.data == chain_bytes(w.1)
        &&& (n0 matches Some(s) ==> w.0 == s)
    }
}

proof fn lemma_drain_gapless(m: StreamModel, ops: Seq<StreamOp>, n0: Option<usize>, w: (usize, Seq<(usize, Seq<u8>)>)) -> (w2: (
    usize,
    Seq<(usize, Seq<u8>)>,
))
    requires
        gapless(m, ops, n0, w),
    ensures
        gapless(drain(m), ops, n0, w2),
    decreases m.pending.dom().len(),
{
    if m.pending.dom().finite() && can_advance(m) {
        let n = m.next->Some_0;
        let e = (n, m.pending[n]);
        let c = w.1;
        let c2 = c.push(e);
        let m2 = advance(m);
        lemma_advance_shrinks(m);
        assert(drain(m) == drain(m2));
        assert(c2.drop_last() =~= c);
        assert(chain_bytes(c2) == chain_bytes(c) + e.1);
        assert(is_chain(c2, w.0, m2.next->Some_0)) by {
            assert forall|j: int| 0 <= j < c2.len() - 1 implies #[trigger] c2[j + 1].0 == seq_after(
                c2[j].0,
                c2[j].1.len(),
            ) by {
                if j < c.len() - 1 {
                    assert(c2[j + 1] == c[j + 1] && c2[j] == c[j]);
                }
            }
        }
        assert(was_observed(ops, n, m.pending[n]));
        assert forall|j: int| 0 <= j < c2.len() implies was_observed(ops, #[trigger] c2[j].0, c2[j].1) by {
            if j < c.len() {
                assert(c2[j] == c[j]);
            }
        }
        assert forall|q: usize| #[trigger] m2.pending.contains_key(q) implies was_observed(ops, q, m2.pending[q]) by {
            assert(m.pending.contains_key(q));
        }
        lemma_drain_gapless(m2, ops, n0, (w.0, c2))
    } else {
        w
    }
}

proof fn lemma_run_gapless(n0: Option<usize>, ops: Seq<StreamOp>) -> (w: (usize, Seq<(usize, Seq<u8>)>))
    ensures
        gapless(run(empty_stream(n0), ops), ops, n0, w),
    decreases ops.len(),
{
    if ops.len() == 0 {
        let m = empty_stream(n0);
        let w = (
            match n0 {
                Some(s) => s,
                None => 0,
            },
            Seq::<(usize, Seq<u8>)>::empty(),
        );
        assert(m.data =~= chain_bytes(w.1));
        w
    } else {
        let prev = ops.drop_last();
        let op = ops.last();
        let w0 = lemma_run_gapless(n0, prev);
        let m = run(empty_stream(n0), prev);
        assert(ops =~= prev.push(op));
        assert forall|q: usize, p: Seq<u8>| was_observed(prev, q, p) implies was_observed(ops, q, p) by {
            let t = choose|t: int| 0 <= t < prev.len() && #[trigger] prev[t] == StreamOp::Observe(q, p);
            assert(ops[t] == prev[t]);
        }
        assert forall|q: usize| #[trigger] m.pending.contains_key(q) implies was_observed(ops, q, m.pending[q]) by {
            assert(was_observed(prev, q, m.pending[q]));
        }
        if m.next is Some {
            assert forall|j: int| 0 <= j < w0.1.len() implies was_observed(ops, #[trigger] w0.1[j].0, w0.1[j].1) by {
                assert(was_observed(prev, w0.1[j].0, w0.1[j].1));
            }
        }
        assert(gapless(m, ops, n0, w0));
        match op {
            StreamOp::Observe(q, p) => {
                let m2 = observe(m, q, p);
                assert(ops[ops.len() - 1] == StreamOp::Observe(q, p));
                assert(was_observed(ops, q, p));
                assert forall|k: usize| #[trigger] m2.pending.contains_key(k) implies was_observed(ops, k, m2.pending[k]) by {
                    if k != q {
                        assert(m.pending.contains_key(k));
                    }
                }
                if m.next is None {
                    let w = (q, Seq::<(usize, Seq<u8>)>::empty());
                    assert(m2.data =~= chain_bytes(w.1));
                    w
                } else {
                    w0
                }
            },
            StreamOp::Drain => lemma_drain_gapless(m, ops, n0, w0),
        }
    }
}

/// No gap: whatever segments are offered and drains made, from a new or a
/// reset reassembler, the reassembled bytes are a chain of offered segments,
/// each starting where the previous one ends, from the first sequence number
/// the stream was given up to the one it now expects.
pub proof fn lemma_no_gap(n0: Option<usize>, ops: Seq<StreamOp>)
    ensures
        run(empty_stream(n0), ops).next is None ==> run(empty_stream(n0), ops).data.len() == 0,
        run(empty_stream(n0), ops).next matches Some(e) ==> exists|from: usize, c: Seq<(usize, Seq<u8>)>|
            #[trigger] is_chain(c, from, e) && chain_observed(c, ops) && run(empty_stream(n0), ops).data
                == chain_bytes(c) && (n0 matches Some(s) ==> from == s),
{
    let w = lemma_run_gapless(n0, ops);
}

} // verus!
