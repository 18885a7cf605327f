use vstd::prelude::*;
use crate::state::{peeked, took, PeekState};

verus! {

/// Peeking twice with the same length and no read between: the second look
/// reports at least as many bytes as the first, the same ones, and both are the
/// fetched bytes at the position; when the first look was complete, the second
/// changes nothing.
pub proof fn lemma_peek_twice(
    s0: PeekState,
    len: nat,
    n1: nat,
    out1: Seq<u8>,
    s1: PeekState,
    n2: nat,
    out2: Seq<u8>,
    s2: PeekState,
)
    requires
        s0.valid(),
        peeked(s0, len, n1, out1, s1),
        peeked(s1, len, n2, out2, s2),
    ensures
        n1 <= n2,
        s2.position == s0.position,
        out1.subrange(0, n1 as int) == s2.window(s0.position, n1),
        out2.subrange(0, n1 as int) == out1.subrange(0, n1 as int),
        n1 == len ==> n2 == len && s2 == s1,
{
    assert(s1.window(s0.position, n1) =~= s2.window(s0.position, n1));
    assert(out2.subrange(0, n1 as int) =~= out2.subrange(0, n2 as int).subrange(0, n1 as int));
}

/// A window inside a prefix reads the same in the longer sequence.
proof fn lemma_window_of_prefix(a: Seq<u8>, b: Seq<u8>, from: nat, n: nat)
    requires
        a.is_prefix_of(b),
        from + n <= a.len(),
    ensures
        a.subrange(from as int, (from + n) as int) == b.subrange(from as int, (from + n) as int),
{
    assert forall|j: int| 0 <= j < n implies #[trigger] a.subrange(from as int, (from + n) as int)[j] == b.subrange(
        from as int,
        (from + n) as int,
    )[j] by {
        assert(b.subrange(0, a.len() as int)[from + j] == b[from + j]);
    }
    assert(a.subrange(from as int, (from + n) as int) =~= b.subrange(from as int, (from + n) as int));
}

/// The facts that a chain of look-aheads keeps, up to its `k`-th state.
proof fn lemma_peek_chain(
    states: Seq<PeekState>,
    lens: Seq<nat>,
    counts: Seq<nat>,
    outs: Seq<Seq<u8>>,
    k: int,
)
    requires
        states.len() >= 1,
        states[0].valid(),
        lens.len() == states.len() - 1,
        counts.len() == states.len() - 1,
        outs.len() == states.len() - 1,
        forall|i: int|
            0 <= i < states.len() - 1 ==> #[trigger] peeked(states[i], lens[i], counts[i], outs[i], states[i + 1]),
        0 <= k < states.len(),
    ensures
        states[k].valid(),
        states[k].position == states[0].position,
        states[k].marks == states[0].marks,
        states[0].fetched.is_prefix_of(states[k].fetched),
        forall|i: int| 0 <= i < k ==> states[0].position + #[trigger] counts[i] <= states[k].fetched.len(),
        forall|i: int|
            0 <= i < k ==> #[trigger] outs[i].subrange(0, counts[i] as int) == states[k].window(
                states[0].position,
                counts[i],
            ),
    decreases k,
{
    if k > 0 {
        lemma_peek_chain(states, lens, counts, outs, k - 1);
        let h = k - 1;
        assert(peeked(states[h], lens[h], counts[h], outs[h], states[h + 1]));
        let p = states[h];
        let q = states[k];
        assert(q.valid());
        assert(states[0].fetched.is_prefix_of(q.fetched)) by {
            assert(states[0].fetched =~= q.fetched.subrange(0, states[0].fetched.len() as int)) by {
                assert(p.fetched =~= q.fetched.subrange(0, p.fetched.len() as int));
                assert(states[0].fetched =~= p.fetched.subrange(0, states[0].fetched.len() as int));
            }
        }
        assert forall|i: int| 0 <= i < k implies states[0].position + #[trigger] counts[i] <= q.fetched.len() by {
            if i < k - 1 {
                assert(states[0].position + counts[i] <= p.fetched.len());
            }
        }
        assert forall|i: int| 0 <= i < k implies #[trigger] outs[i].subrange(0, counts[i] as int) == q.window(
            states[0].position,
            counts[i],
        ) by {
            if i < k - 1 {
                assert(outs[i].subrange(0, counts[i] as int) == p.window(states[0].position, counts[i]));
                assert(states[0].position + counts[i] <= p.fetched.len());
                lemma_window_of_prefix(p.fetched, q.fetched, states[0].position, counts[i]);
            }
        }
    } else {
        assert(states[0].fetched =~= states[0].fetched.subrange(0, states[0].fetched.len() as int));
    }
}

/// Look-aheads do not move the position: after any number of them, a read
/// that asks for `len` bytes and gets them all delivers the fetched bytes from
/// that same position, and each byte that a look-ahead showed comes again in
/// its place.
pub proof fn lemma_peeks_keep_position(
    states: Seq<PeekState>,
    lens: Seq<nat>,
    counts: Seq<nat>,
    outs: Seq<Seq<u8>>,
    len: nat,
    out: Seq<u8>,
    t: PeekState,
)
    requires
        states.len() >= 1,
        states[0].valid(),
        lens.len() == states.len() - 1,
        counts.len() == states.len() - 1,
        outs.len() == states.len() - 1,
        forall|i: int|
            0 <= i < states.len() - 1 ==> #[trigger] peeked(states[i], lens[i], counts[i], outs[i], states[i + 1]),
        took(states.last(), len, len, out, t),
    ensures
        t.position == states[0].position + len,
        out == t.window(states[0].position, len),
        forall|i: int, j: int|
            0 <= i < outs.len() && 0 <= j < counts[i] && j < len ==> #[trigger] outs[i][j] == out[j],
{
    let k = states.len() - 1;
    lemma_peek_chain(states, lens, counts, outs, k);
    let last = states[k];
    let p0 = states[0].position;
    assert(out =~= out.subrange(0, len as int));
    assert forall|i: int, j: int| 0 <= i < outs.len() && 0 <= j < counts[i] && j < len implies #[trigger] outs[i][j]
        == out[j] by {
        assert(peeked(states[i], lens[i], counts[i], outs[i], states[i + 1]));
        assert(outs[i].subrange(0, counts[i] as int) == last.window(p0, counts[i]));
        lemma_window_of_prefix(last.fetched, t.fetched, p0, counts[i]);
        assert(outs[i].subrange(0, counts[i] as int)[j] == t.window(p0, counts[i])[j]);
        assert(out.subrange(0, len as int)[j] == t.window(p0, len)[j]);
    }
}

/// A read of more bytes than were just peeked delivers the peeked bytes first
/// and then fresh ones, all in stream order; of what it delivers, the inner
/// reader is asked only for the bytes that were not buffered yet, and each of
/// those is fetched once.
pub proof fn lemma_read_after_peek(
    s0: PeekState,
    l1: nat,
    out1: Seq<u8>,
    s1: PeekState,
    l2: nat,
    n2: nat,
    out2: Seq<u8>,
    s2: PeekState,
)
    requires
        s0.valid(),
        peeked(s0, l1, l1, out1, s1),
        took(s1, l2, n2, out2, s2),
        l1 < l2,
    ensures
        l1 <= n2,
        s2.position == s0.position + n2,
        out2.subrange(0, l1 as int) == out1,
        out2.subrange(0, n2 as int) == s2.window(s0.position, n2),
        n2 <= s1.pending().len() ==> s2.fetched == s1.fetched,
        n2 > s1.pending().len() ==> s2.fetched == s1.fetched + out2.subrange(
            s1.pending().len() as int,
            n2 as int,
        ),
{
    let p = s0.position;
    assert(out1 =~= out1.subrange(0, l1 as int));
    assert(out2.subrange(0, l1 as int) =~= out2.subrange(0, n2 as int).subrange(0, l1 as int));
    assert(s1.window(p, l1) =~= s2.window(p, n2).subrange(0, l1 as int));
    if n2 > s1.pending().len() {
        let k = s1.pending().len();
        assert(s2.fetched =~= s1.fetched + out2.subrange(k as int, n2 as int)) by {
            assert forall|j: int| 0 <= j < s2.fetched.len() implies s2.fetched[j] == (s1.fetched
                + out2.subrange(k as int, n2 as int))[j] by {
                if j >= s1.fetched.len() {
                    assert(out2.subrange(0, n2 as int)[j - p] == s2.window(p, n2)[j - p]);
                } else {
                    assert(s1.fetched == s2.fetched.subrange(0, s1.fetched.len() as int));
                }
            }
        }
    }
}

/// A checkpoint whose work succeeds leaves the position and fetched bytes as
/// the work left them and the marks as they were before it opened.
pub proof fn lemma_commit_keeps_work(s: PeekState, a: PeekState)
    requires
        a.marks == s.opened().marks,
    ensures
        a.committed() == (PeekState { marks: s.marks, ..a }),
{
    assert(a.committed().marks =~= s.marks);
}

/// A read wrapped in a checkpoint that succeeds is the same read as without
/// the checkpoint.
pub proof fn lemma_commit_read(s: PeekState, len: nat, n: nat, out: Seq<u8>, a: PeekState)
    requires
        took(s.opened(), len, n, out, a),
    ensures
        took(s, len, n, out, a.committed()),
{
    assert(a.committed().marks =~= s.marks);
}

/// A checkpoint whose work fails returns to the position it opened at, with
/// the marks from before it opened and every byte the work fetched kept.
pub proof fn lemma_rollback_restores(s: PeekState, a: PeekState)
    requires
        a.marks == s.opened().marks,
    ensures
        a.rolled_back() == (PeekState { position: s.position, marks: s.marks, ..a }),
{
    assert(a.rolled_back().marks =~= s.marks);
}

/// A read in a checkpoint that fails is replayed: a read after it delivers the
/// same bytes again, from the buffer, without asking the inner reader for any
/// byte it already produced.
pub proof fn lemma_rollback_replays(
    s: PeekState,
    l1: nat,
    n1: nat,
    out1: Seq<u8>,
    a: PeekState,
    l2: nat,
    n2: nat,
    out2: Seq<u8>,
    u: PeekState,
)
    requires
        s.valid(),
        took(s.opened(), l1, n1, out1, a),
        took(a.rolled_back(), l2, n2, out2, u),
    ensures
        a.rolled_back().position == s.position,
        a.rolled_back().marks == s.marks,
        forall|j: int| 0 <= j < n1 && j < n2 ==> #[trigger] out2[j] == out1[j],
        l2 <= n1 ==> n2 == l2 && u.fetched == a.fetched,
{
    let t = a.rolled_back();
    assert(t.marks =~= s.marks);
    assert forall|j: int| 0 <= j < n1 && j < n2 implies #[trigger] out2[j] == out1[j] by {
        assert(out1.subrange(0, n1 as int)[j] == a.window(s.position, n1)[j]);
        assert(out2.subrange(0, n2 as int)[j] == u.window(s.position, n2)[j]);
        assert(u.fetched.subrange(0, a.fetched.len() as int)[s.position + j] == u.fetched[s.position + j]);
    }
}

/// A failing inner checkpoint returns only to its own mark: the position is
/// where the inner checkpoint opened, and the outer marks stay as they were.
pub proof fn lemma_inner_rollback(s: PeekState, a: PeekState)
    requires
        s.marks.len() > 0,
        a.marks == s.opened().marks,
    ensures
        a.rolled_back().position == s.position,
        a.rolled_back().marks == s.marks,
{
    assert(a.rolled_back().marks =~= s.marks);
}

/// An inner checkpoint that succeeds does not keep the outer one from
/// rewinding past it: when the outer work then fails, the position returns to
/// where the outer checkpoint opened.
pub proof fn lemma_outer_rollback_past_inner(s0: PeekState, s1: PeekState, a1: PeekState, a0: PeekState)
    requires
        s1.marks == s0.opened().marks,
        a1.marks == s1.opened().marks,
        a0.marks == a1.committed().marks,
    ensures
        a0.rolled_back().position == s0.position,
        a0.rolled_back().marks == s0.marks,
{
    assert(a1.committed().marks =~= s1.marks);
    assert(a0.rolled_back().marks =~= s0.marks);
}

/// The facts that a chain of ordinary reads keeps, up to its `k`-th state.
proof fn lemma_read_chain(
    states: Seq<PeekState>,
    lens: Seq<nat>,
    counts: Seq<nat>,
    outs: Seq<Seq<u8>>,
    k: int,
)
    requires
        states.len() >= 1,
        states[0].valid(),
        lens.len() == states.len() - 1,
        counts.len() == states.len() - 1,
        outs.len() == states.len() - 1,
        forall|i: int|
            0 <= i < states.len() - 1 ==> #[trigger] took(states[i], lens[i], counts[i], outs[i], states[i + 1]),
        0 <= k < states.len(),
    ensures
        states[k].valid(),
        states[k].marks == states[0].marks,
        states[0].position <= states[k].position,
        states[0].fetched.is_prefix_of(states[k].fetched),
        forall|i: int|
            0 <= i < k ==> states[0].position <= #[trigger] states[i].position && states[i].position
                + counts[i] <= states[k].position,
        forall|i: int|
            0 <= i < k ==> #[trigger] outs[i].subrange(0, counts[i] as int) == states[k].window(
                states[i].position,
                counts[i],
            ),
    decreases k,
{
    if k > 0 {
        lemma_read_chain(states, lens, counts, outs, k - 1);
        let h = k - 1;
        assert(took(states[h], lens[h], counts[h], outs[h], states[h + 1]));
        let p = states[h];
        let q = states[k];
        assert(states[0].fetched.is_prefix_of(q.fetched)) by {
            assert(states[0].fetched =~= q.fetched.subrange(0, states[0].fetched.len() as int)) by {
                assert(p.fetched =~= q.fetched.subrange(0, p.fetched.len() as int));
                assert(states[0].fetched =~= p.fetched.subrange(0, states[0].fetched.len() as int));
            }
        }
        assert forall|i: int| 0 <= i < k implies states[0].position <= #[trigger] states[i].position
            && states[i].position + counts[i] <= q.position by {}
        assert forall|i: int| 0 <= i < k implies #[trigger] outs[i].subrange(0, counts[i] as int) == q.window(
            states[i].position,
            counts[i],
        ) by {
            if i < k - 1 {
                assert(outs[i].subrange(0, counts[i] as int) == p.window(states[i].position, counts[i]));
                assert(states[i].position + counts[i] <= p.position);
                lemma_window_of_prefix(p.fetched, q.fetched, states[i].position, counts[i]);
            }
        }
    } else {
        assert(states[0].fetched =~= states[0].fetched.subrange(0, states[0].fetched.len() as int));
    }
}

/// Reads in a checkpoint that fails are replayed: after the rollback every
/// byte they delivered is pending again, so a read of as many bytes as they
/// delivered in all succeeds without asking the inner reader, and delivers
/// what each of them delivered, in order, at its place.
pub proof fn lemma_rollback_replays_reads(
    s: PeekState,
    states: Seq<PeekState>,
    lens: Seq<nat>,
    counts: Seq<nat>,
    outs: Seq<Seq<u8>>,
    out: Seq<u8>,
    u: PeekState,
)
    requires
        s.valid(),
        states.len() >= 1,
        states[0] == s.opened(),
        lens.len() == states.len() - 1,
        counts.len() == states.len() - 1,
        outs.len() == states.len() - 1,
        forall|i: int|
            0 <= i < states.len() - 1 ==> #[trigger] took(states[i], lens[i], counts[i], outs[i], states[i + 1]),
        took(
            states.last().rolled_back(),
            (states.last().position - s.position) as nat,
            (states.last().position - s.position) as nat,
            out,
            u,
        ),
    ensures
        s.position <= states.last().position,
        states.last().rolled_back().position == s.position,
        states.last().rolled_back().marks == s.marks,
        states.last().position - s.position <= states.last().rolled_back().pending().len(),
        u.fetched == states.last().fetched,
        out == states.last().window(s.position, (states.last().position - s.position) as nat),
        forall|i: int, j: int|
            0 <= i < outs.len() && 0 <= j < counts[i] ==> #[trigger] outs[i][j] == out[states[i].position
                - s.position + j],
{
    let k = states.len() - 1;
    assert(states[0].valid()) by {
        assert forall|i: int| 0 <= i < states[0].marks.len() implies #[trigger] states[0].marks[i]
            <= states[0].fetched.len() by {
            if i < s.marks.len() {
                assert(states[0].marks[i] == s.marks[i]);
            }
        }
    }
    lemma_read_chain(states, lens, counts, outs, k);
    let a = states[k];
    let m = (a.position - s.position) as nat;
    assert(a.marks.last() == s.position);
    assert(a.rolled_back().marks =~= s.marks);
    assert(out =~= out.subrange(0, m as int));
    assert forall|i: int, j: int| 0 <= i < outs.len() && 0 <= j < counts[i] implies #[trigger] outs[i][j]
        == out[states[i].position - s.position + j] by {
        assert(took(states[i], lens[i], counts[i], outs[i], states[i + 1]));
        assert(outs[i].subrange(0, counts[i] as int) == a.window(states[i].position, counts[i]));
        assert(outs[i].subrange(0, counts[i] as int)[j] == a.fetched[states[i].position + j]);
        assert(out.subrange(0, m as int)[states[i].position - s.position + j] == u.window(s.position, m)[states[i].position
            - s.position + j]);
    }
}

/// Reads wrapped in a checkpoint that succeeds are the same reads as without
/// it: with the marks from before the checkpoint in place of its own, each
/// step is a read of the same bytes, and closing the checkpoint leaves exactly
/// the state that the last of those reads leaves.
pub proof fn lemma_commit_reads(
    s: PeekState,
    states: Seq<PeekState>,
    lens: Seq<nat>,
    counts: Seq<nat>,
    outs: Seq<Seq<u8>>,
)
    requires
        states.len() >= 1,
        states[0] == s.opened(),
        lens.len() == states.len() - 1,
        counts.len() == states.len() - 1,
        outs.len() == states.len() - 1,
        forall|i: int|
            0 <= i < states.len() - 1 ==> #[trigger] took(states[i], lens[i], counts[i], outs[i], states[i + 1]),
    ensures
        states[0].with_marks(s.marks) == s,
        forall|i: int|
            0 <= i < states.len() - 1 ==> #[trigger] took(
                states[i].with_marks(s.marks),
                lens[i],
                counts[i],
                outs[i],
                states[i + 1].with_marks(s.marks),
            ),
        states.last().committed() == states.last().with_marks(s.marks),
{
    lemma_chain_marks(s, states, lens, counts, outs, states.len() - 1);
    assert forall|i: int| 0 <= i < states.len() - 1 implies #[trigger] took(
        states[i].with_marks(s.marks),
        lens[i],
        counts[i],
        outs[i],
        states[i + 1].with_marks(s.marks),
    ) by {
        assert(took(states[i], lens[i], counts[i], outs[i], states[i + 1]));
    }
    assert(states.last().committed().marks =~= s.marks);
}

/// Reads keep the marks: every state of a chain of reads has the marks of
/// its first.
proof fn lemma_chain_marks(
    s: PeekState,
    states: Seq<PeekState>,
    lens: Seq<nat>,
    counts: Seq<nat>,
    outs: Seq<Seq<u8>>,
    k: int,
)
    requires
        states.len() >= 1,
        states[0] == s.opened(),
        lens.len() == states.len() - 1,
        counts.len() == states.len() - 1,
        outs.len() == states.len() - 1,
        forall|i: int|
            0 <= i < states.len() - 1 ==> #[trigger] took(states[i], lens[i], counts[i], outs[i], states[i + 1]),
        0 <= k < states.len(),
    ensures
        forall|i: int| 0 <= i <= k ==> (#[trigger] states[i]).marks == s.opened().marks,
    decreases k,
{
    if k > 0 {
        lemma_chain_marks(s, states, lens, counts, outs, k - 1);
        let h = k - 1;
        assert(took(states[h], lens[h], counts[h], outs[h], states[h + 1]));
    }
}

} // verus!
