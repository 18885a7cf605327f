use vstd::prelude::*;

verus! {

/// Number of already-delivered bytes that the buffer may hold, while no
/// checkpoint is open, before they are dropped.
pub const RECLAIM_THRESHOLD: usize = 128;

/// Delivered bytes that the buffer of a reader with no open checkpoint still
/// holds after `k` of its `pending` bytes are delivered, when it held
/// `retained` before: none once every pending byte is out (the reader is back
/// to passing reads through) or once the delivered prefix reaches the reclaim
/// threshold (the prefix is dropped).
pub open spec fn retained_after(retained: nat, k: nat, pending: nat) -> nat {
    if k < pending && retained + k < RECLAIM_THRESHOLD {
        retained + k
    } else {
        0
    }
}

/// Abstract state of a peekable reader.
///
/// `fetched` is every byte obtained from the inner reader so far, in stream
/// order; `position` is how many of them ordinary reads have delivered; `marks`
/// holds the position saved by each open checkpoint, innermost last.
pub struct PeekState {
    pub fetched: Seq<u8>,
    pub position: nat,
    pub marks: Seq<nat>,
}

impl PeekState {
    /// The state of a reader that has not touched its inner reader yet.
    pub open spec fn initial() -> PeekState {
        PeekState { fetched: Seq::empty(), position: 0, marks: Seq::empty() }
    }

    pub open spec fn valid(self) -> bool {
        &&& self.position <= self.fetched.len()
        &&& forall|i: int| 0 <= i < self.marks.len() ==> #[trigger] self.marks[i] <= self.fetched.len()
    }

    /// Bytes already fetched but not yet delivered by an ordinary read.
    pub open spec fn pending(self) -> Seq<u8> {
        self.fetched.subrange(self.position as int, self.fetched.len() as int)
    }

    /// The `n` fetched bytes that start at `from`.
    pub open spec fn window(self, from: nat, n: nat) -> Seq<u8> {
        self.fetched.subrange(from as int, (from + n) as int)
    }

    /// `t` is this state after a request for `len` bytes that reported `n`:
    /// the pending bytes serve the request first, and the inner reader is asked
    /// only for what they cannot cover; every byte it produces is appended to
    /// `fetched`, once.
    pub open spec fn served(self, len: nat, n: nat, t: PeekState) -> bool {
        &&& n <= len
        &&& self.fetched.is_prefix_of(t.fetched)
        &&& t.marks == self.marks
        &&& if len <= self.pending().len() {
            n == len && t.fetched == self.fetched
        } else {
            self.pending().len() <= n && t.fetched.len() == self.position + n
        }
    }

    /// The state after a failed ordinary read: every pending byte was handed
    /// out before the inner reader failed.
    pub open spec fn drained(self) -> PeekState {
        PeekState { position: self.fetched.len(), ..self }
    }

    /// This state with `marks` in place of its own.
    pub open spec fn with_marks(self, marks: Seq<nat>) -> PeekState {
        PeekState { marks, ..self }
    }

    /// The state right after a checkpoint is opened.
    pub open spec fn opened(self) -> PeekState {
        PeekState { marks: self.marks.push(self.position), ..self }
    }

    /// The state after the innermost checkpoint ends in success.
    pub open spec fn committed(self) -> PeekState {
        PeekState { marks: self.marks.drop_last(), ..self }
    }

    /// The state after the innermost checkpoint ends in failure: the position
    /// returns to the mark that the checkpoint saved.
    pub open spec fn rolled_back(self) -> PeekState {
        PeekState { position: self.marks.last(), marks: self.marks.drop_last(), ..self }
    }
}

/// A look-ahead of `len` bytes from `s` reported `n` bytes in `out` and left `t`.
pub open spec fn peeked(s: PeekState, len: nat, n: nat, out: Seq<u8>, t: PeekState) -> bool {
    &&& s.served(len, n, t)
    &&& t.position == s.position
    &&& out.len() == len
    &&& out.subrange(0, n as int) == t.window(s.position, n)
}

/// An ordinary read of `len` bytes from `s` delivered `n` bytes in `out` and left `t`.
pub open spec fn took(s: PeekState, len: nat, n: nat, out: Seq<u8>, t: PeekState) -> bool {
    &&& s.served(len, n, t)
    &&& t.position == s.position + n
    &&& out.len() == len
    &&& out.subrange(0, n as int) == t.window(s.position, n)
}

} // verus!
