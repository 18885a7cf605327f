use vstd::prelude::*;
use crate::state::{retained_after, PeekState, RECLAIM_THRESHOLD};

verus! {

/// The buffered part of the stream and its bookkeeping.
///
/// `buffer` holds fetched bytes that are still pending, or that an open
/// checkpoint may need again; `buffer[0]` is fetched byte number `base`.
/// `pos` marks how much of `buffer` ordinary reads have delivered; when it is
/// unset the buffer is empty. Each entry of `checkpoints` is an offset into
/// `buffer`.
pub(crate) struct Window {
    pub(crate) buffer: Vec<u8>,
    pub(crate) pos: Option<usize>,
    pub(crate) checkpoints: Vec<usize>,
    pub(crate) fetched: Ghost<Seq<u8>>,
    pub(crate) base: Ghost<nat>,
}

impl Window {
    /// Offset in `buffer` of the first pending byte.
    pub(crate) open spec fn cursor(self) -> nat {
        match self.pos {
            Some(p) => p as nat,
            None => self.buffer@.len(),
        }
    }

    /// Everything but the bound on retained bytes.
    pub(crate) open spec fn laid_out(self) -> bool {
        &&& self.base + self.buffer@.len() == self.fetched@.len()
        &&& self.fetched@.subrange(self.base as int, self.fetched@.len() as int) == self.buffer@
        &&& match self.pos {
            Some(p) => p <= self.buffer@.len(),
            None => self.buffer@.len() == 0,
        }
        &&& forall|i: int|
            0 <= i < self.checkpoints@.len() ==> #[trigger] self.checkpoints@[i] <= self.buffer@.len()
    }

    /// The cursor is unset and the buffer empty: reads go straight to the
    /// inner reader.
    pub(crate) open spec fn passthrough(self) -> bool {
        self.pos is None && self.buffer@.len() == 0
    }

    pub(crate) open spec fn wf(self) -> bool {
        &&& self.laid_out()
        &&& self.checkpoints@.len() == 0 ==> self.cursor() < RECLAIM_THRESHOLD
        &&& self.checkpoints@.len() == 0 && self.cursor() == self.buffer@.len() ==> self.pos is None
    }

    pub(crate) open spec fn view(self) -> PeekState {
        PeekState {
            fetched: self.fetched@,
            position: self.base + self.cursor(),
            marks: self.checkpoints@.map_values(|c: usize| (self.base + c) as nat),
        }
    }

    pub(crate) fn new() -> (w: Window)
        ensures
            w.wf(),
            w.view() == PeekState::initial(),
            w.cursor() == 0,
            w.passthrough(),
    {
        let w = Window {
            buffer: Vec::new(),
            pos: None,
            checkpoints: Vec::new(),
            fetched: Ghost(Seq::empty()),
            base: Ghost(0),
        };
        assert(w.view().marks =~= Seq::<nat>::empty());
        assert(w.fetched@.subrange(0, 0) =~= w.buffer@);
        w
    }

    pub(crate) fn cursor_exec(&self) -> (c: usize)
        requires
            self.laid_out(),
        ensures
            c == self.cursor(),
    {
        match self.pos {
            Some(p) => p,
            None => self.buffer.len(),
        }
    }

    /// Copies as many pending bytes as fit to the front of `buf`.
    pub(crate) fn copy_pending(&self, buf: &mut [u8]) -> (take: usize)
        requires
            self.wf(),
        ensures
            take as nat == if old(buf)@.len() <= self.view().pending().len() {
                old(buf)@.len()
            } else {
                self.view().pending().len()
            },
            final(buf)@.len() == old(buf)@.len(),
            final(buf)@.subrange(0, take as int) == self.view().pending().subrange(0, take as int),
    {
        let start = self.cursor_exec();
        let avail = self.buffer.len() - start;
        let take = if buf.len() <= avail {
            buf.len()
        } else {
            avail
        };
        let mut i: usize = 0;
        while i < take
            invariant
                self.wf(),
                start == self.cursor(),
                take <= buf@.len(),
                start + take <= self.buffer@.len(),
                self.buffer@.len() <= usize::MAX,
                i <= take,
                buf@.len() == old(buf)@.len(),
                forall|j: int| 0 <= j < i ==> #[trigger] buf@[j] == self.buffer@[start + j],
            decreases take - i,
        {
            buf[i] = self.buffer[start + i];
            i = i + 1;
        }
        proof {
            let s = self.view();
            assert(s.pending() =~= self.buffer@.subrange(start as int, self.buffer@.len() as int)) by {
                assert forall|j: int| 0 <= j < s.pending().len() implies s.pending()[j]
                    == self.buffer@.subrange(start as int, self.buffer@.len() as int)[j] by {
                    assert(self.buffer@[start + j] == self.fetched@.subrange(
                        self.base as int,
                        self.fetched@.len() as int,
                    )[start + j]);
                }
            }
            assert(buf@.subrange(0, take as int) =~= s.pending().subrange(0, take as int));
        }
        take
    }

    /// Drops what no one can ask for again, while no checkpoint is open: the
    /// whole buffer once it is all delivered, or its delivered prefix once
    /// that reaches the reclaim threshold.
    pub(crate) fn reclaim(&mut self)
        requires
            old(self).laid_out(),
            old(self).checkpoints@.len() == 0,
        ensures
            final(self).wf(),
            final(self).view() == old(self).view(),
            final(self).checkpoints@ == old(self).checkpoints@,
            final(self).cursor() == if old(self).cursor() < old(self).buffer@.len() && old(self).cursor()
                < RECLAIM_THRESHOLD {
                old(self).cursor()
            } else {
                0
            },
            final(self).buffer@ == old(self).buffer@.subrange(
                old(self).cursor() - final(self).cursor(),
                old(self).buffer@.len() as int,
            ),
    {
        let c = self.cursor_exec();
        if c == self.buffer.len() {
            self.buffer.clear();
            self.pos = None;
            self.base = Ghost(self.fetched@.len());
            assert(self.fetched@.subrange(self.base@ as int, self.fetched@.len() as int) =~= self.buffer@);
        } else if c >= RECLAIM_THRESHOLD {
            let ghost old_buffer = self.buffer@;
            let rest = self.buffer.split_off(c);
            self.buffer = rest;
            self.pos = Some(0);
            self.base = Ghost((self.base@ + c) as nat);
            assert(self.fetched@.subrange(self.base@ as int, self.fetched@.len() as int) =~= self.buffer@)
                by {
                assert(old_buffer =~= self.fetched@.subrange(
                    self.base@ - c,
                    self.fetched@.len() as int,
                ));
            }
        }
        assert(self.view().marks =~= old(self).view().marks);
    }

    /// Marks `k` pending bytes as delivered to an ordinary read.
    pub(crate) fn release(&mut self, k: usize)
        requires
            old(self).wf(),
            k <= old(self).view().pending().len(),
        ensures
            final(self).wf(),
            final(self).view() == (PeekState { position: (old(self).view().position + k) as nat, ..old(self).view() }),
            final(self).checkpoints@.len() == old(self).checkpoints@.len(),
            final(self).cursor() == if old(self).checkpoints@.len() == 0 {
                retained_after(old(self).cursor(), k as nat, old(self).view().pending().len())
            } else {
                (old(self).cursor() + k) as nat
            },
            final(self).buffer@ == old(self).buffer@.subrange(
                old(self).cursor() + k - final(self).cursor(),
                old(self).buffer@.len() as int,
            ),
    {
        let c = self.cursor_exec();
        let len = self.buffer.len();
        assert(c + k <= len);
        if self.pos.is_some() {
            self.pos = Some(c + k);
        }
        assert(self.view().marks =~= old(self).view().marks);
        if self.checkpoints.len() == 0 {
            self.reclaim();
        }
    }

    /// Appends `src[lo..hi]`, just produced by the inner reader, to the fetched
    /// bytes. With `deliver` they went straight to an ordinary read, which had
    /// already taken every pending byte; without it they are pending.
    pub(crate) fn record(&mut self, src: &[u8], lo: usize, hi: usize, deliver: bool)
        requires
            old(self).wf(),
            lo <= hi <= src@.len(),
            deliver ==> old(self).view().position == old(self).view().fetched.len(),
        ensures
            final(self).wf(),
            final(self).view().fetched == old(self).view().fetched + src@.subrange(lo as int, hi as int),
            final(self).view().marks == old(self).view().marks,
            final(self).view().position == if deliver {
                final(self).view().fetched.len()
            } else {
                old(self).view().position
            },
            final(self).checkpoints@.len() == old(self).checkpoints@.len(),
            deliver && old(self).checkpoints@.len() == 0 ==> final(self).passthrough(),
            !deliver ==> final(self).cursor() == old(self).cursor(),
    {
        let ghost added = src@.subrange(lo as int, hi as int);
        if deliver && self.checkpoints.len() == 0 {
            // Nothing to replay: the bytes bypass the buffer.
            self.buffer.clear();
            self.pos = None;
            self.fetched = Ghost(self.fetched@ + added);
            self.base = Ghost(self.fetched@.len());
            assert(self.fetched@.subrange(self.base@ as int, self.fetched@.len() as int) =~= self.buffer@);
            assert(self.view().marks =~= old(self).view().marks);
        } else {
            let c = self.cursor_exec();
            let mut i: usize = lo;
            while i < hi
                invariant
                    lo <= i <= hi <= src@.len(),
                    self.pos == old(self).pos,
                    self.checkpoints == old(self).checkpoints,
                    self.base == old(self).base,
                    c == old(self).cursor(),
                    self.buffer@ == old(self).buffer@ + src@.subrange(lo as int, i as int),
                    self.fetched@ == old(self).fetched@ + src@.subrange(lo as int, i as int),
                decreases hi - i,
            {
                proof {
                    assert(src@.subrange(lo as int, i + 1) =~= src@.subrange(lo as int, i as int).push(src@[i as int]));
                }
                self.buffer.push(src[i]);
                self.fetched = Ghost(self.fetched@.push(src@[i as int]));
                i = i + 1;
            }
            if deliver {
                self.pos = Some(self.buffer.len());
            } else if lo < hi {
                self.pos = Some(c);
            }
            proof {
                let old_w = *old(self);
                assert(self.fetched@.subrange(self.base@ as int, self.fetched@.len() as int) =~= self.buffer@)
                    by {
                    assert(old_w.buffer@ =~= old_w.fetched@.subrange(
                        old_w.base@ as int,
                        old_w.fetched@.len() as int,
                    ));
                }
                assert(self.view().marks =~= old(self).view().marks);
            }
        }
    }

    /// Opens a checkpoint at the current position.
    pub(crate) fn open_mark(&mut self)
        requires
            old(self).wf(),
        ensures
            final(self).wf(),
            final(self).view() == old(self).view().opened(),
    {
        let c = self.cursor_exec();
        self.checkpoints.push(c);
        assert(self.view().marks =~= old(self).view().opened().marks);
    }

    /// Closes the innermost checkpoint; with `rewind` the position returns to
    /// its mark.
    pub(crate) fn close_mark(&mut self, rewind: bool)
        requires
            old(self).wf(),
            old(self).checkpoints@.len() > 0,
        ensures
            final(self).wf(),
            final(self).view() == if rewind {
                old(self).view().rolled_back()
            } else {
                old(self).view().committed()
            },
    {
        let ghost s = self.view();
        let popped = self.checkpoints.pop();
        if let Some(c) = popped {
            if rewind {
                self.pos = Some(c);
            }
        }
        assert(self.view().marks =~= s.marks.drop_last());
        if self.checkpoints.len() == 0 {
            self.reclaim();
        }
    }
}

/// A window that is well formed at every point.
pub(crate) struct Lookahead {
    w: Window,
}

impl Lookahead {
    #[verifier::type_invariant]
    spec fn inv(self) -> bool {
        self.w.wf()
    }

    pub(crate) closed spec fn view(self) -> PeekState {
        self.w.view()
    }

    /// Delivered bytes that the buffer still holds.
    pub(crate) closed spec fn retained(self) -> nat {
        self.w.cursor()
    }

    pub(crate) closed spec fn passthrough(self) -> bool {
        self.w.passthrough()
    }

    proof fn lemma_valid(w: Window)
        requires
            w.wf(),
        ensures
            w.view().valid(),
            w.view().marks.len() == 0 ==> w.cursor() < RECLAIM_THRESHOLD,
            w.view().marks.len() == 0 && w.view().pending().len() == 0 ==> w.passthrough(),
    {
        assert forall|i: int| 0 <= i < w.view().marks.len() implies #[trigger] w.view().marks[i]
            <= w.view().fetched.len() by {
            assert(w.checkpoints@[i] <= w.buffer@.len());
        }
    }

    pub(crate) fn new() -> (a: Lookahead)
        ensures
            a.view() == PeekState::initial(),
            a.retained() == 0,
            a.passthrough(),
    {
        Lookahead { w: Window::new() }
    }

    /// Brings what the invariant says of the view into the caller's proof;
    /// it runs no code.
    pub(crate) fn valid(&self)
        ensures
            self.view().valid(),
            self.view().marks.len() == 0 ==> self.retained() < RECLAIM_THRESHOLD,
            self.view().marks.len() == 0 && self.view().pending().len() == 0 ==> self.passthrough(),
            self.passthrough() ==> self.retained() == 0,
    {
        proof {
            use_type_invariant(self);
            Self::lemma_valid(self.w);
        }
    }

    pub(crate) fn retained_len(&self) -> (r: usize)
        ensures
            r == self.retained(),
    {
        proof {
            use_type_invariant(self);
        }
        self.w.cursor_exec()
    }

    pub(crate) fn copy_pending(&self, buf: &mut [u8]) -> (take: usize)
        ensures
            take as nat == if old(buf)@.len() <= self.view().pending().len() {
                old(buf)@.len()
            } else {
                self.view().pending().len()
            },
            final(buf)@.len() == old(buf)@.len(),
            final(buf)@.subrange(0, take as int) == self.view().pending().subrange(0, take as int),
    {
        proof {
            use_type_invariant(self);
        }
        self.w.copy_pending(buf)
    }

    pub(crate) fn pending_len(&self) -> (r: usize)
        ensures
            r == self.view().pending().len(),
    {
        proof {
            use_type_invariant(self);
        }
        self.w.buffer.len() - self.w.cursor_exec()
    }

    /// The pending bytes, as one slice.
    pub(crate) fn pending_slice(&self) -> (r: &[u8])
        ensures
            r@ == self.view().pending(),
    {
        proof {
            use_type_invariant(self);
        }
        let c = self.w.cursor_exec();
        let r = vstd::slice::slice_subrange(self.w.buffer.as_slice(), c, self.w.buffer.len());
        proof {
            let w = self.w;
            assert(r@ =~= w.view().pending()) by {
                assert forall|j: int| 0 <= j < r@.len() implies r@[j] == w.view().pending()[j] by {
                    assert(w.buffer@[c + j] == w.fetched@.subrange(w.base@ as int, w.fetched@.len() as int)[c
                        + j]);
                }
            }
        }
        r
    }

    pub(crate) fn release(&mut self, k: usize)
        requires
            k <= old(self).view().pending().len(),
        ensures
            final(self).view() == (PeekState {
                position: (old(self).view().position + k) as nat,
                ..old(self).view()
            }),
            final(self).retained() == if old(self).view().marks.len() == 0 {
                retained_after(old(self).retained(), k as nat, old(self).view().pending().len())
            } else {
                (old(self).retained() + k) as nat
            },
    {
        proof {
            use_type_invariant(&*self);
        }
        let mut w = Window::new();
        std::mem::swap(&mut w, &mut self.w);
        w.release(k);
        self.w = w;
    }

    pub(crate) fn record(&mut self, src: &[u8], lo: usize, hi: usize, deliver: bool)
        requires
            lo <= hi <= src@.len(),
            deliver ==> old(self).view().position == old(self).view().fetched.len(),
        ensures
            final(self).view().fetched == old(self).view().fetched + src@.subrange(lo as int, hi as int),
            final(self).view().marks == old(self).view().marks,
            final(self).view().position == if deliver {
                final(self).view().fetched.len()
            } else {
                old(self).view().position
            },
            deliver && old(self).view().marks.len() == 0 ==> final(self).passthrough(),
            !deliver ==> final(self).retained() == old(self).retained(),
    {
        proof {
            use_type_invariant(&*self);
        }
        let mut w = Window::new();
        std::mem::swap(&mut w, &mut self.w);
        w.record(src, lo, hi, deliver);
        self.w = w;
    }

    pub(crate) fn open_mark(&mut self)
        ensures
            final(self).view() == old(self).view().opened(),
    {
        proof {
            use_type_invariant(&*self);
        }
        let mut w = Window::new();
        std::mem::swap(&mut w, &mut self.w);
        w.open_mark();
        self.w = w;
    }

    pub(crate) fn close_mark(&mut self, rewind: bool)
        requires
            old(self).view().marks.len() > 0,
        ensures
            final(self).view() == if rewind {
                old(self).view().rolled_back()
            } else {
                old(self).view().committed()
            },
    {
        proof {
            use_type_invariant(&*self);
        }
        let mut w = Window::new();
        std::mem::swap(&mut w, &mut self.w);
        w.close_mark(rewind);
        self.w = w;
    }
}

} // verus!
