use vstd::prelude::*;
use crate::source::{inner_consume, inner_window, read_full, read_some};
use crate::state::{peeked, retained_after, took, PeekState, RECLAIM_THRESHOLD};
use crate::window::Lookahead;

verus! {

/// A reader that can look ahead in the stream of `ioread` and open
/// checkpoints that rewind it. Peeked bytes, and bytes read while a checkpoint
/// is open, are buffered so that they can be delivered again. `shown` is the
/// length of the inner reader's window that `fill_buf` last handed out, and 0
/// once anything else has used the inner reader.
pub struct PeekRead<Read> {
    ioread: Read,
    ahead: Lookahead,
    shown: usize,
}

impl<Read> PeekRead<Read> {
    /// Delivered bytes that the buffer still holds.
    pub closed spec fn retained(&self) -> nat {
        self.ahead.retained()
    }

    /// Nothing is buffered and the cursor is unset: reads go straight to the
    /// inner reader.
    pub closed spec fn passthrough(&self) -> bool {
        self.ahead.passthrough()
    }

    /// What holds whenever no checkpoint is open: fewer delivered bytes than
    /// the reclaim threshold stay buffered, and with nothing pending the reader
    /// passes reads through, holding no delivered byte at all.
    pub open spec fn settled(&self) -> bool {
        self@.marks.len() == 0 ==> {
            &&& self.retained() < RECLAIM_THRESHOLD
            &&& self@.pending().len() == 0 ==> self.passthrough() && self.retained() == 0
        }
    }
}

impl<Read> View for PeekRead<Read> {
    type V = PeekState;

    closed spec fn view(&self) -> PeekState {
        self.ahead.view()
    }
}

impl<Read: std::io::Read> PeekRead<Read> {
    pub fn new(read: Read) -> (r: Self)
        ensures
            r@ == PeekState::initial(),
            r.retained() == 0,
            r.passthrough(),
    {
        PeekRead { ioread: read, ahead: Lookahead::new(), shown: 0 }
    }

    /// Number of delivered bytes that the buffer still holds. While no
    /// checkpoint is open it stays below the reclaim threshold.
    pub fn retained_len(&self) -> (r: usize)
        ensures
            r == self.retained(),
            self@.marks.len() == 0 ==> r < RECLAIM_THRESHOLD,
    {
        self.ahead.valid();
        self.ahead.retained_len()
    }

    /// Peeks the stream: fills the front of `buf` with the next bytes without
    /// consuming them. Pending bytes come first; the inner reader is asked
    /// once, for the rest, only when they do not fill `buf`.
    pub fn peek(&mut self, buf: &mut [u8]) -> (res: std::io::Result<usize>)
        ensures
            final(self).settled(),
            final(self).retained() == old(self).retained(),
            final(self)@.valid(),
            final(buf)@.len() == old(buf)@.len(),
            old(buf)@.len() <= old(self)@.pending().len() ==> res is Ok,
            match res {
                Ok(n) => peeked(old(self)@, old(buf)@.len() as nat, n as nat, final(buf)@, final(self)@),
                Err(_) => final(self)@ == old(self)@,
            },
    {
        self.ahead.valid();
        self.shown = 0;
        let ghost s = self@;
        let take = self.ahead.copy_pending(buf);
        if take == buf.len() {
            assert(buf@.subrange(0, take as int) =~= s.window(s.position, take as nat));
            return Ok(take);
        }
        let ghost copied = buf@;
        let n = match read_some(&mut self.ioread, buf, take) {
            Ok(n) => n,
            Err(e) => return Err(e),
        };
        self.ahead.record(buf, take, take + n, false);
        self.ahead.valid();
        proof {
            lemma_fresh_follow(s, copied, buf@, take as int, n as int, self@.fetched);
        }
        Ok(take + n)
    }

    /// Peeks the stream: fills all of `buf` with the next bytes without
    /// consuming them, or fails. Pending bytes come first; the inner reader is
    /// asked to fill the rest only when they do not cover `buf`.
    pub fn peek_exact(&mut self, buf: &mut [u8]) -> (res: std::io::Result<()>)
        ensures
            final(self).settled(),
            final(self).retained() == old(self).retained(),
            final(self)@.valid(),
            final(buf)@.len() == old(buf)@.len(),
            old(buf)@.len() <= old(self)@.pending().len() ==> res is Ok,
            match res {
                Ok(_) => peeked(
                    old(self)@,
                    old(buf)@.len() as nat,
                    old(buf)@.len() as nat,
                    final(buf)@,
                    final(self)@,
                ),
                Err(_) => final(self)@ == old(self)@,
            },
    {
        self.ahead.valid();
        self.shown = 0;
        let ghost s = self@;
        let take = self.ahead.copy_pending(buf);
        if take == buf.len() {
            assert(buf@.subrange(0, take as int) =~= s.window(s.position, take as nat));
            return Ok(());
        }
        let ghost copied = buf@;
        match read_full(&mut self.ioread, buf, take) {
            Ok(()) => {},
            Err(e) => return Err(e),
        }
        let len = buf.len();
        self.ahead.record(buf, take, len, false);
        self.ahead.valid();
        proof {
            lemma_fresh_follow(s, copied, buf@, take as int, len - take, self@.fetched);
        }
        Ok(())
    }

    /// Reads from the stream: pending bytes are delivered first; the inner
    /// reader is asked once, for the rest, only when they do not fill `buf`.
    /// While a checkpoint is open the bytes it produces are kept for replay.
    pub fn read(&mut self, buf: &mut [u8]) -> (res: std::io::Result<usize>)
        ensures
            final(self).settled(),
            old(self)@.marks.len() == 0 ==> (res matches Ok(n) ==> final(self).retained() == retained_after(
                old(self).retained(),
                n as nat,
                old(self)@.pending().len(),
            )),
            final(self)@.valid(),
            final(buf)@.len() == old(buf)@.len(),
            old(buf)@.len() <= old(self)@.pending().len() ==> res is Ok,
            match res {
                Ok(n) => took(old(self)@, old(buf)@.len() as nat, n as nat, final(buf)@, final(self)@),
                Err(_) => old(buf)@.len() > old(self)@.pending().len() && final(self)@ == old(self)@.drained(),
            },
    {
        self.ahead.valid();
        self.shown = 0;
        let ghost s = self@;
        let take = self.ahead.copy_pending(buf);
        if take > 0 {
            self.ahead.release(take);
        }
        self.ahead.valid();
        if take == buf.len() {
            assert(buf@.subrange(0, take as int) =~= s.window(s.position, take as nat));
            return Ok(take);
        }
        let ghost copied = buf@;
        let n = match read_some(&mut self.ioread, buf, take) {
            Ok(n) => n,
            Err(e) => {
                assert(self@ =~= s.drained());
                return Err(e);
            },
        };
        self.ahead.record(buf, take, take + n, true);
        self.ahead.valid();
        proof {
            lemma_fresh_follow(s, copied, buf@, take as int, n as int, self@.fetched);
        }
        Ok(take + n)
    }

    /// Reads exactly `buf.len()` bytes from the stream, or fails: pending
    /// bytes are delivered first; the inner reader is asked to fill the rest
    /// only when they do not cover `buf`.
    pub fn read_exact(&mut self, buf: &mut [u8]) -> (res: std::io::Result<()>)
        ensures
            final(self).settled(),
            old(self)@.marks.len() == 0 && res is Ok ==> final(self).retained() == retained_after(
                old(self).retained(),
                old(buf)@.len() as nat,
                old(self)@.pending().len(),
            ),
            final(self)@.valid(),
            final(buf)@.len() == old(buf)@.len(),
            old(buf)@.len() <= old(self)@.pending().len() ==> res is Ok,
            match res {
                Ok(_) => took(
                    old(self)@,
                    old(buf)@.len() as nat,
                    old(buf)@.len() as nat,
                    final(buf)@,
                    final(self)@,
                ),
                Err(_) => old(buf)@.len() > old(self)@.pending().len() && final(self)@ == old(self)@.drained(),
            },
    {
        self.ahead.valid();
        self.shown = 0;
        let ghost s = self@;
        let take = self.ahead.copy_pending(buf);
        if take > 0 {
            self.ahead.release(take);
        }
        self.ahead.valid();
        if take == buf.len() {
            assert(buf@.subrange(0, take as int) =~= s.window(s.position, take as nat));
            return Ok(());
        }
        let ghost copied = buf@;
        match read_full(&mut self.ioread, buf, take) {
            Ok(()) => {},
            Err(e) => {
                assert(self@ =~= s.drained());
                return Err(e);
            },
        }
        let len = buf.len();
        self.ahead.record(buf, take, len, true);
        self.ahead.valid();
        proof {
            lemma_fresh_follow(s, copied, buf@, take as int, len - take, self@.fetched);
        }
        Ok(())
    }

    /// Opens a checkpoint at the current position and runs `fn_checkpoint` on
    /// the reader. When it fails, the position returns to where the checkpoint
    /// was opened, so that what it read is delivered again; either way its
    /// result is passed on. Checkpoints nest.
    pub fn checkpoint<T, E, F: FnOnce(&mut Self) -> Result<T, E>>(&mut self, fn_checkpoint: F) -> (res:
        Result<T, E>)
        requires
            forall|r: &mut Self| #[trigger] fn_checkpoint.requires((r,)),
            forall|r: &mut Self, v: Result<T, E>| #[trigger]
                fn_checkpoint.ensures((r,), v) ==> mut_ref_future(r)@.marks == mut_ref_current(r)@.marks,
        ensures
            final(self).settled(),
            final(self)@.valid(),
            (exists|r: &mut Self|
                {
                    &&& #[trigger] fn_checkpoint.ensures((r,), res)
                    &&& mut_ref_current(r)@ == old(self)@.opened()
                    &&& final(self)@ == if res is Ok {
                        mut_ref_future(r)@.committed()
                    } else {
                        mut_ref_future(r)@.rolled_back()
                    }
                }),
    {
        self.ahead.valid();
        self.ahead.open_mark();
        let res = fn_checkpoint(self);
        let failed = res.is_err();
        self.ahead.close_mark(failed);
        self.ahead.valid();
        res
    }
}

/// After every pending byte was copied to the front of `copied` and the inner
/// reader then produced `n` more bytes behind them in `out`, the first
/// `take + n` bytes of `out` are the fetched bytes from the position on.
proof fn lemma_fresh_follow(s: PeekState, copied: Seq<u8>, out: Seq<u8>, take: int, n: int, fetched: Seq<u8>)
    requires
        s.valid(),
        0 <= n,
        take == s.pending().len(),
        take + n <= out.len(),
        copied.subrange(0, take) == s.pending().subrange(0, take),
        out.subrange(0, take) == copied.subrange(0, take),
        fetched == s.fetched + out.subrange(take, take + n),
    ensures
        s.fetched.is_prefix_of(fetched),
        fetched.len() == s.position + take + n,
        out.subrange(0, take + n) == fetched.subrange(s.position as int, s.position as int + take + n),
{
    assert(s.fetched =~= fetched.subrange(0, s.fetched.len() as int));
    assert forall|j: int| 0 <= j < take + n implies #[trigger] out.subrange(0, take + n)[j] == fetched.subrange(s.position as int, s.position as int + take + n)[j] by {
        if j < take {
            assert(out.subrange(0, take)[j] == s.pending().subrange(0, take)[j]);
        } else {
            assert(out.subrange(take, take + n)[j - take] == out[j]);
        }
    }
    assert(out.subrange(0, take + n) =~= fetched.subrange(s.position as int, s.position as int + take + n));
}


impl<Read: std::io::BufRead> PeekRead<Read> {
    /// Shows the next bytes without consuming them: the pending bytes when
    /// there are any, else the inner reader's own window.
    pub fn fill_buf(&mut self) -> (res: std::io::Result<&[u8]>)
        ensures
            final(self).settled(),
            final(self)@ == old(self)@,
            old(self)@.pending().len() > 0 ==> (res matches Ok(w) && w@ == old(self)@.pending()),
    {
        self.ahead.valid();
        if self.ahead.pending_len() > 0 {
            self.shown = 0;
            Ok(self.ahead.pending_slice())
        } else {
            match inner_window(&mut self.ioread) {
                Ok(w) => {
                    self.shown = w.len();
                    Ok(w)
                },
                Err(e) => {
                    self.shown = 0;
                    Err(e)
                },
            }
        }
    }

    /// Marks `amt` bytes as read: pending bytes first, then the rest in the
    /// inner reader's window, as far as the last `fill_buf` showed it.
    pub fn consume(&mut self, amt: usize)
        ensures
            final(self).settled(),
            old(self)@.marks.len() == 0 && amt <= old(self)@.pending().len() ==> final(self).retained()
                == retained_after(old(self).retained(), amt as nat, old(self)@.pending().len()),
            final(self)@ == if amt <= old(self)@.pending().len() {
                PeekState { position: (old(self)@.position + amt) as nat, ..old(self)@ }
            } else {
                old(self)@.drained()
            },
    {
        self.ahead.valid();
        let p = self.ahead.pending_len();
        if amt > p {
            self.ahead.release(p);
            let rest = amt - p;
            let forward = if rest <= self.shown {
                rest
            } else {
                self.shown
            };
            inner_consume(&mut self.ioread, forward, self.shown);
        } else {
            self.ahead.release(amt);
        }
        self.shown = 0;
        self.ahead.valid();
    }
}

impl<Read: std::io::Read> std::io::Read for PeekRead<Read> {
    fn read(&mut self, buf: &mut [u8]) -> std::io::Result<usize> {
        PeekRead::read(self, buf)
    }

    fn read_exact(&mut self, buf: &mut [u8]) -> std::io::Result<()> {
        PeekRead::read_exact(self, buf)
    }
}

impl<Read: std::io::BufRead> std::io::BufRead for PeekRead<Read> {
    fn fill_buf(&mut self) -> std::io::Result<&[u8]> {
        PeekRead::fill_buf(self)
    }

    fn consume(&mut self, amt: usize) {
        PeekRead::consume(self, amt)
    }
}

} // verus!
