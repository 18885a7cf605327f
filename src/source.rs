use vstd::prelude::*;

verus! {

#[verifier::external_type_specification]
#[verifier::external_body]
pub struct ExIoError(std::io::Error);

/// Relies on `std::io::Read::read` of the inner reader, handed `buf[start..]`:
/// a successful call reports a count no larger than the space it was given,
/// and `buf[..start]` is not part of the call.
#[verifier::external_body]
pub(crate) fn read_some<R: std::io::Read>(src: &mut R, buf: &mut [u8], start: usize) -> (res: Result<
    usize,
    std::io::Error,
>)
    requires
        start <= old(buf)@.len(),
    ensures
        final(buf)@.len() == old(buf)@.len(),
        final(buf)@.subrange(0, start as int) == old(buf)@.subrange(0, start as int),
        res matches Ok(n) ==> n <= old(buf)@.len() - start,
{
    src.read(&mut buf[start..])
}

/// Relies on `std::io::Read::read_exact` of the inner reader, handed
/// `buf[start..]`: `buf[..start]` is not part of the call.
#[verifier::external_body]
pub(crate) fn read_full<R: std::io::Read>(src: &mut R, buf: &mut [u8], start: usize) -> (res: Result<
    (),
    std::io::Error,
>)
    requires
        start <= old(buf)@.len(),
    ensures
        final(buf)@.len() == old(buf)@.len(),
        final(buf)@.subrange(0, start as int) == old(buf)@.subrange(0, start as int),
{
    src.read_exact(&mut buf[start..])
}

/// Relies on `std::io::BufRead::fill_buf` of the inner reader: it shows the
/// inner reader's own window without consuming it.
#[verifier::external_body]
pub(crate) fn inner_window<R: std::io::BufRead>(src: &mut R) -> (res: Result<&[u8], std::io::Error>) {
    src.fill_buf()
}

/// Relies on `std::io::BufRead::consume` of the inner reader: it marks `amt`
/// bytes of the window that `fill_buf` showed as read, and asks, as `BufRead`
/// does, that `amt` stay within that window. `shown` is the length of the
/// window that the last `fill_buf` on `src` returned, with no other call on
/// `src` since.
#[verifier::external_body]
pub(crate) fn inner_consume<R: std::io::BufRead>(src: &mut R, amt: usize, shown: usize)
    requires
        amt <= shown,
{
    src.consume(amt)
}

} // verus!
