//! Byte buffers of the `bytes` crate, and what the codec relies on of them.
//!
//! [`BytesMut`] is a growable byte buffer, [`Bytes`] an immutable one. Verus
//! sees nothing inside either. What they hold is given a name,
//! [`bytes_mut_contents`] and [`bytes_contents`], and the functions below state
//! over those names what the methods of the crate do, without a proof.

use crate::frame::{LENGTH_PREFIX, MAX_PREALLOCATION};
use bytes::{Buf, BufMut, Bytes, BytesMut};
use vstd::prelude::*;

verus! {

#[verifier::external_type_specification]
#[verifier::external_body]
pub struct ExBytesMut(BytesMut);

#[verifier::external_type_specification]
#[verifier::external_body]
pub struct ExBytes(Bytes);

/// The bytes that a [`BytesMut`] holds, in order.
pub uninterp spec fn bytes_mut_contents(buf: BytesMut) -> Seq<u8>;

/// The bytes that a [`Bytes`] holds, in order.
pub uninterp spec fn bytes_contents(data: Bytes) -> Seq<u8>;

/// The four bytes of `n` in big-endian order, for `n` below 2^32.
pub open spec fn be_bytes(n: nat) -> Seq<u8> {
    seq![
        (n / 0x100_0000 % 0x100) as u8,
        (n / 0x1_0000 % 0x100) as u8,
        (n / 0x100 % 0x100) as u8,
        (n % 0x100) as u8,
    ]
}

/// The number whose big-endian bytes are the first four bytes of `s`.
pub open spec fn be_value(s: Seq<u8>) -> nat {
    (s[0] * 0x100_0000 + s[1] * 0x1_0000 + s[2] * 0x100 + s[3]) as nat
}

/// [`BytesMut::new`]: the new buffer holds nothing.
#[verifier::external_body]
pub(crate) fn new_buffer() -> (buf: BytesMut)
    ensures
        bytes_mut_contents(buf) == Seq::<u8>::empty(),
{
    BytesMut::new()
}

/// [`BytesMut::len`]: the number of bytes that the buffer holds.
#[verifier::external_body]
pub(crate) fn buffer_len(buf: &BytesMut) -> (len: usize)
    ensures
        len == bytes_mut_contents(*buf).len(),
{
    buf.len()
}

/// The slice that a [`BytesMut`] dereferences to: the bytes that it holds.
#[verifier::external_body]
pub(crate) fn buffer_slice(buf: &BytesMut) -> (slice: &[u8])
    ensures
        slice@ == bytes_mut_contents(*buf),
{
    &buf[..]
}

/// [`BytesMut::reserve`]: what the buffer holds stays the same. How much it has
/// allocated afterwards is left unsaid.
///
/// The method panics where the capacity would overflow. Since it may double what
/// was allocated before, that can also happen to a buffer that has half of the
/// address space allocated to it. What is allocated does not show in the contents,
/// so this counts as running out of memory here.
#[verifier::external_body]
fn reserve(buf: &mut BytesMut, additional: usize)
    requires
        bytes_mut_contents(*old(buf)).len() + additional <= isize::MAX,
    ensures
        bytes_mut_contents(*final(buf)) == bytes_mut_contents(*old(buf)),
{
    buf.reserve(additional);
}

/// Reserves memory for bytes that are not there yet. Since a peer can announce any
/// number of them, no more than [`MAX_PREALLOCATION`] may be asked for.
pub(crate) fn reserve_ahead(buf: &mut BytesMut, additional: usize)
    requires
        additional <= MAX_PREALLOCATION,
        bytes_mut_contents(*old(buf)).len() + additional <= isize::MAX,
    ensures
        bytes_mut_contents(*final(buf)) == bytes_mut_contents(*old(buf)),
{
    reserve(buf, additional);
}

/// Reserves memory for a length prefix and for a payload that is at hand.
pub(crate) fn reserve_for_frame(buf: &mut BytesMut, payload: &[u8])
    requires
        bytes_mut_contents(*old(buf)).len() + LENGTH_PREFIX + payload@.len() <= isize::MAX,
    ensures
        bytes_mut_contents(*final(buf)) == bytes_mut_contents(*old(buf)),
{
    reserve(buf, LENGTH_PREFIX + payload.len());
}

/// [`Buf::advance`] on a [`BytesMut`]: drops the first `count` bytes. The method
/// panics where there are fewer.
#[verifier::external_body]
pub(crate) fn advance(buf: &mut BytesMut, count: usize)
    requires
        count <= bytes_mut_contents(*old(buf)).len(),
    ensures
        bytes_mut_contents(*final(buf)) == bytes_mut_contents(*old(buf)).skip(count as int),
{
    buf.advance(count);
}

/// [`BytesMut::split_to`]: moves the first `at` bytes out into a buffer of their
/// own. The method panics where there are fewer.
#[verifier::external_body]
pub(crate) fn split_to(buf: &mut BytesMut, at: usize) -> (front: BytesMut)
    requires
        at <= bytes_mut_contents(*old(buf)).len(),
    ensures
        bytes_mut_contents(front) == bytes_mut_contents(*old(buf)).take(at as int),
        bytes_mut_contents(*final(buf)) == bytes_mut_contents(*old(buf)).skip(at as int),
{
    buf.split_to(at)
}

/// [`BufMut::put_u32`] on a [`BytesMut`]: appends the four bytes of `n` in
/// big-endian order. The buffer grows where it has to, so the method panics
/// where [`BytesMut::reserve`] does.
#[verifier::external_body]
pub(crate) fn put_u32(buf: &mut BytesMut, n: u32)
    requires
        bytes_mut_contents(*old(buf)).len() + 4 <= isize::MAX,
    ensures
        bytes_mut_contents(*final(buf)) == bytes_mut_contents(*old(buf)) + be_bytes(n as nat),
{
    buf.put_u32(n);
}

/// [`BytesMut::extend_from_slice`]: appends the bytes of `data`. The buffer grows
/// where it has to, so the method panics where [`BytesMut::reserve`] does.
#[verifier::external_body]
pub(crate) fn extend_from_slice(buf: &mut BytesMut, data: &[u8])
    requires
        bytes_mut_contents(*old(buf)).len() + data@.len() <= isize::MAX,
    ensures
        bytes_mut_contents(*final(buf)) == bytes_mut_contents(*old(buf)) + data@,
{
    buf.extend_from_slice(data);
}

/// The slice that a [`Bytes`] dereferences to: the bytes that it holds.
#[verifier::external_body]
pub(crate) fn bytes_slice(data: &Bytes) -> (slice: &[u8])
    ensures
        slice@ == bytes_contents(*data),
{
    &data[..]
}

/// [`BytesMut::freeze`]: an immutable buffer of the same bytes.
#[verifier::external_body]
pub(crate) fn freeze(buf: BytesMut) -> (data: Bytes)
    ensures
        bytes_contents(data) == bytes_mut_contents(buf),
{
    buf.freeze()
}

/// Reading the four big-endian bytes of a number gives the number back,
/// whatever follows them.
pub proof fn be_value_of_be_bytes(n: nat, rest: Seq<u8>)
    requires
        n < 0x1_0000_0000,
    ensures
        be_bytes(n).len() == 4,
        be_value(be_bytes(n) + rest) == n,
{
    let s = be_bytes(n) + rest;
    assert(s[0] == (n / 0x100_0000 % 0x100) as u8);
    assert(s[1] == (n / 0x1_0000 % 0x100) as u8);
    assert(s[2] == (n / 0x100 % 0x100) as u8);
    assert(s[3] == (n % 0x100) as u8);
}

} // verus!
