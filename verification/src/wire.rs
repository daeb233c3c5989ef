//! The NBD wire codec: encoding of request headers and decoding of reply
//! headers, both big-endian and bit-exact.
//!
//! A request header is 28 bytes: magic, command code, queue index, tag
//! (a signed 32-bit tag carried as unsigned bytes), byte offset, length.
//! A reply header is 16 bytes: magic, error code (0 means success), queue
//! index, tag.

use vstd::prelude::*;

use crate::errno::Error;

verus! {

/// Magic constant opening every request header.
pub const NBD_REQUEST_MAGIC: u32 = 0x25609513;
/// Magic constant opening every reply header; a mismatch rejects the reply.
pub const NBD_REPLY_MAGIC: u32 = 0x67446698;

/// Wire command codes.
pub const NBD_CMD_READ: u32 = 0;
pub const NBD_CMD_WRITE: u32 = 1;
pub const NBD_CMD_DISC: u32 = 2;
pub const NBD_CMD_FLUSH: u32 = 3;
pub const NBD_CMD_TRIM: u32 = 4;

/// Block-layer command kinds accepted for dispatch.
pub const REQ_OP_READ: u32 = 0;
pub const REQ_OP_WRITE: u32 = 1;
pub const REQ_OP_FLUSH: u32 = 2;
pub const REQ_OP_DISCARD: u32 = 3;

/// Size in bytes of an encoded request header.
pub const REQUEST_SIZE: usize = 28;
/// Size in bytes of an encoded reply header.
pub const REPLY_SIZE: usize = 16;

/// The four big-endian bytes of a 32-bit value.
pub open spec fn be32(x: u32) -> Seq<u8> {
    seq![
        (x / 0x1000000) as u8,
        ((x / 0x10000) % 0x100) as u8,
        ((x / 0x100) % 0x100) as u8,
        (x % 0x100) as u8,
    ]
}

/// The eight big-endian bytes of a 64-bit value.
pub open spec fn be64(x: u64) -> Seq<u8> {
    seq![
        (x / 0x100000000000000) as u8,
        ((x / 0x1000000000000) % 0x100) as u8,
        ((x / 0x10000000000) % 0x100) as u8,
        ((x / 0x100000000) % 0x100) as u8,
        ((x / 0x1000000) % 0x100) as u8,
        ((x / 0x10000) % 0x100) as u8,
        ((x / 0x100) % 0x100) as u8,
        (x % 0x100) as u8,
    ]
}

/// The 32-bit value read from four big-endian bytes.
pub open spec fn from_be32(s: Seq<u8>) -> u32
    recommends
        s.len() == 4,
{
    (s[0] * 0x1000000 + s[1] * 0x10000 + s[2] * 0x100 + s[3]) as u32
}

/// The 64-bit value read from eight big-endian bytes.
pub open spec fn from_be64(s: Seq<u8>) -> u64
    recommends
        s.len() == 8,
{
    (s[0] * 0x100000000000000 + s[1] * 0x1000000000000 + s[2] * 0x10000000000
        + s[3] * 0x100000000 + s[4] * 0x1000000 + s[5] * 0x10000 + s[6] * 0x100 + s[7]) as u64
}

pub proof fn lemma_be32_round_trip(x: u32)
    ensures
        be32(x).len() == 4,
        from_be32(be32(x)) == x,
{
    assert(x / 0x1000000 * 0x1000000 + x / 0x10000 % 0x100 * 0x10000 + x / 0x100 % 0x100 * 0x100
        + x % 0x100 == x) by (bit_vector);
}

pub proof fn lemma_be64_round_trip(x: u64)
    ensures
        be64(x).len() == 8,
        from_be64(be64(x)) == x,
{
    assert(x / 0x100000000000000 * 0x100000000000000 + x / 0x1000000000000 % 0x100
        * 0x1000000000000 + x / 0x10000000000 % 0x100 * 0x10000000000 + x / 0x100000000 % 0x100
        * 0x100000000 + x / 0x1000000 % 0x100 * 0x1000000 + x / 0x10000 % 0x100 * 0x10000 + x
        / 0x100 % 0x100 * 0x100 + x % 0x100 == x) by (bit_vector);
}

/// Appends the four big-endian bytes of `x` to `out`.
pub fn push_be32(out: &mut Vec<u8>, x: u32)
    ensures
        final(out)@ == old(out)@ + be32(x),
{
    out.push((x / 0x1000000) as u8);
    out.push(((x / 0x10000) % 0x100) as u8);
    out.push(((x / 0x100) % 0x100) as u8);
    out.push((x % 0x100) as u8);
    assert(out@ =~= old(out)@ + be32(x));
}

/// Appends the eight big-endian bytes of `x` to `out`.
pub fn push_be64(out: &mut Vec<u8>, x: u64)
    ensures
        final(out)@ == old(out)@ + be64(x),
{
    out.push((x / 0x100000000000000) as u8);
    out.push(((x / 0x1000000000000) % 0x100) as u8);
    out.push(((x / 0x10000000000) % 0x100) as u8);
    out.push(((x / 0x100000000) % 0x100) as u8);
    out.push(((x / 0x1000000) % 0x100) as u8);
    out.push(((x / 0x10000) % 0x100) as u8);
    out.push(((x / 0x100) % 0x100) as u8);
    out.push((x % 0x100) as u8);
    assert(out@ =~= old(out)@ + be64(x));
}

/// Reads a 32-bit big-endian value at offset `off`.
pub fn read_be32(bytes: &[u8], off: usize) -> (r: u32)
    requires
        off + 4 <= bytes@.len(),
    ensures
        r == from_be32(bytes@.subrange(off as int, off as int + 4)),
{
    let b0 = bytes[off] as u32;
    let b1 = bytes[off + 1] as u32;
    let b2 = bytes[off + 2] as u32;
    let b3 = bytes[off + 3] as u32;
    b0 * 0x1000000 + b1 * 0x10000 + b2 * 0x100 + b3
}

/// Reads a 64-bit big-endian value at offset `off`.
pub fn read_be64(bytes: &[u8], off: usize) -> (r: u64)
    requires
        off + 8 <= bytes@.len(),
    ensures
        r == from_be64(bytes@.subrange(off as int, off as int + 8)),
{
    let b0 = bytes[off] as u64;
    let b1 = bytes[off + 1] as u64;
    let b2 = bytes[off + 2] as u64;
    let b3 = bytes[off + 3] as u64;
    let b4 = bytes[off + 4] as u64;
    let b5 = bytes[off + 5] as u64;
    let b6 = bytes[off + 6] as u64;
    let b7 = bytes[off + 7] as u64;
    b0 * 0x100000000000000 + b1 * 0x1000000000000 + b2 * 0x10000000000 + b3 * 0x100000000 + b4
        * 0x1000000 + b5 * 0x10000 + b6 * 0x100 + b7
}

/// The wire command code of a block-layer command kind, if it is one of the
/// four supported kinds.
pub open spec fn nbd_cmd_of(cmd: u32) -> Option<u32> {
    if cmd == REQ_OP_WRITE {
        Some(NBD_CMD_WRITE)
    } else if cmd == REQ_OP_READ {
        Some(NBD_CMD_READ)
    } else if cmd == REQ_OP_FLUSH {
        Some(NBD_CMD_FLUSH)
    } else if cmd == REQ_OP_DISCARD {
        Some(NBD_CMD_TRIM)
    } else {
        None
    }
}

/// The 28 bytes of an encoded request header for a supported command kind.
pub open spec fn request_bytes(index: u32, tag: i32, cmd: u32, from: u64, len: u32) -> Seq<u8>
    recommends
        nbd_cmd_of(cmd) is Some,
{
    be32(NBD_REQUEST_MAGIC) + be32(nbd_cmd_of(cmd).unwrap()) + be32(index) + be32(tag as u32)
        + be64(from) + be32(len)
}

/// Encodes a request header.  Fails with `NotSupp` exactly when the command
/// kind is outside {write, read, flush, trim}.
pub fn build_request(index: u32, tag: i32, cmd: u32, from: u64, len: u32) -> (r: Result<
    Vec<u8>,
    Error,
>)
    ensures
        r is Ok <==> nbd_cmd_of(cmd) is Some,
        r is Err ==> r == Err::<Vec<u8>, Error>(Error::NotSupp),
        r matches Ok(v) ==> v@ == request_bytes(index, tag, cmd, from, len) && v@.len()
            == REQUEST_SIZE,
{
    let nbd_cmd: u32 = if cmd == REQ_OP_WRITE {
        NBD_CMD_WRITE
    } else if cmd == REQ_OP_READ {
        NBD_CMD_READ
    } else if cmd == REQ_OP_FLUSH {
        NBD_CMD_FLUSH
    } else if cmd == REQ_OP_DISCARD {
        NBD_CMD_TRIM
    } else {
        return Err(Error::NotSupp);
    };
    let mut bytes: Vec<u8> = Vec::new();
    push_be32(&mut bytes, NBD_REQUEST_MAGIC);
    push_be32(&mut bytes, nbd_cmd);
    push_be32(&mut bytes, index);
    push_be32(&mut bytes, tag as u32);
    push_be64(&mut bytes, from);
    push_be32(&mut bytes, len);
    assert(bytes@ =~= request_bytes(index, tag, cmd, from, len));
    Ok(bytes)
}

/// The 28 bytes of an encoded disconnect header: magic and disconnect code,
/// the queue index, and zero for the tag, offset and length fields.
pub open spec fn disconnect_bytes(index: u32) -> Seq<u8> {
    be32(NBD_REQUEST_MAGIC) + be32(NBD_CMD_DISC) + be32(index) + be32(0) + be64(0) + be32(0)
}

/// Encodes a header-only disconnect command; it carries no payload.
pub fn build_disconnect(index: u32) -> (r: Vec<u8>)
    ensures
        r@ == disconnect_bytes(index),
        r@.len() == REQUEST_SIZE,
{
    let mut bytes: Vec<u8> = Vec::new();
    push_be32(&mut bytes, NBD_REQUEST_MAGIC);
    push_be32(&mut bytes, NBD_CMD_DISC);
    push_be32(&mut bytes, index);
    push_be32(&mut bytes, 0);
    push_be64(&mut bytes, 0);
    push_be32(&mut bytes, 0);
    assert(bytes@ =~= disconnect_bytes(index));
    bytes
}

/// Decodes a 16-byte reply header.
///
/// Fails with `Inval` exactly when the first four bytes do not spell the
/// reply magic; otherwise yields the remote outcome (success for error code
/// zero, `Io` otherwise) together with the queue index and tag used to find
/// the in-flight request the reply answers.
pub fn parse_reply(bytes: &[u8]) -> (r: Result<(Result<(), Error>, u32, u32), Error>)
    requires
        bytes@.len() == REPLY_SIZE,
    ensures
        r is Ok <==> from_be32(bytes@.subrange(0, 4)) == NBD_REPLY_MAGIC,
        r is Err ==> r == Err::<(Result<(), Error>, u32, u32), Error>(Error::Inval),
        r matches Ok((outcome, qidx, tag)) ==> {
            &&& outcome == (if from_be32(bytes@.subrange(4, 8)) == 0 {
                Ok::<(), Error>(())
            } else {
                Err::<(), Error>(Error::Io)
            })
            &&& qidx == from_be32(bytes@.subrange(8, 12))
            &&& tag == from_be32(bytes@.subrange(12, 16))
        },
{
    let magic = read_be32(bytes, 0);
    if magic != NBD_REPLY_MAGIC {
        return Err(Error::Inval);
    }
    let reply_error = read_be32(bytes, 4);
    let qidx = read_be32(bytes, 8);
    let tag = read_be32(bytes, 12);
    let outcome: Result<(), Error> = if reply_error == 0 {
        Ok(())
    } else {
        Err(Error::Io)
    };
    Ok((outcome, qidx, tag))
}

/// What a conformant peer reads out of a 28-byte request header: the wire
/// command code, queue index, tag bits, byte offset and length.
pub open spec fn spec_parse_request(s: Seq<u8>) -> Option<(u32, u32, u32, u64, u32)> {
    if s.len() == REQUEST_SIZE && from_be32(s.subrange(0, 4)) == NBD_REQUEST_MAGIC {
        Some(
            (
                from_be32(s.subrange(4, 8)),
                from_be32(s.subrange(8, 12)),
                from_be32(s.subrange(12, 16)),
                from_be64(s.subrange(16, 24)),
                from_be32(s.subrange(24, 28)),
            ),
        )
    } else {
        None
    }
}

/// Decodes a request header the way the remote peer does.
pub fn parse_request(bytes: &[u8]) -> (r: Result<(u32, u32, u32, u64, u32), Error>)
    ensures
        r is Ok <==> spec_parse_request(bytes@) is Some,
        r is Err ==> r == Err::<(u32, u32, u32, u64, u32), Error>(Error::Inval),
        r matches Ok(t) ==> spec_parse_request(bytes@) == Some(t),
{
    if bytes.len() != REQUEST_SIZE {
        return Err(Error::Inval);
    }
    let magic = read_be32(bytes, 0);
    if magic != NBD_REQUEST_MAGIC {
        return Err(Error::Inval);
    }
    let code = read_be32(bytes, 4);
    let index = read_be32(bytes, 8);
    let tag = read_be32(bytes, 12);
    let from = read_be64(bytes, 16);
    let len = read_be32(bytes, 24);
    Ok((code, index, tag, from, len))
}

/// Round trip of the request layout: a conformant peer-side decode of an
/// encoded request header reproduces the exact
/// (command, queue index, tag, offset, length) tuple.
pub proof fn lemma_request_round_trip(index: u32, tag: i32, cmd: u32, from: u64, len: u32)
    requires
        nbd_cmd_of(cmd) is Some,
    ensures
        spec_parse_request(request_bytes(index, tag, cmd, from, len)) == Some(
            (nbd_cmd_of(cmd).unwrap(), index, tag as u32, from, len),
        ),
        (tag as u32) as i32 == tag,
{
    let s = request_bytes(index, tag, cmd, from, len);
    assert(s.subrange(0, 4) =~= be32(NBD_REQUEST_MAGIC));
    assert(s.subrange(4, 8) =~= be32(nbd_cmd_of(cmd).unwrap()));
    assert(s.subrange(8, 12) =~= be32(index));
    assert(s.subrange(12, 16) =~= be32(tag as u32));
    assert(s.subrange(16, 24) =~= be64(from));
    assert(s.subrange(24, 28) =~= be32(len));
    lemma_be32_round_trip(NBD_REQUEST_MAGIC);
    lemma_be32_round_trip(nbd_cmd_of(cmd).unwrap());
    lemma_be32_round_trip(index);
    lemma_be32_round_trip(tag as u32);
    lemma_be64_round_trip(from);
    lemma_be32_round_trip(len);
    assert((tag as u32) as i32 == tag) by (bit_vector);
}

} // verus!
