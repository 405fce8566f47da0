//! Binary record format of the log: every integer is little-endian and unsigned.
//!
//! A PUT record is `tag 1 | key_len: u32 | value_len: u32 | key | value`, a DELETE
//! record is `tag 2 | key_len: u32 | key`.
use vstd::prelude::*;

verus! {

/// Tag byte of a PUT record.
pub const TAG_PUT: u8 = 1;

/// Tag byte of a DELETE record.
pub const TAG_DELETE: u8 = 2;

/// Bytes in front of the key of a PUT record: tag, key length, value length.
pub const PUT_HEADER: usize = 9;

/// Bytes in front of the key of a DELETE record: tag, key length.
pub const DELETE_HEADER: usize = 5;

/// The four little-endian bytes of `x`.
pub open spec fn le32(x: u32) -> Seq<u8> {
    seq![
        (x % 256) as u8,
        ((x / 256) % 256) as u8,
        ((x / 65536) % 256) as u8,
        ((x / 16777216) % 256) as u8,
    ]
}

/// The number that the four bytes of `b` starting at `i` stand for, little-endian.
pub open spec fn read_le32(b: Seq<u8>, i: int) -> nat {
    (b[i] as nat) + 256 * (b[i + 1] as nat) + 65536 * (b[i + 2] as nat) + 16777216 * (
    b[i + 3] as nat)
}

/// The bytes of a PUT record for `key` and `value`.
pub open spec fn put_record(key: Seq<u8>, value: Seq<u8>) -> Seq<u8> {
    seq![TAG_PUT] + le32(key.len() as u32) + le32(value.len() as u32) + key + value
}

/// The bytes of a DELETE record for `key`.
pub open spec fn delete_record(key: Seq<u8>) -> Seq<u8> {
    seq![TAG_DELETE] + le32(key.len() as u32) + key
}

/// Reading back the four bytes of `le32(x)` gives `x`.
pub proof fn lemma_le32_round_trip(x: u32, b: Seq<u8>, i: int)
    requires
        0 <= i,
        i + 4 <= b.len(),
        b.subrange(i, i + 4) == le32(x),
    ensures
        read_le32(b, i) == x as nat,
{
    assert(b[i] == b.subrange(i, i + 4)[0]);
    assert(b[i + 1] == b.subrange(i, i + 4)[1]);
    assert(b[i + 2] == b.subrange(i, i + 4)[2]);
    assert(b[i + 3] == b.subrange(i, i + 4)[3]);
    let x = x as int;
    assert(x == x % 256 + 256 * ((x / 256) % 256) + 65536 * ((x / 65536) % 256) + 16777216 * ((x
        / 16777216) % 256)) by (nonlinear_arith)
        requires
            0 <= x < 0x1_0000_0000,
    ;
}

/// Appends the four little-endian bytes of `x` to `out`.
pub fn push_le32(out: &mut Vec<u8>, x: u32)
    ensures
        final(out)@ == old(out)@ + le32(x),
{
    out.push((x % 256) as u8);
    out.push(((x / 256) % 256) as u8);
    out.push(((x / 65536) % 256) as u8);
    out.push(((x / 16777216) % 256) as u8);
    assert(final(out)@ =~= old(out)@ + le32(x));
}

/// Reads the little-endian number in the four bytes of `b` starting at `i`.
pub fn get_le32(b: &[u8], i: usize) -> (r: u32)
    requires
        i + 4 <= b@.len(),
    ensures
        r as nat == read_le32(b@, i as int),
{
    let r: u64 = b[i] as u64 + 256 * (b[i + 1] as u64) + 65536 * (b[i + 2] as u64) + 16777216 * (
    b[i + 3] as u64);
    r as u32
}

/// Appends a PUT record for `key` and `value` to `out`.
pub fn push_put_record(out: &mut Vec<u8>, key: &[u8], value: &[u8])
    requires
        key@.len() <= u32::MAX,
        value@.len() <= u32::MAX,
    ensures
        final(out)@ == old(out)@ + put_record(key@, value@),
{
    out.push(TAG_PUT);
    push_le32(out, key.len() as u32);
    push_le32(out, value.len() as u32);
    push_bytes(out, key);
    push_bytes(out, value);
    assert(final(out)@ =~= old(out)@ + put_record(key@, value@));
}

/// Appends a DELETE record for `key` to `out`.
pub fn push_delete_record(out: &mut Vec<u8>, key: &[u8])
    requires
        key@.len() <= u32::MAX,
    ensures
        final(out)@ == old(out)@ + delete_record(key@),
{
    out.push(TAG_DELETE);
    push_le32(out, key.len() as u32);
    push_bytes(out, key);
    assert(final(out)@ =~= old(out)@ + delete_record(key@));
}

/// Appends every byte of `b` to `out`, in order.
pub fn push_bytes(out: &mut Vec<u8>, b: &[u8])
    ensures
        final(out)@ == old(out)@ + b@,
{
    let mut i: usize = 0;
    while i < b.len()
        invariant
            i <= b@.len(),
            out@ == old(out)@ + b@.subrange(0, i as int),
        decreases b@.len() - i,
    {
        out.push(b[i]);
        i = i + 1;
        assert(out@ =~= old(out)@ + b@.subrange(0, i as int));
    }
    assert(b@.subrange(0, i as int) =~= b@);
}

} // verus!
