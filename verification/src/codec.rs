//! Fixed-width integers and byte runs inside encoded records, least
//! significant byte first.

use vstd::prelude::*;

verus! {

/// The four bytes of `x`.
#[verifier::opaque]
pub open spec fn u32_le(x: u32) -> Seq<u8> {
    seq![
        (x % 0x100) as u8,
        (x / 0x100 % 0x100) as u8,
        (x / 0x1_0000 % 0x100) as u8,
        (x / 0x100_0000) as u8,
    ]
}

/// The eight bytes of `x`.
#[verifier::opaque]
pub open spec fn u64_le(x: u64) -> Seq<u8> {
    u32_le((x % 0x1_0000_0000) as u32) + u32_le((x / 0x1_0000_0000) as u32)
}

/// The integer whose four bytes stand in `s` from `at` on.
#[verifier::opaque]
pub open spec fn u32_at(s: Seq<u8>, at: int) -> u32 {
    (s[at] + 0x100 * s[at + 1] + 0x1_0000 * s[at + 2] + 0x100_0000 * s[at + 3]) as u32
}

/// The integer whose eight bytes stand in `s` from `at` on.
#[verifier::opaque]
pub open spec fn u64_at(s: Seq<u8>, at: int) -> u64 {
    (u32_at(s, at) + 0x1_0000_0000 * u32_at(s, at + 4)) as u64
}

/// Four bytes hold an integer of 32 bits.
pub broadcast proof fn lemma_u32_le_len(x: u32)
    ensures
        (#[trigger] u32_le(x)).len() == 4,
{
    reveal(u32_le);
}

/// Eight bytes hold an integer of 64 bits.
pub broadcast proof fn lemma_u64_le_len(x: u64)
    ensures
        (#[trigger] u64_le(x)).len() == 8,
{
    reveal(u64_le);
    reveal(u32_le);
}

/// Reading depends on the four bytes alone.
pub proof fn lemma_u32_at_same(s: Seq<u8>, t: Seq<u8>, at: int)
    requires
        0 <= at,
        at + 4 <= s.len(),
        at + 4 <= t.len(),
        forall|i: int| at <= i < at + 4 ==> s[i] == t[i],
    ensures
        u32_at(s, at) == u32_at(t, at),
{
    reveal(u32_at);
}

/// The bytes `part` stand in `s` from `at` on.
pub open spec fn stands_at(s: Seq<u8>, at: int, part: Seq<u8>) -> bool {
    0 <= at && at + part.len() <= s.len() && s.subrange(at, at + part.len()) == part
}

/// What is read where an integer was written is that integer.
pub proof fn lemma_u32_read_back(s: Seq<u8>, at: int, x: u32)
    requires
        stands_at(s, at, u32_le(x)),
    ensures
        u32_at(s, at) == x,
{
    reveal(u32_le);
    reveal(u32_at);
    let w = s.subrange(at, at + 4);
    assert(w == u32_le(x));
    assert(s[at] == w[0] && s[at + 1] == w[1] && s[at + 2] == w[2] && s[at + 3] == w[3]);
}

/// What is read where an integer was written is that integer.
pub proof fn lemma_u64_read_back(s: Seq<u8>, at: int, x: u64)
    requires
        stands_at(s, at, u64_le(x)),
    ensures
        u64_at(s, at) == x,
{
    reveal(u32_le);
    reveal(u64_le);
    reveal(u64_at);
    let lo = (x % 0x1_0000_0000) as u32;
    let hi = (x / 0x1_0000_0000) as u32;
    let w = s.subrange(at, at + 8);
    assert(w == u64_le(x));
    assert(s.subrange(at, at + 4) =~= w.subrange(0, 4));
    assert(w.subrange(0, 4) =~= u32_le(lo));
    assert(s.subrange(at + 4, at + 8) =~= w.subrange(4, 8));
    assert(w.subrange(4, 8) =~= u32_le(hi));
    lemma_u32_read_back(s, at, lo);
    lemma_u32_read_back(s, at + 4, hi);
}

/// Appends the four bytes of `x`.
pub fn put_u32(buf: &mut Vec<u8>, x: u32)
    ensures
        final(buf)@ == old(buf)@ + u32_le(x),
{
    proof {
        reveal(u32_le);
    }
    buf.push((x % 0x100) as u8);
    buf.push((x / 0x100 % 0x100) as u8);
    buf.push((x / 0x1_0000 % 0x100) as u8);
    buf.push((x / 0x100_0000) as u8);
    assert(buf@ =~= old(buf)@ + u32_le(x));
}

/// Appends the eight bytes of `x`.
pub fn put_u64(buf: &mut Vec<u8>, x: u64)
    ensures
        final(buf)@ == old(buf)@ + u64_le(x),
{
    proof {
        reveal(u64_le);
    }
    put_u32(buf, (x % 0x1_0000_0000) as u32);
    put_u32(buf, (x / 0x1_0000_0000) as u32);
    assert(buf@ =~= old(buf)@ + u64_le(x));
}

/// Appends the bytes of `data`.
pub fn put_bytes(buf: &mut Vec<u8>, data: &[u8])
    ensures
        final(buf)@ == old(buf)@ + data@,
{
    buf.extend_from_slice(data);
    assert(buf@ =~= old(buf)@ + data@);
}

/// Reads the integer whose four bytes stand in `s` from `at` on.
pub fn get_u32(s: &[u8], at: usize) -> (x: u32)
    requires
        at + 4 <= s@.len(),
    ensures
        x == u32_at(s@, at as int),
{
    proof {
        reveal(u32_at);
    }
    s[at] as u32 + 0x100 * (s[at + 1] as u32) + 0x1_0000 * (s[at + 2] as u32) + 0x100_0000 * (s[at
        + 3] as u32)
}

/// Reads the integer whose eight bytes stand in `s` from `at` on.
pub fn get_u64(s: &[u8], at: usize) -> (x: u64)
    requires
        at + 8 <= s@.len(),
    ensures
        x == u64_at(s@, at as int),
{
    proof {
        reveal(u64_at);
    }
    assert(at + 8 <= s.len());
    get_u32(s, at) as u64 + 0x1_0000_0000 * (get_u32(s, at + 4) as u64)
}

/// The bytes of `s` from `from` up to `to`.
pub fn slice(s: &[u8], from: usize, to: usize) -> (r: &[u8])
    requires
        from <= to <= s@.len(),
    ensures
        r@ == s@.subrange(from as int, to as int),
{
    vstd::slice::slice_subrange(s, from, to)
}

/// The least significant byte comes first: each byte counts as much as all that can
/// stand before it, and one more.
pub proof fn lemma_least_first(x: u64)
    ensures
        x == u64_le(x)[0] + 0x100 * u64_le(x)[1] + 0x1_0000 * u64_le(x)[2] + 0x100_0000 * u64_le(x)[3]
            + 0x1_0000_0000 * u64_le(x)[4] + 0x100_0000_0000 * u64_le(x)[5] + 0x1_0000_0000_0000
            * u64_le(x)[6] + 0x100_0000_0000_0000 * u64_le(x)[7],
        x <= u32::MAX ==> x == u32_le(x as u32)[0] + 0x100 * u32_le(x as u32)[1] + 0x1_0000 * u32_le(
            x as u32,
        )[2] + 0x100_0000 * u32_le(x as u32)[3],
{
    reveal(u64_le);
    reveal(u32_le);
}

} // verus!
