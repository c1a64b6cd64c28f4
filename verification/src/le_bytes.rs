//! Little-endian packing of fixed-width integers.

use vstd::prelude::*;

verus! {

/// The two bytes of `v`, least significant first.
pub open spec fn le16(v: u16) -> Seq<u8> {
    seq![(v % 256) as u8, (v / 256) as u8]
}

/// The four bytes of `v`, least significant first.
pub open spec fn le32(v: u32) -> Seq<u8> {
    seq![
        (v % 256) as u8,
        ((v / 0x100) % 256) as u8,
        ((v / 0x1_0000) % 256) as u8,
        (v / 0x100_0000) as u8,
    ]
}

/// The eight bytes of `v`, least significant first.
pub open spec fn le64(v: u64) -> Seq<u8> {
    le32((v % 0x1_0000_0000) as u32) + le32((v / 0x1_0000_0000) as u32)
}

/// The four bytes of `v`, most significant first.
pub open spec fn be32(v: u32) -> Seq<u8> {
    seq![
        (v / 0x100_0000) as u8,
        ((v / 0x1_0000) % 256) as u8,
        ((v / 0x100) % 256) as u8,
        (v % 256) as u8,
    ]
}

/// The number that a little-endian byte string spells.
pub open spec fn le_value(bytes: Seq<u8>) -> nat
    decreases bytes.len(),
{
    if bytes.len() == 0 {
        0
    } else {
        bytes[0] as nat + 256 * le_value(bytes.drop_first())
    }
}

/// Packing loses nothing: the bytes of `v` spell `v` again.
pub proof fn le16_round_trip(v: u16)
    ensures
        le16(v).len() == 2,
        le_value(le16(v)) == v,
{
    reveal_with_fuel(le_value, 3);
    assert(le16(v).drop_first() =~= seq![(v / 256) as u8]);
    assert(seq![(v / 256) as u8].drop_first() =~= Seq::<u8>::empty());
}

/// Packing loses nothing: the bytes of `v` spell `v` again.
pub proof fn le32_round_trip(v: u32)
    ensures
        le32(v).len() == 4,
        le_value(le32(v)) == v,
{
    reveal_with_fuel(le_value, 5);
    let b = le32(v);
    assert(b.drop_first() =~= seq![b[1], b[2], b[3]]);
    assert(seq![b[1], b[2], b[3]].drop_first() =~= seq![b[2], b[3]]);
    assert(seq![b[2], b[3]].drop_first() =~= seq![b[3]]);
    assert(seq![b[3]].drop_first() =~= Seq::<u8>::empty());
}

proof fn le_value_concat4(a: Seq<u8>, b: Seq<u8>)
    requires
        a.len() == 4,
    ensures
        le_value(a + b) == le_value(a) + 0x1_0000_0000 * le_value(b),
{
    reveal_with_fuel(le_value, 5);
    let t = a + b;
    let a1 = a.drop_first();
    let a2 = a1.drop_first();
    let a3 = a2.drop_first();
    assert(t.drop_first() =~= a1 + b);
    assert((a1 + b).drop_first() =~= a2 + b);
    assert((a2 + b).drop_first() =~= a3 + b);
    assert((a3 + b).drop_first() =~= b);
    assert(a3.drop_first() =~= Seq::<u8>::empty());
}

/// Packing loses nothing: the bytes of `v` spell `v` again.
pub proof fn le64_round_trip(v: u64)
    ensures
        le64(v).len() == 8,
        le_value(le64(v)) == v,
{
    let lo = (v % 0x1_0000_0000) as u32;
    let hi = (v / 0x1_0000_0000) as u32;
    le32_round_trip(lo);
    le32_round_trip(hi);
    le_value_concat4(le32(lo), le32(hi));
}

/// Appends every byte of `bytes`.
pub fn push_bytes(buf: &mut Vec<u8>, bytes: &[u8])
    ensures
        final(buf)@ == old(buf)@ + bytes@,
{
    buf.extend_from_slice(bytes);
    assert(buf@ =~= old(buf)@ + bytes@);
}

/// Appends `v` as two bytes.
pub fn p16(buf: &mut Vec<u8>, v: u16)
    ensures
        final(buf)@ == old(buf)@ + le16(v),
{
    buf.push((v % 256) as u8);
    buf.push((v / 256) as u8);
    assert(buf@ =~= old(buf)@ + le16(v));
}

/// Appends `v` as four bytes.
pub fn p32(buf: &mut Vec<u8>, v: u32)
    ensures
        final(buf)@ == old(buf)@ + le32(v),
{
    buf.push((v % 256) as u8);
    buf.push(((v / 0x100) % 256) as u8);
    buf.push(((v / 0x1_0000) % 256) as u8);
    buf.push((v / 0x100_0000) as u8);
    assert(buf@ =~= old(buf)@ + le32(v));
}

/// Appends `v` as eight bytes.
pub fn p64(buf: &mut Vec<u8>, v: u64)
    ensures
        final(buf)@ == old(buf)@ + le64(v),
{
    p32(buf, (v % 0x1_0000_0000) as u32);
    p32(buf, (v / 0x1_0000_0000) as u32);
    assert(buf@ =~= old(buf)@ + le64(v));
}

} // verus!
