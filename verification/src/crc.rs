//! Checksums as S3 spells them: the four bytes of a CRC-32, most significant first, in
//! base64.

use crate::le_bytes::push_bytes;
use crate::text::{trimmed, trimmed_chars};
use crate::zip_records::{base64_symbol, s3_checksum_text};
use vstd::prelude::*;

verus! {

/// The six bits that a symbol of the standard base64 alphabet stands for.
pub open spec fn symbol_value(c: char) -> Option<nat> {
    if 'A' <= c && c <= 'Z' {
        Some((c as u32 - 'A' as u32) as nat)
    } else if 'a' <= c && c <= 'z' {
        Some((c as u32 - 'a' as u32 + 26) as nat)
    } else if '0' <= c && c <= '9' {
        Some((c as u32 - '0' as u32 + 52) as nat)
    } else if c == '+' {
        Some(62nat)
    } else if c == '/' {
        Some(63nat)
    } else {
        None
    }
}

/// The six bits of a symbol that may be padding, which stands for none.
pub open spec fn padded_value(c: char) -> Option<nat> {
    if c == '=' {
        Some(0nat)
    } else {
        symbol_value(c)
    }
}

/// The bytes of four symbols. The last symbol or the last two may be padding, and then
/// their bytes are left out.
pub open spec fn quad_bytes(c0: char, c1: char, c2: char, c3: char) -> Option<Seq<u8>> {
    match (symbol_value(c0), symbol_value(c1), padded_value(c2), padded_value(c3)) {
        (Some(v0), Some(v1), Some(v2), Some(v3)) => {
            let n = v0 * 0x4_0000 + v1 * 0x1000 + v2 * 0x40 + v3;
            let first = seq![(n / 0x1_0000) as u8];
            let second = first.push(((n / 0x100) % 256) as u8);
            if c3 != '=' {
                if c2 == '=' {
                    None
                } else {
                    Some(second.push((n % 256) as u8))
                }
            } else if c2 == '=' {
                Some(first)
            } else {
                Some(second)
            }
        },
        _ => None,
    }
}

/// The bytes of the first `n` groups of four symbols. Only the group that ends the text may
/// hold padding.
pub open spec fn quads_bytes(text: Seq<char>, n: nat) -> Option<Seq<u8>>
    decreases n,
{
    if n == 0 {
        Some(Seq::empty())
    } else if text[4 * n - 1] == '=' && 4 * n != text.len() {
        None
    } else {
        match (
            quads_bytes(text, (n - 1) as nat),
            quad_bytes(text[4 * n - 4], text[4 * n - 3], text[4 * n - 2], text[4 * n - 1]),
        ) {
            (Some(before), Some(own)) => Some(before + own),
            _ => None,
        }
    }
}

/// The bytes that a text spells in base64, white space around it aside.
pub open spec fn base64_bytes(text: Seq<char>) -> Option<Seq<u8>> {
    let symbols = trimmed(text);
    if symbols.len() % 4 == 0 {
        quads_bytes(symbols, symbols.len() / 4)
    } else {
        None
    }
}

/// The number that four bytes spell, most significant first.
pub open spec fn be_value(bytes: Seq<u8>) -> u32 {
    (bytes[0] * 0x100_0000 + bytes[1] * 0x1_0000 + bytes[2] * 0x100 + bytes[3]) as u32
}

/// The checksum that a text spells: it has to be exactly four bytes.
pub open spec fn s3_crc32(text: Seq<char>) -> Option<u32> {
    match base64_bytes(text) {
        Some(bytes) => if bytes.len() == 4 {
            Some(be_value(bytes))
        } else {
            None
        },
        None => None,
    }
}

fn value_of(c: char) -> (v: Option<u32>)
    ensures
        match v {
            Some(v) => symbol_value(c) == Some(v as nat) && v < 64,
            None => symbol_value(c) is None,
        },
{
    if 'A' <= c && c <= 'Z' {
        Some(c as u32 - 'A' as u32)
    } else if 'a' <= c && c <= 'z' {
        Some(c as u32 - 'a' as u32 + 26)
    } else if '0' <= c && c <= '9' {
        Some(c as u32 - '0' as u32 + 52)
    } else if c == '+' {
        Some(62)
    } else if c == '/' {
        Some(63)
    } else {
        None
    }
}

fn padded_value_of(c: char) -> (v: Option<u32>)
    ensures
        match v {
            Some(v) => padded_value(c) == Some(v as nat) && v < 64,
            None => padded_value(c) is None,
        },
{
    if c == '=' {
        Some(0)
    } else {
        value_of(c)
    }
}

proof fn lemma_quads_none(text: Seq<char>, i: nat, n: nat)
    requires
        i <= n,
        quads_bytes(text, i) is None,
    ensures
        quads_bytes(text, n) is None,
    decreases n - i,
{
    if i < n {
        lemma_quads_none(text, i, (n - 1) as nat);
    }
}

/// Decodes four symbols.
fn quad_of(c0: char, c1: char, c2: char, c3: char) -> (bytes: Option<Vec<u8>>)
    ensures
        match bytes {
            Some(b) => quad_bytes(c0, c1, c2, c3) == Some(b@),
            None => quad_bytes(c0, c1, c2, c3) is None,
        },
{
    match (value_of(c0), value_of(c1), padded_value_of(c2), padded_value_of(c3)) {
        (Some(v0), Some(v1), Some(v2), Some(v3)) => {
            if c2 == '=' && c3 != '=' {
                return None;
            }
            let n: u32 = v0 * 0x4_0000 + v1 * 0x1000 + v2 * 0x40 + v3;
            let mut own: Vec<u8> = Vec::new();
            own.push((n / 0x1_0000) as u8);
            if c2 != '=' {
                own.push(((n / 0x100) % 256) as u8);
            }
            if c3 != '=' {
                own.push((n % 256) as u8);
            }
            assert(own@ =~= quad_bytes(c0, c1, c2, c3)->Some_0);
            Some(own)
        },
        _ => None,
    }
}

/// Decodes standard base64.
fn base64_decode(s: &str) -> (bytes: Option<Vec<u8>>)
    ensures
        match bytes {
            Some(b) => base64_bytes(s@) == Some(b@),
            None => base64_bytes(s@) is None,
        },
{
    let symbols: Vec<char> = trimmed_chars(s);
    if symbols.len() % 4 != 0 {
        return None;
    }
    let quads: usize = symbols.len() / 4;
    let mut out: Vec<u8> = Vec::new();
    for i in 0..quads
        invariant
            symbols@ == trimmed(s@),
            symbols@.len() == 4 * quads,
            quads_bytes(symbols@, i as nat) == Some(out@),
    {
        let last: char = symbols[4 * i + 3];
        if last == '=' && i + 1 != quads {
            proof {
                lemma_quads_none(symbols@, (i + 1) as nat, quads as nat);
            }
            return None;
        }
        match quad_of(symbols[4 * i], symbols[4 * i + 1], symbols[4 * i + 2], last) {
            Some(own) => push_bytes(&mut out, own.as_slice()),
            None => {
                proof {
                    lemma_quads_none(symbols@, (i + 1) as nat, quads as nat);
                }
                return None;
            },
        }
    }
    Some(out)
}

/// Reads a checksum as S3 spells it. There is none in a text that is no base64 or does not
/// spell exactly four bytes.
pub fn decode_s3_crc32(b64: &str) -> (crc: Option<u32>)
    ensures
        crc == s3_crc32(b64@),
{
    let bytes: Vec<u8> = match base64_decode(b64) {
        Some(bytes) => bytes,
        None => {
            return None;
        },
    };
    if bytes.len() != 4 {
        return None;
    }
    Some(
        bytes[0] as u32 * 0x100_0000 + bytes[1] as u32 * 0x1_0000 + bytes[2] as u32 * 0x100
            + bytes[3] as u32,
    )
}

proof fn lemma_symbol(v: nat)
    requires
        v < 64,
    ensures
        symbol_value(base64_symbol(v)) == Some(v),
        base64_symbol(v) != '=',
        !crate::text::is_white_space(base64_symbol(v)),
{
}

proof fn lemma_full_quad(v0: nat, v1: nat, v2: nat, v3: nat)
    requires
        v0 < 64,
        v1 < 64,
        v2 < 64,
        v3 < 64,
    ensures
        ({
            let n = v0 * 0x4_0000 + v1 * 0x1000 + v2 * 0x40 + v3;
            quad_bytes(
                base64_symbol(v0),
                base64_symbol(v1),
                base64_symbol(v2),
                base64_symbol(v3),
            ) == Some(seq![(n / 0x1_0000) as u8, ((n / 0x100) % 256) as u8, (n % 256) as u8])
        }),
{
    lemma_symbol(v0);
    lemma_symbol(v1);
    lemma_symbol(v2);
    lemma_symbol(v3);
    let n = v0 * 0x4_0000 + v1 * 0x1000 + v2 * 0x40 + v3;
    assert(seq![(n / 0x1_0000) as u8].push(((n / 0x100) % 256) as u8).push((n % 256) as u8)
        =~= seq![(n / 0x1_0000) as u8, ((n / 0x100) % 256) as u8, (n % 256) as u8]);
}

proof fn lemma_short_quad(v0: nat, v1: nat)
    requires
        v0 < 64,
        v1 < 64,
    ensures
        quad_bytes(base64_symbol(v0), base64_symbol(v1), '=', '=') == Some(
            seq![((v0 * 0x4_0000 + v1 * 0x1000) / 0x1_0000) as u8],
        ),
{
    lemma_symbol(v0);
    lemma_symbol(v1);
}

proof fn lemma_sextets(crc: u32)
    ensures
        ({
            let d = crc / 0x400_0000;
            let e = (crc / 0x10_0000) % 64;
            let f = (crc / 0x4000) % 64;
            let g = (crc / 0x100) % 64;
            let h = (crc / 4) % 64;
            let i = (crc % 4) * 16;
            &&& d < 64
            &&& i < 64
            &&& d * 0x4_0000 + e * 0x1000 + f * 0x40 + g == crc / 0x100
            &&& (h * 0x4_0000 + i * 0x1000) / 0x1_0000 == crc % 256
        }),
{
    let a = crc / 0x100;
    let b = crc / 0x4000;
    let c = crc / 0x10_0000;
    assert(b == a / 64);
    assert(c == b / 64);
    assert(crc / 0x400_0000 == c / 64);
    let h = (crc / 4) % 64;
    assert(4 * h + crc % 4 == crc % 256);
}

/// Every checksum is read back from the text by which S3 spells it.
pub proof fn checksum_text_is_read_back(crc: u32)
    ensures
        s3_crc32(s3_checksum_text(crc)) == Some(crc),
{
    let text = s3_checksum_text(crc);
    let d = (crc / 0x400_0000) as nat;
    let e = ((crc / 0x10_0000) % 64) as nat;
    let f = ((crc / 0x4000) % 64) as nat;
    let g = ((crc / 0x100) % 64) as nat;
    let h = ((crc / 4) % 64) as nat;
    let i = ((crc % 4) * 16) as nat;
    lemma_sextets(crc);
    lemma_symbol(d);
    lemma_full_quad(d, e, f, g);
    lemma_short_quad(h, i);
    assert(trimmed(text) == text);
    let n = (crc / 0x100) as nat;
    let head = seq![(n / 0x1_0000) as u8, ((n / 0x100) % 256) as u8, (n % 256) as u8];
    let tail = seq![(crc % 256) as u8];
    assert(quads_bytes(text, 0) == Some(Seq::<u8>::empty()));
    assert(Seq::<u8>::empty() + head =~= head);
    assert(quads_bytes(text, 1) == Some(head));
    assert(quads_bytes(text, 2) == Some(head + tail));
    lemma_be_value(crc, head + tail);
}

proof fn lemma_be_value(crc: u32, bytes: Seq<u8>)
    requires
        bytes.len() == 4,
        bytes[0] == crc / 0x100 / 0x1_0000,
        bytes[1] == (crc / 0x100 / 0x100) % 256,
        bytes[2] == (crc / 0x100) % 256,
        bytes[3] == crc % 256,
    ensures
        be_value(bytes) == crc,
{
}

/// A text that is taken for a checksum is, white space around it aside, six symbols of the
/// alphabet and two signs of padding, and the checksum is their bits, the first symbol's
/// uppermost.
pub proof fn checksum_texts_have_one_form(text: Seq<char>)
    ensures
        s3_crc32(text) matches Some(crc) ==> {
            let t = trimmed(text);
            &&& t.len() == 8
            &&& t[6] == '=' && t[7] == '='
            &&& forall|i: int| 0 <= i < 6 ==> symbol_value(#[trigger] t[i]) is Some
            &&& crc == symbol_value(t[0])->Some_0 * 0x400_0000 + symbol_value(t[1])->Some_0
                * 0x10_0000 + symbol_value(t[2])->Some_0 * 0x4000 + symbol_value(t[3])->Some_0
                * 0x100 + symbol_value(t[4])->Some_0 * 4 + symbol_value(t[5])->Some_0 / 16
        },
{
    if let Some(crc) = s3_crc32(text) {
        let t = trimmed(text);
        let n = t.len() / 4;
        let bytes = base64_bytes(text)->Some_0;
        lemma_quads_count(t, n);
        assert(n == 2) by {
            if n <= 1 {
                lemma_quads_count(t, n);
            }
        }
        reveal_with_fuel(quads_bytes, 3);
        let a = quad_bytes(t[0], t[1], t[2], t[3])->Some_0;
        let b = quad_bytes(t[4], t[5], t[6], t[7])->Some_0;
        assert(bytes =~= a + b);
        assert(t[3] != '=');
        lemma_two_quads(t, a, b, crc);
        assert forall|i: int| 0 <= i < 6 implies symbol_value(#[trigger] t[i]) is Some by {
            assert(i == 0 || i == 1 || i == 2 || i == 3 || i == 4 || i == 5);
        }
    }
}

proof fn lemma_symbol_bound(c: char)
    ensures
        symbol_value(c) matches Some(v) ==> v < 64,
{
}

proof fn lemma_two_quads(t: Seq<char>, a: Seq<u8>, b: Seq<u8>, crc: u32)
    requires
        t.len() == 8,
        quad_bytes(t[0], t[1], t[2], t[3]) == Some(a),
        quad_bytes(t[4], t[5], t[6], t[7]) == Some(b),
        t[3] != '=',
        (a + b).len() == 4,
        crc == be_value(a + b),
    ensures
        t[6] == '=' && t[7] == '=',
        symbol_value(t[0]) is Some && symbol_value(t[1]) is Some && symbol_value(t[2]) is Some
            && symbol_value(t[3]) is Some && symbol_value(t[4]) is Some && symbol_value(
            t[5],
        ) is Some,
        crc == symbol_value(t[0])->Some_0 * 0x400_0000 + symbol_value(t[1])->Some_0 * 0x10_0000
            + symbol_value(t[2])->Some_0 * 0x4000 + symbol_value(t[3])->Some_0 * 0x100
            + symbol_value(t[4])->Some_0 * 4 + symbol_value(t[5])->Some_0 / 16,
{
    lemma_quad_form(t[0], t[1], t[2], t[3]);
    lemma_quad_form(t[4], t[5], t[6], t[7]);
    assert(b.len() == 1);
    lemma_bits(
        symbol_value(t[0])->Some_0,
        symbol_value(t[1])->Some_0,
        symbol_value(t[2])->Some_0,
        symbol_value(t[3])->Some_0,
        symbol_value(t[4])->Some_0,
        symbol_value(t[5])->Some_0,
    );
    assert((a + b)[3] == b[0]);
}

/// What a group that can be read looks like: three bytes without padding, one where the last
/// two symbols are padding.
proof fn lemma_quad_form(c0: char, c1: char, c2: char, c3: char)
    ensures
        quad_bytes(c0, c1, c2, c3) matches Some(bytes) ==> {
            &&& symbol_value(c0) is Some && symbol_value(c1) is Some
            &&& symbol_value(c0)->Some_0 < 64 && symbol_value(c1)->Some_0 < 64
            &&& c3 != '=' ==> {
                let n = symbol_value(c0)->Some_0 * 0x4_0000 + symbol_value(c1)->Some_0 * 0x1000
                    + symbol_value(c2)->Some_0 * 0x40 + symbol_value(c3)->Some_0;
                &&& symbol_value(c2) is Some && symbol_value(c3) is Some
                &&& symbol_value(c2)->Some_0 < 64 && symbol_value(c3)->Some_0 < 64
                &&& bytes.len() == 3
                &&& bytes[0] == (n / 0x1_0000) as u8
                &&& bytes[1] == ((n / 0x100) % 256) as u8
                &&& bytes[2] == (n % 256) as u8
            }
            &&& c3 == '=' && c2 != '=' ==> bytes.len() == 2
            &&& c3 == '=' && c2 == '=' ==> {
                let n = symbol_value(c0)->Some_0 * 0x4_0000 + symbol_value(c1)->Some_0 * 0x1000;
                bytes.len() == 1 && bytes[0] == (n / 0x1_0000) as u8
            }
        },
{
    lemma_symbol_bound(c0);
    lemma_symbol_bound(c1);
    lemma_symbol_bound(c2);
    lemma_symbol_bound(c3);
}

proof fn lemma_bits(v0: nat, v1: nat, v2: nat, v3: nat, v4: nat, v5: nat)
    requires
        v0 < 64,
        v1 < 64,
        v2 < 64,
        v3 < 64,
        v4 < 64,
        v5 < 64,
    ensures
        ({
            let n = v0 * 0x4_0000 + v1 * 0x1000 + v2 * 0x40 + v3;
            let m = v4 * 0x4_0000 + v5 * 0x1000;
            &&& n / 0x1_0000 < 256
            &&& m / 0x1_0000 < 256
            &&& (n / 0x1_0000) * 0x100_0000 + ((n / 0x100) % 256) * 0x1_0000 + (n % 256) * 0x100 + m
                / 0x1_0000 == v0 * 0x400_0000 + v1 * 0x10_0000 + v2 * 0x4000 + v3 * 0x100 + v4 * 4
                + v5 / 16
        }),
{
    let n = v0 * 0x4_0000 + v1 * 0x1000 + v2 * 0x40 + v3;
    let m = v4 * 0x4_0000 + v5 * 0x1000;
    let high = n / 0x100;
    assert(n == high * 0x100 + n % 256);
    assert(n / 0x1_0000 == high / 256);
    assert(high == (high / 256) * 256 + high % 256);
    assert(m / 0x1_0000 == v4 * 4 + v5 / 16);
}

/// Every group but the last gives three bytes, and the last one to three.
proof fn lemma_quads_count(t: Seq<char>, n: nat)
    requires
        4 * n <= t.len(),
        quads_bytes(t, n) is Some,
    ensures
        n == 0 ==> quads_bytes(t, n)->Some_0.len() == 0,
        n > 0 ==> 3 * (n - 1) + 1 <= quads_bytes(t, n)->Some_0.len() <= 3 * n,
        n > 0 && t[4 * n - 1] != '=' ==> quads_bytes(t, n)->Some_0.len() == 3 * n,
    decreases n,
{
    if n > 0 {
        lemma_quads_count(t, (n - 1) as nat);
        if n > 1 {
            reveal_with_fuel(quads_bytes, 2);
            assert(t[4 * (n - 1) - 1] != '=');
        }
    }
}

} // verus!
