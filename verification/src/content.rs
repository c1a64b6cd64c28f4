//! Names that are made of content: the SHA-256 of an object, in hexadecimal.

use crate::assemble::{key_text, object_key};
use vstd::prelude::*;
use vstd::string::StringExecFns;

verus! {

/// The hexadecimal digit of `d`, in lower case.
pub open spec fn hex_digit(d: nat) -> char {
    if d < 10 {
        (48 + d) as char
    } else {
        (87 + d) as char
    }
}

/// Bytes in hexadecimal, two digits each.
pub open spec fn hex_text(bytes: Seq<u8>) -> Seq<char>
    decreases bytes.len(),
{
    if bytes.len() == 0 {
        Seq::empty()
    } else {
        hex_text(bytes.drop_last()).push(hex_digit((bytes.last() / 16) as nat)).push(
            hex_digit((bytes.last() % 16) as nat),
        )
    }
}

fn hex_digit_str(d: u8) -> (s: &'static str)
    requires
        d < 16,
    ensures
        s@ == seq![hex_digit(d as nat)],
{
    proof {
        reveal_strlit("0");
        reveal_strlit("1");
        reveal_strlit("2");
        reveal_strlit("3");
        reveal_strlit("4");
        reveal_strlit("5");
        reveal_strlit("6");
        reveal_strlit("7");
        reveal_strlit("8");
        reveal_strlit("9");
        reveal_strlit("a");
        reveal_strlit("b");
        reveal_strlit("c");
        reveal_strlit("d");
        reveal_strlit("e");
        reveal_strlit("f");
    }
    let s: &'static str = match d {
        0 => "0",
        1 => "1",
        2 => "2",
        3 => "3",
        4 => "4",
        5 => "5",
        6 => "6",
        7 => "7",
        8 => "8",
        9 => "9",
        10 => "a",
        11 => "b",
        12 => "c",
        13 => "d",
        14 => "e",
        _ => "f",
    };
    assert(s@ =~= seq![hex_digit(d as nat)]);
    s
}

/// Bytes in hexadecimal.
pub fn to_hex(bytes: &[u8]) -> (s: String)
    ensures
        s@ == hex_text(bytes@),
{
    let mut s: String = String::new();
    assert(bytes@.take(0) =~= Seq::empty());
    for i in 0..bytes.len()
        invariant
            s@ == hex_text(bytes@.take(i as int)),
    {
        let ghost before = s@;
        s.append(hex_digit_str(bytes[i] / 16));
        s.append(hex_digit_str(bytes[i] % 16));
        proof {
            assert(bytes@.take(i + 1).drop_last() =~= bytes@.take(i as int));
            assert(s@ =~= hex_text(bytes@.take(i + 1)));
        }
    }
    assert(bytes@.take(bytes@.len() as int) =~= bytes@);
    s
}

/// The SHA-256 digest of some bytes.
pub uninterp spec fn sha256(data: Seq<u8>) -> Seq<u8>;

/// `Sha256::digest` of the `sha2` crate. Trusted: the digest depends on the bytes alone and
/// has 32 of its own.
#[verifier::external_body]
fn sha256_digest(data: &[u8]) -> (digest: Vec<u8>)
    ensures
        digest@ == sha256(data@),
        digest@.len() == 32,
{
    <sha2::Sha256 as sha2::Digest>::digest(data).to_vec()
}

/// The name that a content has: its digest in hexadecimal.
pub open spec fn content_name_of(data: Seq<u8>) -> Seq<char> {
    hex_text(sha256(data))
}

/// The name that a content has: its digest in hexadecimal.
pub fn content_name(data: &[u8]) -> (name: String)
    ensures
        name@ == content_name_of(data@),
        name@.len() == 64,
{
    let digest: Vec<u8> = sha256_digest(data);
    proof {
        lemma_hex_len(digest@);
    }
    to_hex(digest.as_slice())
}

/// The key under which a content is stored.
pub fn content_key(prefix: &str, data: &[u8]) -> (key: String)
    ensures
        key@ == key_text(prefix@, content_name_of(data@)),
{
    let name: String = content_name(data);
    object_key(prefix, name.as_str())
}

proof fn lemma_hex_len(bytes: Seq<u8>)
    ensures
        hex_text(bytes).len() == 2 * bytes.len(),
    decreases bytes.len(),
{
    if bytes.len() > 0 {
        lemma_hex_len(bytes.drop_last());
    }
}

proof fn lemma_hex_digit(a: nat, b: nat)
    requires
        a < 16,
        b < 16,
        hex_digit(a) == hex_digit(b),
    ensures
        a == b,
{
}

/// Different bytes have different texts.
pub proof fn hex_is_injective(a: Seq<u8>, b: Seq<u8>)
    requires
        hex_text(a) == hex_text(b),
    ensures
        a == b,
    decreases a.len(),
{
    lemma_hex_len(a);
    lemma_hex_len(b);
    if a.len() == 0 {
        assert(a =~= b);
    } else {
        let ta = hex_text(a);
        let tb = hex_text(b);
        let n = ta.len() as int;
        assert(ta[n - 1] == tb[n - 1] && ta[n - 2] == tb[n - 2]);
        lemma_hex_digit((a.last() / 16) as nat, (b.last() / 16) as nat);
        lemma_hex_digit((a.last() % 16) as nat, (b.last() % 16) as nat);
        assert(hex_text(a.drop_last()) =~= ta.take(n - 2));
        assert(hex_text(b.drop_last()) =~= tb.take(n - 2));
        hex_is_injective(a.drop_last(), b.drop_last());
        assert(a =~= a.drop_last().push(a.last()));
        assert(b =~= b.drop_last().push(b.last()));
    }
}

/// The value of a hexadecimal digit in lower case.
pub open spec fn hex_value(c: char) -> int {
    if c <= '9' {
        c as int - '0' as int
    } else {
        c as int - 'a' as int + 10
    }
}

/// Each byte is two digits, the upper half first, out of `0` to `9` and `a` to `f`.
pub proof fn hex_spells_every_byte(bytes: Seq<u8>, i: int)
    requires
        0 <= i < bytes.len(),
    ensures
        hex_text(bytes).len() == 2 * bytes.len(),
        16 * hex_value(hex_text(bytes)[2 * i]) + hex_value(hex_text(bytes)[2 * i + 1]) == bytes[i],
        forall|k: int|
            0 <= k < hex_text(bytes).len() ==> {
                let c = #[trigger] hex_text(bytes)[k];
                '0' <= c && c <= '9' || 'a' <= c && c <= 'f'
            },
    decreases bytes.len(),
{
    lemma_hex_len(bytes);
    let rest = bytes.drop_last();
    lemma_hex_len(rest);
    if i < rest.len() {
        hex_spells_every_byte(rest, i);
    } else if rest.len() > 0 {
        hex_spells_every_byte(rest, 0);
    }
    let text = hex_text(bytes);
    assert forall|k: int| 0 <= k < text.len() implies {
        let c = #[trigger] text[k];
        '0' <= c && c <= '9' || 'a' <= c && c <= 'f'
    } by {
        if k < 2 * rest.len() {
            assert(text[k] == hex_text(rest)[k]);
        }
    }
}

} // verus!
