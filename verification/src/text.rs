//! Strings: prefixes, numbers in decimal and hexadecimal.

use vstd::prelude::*;
use vstd::string::{StrSliceExecFns, StringExecFns};

verus! {

/// The decimal digit of `d`.
pub open spec fn digit(d: nat) -> char {
    (48 + d) as char
}

/// `n` in decimal, without leading zeros.
pub open spec fn decimal_text(n: nat) -> Seq<char>
    decreases n,
{
    if n < 10 {
        seq![digit(n)]
    } else {
        decimal_text(n / 10).push(digit(n % 10))
    }
}

fn digit_str(d: u64) -> (s: &'static str)
    requires
        d < 10,
    ensures
        s@ == seq![digit(d as nat)],
{
    proof {
        reveal_strlit("0");
        reveal_strlit("1");
        reveal_strlit("2");
        reveal_strlit("3");
        reveal_strlit("4");
        reveal_strlit("5");
        reveal_strlit("6");
        reveal_strlit("7");
        reveal_strlit("8");
        reveal_strlit("9");
    }
    let s: &'static str = if d == 0 {
        "0"
    } else if d == 1 {
        "1"
    } else if d == 2 {
        "2"
    } else if d == 3 {
        "3"
    } else if d == 4 {
        "4"
    } else if d == 5 {
        "5"
    } else if d == 6 {
        "6"
    } else if d == 7 {
        "7"
    } else if d == 8 {
        "8"
    } else {
        "9"
    };
    assert(s@ =~= seq![digit(d as nat)]);
    s
}

/// `n` in decimal.
pub fn decimal(n: u64) -> (s: String)
    ensures
        s@ == decimal_text(n as nat),
    decreases n,
{
    if n < 10 {
        String::from_str(digit_str(n))
    } else {
        let mut s: String = decimal(n / 10);
        s.append(digit_str(n % 10));
        assert(s@ =~= decimal_text((n / 10) as nat).push(digit((n % 10) as nat)));
        s
    }
}

/// The characters of a string.
pub fn chars_of(s: &str) -> (chars: Vec<char>)
    ensures
        chars@ == s@,
{
    let mut chars: Vec<char> = Vec::new();
    for c in it: s.chars()
        invariant
            chars@ == s@.take(it.index()),
            it.seq() == s@,
    {
        chars.push(c);
        assert(chars@ =~= s@.take(it.index() + 1));
    }
    assert(s@.take(s@.len() as int) =~= s@);
    chars
}

/// What follows `prefix` in `s`, where `s` starts with it.
pub fn strip_prefix(s: &str, prefix: &str) -> (rest: Option<String>)
    ensures
        match rest {
            Some(r) => prefix@.is_prefix_of(s@) && r@ == s@.skip(prefix@.len() as int),
            None => !prefix@.is_prefix_of(s@),
        },
{
    let all: Vec<char> = chars_of(s);
    let head: Vec<char> = chars_of(prefix);
    if head.len() > all.len() {
        return None;
    }
    for i in 0..head.len()
        invariant
            all@ == s@,
            head@ == prefix@,
            head@.len() <= all@.len(),
            forall|j: int| 0 <= j < i ==> head@[j] == all@[j],
    {
        if head[i] != all[i] {
            assert(prefix@[i as int] != s@[i as int]);
            return None;
        }
    }
    let rest: String = String::from_str(s.substring_char(head.len(), all.len()));
    assert(prefix@ =~= s@.take(prefix@.len() as int));
    assert(rest@ =~= s@.skip(prefix@.len() as int));
    Some(rest)
}

/// Whether `c` occurs in `s`.
pub fn contains_char(s: &str, c: char) -> (found: bool)
    ensures
        found == s@.contains(c),
{
    let all: Vec<char> = chars_of(s);
    for i in 0..all.len()
        invariant
            all@ == s@,
            forall|j: int| 0 <= j < i ==> all@[j] != c,
    {
        if all[i] == c {
            assert(s@[i as int] == c);
            return true;
        }
    }
    false
}

/// Whether a character is white space, as Unicode has it.
pub open spec fn is_white_space(c: char) -> bool {
    let v = c as u32;
    ||| 0x9 <= v <= 0xD
    ||| v == 0x20
    ||| v == 0x85
    ||| v == 0xA0
    ||| v == 0x1680
    ||| 0x2000 <= v <= 0x200A
    ||| v == 0x2028
    ||| v == 0x2029
    ||| v == 0x202F
    ||| v == 0x205F
    ||| v == 0x3000
}

/// A text without the white space at its start.
pub open spec fn trimmed_start(s: Seq<char>) -> Seq<char>
    decreases s.len(),
{
    if s.len() > 0 && is_white_space(s[0]) {
        trimmed_start(s.drop_first())
    } else {
        s
    }
}

/// A text without the white space at its end.
pub open spec fn trimmed_end(s: Seq<char>) -> Seq<char>
    decreases s.len(),
{
    if s.len() > 0 && is_white_space(s.last()) {
        trimmed_end(s.drop_last())
    } else {
        s
    }
}

/// A text without the white space around it.
pub open spec fn trimmed(s: Seq<char>) -> Seq<char> {
    trimmed_end(trimmed_start(s))
}

fn white_space(c: char) -> (yes: bool)
    ensures
        yes == is_white_space(c),
{
    let v: u32 = c as u32;
    (0x9 <= v && v <= 0xD) || v == 0x20 || v == 0x85 || v == 0xA0 || v == 0x1680 || (0x2000 <= v
        && v <= 0x200A) || v == 0x2028 || v == 0x2029 || v == 0x202F || v == 0x205F || v == 0x3000
}

/// The characters of a text without the white space around it.
pub fn trimmed_chars(s: &str) -> (chars: Vec<char>)
    ensures
        chars@ == trimmed(s@),
{
    let all: Vec<char> = chars_of(s);
    let mut from: usize = 0;
    assert(all@.skip(0) =~= all@);
    while from < all.len() && white_space(all[from])
        invariant
            from <= all@.len(),
            all@ == s@,
            trimmed_start(s@) == trimmed_start(all@.skip(from as int)),
        decreases all@.len() - from,
    {
        assert(all@.skip(from as int).drop_first() =~= all@.skip(from + 1));
        from = from + 1;
    }
    let mut chars: Vec<char> = Vec::new();
    for i in from..all.len()
        invariant
            from <= i,
            from <= all@.len(),
            chars@ == all@.subrange(from as int, i as int),
    {
        chars.push(all[i]);
        assert(chars@ =~= all@.subrange(from as int, i + 1));
    }
    assert(chars@ =~= all@.skip(from as int));
    assert(chars@ == trimmed_start(s@));
    while chars.len() > 0 && white_space(chars[chars.len() - 1])
        invariant
            trimmed(s@) == trimmed_end(chars@),
        decreases chars@.len(),
    {
        let last: Option<char> = chars.pop();
    }
    chars
}

/// The number that decimal digits spell.
pub open spec fn digits_value(digits: Seq<char>) -> Option<nat>
    decreases digits.len(),
{
    if digits.len() == 0 {
        Some(0)
    } else {
        match digits_value(digits.drop_last()) {
            Some(v) => if '0' <= digits.last() && digits.last() <= '9' {
                Some(10 * v + (digits.last() as u32 - 48) as nat)
            } else {
                None
            },
            None => None,
        }
    }
}

/// The number that a text spells: decimal digits, at least one, behind an optional plus.
pub open spec fn number_value(text: Seq<char>) -> Option<nat> {
    let digits = if text.len() > 0 && text[0] == '+' {
        text.drop_first()
    } else {
        text
    };
    if digits.len() == 0 {
        None
    } else {
        digits_value(digits)
    }
}

proof fn lemma_digits_prefix(digits: Seq<char>, i: int)
    requires
        0 <= i <= digits.len(),
    ensures
        digits_value(digits.take(i)) is None ==> digits_value(digits) is None,
        digits_value(digits) is Some ==> digits_value(digits.take(i)) is Some
            && digits_value(digits.take(i))->Some_0 <= digits_value(digits)->Some_0,
    decreases digits.len(),
{
    if i == digits.len() {
        assert(digits.take(i) =~= digits);
    } else {
        lemma_digits_prefix(digits.drop_last(), i);
        assert(digits.drop_last().take(i) =~= digits.take(i));
    }
}

/// Reads a number. There is none in a text that spells none, or one that is too large.
pub fn parse_number(text: &str) -> (number: Option<usize>)
    ensures
        match number {
            Some(n) => number_value(text@) == Some(n as nat),
            None => number_value(text@) is None || number_value(text@)->Some_0 > usize::MAX,
        },
{
    let chars: Vec<char> = chars_of(text);
    let from: usize = if chars.len() > 0 && chars[0] == '+' {
        1
    } else {
        0
    };
    if chars.len() == from {
        assert(from == 1 ==> text@.drop_first() =~= Seq::empty());
        return None;
    }
    let ghost digits = text@.skip(from as int);
    assert(from == 0 ==> digits =~= text@);
    assert(from == 1 ==> digits =~= text@.drop_first());
    let mut n: usize = 0;
    assert(digits.take(0) =~= Seq::empty());
    for i in from..chars.len()
        invariant
            chars@ == text@,
            from <= i,
            from < chars@.len(),
            digits == text@.skip(from as int),
            number_value(text@) == digits_value(digits),
            digits_value(digits.take(i - from)) == Some(n as nat),
    {
        let c: char = chars[i];
        let ghost head = digits.take(i + 1 - from);
        proof {
            assert(head.drop_last() =~= digits.take(i - from));
            assert(head.last() == c);
            lemma_digits_prefix(digits, i + 1 - from);
        }
        if c < '0' || c > '9' {
            return None;
        }
        let d: usize = (c as u32 - 48) as usize;
        match n.checked_mul(10) {
            Some(tens) => match tens.checked_add(d) {
                Some(next) => {
                    n = next;
                },
                None => {
                    return None;
                },
            },
            None => {
                return None;
            },
        }
    }
    assert(digits.take(digits.len() as int) =~= digits);
    Some(n)
}

proof fn lemma_decimal_digits(n: nat)
    ensures
        decimal_text(n).len() > 0,
        decimal_text(n)[0] != '+',
        digits_value(decimal_text(n)) == Some(n),
    decreases n,
{
    reveal_with_fuel(digits_value, 2);
    if n < 10 {
        assert(seq![digit(n)].drop_last() =~= Seq::empty());
    } else {
        lemma_decimal_digits(n / 10);
        assert(decimal_text(n).drop_last() =~= decimal_text(n / 10));
    }
}

/// A number is read back from its decimal text.
pub proof fn decimal_is_read_back(n: nat)
    ensures
        number_value(decimal_text(n)) == Some(n),
{
    lemma_decimal_digits(n);
}

/// Whether `part` occurs in `s`.
pub open spec fn has_text(s: Seq<char>, part: Seq<char>) -> bool {
    exists|i: int|
        0 <= i && i + part.len() <= s.len() && #[trigger] s.subrange(i, i + part.len()) == part
}

fn stands_at(s: &Vec<char>, part: &Vec<char>, at: usize) -> (yes: bool)
    requires
        at + part@.len() <= s@.len(),
    ensures
        yes == (s@.subrange(at as int, at + part@.len()) == part@),
{
    let total: usize = s.len();
    for j in 0..part.len()
        invariant
            at + part@.len() <= total,
            total == s@.len(),
            forall|k: int| 0 <= k < j ==> s@[at + k] == part@[k],
    {
        if s[at + j] != part[j] {
            assert(s@.subrange(at as int, at + part@.len())[j as int] != part@[j as int]);
            return false;
        }
    }
    assert(s@.subrange(at as int, at + part@.len()) =~= part@);
    true
}

/// Whether `part` occurs in `s`.
pub fn contains_text(s: &str, part: &str) -> (found: bool)
    ensures
        found == has_text(s@, part@),
{
    let all: Vec<char> = chars_of(s);
    let wanted: Vec<char> = chars_of(part);
    if wanted.len() > all.len() {
        return false;
    }
    let last: usize = all.len() - wanted.len();
    let mut i: usize = 0;
    loop
        invariant
            all@ == s@,
            wanted@ == part@,
            wanted@.len() <= all@.len(),
            last == all@.len() - wanted@.len(),
            i <= last,
            forall|k: int|
                0 <= k < i ==> #[trigger] s@.subrange(k, k + part@.len()) != part@,
        decreases last - i,
    {
        if stands_at(&all, &wanted, i) {
            assert(s@.subrange(i as int, i + part@.len()) == part@);
            return true;
        }
        if i == last {
            return false;
        }
        i = i + 1;
    }
}

/// Zeros.
pub open spec fn zeros(n: nat) -> Seq<char> {
    Seq::new(n, |i: int| '0')
}

/// `n` in decimal, filled up with zeros in front to at least `width` digits.
pub open spec fn padded_text(n: nat, width: nat) -> Seq<char> {
    let digits = decimal_text(n);
    if digits.len() >= width {
        digits
    } else {
        zeros((width - digits.len()) as nat) + digits
    }
}

/// `n` in decimal, filled up with zeros in front to at least `width` digits.
pub fn padded_decimal(n: u64, width: usize) -> (s: String)
    ensures
        s@ == padded_text(n as nat, width as nat),
{
    let digits: String = decimal(n);
    let count: usize = digits.as_str().unicode_len();
    if count >= width {
        return digits;
    }
    let mut s: String = String::new();
    assert(s@ =~= zeros(0));
    for i in 0..(width - count)
        invariant
            s@ == zeros(i as nat),
    {
        proof {
            reveal_strlit("0");
        }
        s.append("0");
        assert(s@ =~= zeros((i + 1) as nat));
    }
    s.append(digits.as_str());
    s
}

/// A number below ten is one digit, and ten times a number and a digit is its text and the
/// digit behind it.
pub proof fn decimals_are_written_digit_by_digit(n: nat, d: nat)
    requires
        d < 10,
    ensures
        decimal_text(d) == seq![(48 + d) as char],
        n > 0 ==> decimal_text(10 * n + d) == decimal_text(n).push((48 + d) as char),
{
}

/// A digit behind a number is read as ten times the number and the digit; a plus in front
/// changes nothing; and a text that holds anything else, or no digit, is no number.
pub proof fn numbers_are_read_digit_by_digit(text: Seq<char>, d: nat, other: char)
    requires
        d < 10,
    ensures
        number_value(seq![(48 + d) as char]) == Some(d),
        number_value(text) matches Some(n) ==> number_value(text.push((48 + d) as char)) == Some(
            10 * n + d,
        ),
        text.len() > 0 && text[0] != '+' ==> number_value(seq!['+'] + text) == number_value(text),
        number_value(Seq::<char>::empty()) is None,
        number_value(seq!['+']) is None,
        text.len() > 0 && (other < '0' || other > '9') ==> number_value(text.push(other)) is None,
        number_value(text) is None && text.len() > 0 && text != seq!['+'] ==> number_value(
            text.push((48 + d) as char),
        ) is None,
{
    reveal_with_fuel(digits_value, 2);
    let c = (48 + d) as char;
    assert(seq![c].drop_last() =~= Seq::<char>::empty());
    assert(seq!['+'].drop_first() =~= Seq::<char>::empty());
    if text.len() > 0 {
        lemma_pushed(text, c);
        lemma_pushed(text, other);
        if text[0] != '+' {
            assert((seq!['+'] + text).drop_first() =~= text);
        }
        if text[0] == '+' && text.len() == 1 {
            assert(text =~= seq!['+']);
        }
    }
}

/// A character behind a text stands behind its digits.
proof fn lemma_pushed(text: Seq<char>, c: char)
    requires
        text.len() > 0,
    ensures
        text[0] == '+' ==> text.push(c).drop_first() == text.drop_first().push(c) && text.push(
            c,
        ).drop_first().drop_last() == text.drop_first(),
        text.push(c).drop_last() == text,
{
    assert(text.push(c).drop_last() =~= text);
    if text[0] == '+' {
        assert(text.push(c).drop_first() =~= text.drop_first().push(c));
        assert(text.push(c).drop_first().drop_last() =~= text.drop_first());
    }
}

/// What is trimmed away is white space, and what is left starts and ends with none.
pub proof fn trimming_takes_white_space_alone(s: Seq<char>)
    ensures
        exists|i: int, j: int|
            #![trigger s.subrange(i, j)]
            {
                &&& 0 <= i <= j <= s.len()
                &&& trimmed(s) == s.subrange(i, j)
                &&& forall|k: int| 0 <= k < i ==> is_white_space(#[trigger] s[k])
                &&& forall|k: int| j <= k < s.len() ==> is_white_space(#[trigger] s[k])
            },
        trimmed(s).len() > 0 ==> !is_white_space(trimmed(s)[0]) && !is_white_space(
            trimmed(s).last(),
        ),
{
    let start = trimmed_start(s);
    let i = lemma_trimmed_start(s);
    let j = lemma_trimmed_end(start);
    assert(trimmed(s) =~= s.subrange(i, i + j));
    assert forall|k: int| i + j <= k < s.len() implies is_white_space(#[trigger] s[k]) by {
        assert(s[k] == start[k - i]);
    }
}

proof fn lemma_trimmed_start(s: Seq<char>) -> (i: int)
    ensures
        0 <= i <= s.len(),
        trimmed_start(s) == s.skip(i),
        forall|k: int| 0 <= k < i ==> is_white_space(#[trigger] s[k]),
        i < s.len() ==> !is_white_space(s[i]),
    decreases s.len(),
{
    if s.len() > 0 && is_white_space(s[0]) {
        let i = lemma_trimmed_start(s.drop_first());
        assert(s.drop_first().skip(i) =~= s.skip(i + 1));
        assert forall|k: int| 0 <= k < i + 1 implies is_white_space(#[trigger] s[k]) by {
            if k > 0 {
                assert(s[k] == s.drop_first()[k - 1]);
            }
        }
        i + 1
    } else {
        assert(s.skip(0) =~= s);
        0
    }
}

proof fn lemma_trimmed_end(s: Seq<char>) -> (j: int)
    ensures
        0 <= j <= s.len(),
        trimmed_end(s) == s.take(j),
        forall|k: int| j <= k < s.len() ==> is_white_space(#[trigger] s[k]),
        j > 0 ==> !is_white_space(s[j - 1]),
    decreases s.len(),
{
    if s.len() > 0 && is_white_space(s.last()) {
        let j = lemma_trimmed_end(s.drop_last());
        assert(s.drop_last().take(j) =~= s.take(j));
        assert forall|k: int| j <= k < s.len() implies is_white_space(#[trigger] s[k]) by {
            if k < s.len() - 1 {
                assert(s[k] == s.drop_last()[k]);
            }
        }
        j
    } else {
        assert(s.take(s.len() as int) =~= s);
        s.len() as int
    }
}

/// Blanks, tabs and line ends are white space; letters, digits and signs are not.
pub proof fn white_space_is_blank(c: char)
    ensures
        c == ' ' || c == '\t' || c == '\n' || c == '\r' ==> is_white_space(c),
        '!' <= c && c <= '~' ==> !is_white_space(c),
{
}

/// Filling up with zeros changes neither the number nor, where it is wide enough, the text.
pub proof fn padding_keeps_the_number(n: nat, width: nat)
    ensures
        digits_value(padded_text(n, width)) == Some(n),
        padded_text(n, width).len() >= width,
        padded_text(n, width).len() == width || padded_text(n, width) == decimal_text(n),
        decimal_text(n).len() >= width ==> padded_text(n, width) == decimal_text(n),
{
    lemma_decimal_digits(n);
    let digits = decimal_text(n);
    if digits.len() < width {
        lemma_zeros_in_front((width - digits.len()) as nat, digits);
    }
}

proof fn lemma_zeros_in_front(count: nat, digits: Seq<char>)
    ensures
        digits_value(zeros(count) + digits) == digits_value(digits),
    decreases count + digits.len(),
{
    let all = zeros(count) + digits;
    if digits.len() > 0 {
        lemma_zeros_in_front(count, digits.drop_last());
        assert(all.drop_last() =~= zeros(count) + digits.drop_last());
    } else if count > 0 {
        lemma_zeros_in_front((count - 1) as nat, digits);
        assert(all.drop_last() =~= zeros((count - 1) as nat) + digits);
    } else {
        assert(all =~= digits);
    }
}

/// A text is found wherever it stands.
pub proof fn texts_are_found_anywhere(before: Seq<char>, part: Seq<char>, behind: Seq<char>)
    ensures
        has_text(before + part + behind, part),
        part.len() > before.len() ==> !has_text(before, part),
{
    let s = before + part + behind;
    let at = before.len() as int;
    assert(s.subrange(at, at + part.len()) =~= part);
}

} // verus!
