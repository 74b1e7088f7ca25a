//! Text: decimal and hexadecimal numbers, fields, and the order of strings.
//!
//! Topic names, cell tokens and ids are text that every node must spell and compare in the same way.
use vstd::prelude::*;
use vstd::string::*;
use vstd::utf8::*;

use crate::order::Ordered;

verus! {

/// `String::push` appends one character to the end of the string.
pub assume_specification[ String::push ](s: &mut String, c: char)
    ensures
        final(s)@ == old(s)@.push(c),
;

/// The character of a decimal or hexadecimal digit.
pub open spec fn digit(d: int) -> char {
    if d < 10 {
        (48 + d) as char
    } else {
        (87 + d) as char
    }
}

pub fn digit_char(d: u8) -> (c: char)
    requires
        d < 16,
    ensures
        c == digit(d as int),
{
    if d < 10 {
        (48 + d) as char
    } else {
        (87 + d) as char
    }
}

/// A natural number in decimal, without leading zeros.
pub open spec fn dec(n: nat) -> Seq<char>
    decreases n,
{
    if n < 10 {
        seq![digit(n as int)]
    } else {
        dec(n / 10).push(digit((n % 10) as int))
    }
}

/// An integer in decimal, with `-` in front where it is negative.
pub open spec fn dec_int(n: int) -> Seq<char> {
    if n < 0 {
        seq!['-'] + dec((-n) as nat)
    } else {
        dec(n as nat)
    }
}

/// The low `width` hexadecimal digits of a number, in lower case.
pub open spec fn hex_digits(n: nat, width: nat) -> Seq<char>
    decreases width,
{
    if width == 0 {
        Seq::empty()
    } else {
        hex_digits(n / 16, (width - 1) as nat).push(digit((n % 16) as int))
    }
}

pub fn push_dec(s: &mut String, n: u64)
    ensures
        final(s)@ == old(s)@ + dec(n as nat),
    decreases n,
{
    if n >= 10 {
        push_dec(s, n / 10);
    }
    s.push(digit_char((n % 10) as u8));
    assert(s@ =~= old(s)@ + dec(n as nat));
}

pub fn push_dec_signed(s: &mut String, n: i64)
    ensures
        final(s)@ == old(s)@ + dec_int(n as int),
{
    if n < 0 {
        s.push('-');
        let m: u64 = (-(n as i128)) as u64;
        push_dec(s, m);
        assert(s@ =~= old(s)@ + dec_int(n as int));
    } else {
        push_dec(s, n as u64);
    }
}

pub fn push_hex(s: &mut String, n: u64, width: u32)
    ensures
        final(s)@ == old(s)@ + hex_digits(n as nat, width as nat),
    decreases width,
{
    if width > 0 {
        push_hex(s, n / 16, width - 1);
        s.push(digit_char((n % 16) as u8));
    }
    assert(s@ =~= old(s)@ + hex_digits(n as nat, width as nat));
}

/// The characters of a string, one after the other.
pub fn chars_of(s: &str) -> (r: Vec<char>)
    ensures
        r@ == s@,
{
    let mut out: Vec<char> = Vec::new();
    for c in it: s.chars()
        invariant
            it.seq() == s@,
            out@ == s@.subrange(0, it.index() as int),
    {
        proof {
            assert(s@.subrange(0, it.index() + 1) =~= s@.subrange(0, it.index() as int).push(
                s@[it.index() as int],
            ));
        }
        out.push(c);
    }
    assert(s@.subrange(0, s@.len() as int) =~= s@);
    out
}

pub open spec fn is_digit(c: char) -> bool {
    '0' <= c <= '9'
}

pub open spec fn all_digits(s: Seq<char>) -> bool {
    forall|i: int| 0 <= i < s.len() ==> is_digit(#[trigger] s[i])
}

/// The number that a run of digits spells.
pub open spec fn digits_value(s: Seq<char>) -> nat
    decreases s.len(),
{
    if s.len() == 0 {
        0
    } else {
        (digits_value(s.drop_last()) * 10 + (s.last() as int - 48)) as nat
    }
}

/// A number as `str::parse` reads it into an unsigned type whose largest value is `max`: digits,
/// at least one, with one `+` in front of them or none.
pub open spec fn parsed(s: Seq<char>, max: nat) -> Option<nat> {
    let body = if s.len() > 0 && s[0] == '+' {
        s.subrange(1, s.len() as int)
    } else {
        s
    };
    if body.len() > 0 && all_digits(body) && digits_value(body) <= max {
        Some(digits_value(body))
    } else {
        None
    }
}

/// As `parsed`, for a signed type: `-` may stand in place of `+`.
pub open spec fn parsed_signed(s: Seq<char>, min: int, max: int) -> Option<int> {
    let signed = s.len() > 0 && (s[0] == '+' || s[0] == '-');
    let body = if signed {
        s.subrange(1, s.len() as int)
    } else {
        s
    };
    let value = if signed && s[0] == '-' {
        -(digits_value(body) as int)
    } else {
        digits_value(body) as int
    };
    if body.len() > 0 && all_digits(body) && min <= value <= max {
        Some(value)
    } else {
        None
    }
}

proof fn lemma_digits_value_monotonic(s: Seq<char>, i: int)
    requires
        all_digits(s),
        0 <= i <= s.len(),
    ensures
        digits_value(s.subrange(0, i)) <= digits_value(s),
    decreases s.len(),
{
    if i < s.len() {
        let rest = s.drop_last();
        assert(all_digits(rest)) by {
            assert forall|k: int| 0 <= k < rest.len() implies is_digit(#[trigger] rest[k]) by {
                assert(rest[k] == s[k]);
            }
        }
        assert(is_digit(s[s.len() - 1]));
        lemma_digits_value_monotonic(rest, i);
        assert(rest.subrange(0, i) =~= s.subrange(0, i));
    } else {
        assert(s.subrange(0, i) =~= s);
    }
}

/// Reads the digits from `from` on; `None` where there are none, where something else stands among
/// them, or where the number is above `max`.
fn read_digits(chars: &Vec<char>, from: usize, max: u64) -> (r: Option<u64>)
    requires
        from <= chars@.len(),
    ensures
        ({
            let body = chars@.subrange(from as int, chars@.len() as int);
            if body.len() > 0 && all_digits(body) && digits_value(body) <= max {
                r == Some(digits_value(body) as u64)
            } else {
                r is None
            }
        }),
{
    let ghost body = chars@.subrange(from as int, chars@.len() as int);
    if from == chars.len() {
        return None;
    }
    let mut value: u64 = 0;
    let mut i: usize = from;
    assert(body.subrange(0, 0) =~= Seq::<char>::empty());
    while i < chars.len()
        invariant
            from <= i <= chars@.len(),
            body == chars@.subrange(from as int, chars@.len() as int),
            forall|k: int| 0 <= k < i - from ==> is_digit(#[trigger] body[k]),
            value == digits_value(body.subrange(0, i - from)),
            value <= max,
        decreases chars@.len() - i,
    {
        let c: char = chars[i];
        assert(body[i - from] == c);
        if c < '0' || '9' < c {
            assert(!is_digit(body[i - from]));
            return None;
        }
        let d: u64 = (c as u32 - 48) as u64;
        let next: u128 = value as u128 * 10 + d as u128;
        proof {
            let longer = body.subrange(0, i - from + 1);
            assert(longer.drop_last() =~= body.subrange(0, i - from));
            assert(next == digits_value(longer));
        }
        if next > max as u128 {
            proof {
                if all_digits(body) {
                    lemma_digits_value_monotonic(body, i - from + 1);
                }
            }
            return None;
        }
        value = next as u64;
        i = i + 1;
    }
    assert(body.subrange(0, i - from) =~= body);
    Some(value)
}

pub fn parse_unsigned(chars: &Vec<char>, max: u64) -> (r: Option<u64>)
    ensures
        r is Some <==> parsed(chars@, max as nat) is Some,
        r matches Some(v) ==> parsed(chars@, max as nat) == Some(v as nat),
{
    if chars.len() > 0 && chars[0] == '+' {
        read_digits(chars, 1, max)
    } else {
        assert(chars@.subrange(0, chars@.len() as int) =~= chars@);
        read_digits(chars, 0, max)
    }
}

pub fn parse_i32(chars: &Vec<char>) -> (r: Option<i32>)
    ensures
        r is Some <==> parsed_signed(chars@, i32::MIN as int, i32::MAX as int) is Some,
        r matches Some(v) ==> parsed_signed(chars@, i32::MIN as int, i32::MAX as int) == Some(
            v as int,
        ),
{
    if chars.len() > 0 && chars[0] == '-' {
        match read_digits(chars, 1, 2147483648) {
            Some(m) => Some((-(m as i64)) as i32),
            None => None,
        }
    } else if chars.len() > 0 && chars[0] == '+' {
        match read_digits(chars, 1, 2147483647) {
            Some(m) => Some(m as i32),
            None => None,
        }
    } else {
        assert(chars@.subrange(0, chars@.len() as int) =~= chars@);
        match read_digits(chars, 0, 2147483647) {
            Some(m) => Some(m as i32),
            None => None,
        }
    }
}

/// The decimal digits of a number are digits, and spell it.
pub proof fn lemma_dec_spells(n: nat)
    ensures
        dec(n).len() > 0,
        all_digits(dec(n)),
        digits_value(dec(n)) == n,
    decreases n,
{
    if n < 10 {
        assert(dec(n).drop_last() =~= Seq::<char>::empty());
        assert(digits_value(dec(n).drop_last()) == 0);
    } else {
        lemma_dec_spells(n / 10);
        let front = dec(n / 10);
        assert(dec(n).drop_last() =~= front);
        assert forall|i: int| 0 <= i < dec(n).len() implies is_digit(#[trigger] dec(n)[i]) by {
            if i < front.len() {
                assert(dec(n)[i] == front[i]);
            }
        }
    }
}

/// A number that is spelled in decimal is read back.
pub proof fn lemma_dec_parses(n: nat, max: nat)
    requires
        n <= max,
    ensures
        parsed(dec(n), max) == Some(n),
{
    lemma_dec_spells(n);
    assert(is_digit(dec(n)[0]));
}

/// A signed number that is spelled in decimal is read back.
pub proof fn lemma_dec_int_parses(n: int, min: int, max: int)
    requires
        min <= n <= max,
    ensures
        parsed_signed(dec_int(n), min, max) == Some(n),
{
    if n < 0 {
        lemma_dec_spells((-n) as nat);
        let s = dec_int(n);
        assert(s.subrange(1, s.len() as int) =~= dec((-n) as nat));
    } else {
        lemma_dec_spells(n as nat);
        assert(is_digit(dec(n as nat)[0]));
    }
}

/// The fields of a text between the occurrences of a separator.
pub open spec fn fields(s: Seq<char>, sep: char) -> Seq<Seq<char>>
    decreases s.len(),
{
    if s.len() == 0 {
        seq![Seq::empty()]
    } else {
        let front = fields(s.drop_last(), sep);
        if s.last() == sep {
            front.push(Seq::empty())
        } else {
            front.update(front.len() - 1, front.last().push(s.last()))
        }
    }
}

/// A separator and a field behind a text add that field to the fields of the text.
pub proof fn lemma_fields_extend(a: Seq<char>, b: Seq<char>, sep: char)
    requires
        !b.contains(sep),
    ensures
        fields(a.push(sep) + b, sep) == fields(a, sep).push(b),
    decreases b.len(),
{
    let whole = a.push(sep) + b;
    if b.len() == 0 {
        assert(whole =~= a.push(sep));
        assert(whole.drop_last() =~= a);
        assert(b =~= Seq::empty());
    } else {
        let shorter = b.drop_last();
        assert(!shorter.contains(sep)) by {
            if shorter.contains(sep) {
                let i = choose|i: int| 0 <= i < shorter.len() && shorter[i] == sep;
                assert(b[i] == sep);
            }
        }
        lemma_fields_extend(a, shorter, sep);
        assert(whole.drop_last() =~= a.push(sep) + shorter);
        assert(whole.last() == b.last());
        assert(b[b.len() - 1] != sep);
        assert(shorter.push(b.last()) =~= b);
        assert(fields(whole, sep) =~= fields(a, sep).push(b));
    }
}

/// A text without the separator is its own one field.
pub proof fn lemma_fields_single(s: Seq<char>, sep: char)
    requires
        !s.contains(sep),
    ensures
        fields(s, sep) == seq![s],
    decreases s.len(),
{
    if s.len() > 0 {
        let shorter = s.drop_last();
        assert(!shorter.contains(sep)) by {
            if shorter.contains(sep) {
                let i = choose|i: int| 0 <= i < shorter.len() && shorter[i] == sep;
                assert(s[i] == sep);
            }
        }
        lemma_fields_single(shorter, sep);
        assert(s[s.len() - 1] != sep);
        assert(shorter.push(s.last()) =~= s);
        assert(fields(s, sep) =~= seq![s]);
    } else {
        assert(s =~= Seq::empty());
    }
}

/// Digits hold no separator that is not a digit.
pub proof fn lemma_digits_without(s: Seq<char>, sep: char)
    requires
        all_digits(s),
        !is_digit(sep),
    ensures
        !s.contains(sep),
{
    if s.contains(sep) {
        let i = choose|i: int| 0 <= i < s.len() && s[i] == sep;
        assert(is_digit(s[i]));
    }
}

pub open spec fn char_seqs(v: Seq<Vec<char>>) -> Seq<Seq<char>> {
    v.map_values(|f: Vec<char>| f@)
}

/// Splits a text at every separator.
pub fn split_fields(s: &str, sep: char) -> (r: Vec<Vec<char>>)
    ensures
        char_seqs(r@) == fields(s@, sep),
{
    let chars = chars_of(s);
    let mut out: Vec<Vec<char>> = Vec::new();
    let mut current: Vec<char> = Vec::new();
    let mut i: usize = 0;
    proof {
        assert(chars@.subrange(0, 0) =~= Seq::<char>::empty());
        assert(char_seqs(out@).push(current@) =~= seq![Seq::<char>::empty()]);
    }
    while i < chars.len()
        invariant
            i <= chars@.len(),
            char_seqs(out@).push(current@) == fields(chars@.subrange(0, i as int), sep),
        decreases chars@.len() - i,
    {
        let c: char = chars[i];
        let ghost before = chars@.subrange(0, i as int);
        let ghost front = char_seqs(out@);
        let ghost field = current@;
        proof {
            assert(chars@.subrange(0, i + 1).drop_last() =~= before);
            assert(front.push(field).last() == field);
        }
        if c == sep {
            out.push(current);
            current = Vec::new();
            assert(char_seqs(out@) =~= front.push(field));
        } else {
            current.push(c);
            assert(front.push(field).update(front.len() as int, field.push(c)) =~= front.push(
                field.push(c),
            ));
        }
        i = i + 1;
    }
    let ghost front = char_seqs(out@);
    let ghost field = current@;
    out.push(current);
    assert(chars@.subrange(0, i as int) =~= chars@);
    assert(char_seqs(out@) =~= front.push(field));
    out
}

/// Lexicographic order of byte strings.
pub open spec fn bytes_below(a: Seq<u8>, b: Seq<u8>) -> bool
    decreases b.len(),
{
    if b.len() == 0 {
        false
    } else if a.len() == 0 {
        true
    } else if a[0] == b[0] {
        bytes_below(a.subrange(1, a.len() as int), b.subrange(1, b.len() as int))
    } else {
        a[0] < b[0]
    }
}

proof fn lemma_bytes_irreflexive(a: Seq<u8>)
    ensures
        !bytes_below(a, a),
    decreases a.len(),
{
    if a.len() > 0 {
        lemma_bytes_irreflexive(a.subrange(1, a.len() as int));
    }
}

proof fn lemma_bytes_transitive(a: Seq<u8>, b: Seq<u8>, c: Seq<u8>)
    requires
        bytes_below(a, b),
        bytes_below(b, c),
    ensures
        bytes_below(a, c),
    decreases b.len(),
{
    if a.len() > 0 && a[0] == b[0] && b[0] == c[0] {
        lemma_bytes_transitive(
            a.subrange(1, a.len() as int),
            b.subrange(1, b.len() as int),
            c.subrange(1, c.len() as int),
        );
    }
}

proof fn lemma_bytes_total(a: Seq<u8>, b: Seq<u8>)
    requires
        a != b,
    ensures
        bytes_below(a, b) || bytes_below(b, a),
    decreases a.len(),
{
    if a.len() == 0 || b.len() == 0 {
        if a.len() == 0 && b.len() == 0 {
            assert(a =~= b);
        }
    } else if a[0] == b[0] {
        let a1 = a.subrange(1, a.len() as int);
        let b1 = b.subrange(1, b.len() as int);
        if a1 == b1 {
            assert(a1.len() == a.len() - 1 && b1.len() == b.len() - 1);
            assert forall|i: int| 0 <= i < a.len() implies a[i] == b[i] by {
                if i > 0 {
                    assert(a1[i - 1] == b1[i - 1]);
                }
            }
            assert(a =~= b);
        }
        lemma_bytes_total(a1, b1);
    }
}

fn bytes_less(a: &[u8], b: &[u8]) -> (r: bool)
    ensures
        r == bytes_below(a@, b@),
{
    let mut i: usize = 0;
    assert(a@.subrange(0, a@.len() as int) =~= a@);
    assert(b@.subrange(0, b@.len() as int) =~= b@);
    while i < a.len() && i < b.len() && a[i] == b[i]
        invariant
            i <= a@.len(),
            i <= b@.len(),
            bytes_below(a@, b@) == bytes_below(
                a@.subrange(i as int, a@.len() as int),
                b@.subrange(i as int, b@.len() as int),
            ),
        decreases a@.len() - i,
    {
        proof {
            let a1 = a@.subrange(i as int, a@.len() as int);
            let b1 = b@.subrange(i as int, b@.len() as int);
            assert(a1.subrange(1, a1.len() as int) =~= a@.subrange(i + 1, a@.len() as int));
            assert(b1.subrange(1, b1.len() as int) =~= b@.subrange(i + 1, b@.len() as int));
        }
        i = i + 1;
    }
    if i == b.len() {
        false
    } else if i == a.len() {
        true
    } else {
        a[i] < b[i]
    }
}

/// The order of two texts: that of their UTF-8 bytes, which is how `str` compares.
pub open spec fn text_below(a: Seq<char>, b: Seq<char>) -> bool {
    bytes_below(encode_utf8(a), encode_utf8(b))
}

/// The text order is irreflexive, transitive and total.
pub proof fn lemma_text_order(a: Seq<char>, b: Seq<char>, c: Seq<char>)
    ensures
        !text_below(a, a),
        text_below(a, b) && text_below(b, c) ==> text_below(a, c),
        a != b ==> text_below(a, b) || text_below(b, a),
        !(text_below(a, b) && text_below(b, a)),
{
    lemma_bytes_irreflexive(encode_utf8(a));
    if text_below(a, b) && text_below(b, c) {
        lemma_bytes_transitive(encode_utf8(a), encode_utf8(b), encode_utf8(c));
    }
    if text_below(a, b) && text_below(b, a) {
        lemma_bytes_transitive(encode_utf8(a), encode_utf8(b), encode_utf8(a));
    }
    if a != b {
        encode_utf8_decode_utf8(a);
        encode_utf8_decode_utf8(b);
        lemma_bytes_total(encode_utf8(a), encode_utf8(b));
    }
}

pub fn text_less(a: &str, b: &str) -> (r: bool)
    ensures
        r == text_below(a@, b@),
{
    bytes_less(a.as_bytes(), b.as_bytes())
}

pub fn same_text(a: &str, b: &str) -> (r: bool)
    ensures
        r == (a@ == b@),
{
    let below: bool = text_less(a, b);
    let above: bool = text_less(b, a);
    proof {
        lemma_text_order(a@, b@, a@);
    }
    !below && !above
}

impl Ordered for String {
    open spec fn below(a: Seq<char>, b: Seq<char>) -> bool {
        text_below(a, b)
    }

    fn is_below(&self, other: &Self) -> (r: bool) {
        text_less(self.as_str(), other.as_str())
    }

    proof fn below_irreflexive(a: Seq<char>) {
        lemma_text_order(a, a, a);
    }

    proof fn below_transitive(a: Seq<char>, b: Seq<char>, c: Seq<char>) {
        lemma_text_order(a, b, c);
    }

    proof fn below_total(a: Seq<char>, b: Seq<char>) {
        lemma_text_order(a, b, a);
    }
}

pub open spec fn begins_with(s: Seq<char>, p: Seq<char>) -> bool {
    p.len() <= s.len() && s.subrange(0, p.len() as int) == p
}

pub open spec fn finishes_with(s: Seq<char>, p: Seq<char>) -> bool {
    p.len() <= s.len() && s.subrange(s.len() - p.len(), s.len() as int) == p
}

fn same_at(s: &Vec<char>, from: usize, p: &Vec<char>) -> (r: bool)
    requires
        from + p@.len() <= s@.len(),
    ensures
        r == (s@.subrange(from as int, from + p@.len()) == p@),
{
    let n: usize = s.len();
    let mut i: usize = 0;
    while i < p.len()
        invariant
            i <= p@.len(),
            from + p@.len() <= s@.len() == n,
            forall|j: int| 0 <= j < i ==> s@[from + j] == #[trigger] p@[j],
        decreases p@.len() - i,
    {
        if s[from + i] != p[i] {
            assert(s@.subrange(from as int, from + p@.len())[i as int] != p@[i as int]);
            return false;
        }
        i = i + 1;
    }
    assert(s@.subrange(from as int, from + p@.len()) =~= p@);
    true
}

pub fn starts_with(s: &str, p: &str) -> (r: bool)
    ensures
        r == begins_with(s@, p@),
{
    let sc = chars_of(s);
    let pc = chars_of(p);
    pc.len() <= sc.len() && same_at(&sc, 0, &pc)
}

pub fn ends_with(s: &str, p: &str) -> (r: bool)
    ensures
        r == finishes_with(s@, p@),
{
    let sc = chars_of(s);
    let pc = chars_of(p);
    pc.len() <= sc.len() && same_at(&sc, sc.len() - pc.len(), &pc)
}

/// Numbers are spelled and read one way: no number has two spellings, none begins with a needless zero, and a longer number has no fewer digits.
pub proof fn law_numbers_are_spelled(n: nat, m: nat)
    ensures
        dec(n) == dec(m) ==> n == m,
        n > 0 ==> dec(n)[0] != '0',
        n >= 10 ==> dec(n).len() == dec(n / 10).len() + 1,
        n < 10 ==> dec(n).len() == 1,
        parsed(dec(n), m) == (if n <= m {
            Some(n)
        } else {
            None
        }),
    decreases n,
{
    lemma_dec_spells(n);
    lemma_dec_spells(m);
    assert(is_digit(dec(n)[0]));
    if n >= 10 {
        law_numbers_are_spelled(n / 10, m);
        lemma_dec_spells(n / 10);
        assert(dec(n)[0] == dec(n / 10)[0]);
    }
}

/// A hexadecimal number has as many digits as asked for, the lowest last, and numbers that fit in them are told apart.
pub proof fn law_hexadecimal(n: nat, m: nat, width: nat)
    requires
        width > 0,
    ensures
        hex_digits(n, width).len() == width,
        n % 16 < 10 ==> hex_digits(n, width).last() as int == 48 + n % 16,
        n % 16 >= 10 ==> hex_digits(n, width).last() as int == 87 + n % 16,
        hex_digits(n, width) == hex_digits(m, width) ==> n % 16 == m % 16,
        width > 1 ==> hex_digits(n, width).drop_last() == hex_digits(n / 16, (width - 1) as nat),
    decreases width,
{
    if width > 1 {
        law_hexadecimal(n / 16, m / 16, (width - 1) as nat);
    } else {
        assert(hex_digits(n / 16, 0) =~= Seq::<char>::empty());
    }
    assert(hex_digits(n, width).drop_last() =~= hex_digits(n / 16, (width - 1) as nat));
    assert(hex_digits(n, width).last() == digit((n % 16) as int));
    assert(hex_digits(m, width).last() == digit((m % 16) as int));
}

/// Texts are ordered by the first byte in which they differ, and one that another goes on from comes first.
pub proof fn law_first_difference_decides(a: Seq<u8>, b: Seq<u8>, k: int)
    requires
        0 <= k <= a.len(),
        k <= b.len(),
        forall|i: int| 0 <= i < k ==> a[i] == b[i],
    ensures
        k < a.len() && k < b.len() && a[k] < b[k] ==> bytes_below(a, b) && !bytes_below(b, a),
        k == a.len() && k < b.len() ==> bytes_below(a, b) && !bytes_below(b, a),
        k == a.len() && k == b.len() ==> !bytes_below(a, b),
    decreases k,
{
    if k > 0 {
        let (s, t) = (a.subrange(1, a.len() as int), b.subrange(1, b.len() as int));
        assert forall|i: int| 0 <= i < k - 1 implies s[i] == t[i] by {
            assert(s[i] == a[i + 1] && t[i] == b[i + 1]);
        }
        law_first_difference_decides(s, t, k - 1);
        assert(a[0] == b[0]);
    }
}

/// A text of fields is the fields with the separator between them: there is one more field than separators, and no field holds one.
pub proof fn law_fields_are_what_stands_between(s: Seq<char>, sep: char)
    ensures
        fields(s, sep).len() == 1 + s.filter(|c: char| c == sep).len(),
        forall|i: int| 0 <= i < fields(s, sep).len() ==> !(#[trigger] fields(s, sep)[i]).contains(sep),
    decreases s.len(),
{
    let at = |c: char| c == sep;
    reveal(Seq::filter);
    if s.len() > 0 {
        let front = fields(s.drop_last(), sep);
        law_fields_are_what_stands_between(s.drop_last(), sep);
        assert(s.filter(at).len() == s.drop_last().filter(at).len() + (if s.last() == sep {
            1int
        } else {
            0int
        }));
        assert forall|i: int| 0 <= i < fields(s, sep).len() implies !(#[trigger] fields(s, sep)[i]).contains(
            sep,
        ) by {
            let f = fields(s, sep)[i];
            if i < front.len() - 1 {
                assert(f == front[i]);
            } else if s.last() == sep && i == front.len() {
                assert(f.len() == 0);
            } else if s.last() == sep {
                assert(f == front[i]);
            } else {
                assert(f == front.last().push(s.last()));
                if f.contains(sep) {
                    let k = choose|k: int| 0 <= k < f.len() && f[k] == sep;
                    assert(front[front.len() - 1][k] == sep);
                    assert(front[front.len() - 1].contains(sep));
                }
            }
        }
    }
}

} // verus!
