//! JSON text: strings and numbers, and why what is written can be read back in one way only.
use vstd::prelude::*;
use vstd::string::*;

use crate::text::{dec, digit, is_digit, lemma_dec_spells};

verus! {

/// The error of `serde_json`.
#[verifier::external_type_specification]
#[verifier::external_body]
pub struct ExJsonError(serde_json::Error);

/// A character as it stands inside a JSON string: quotes, backslashes and control characters are
/// escaped, everything else stands for itself.
pub open spec fn json_char(c: char) -> Seq<char> {
    let n = c as int;
    if c == '"' {
        seq!['\\', '"']
    } else if c == '\\' {
        seq!['\\', '\\']
    } else if n == 8 {
        seq!['\\', 'b']
    } else if n == 9 {
        seq!['\\', 't']
    } else if n == 10 {
        seq!['\\', 'n']
    } else if n == 12 {
        seq!['\\', 'f']
    } else if n == 13 {
        seq!['\\', 'r']
    } else if n < 32 {
        seq!['\\', 'u', '0', '0', digit(n / 16), digit(n % 16)]
    } else {
        seq![c]
    }
}

/// The characters of a text, each as it stands inside a JSON string.
pub open spec fn json_body(s: Seq<char>) -> Seq<char>
    decreases s.len(),
{
    if s.len() == 0 {
        Seq::empty()
    } else {
        json_char(s[0]) + json_body(s.subrange(1, s.len() as int))
    }
}

/// A text as a JSON string.
pub open spec fn json_text(s: Seq<char>) -> Seq<char> {
    seq!['"'] + json_body(s) + seq!['"']
}

/// `serde_json::to_string` of a string: the string in quotes, with what JSON reserves escaped. It
/// writes to a vector in memory and a string always serialises, so it does not fail.
#[verifier::external_body]
fn json_string(s: &str) -> (r: Result<String, serde_json::Error>)
    ensures
        r is Ok,
        r->Ok_0@ == json_text(s@),
{
    serde_json::to_string(s)
}

/// Appends a JSON string.
pub fn push_json_string(out: &mut String, s: &str) -> (r: Result<(), serde_json::Error>)
    ensures
        r is Ok,
        final(out)@ == old(out)@ + json_text(s@),
{
    match json_string(s) {
        Ok(t) => {
            out.append(t.as_str());
            Ok(())
        },
        Err(e) => Err(e),
    }
}

/// Two characters whose escapes begin alike are the same character.
proof fn lemma_json_char_prefix_free(c: char, d: char, x: Seq<char>, y: Seq<char>)
    requires
        json_char(c) + x == json_char(d) + y,
    ensures
        c == d,
        x == y,
{
    let p = json_char(c) + x;
    let q = json_char(d) + y;
    let a = json_char(c);
    let b = json_char(d);
    assert(a[0] == p[0] && b[0] == q[0]);
    if a.len() > 1 && b.len() > 1 {
        assert(a[1] == p[1] && b[1] == q[1]);
        if a.len() > 2 && b.len() > 2 {
            assert(a[4] == p[4] && b[4] == q[4]);
            assert(a[5] == p[5] && b[5] == q[5]);
            assert(digit(c as int / 16) == digit(d as int / 16));
            assert(digit(c as int % 16) == digit(d as int % 16));
            assert(c as int == 16 * (c as int / 16) + c as int % 16);
            assert(d as int == 16 * (d as int / 16) + d as int % 16);
        }
    }
    assert(c == d);
    assert(x =~= p.subrange(a.len() as int, p.len() as int));
    assert(y =~= q.subrange(b.len() as int, q.len() as int));
}

proof fn lemma_json_char_start(c: char)
    ensures
        json_char(c).len() > 0,
        json_char(c)[0] != '"',
{
}

proof fn lemma_json_body_prefix_free(a: Seq<char>, b: Seq<char>, x: Seq<char>, y: Seq<char>)
    requires
        json_body(a) + seq!['"'] + x == json_body(b) + seq!['"'] + y,
    ensures
        a == b,
        x == y,
    decreases a.len(),
{
    let p = json_body(a) + seq!['"'] + x;
    let q = json_body(b) + seq!['"'] + y;
    if a.len() > 0 {
        lemma_json_char_start(a[0]);
    }
    if b.len() > 0 {
        lemma_json_char_start(b[0]);
    }
    if a.len() == 0 {
        assert(p[0] == '"');
        if b.len() > 0 {
            assert(q[0] == json_char(b[0])[0]);
        }
        assert(a =~= b);
        assert(x =~= p.subrange(1, p.len() as int));
        assert(y =~= q.subrange(1, q.len() as int));
    } else if b.len() == 0 {
        assert(q[0] == '"');
        assert(p[0] == json_char(a[0])[0]);
    } else {
        let a1 = a.subrange(1, a.len() as int);
        let b1 = b.subrange(1, b.len() as int);
        assert(p =~= json_char(a[0]) + (json_body(a1) + seq!['"'] + x));
        assert(q =~= json_char(b[0]) + (json_body(b1) + seq!['"'] + y));
        lemma_json_char_prefix_free(
            a[0],
            b[0],
            json_body(a1) + seq!['"'] + x,
            json_body(b1) + seq!['"'] + y,
        );
        lemma_json_body_prefix_free(a1, b1, x, y);
        assert(a =~= seq![a[0]] + a1);
        assert(b =~= seq![b[0]] + b1);
    }
}

/// A JSON string can be read in one way only: what follows it cannot be taken for a part of it.
pub proof fn lemma_json_text_prefix_free(a: Seq<char>, b: Seq<char>, x: Seq<char>, y: Seq<char>)
    requires
        json_text(a) + x == json_text(b) + y,
    ensures
        a == b,
        x == y,
{
    let p = json_text(a) + x;
    let q = json_text(b) + y;
    assert(p.subrange(1, p.len() as int) =~= json_body(a) + seq!['"'] + x);
    assert(q.subrange(1, q.len() as int) =~= json_body(b) + seq!['"'] + y);
    lemma_json_body_prefix_free(a, b, x, y);
}

/// A decimal number that is followed by something else than a digit can be read in one way only.
pub proof fn lemma_dec_prefix_free(n: nat, m: nat, x: Seq<char>, y: Seq<char>)
    requires
        dec(n) + x == dec(m) + y,
        x.len() > 0,
        y.len() > 0,
        !is_digit(x[0]),
        !is_digit(y[0]),
    ensures
        n == m,
        x == y,
{
    lemma_dec_spells(n);
    lemma_dec_spells(m);
    let p = dec(n) + x;
    let q = dec(m) + y;
    let i = dec(n).len() as int;
    let j = dec(m).len() as int;
    if i < j {
        assert(p[i] == x[0]);
        assert(q[i] == dec(m)[i]);
        assert(is_digit(dec(m)[i]));
    } else if j < i {
        assert(q[j] == y[0]);
        assert(p[j] == dec(n)[j]);
        assert(is_digit(dec(n)[j]));
    }
    assert(dec(n) =~= p.subrange(0, i));
    assert(dec(m) =~= q.subrange(0, i));
    assert(x =~= p.subrange(i, p.len() as int));
    assert(y =~= q.subrange(i, q.len() as int));
}

/// What follows a fixed piece of text is determined by the whole.
pub proof fn lemma_literal_prefix(lit: Seq<char>, x: Seq<char>, y: Seq<char>)
    requires
        lit + x == lit + y,
    ensures
        x == y,
{
    assert(x =~= (lit + x).subrange(lit.len() as int, (lit + x).len() as int));
    assert(y =~= (lit + y).subrange(lit.len() as int, (lit + y).len() as int));
}

} // verus!
