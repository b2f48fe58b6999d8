//! The reader: raw bytes to a sequence of top-level forms.
//!
//! At each position, after whitespace and `;` comments, the alternatives are
//! tried in a fixed order: `()`, a parenthesised list, `nil`, a character
//! (`#\space`, `#\newline`, `#\` and any character), a complex literal, a
//! real, an integer, `#t` / `#f`, and last an identifier.
use vstd::prelude::*;
use vstd::utf8::{decode_utf8, valid_utf8};

use crate::error::ParseError;
use crate::token::{array_to_list, float_token, forms_of, list_of, Decimal, Form, Numeral, Token};

verus! {

pub open spec fn is_space(b: u8) -> bool {
    b == 0x20 || b == 0x09 || b == 0x0d || b == 0x0a
}

/// A byte that ends an identifier.
pub open spec fn is_delimiter(b: u8) -> bool {
    is_space(b) || b == 0x28 || b == 0x29 || b == 0x3b
}

pub open spec fn is_digit(b: u8) -> bool {
    0x30 <= b <= 0x39
}

/// The first position at or after `p` outside whitespace and comments; a
/// comment runs from `;` to the end of its line.
pub open spec fn skip_blank(s: Seq<u8>, p: int, in_comment: bool) -> int
    decreases s.len() - p,
{
    if p < 0 || p >= s.len() {
        p
    } else if in_comment {
        skip_blank(s, p + 1, s[p] != 0x0a)
    } else if is_space(s[p]) {
        skip_blank(s, p + 1, false)
    } else if s[p] == 0x3b {
        skip_blank(s, p + 1, true)
    } else {
        p
    }
}

pub open spec fn blank_end(s: Seq<u8>, p: int) -> int {
    skip_blank(s, p, false)
}

/// The end of the run of bytes from `p` that satisfy `f`.
pub open spec fn run_end(s: Seq<u8>, p: int, f: spec_fn(u8) -> bool) -> int
    decreases s.len() - p,
{
    if 0 <= p < s.len() && f(s[p]) {
        run_end(s, p + 1, f)
    } else {
        p
    }
}

pub open spec fn digits_end(s: Seq<u8>, p: int) -> int {
    run_end(s, p, |b: u8| is_digit(b))
}

pub open spec fn spaces_end(s: Seq<u8>, p: int) -> int {
    run_end(s, p, |b: u8| is_space(b))
}

pub open spec fn ident_end(s: Seq<u8>, p: int) -> int {
    run_end(s, p, |b: u8| !is_delimiter(b))
}

/// The position after an optional `+` or `-` at `p`.
pub open spec fn sign_end(s: Seq<u8>, p: int) -> int {
    if 0 <= p < s.len() && (s[p] == 0x2b || s[p] == 0x2d) {
        p + 1
    } else {
        p
    }
}

pub open spec fn is_minus(s: Seq<u8>, p: int) -> bool {
    0 <= p < s.len() && s[p] == 0x2d
}

/// The bytes `w` stand at `p` in `s`.
pub open spec fn starts_with(s: Seq<u8>, p: int, w: Seq<u8>) -> bool {
    0 <= p && p + w.len() <= s.len() && s.subrange(p, p + w.len()) == w
}

/// Whether the bytes `w` stand at `p` in `s`.
fn word_at(s: &[u8], p: usize, w: &[u8]) -> (r: bool)
    requires
        p <= s@.len(),
    ensures
        r == starts_with(s@, p as int, w@),
        r ==> p + w@.len() <= usize::MAX,
{
    let n = s.len();
    if w.len() > n - p {
        return false;
    }
    let mut i: usize = 0;
    while i < w.len()
        invariant
            i <= w@.len(),
            n == s@.len(),
            p + w@.len() <= n,
            forall|j: int| 0 <= j < i ==> s@[p + j] == w@[j],
        decreases w@.len() - i,
    {
        if s[p + i] != w[i] {
            assert(s@.subrange(p as int, p + w@.len())[i as int] != w@[i as int]);
            return false;
        }
        i += 1;
    }
    assert(s@.subrange(p as int, p + w@.len()) =~= w@);
    true
}

/// The value of a run of decimal digits.
pub open spec fn digits_value(d: Seq<u8>) -> int
    decreases d.len(),
{
    if d.len() == 0 {
        0
    } else {
        10 * digits_value(d.drop_last()) + (d.last() - 0x30)
    }
}

pub open spec fn signed_value(negative: bool, d: Seq<u8>) -> int {
    if negative {
        -digits_value(d)
    } else {
        digits_value(d)
    }
}

pub open spec fn fits_i32(v: int) -> bool {
    i32::MIN <= v <= i32::MAX
}

/// An unsigned real at `p`: digits, then optionally `.` and more digits.
/// Gives the two digit runs and the end.
pub open spec fn ureal(s: Seq<u8>, p: int) -> Option<(Seq<u8>, Seq<u8>, int)> {
    let d = digits_end(s, p);
    if d == p {
        None
    } else if d < s.len() && s[d] == 0x2e && digits_end(s, d + 1) > d + 1 {
        Some((s.subrange(p, d), s.subrange(d + 1, digits_end(s, d + 1)), digits_end(s, d + 1)))
    } else {
        Some((s.subrange(p, d), Seq::empty(), d))
    }
}

/// The real part of a complex literal: an optional sign and an unsigned real.
pub open spec fn real_part(s: Seq<u8>, p: int) -> Option<(Numeral, int)> {
    match ureal(s, sign_end(s, p)) {
        Some((i, f, e)) => Some(
            (Numeral { negative: is_minus(s, p), int_digits: i, frac_digits: f }, e),
        ),
        None => None,
    }
}

/// The imaginary part of a complex literal, before its `i`: optional
/// whitespace, an optional sign, optional whitespace, an unsigned real.
pub open spec fn imaginary_part(s: Seq<u8>, p: int) -> Option<(Numeral, int)> {
    let a = spaces_end(s, p);
    let b = spaces_end(s, sign_end(s, a));
    match ureal(s, b) {
        Some((i, f, e)) => Some(
            (Numeral { negative: is_minus(s, a), int_digits: i, frac_digits: f }, e),
        ),
        None => None,
    }
}

/// `1.45+4i`, `2 -3i`: a real part, an imaginary part, and `i`.
pub open spec fn complex_literal(s: Seq<u8>, p: int) -> Option<(Form, int)> {
    match real_part(s, p) {
        Some((re, q)) => match imaginary_part(s, q) {
            Some((im, e)) => if e < s.len() && s[e] == 0x69 {
                Some((Form::Complex(re, im), e + 1))
            } else {
                None
            },
            None => None,
        },
        None => None,
    }
}

/// `+i` or `-i` standing alone: the imaginary unit or its negation.
pub open spec fn unit_imaginary(s: Seq<u8>, p: int) -> Option<(Form, int)> {
    if 0 <= p && p + 1 < s.len() && (s[p] == 0x2b || s[p] == 0x2d) && s[p + 1] == 0x69 && (p + 2
        == s.len() || is_delimiter(s[p + 2])) {
        Some(
            (
                Form::Complex(
                    Numeral { negative: false, int_digits: seq![0x30u8], frac_digits: seq![] },
                    Numeral { negative: s[p] == 0x2d, int_digits: seq![0x31u8], frac_digits: seq![] },
                ),
                p + 2,
            ),
        )
    } else {
        None
    }
}

/// An optional sign, digits, `.`, and optionally more digits.
pub open spec fn real_literal(s: Seq<u8>, p: int) -> Option<(Form, int)> {
    let q = sign_end(s, p);
    let d = digits_end(s, q);
    if d > q && d < s.len() && s[d] == 0x2e {
        let e = digits_end(s, d + 1);
        Some(
            (
                Form::Float(
                    Numeral {
                        negative: is_minus(s, p),
                        int_digits: s.subrange(q, d),
                        frac_digits: s.subrange(d + 1, e),
                    },
                ),
                e,
            ),
        )
    } else {
        None
    }
}

/// The width of the UTF-8 encoding that starts with byte `b`.
pub open spec fn utf8_width(b: u8) -> int {
    if b < 0x80 {
        1
    } else if b < 0xe0 {
        2
    } else if b < 0xf0 {
        3
    } else {
        4
    }
}

/// The character whose UTF-8 encoding starts at `p`, and its end.
pub open spec fn char_literal(s: Seq<u8>, p: int) -> Option<(char, int)> {
    if 0 <= p < s.len() && p + utf8_width(s[p]) <= s.len() {
        let bytes = s.subrange(p, p + utf8_width(s[p]));
        if valid_utf8(bytes) && decode_utf8(bytes).len() > 0 {
            Some((decode_utf8(bytes)[0], p + utf8_width(s[p])))
        } else {
            None
        }
    } else {
        None
    }
}

pub open spec fn word_nil() -> Seq<u8> {
    seq![0x6eu8, 0x69, 0x6c]
}

pub open spec fn word_space() -> Seq<u8> {
    seq![0x23u8, 0x5c, 0x73, 0x70, 0x61, 0x63, 0x65]
}

pub open spec fn word_newline() -> Seq<u8> {
    seq![0x23u8, 0x5c, 0x6e, 0x65, 0x77, 0x6c, 0x69, 0x6e, 0x65]
}

pub open spec fn word_char() -> Seq<u8> {
    seq![0x23u8, 0x5c]
}

pub open spec fn word_true() -> Seq<u8> {
    seq![0x23u8, 0x74]
}

pub open spec fn word_false() -> Seq<u8> {
    seq![0x23u8, 0x66]
}

/// The atom at `p` (which is not `(`), and its end; or the offset at which
/// no alternative matched.
pub open spec fn atom_at(s: Seq<u8>, p: int) -> Result<(Form, int), int> {
    let q = sign_end(s, p);
    let d = digits_end(s, q);
    let k = ident_end(s, p);
    if starts_with(s, p, word_nil()) {
        Ok((Form::Nil, p + 3))
    } else if starts_with(s, p, word_space()) {
        Ok((Form::Char(' '), p + 7))
    } else if starts_with(s, p, word_newline()) {
        Ok((Form::Char('\n'), p + 9))
    } else if starts_with(s, p, word_char()) {
        match char_literal(s, p + 2) {
            Some((c, e)) => Ok((Form::Char(c), e)),
            None => Err(p),
        }
    } else if complex_literal(s, p) is Some {
        Ok(complex_literal(s, p)->0)
    } else if unit_imaginary(s, p) is Some {
        Ok(unit_imaginary(s, p)->0)
    } else if real_literal(s, p) is Some {
        Ok(real_literal(s, p)->0)
    } else if d > q {
        if fits_i32(signed_value(is_minus(s, p), s.subrange(q, d))) {
            Ok((Form::Int(signed_value(is_minus(s, p), s.subrange(q, d)) as i32), d))
        } else {
            Err(p)
        }
    } else if starts_with(s, p, word_true()) {
        Ok((Form::Bool(true), p + 2))
    } else if starts_with(s, p, word_false()) {
        Ok((Form::Bool(false), p + 2))
    } else if k > p && valid_utf8(s.subrange(p, k)) {
        Ok((Form::Symbol(decode_utf8(s.subrange(p, k))), k))
    } else {
        Err(p)
    }
}

/// The form at `p`: a parenthesised list, or an atom.
pub open spec fn form_at(s: Seq<u8>, p: int) -> Result<(Form, int), int>
    decreases s.len() - p, 0int,
{
    if p < 0 || p >= s.len() {
        Err(p)
    } else if s[p] == 0x28 {
        match items_at(s, p + 1) {
            Ok((items, e)) => Ok((list_of(items), e)),
            Err(x) => Err(x),
        }
    } else {
        atom_at(s, p)
    }
}

/// The forms of a list from `p` up to and including its `)`, and the end.
/// A list that is never closed fails at the end of the input.
pub open spec fn items_at(s: Seq<u8>, p: int) -> Result<(Seq<Form>, int), int>
    decreases s.len() - p, 1int,
{
    let q = blank_end(s, p);
    if q < p || q >= s.len() {
        Err(q)
    } else if s[q] == 0x29 {
        Ok((seq![], q + 1))
    } else {
        match form_at(s, q) {
            Err(x) => Err(x),
            Ok((f, r)) => if r <= q || r > s.len() {
                Err(q)
            } else {
                match items_at(s, r) {
                    Ok((fs, e)) => Ok((seq![f] + fs, e)),
                    Err(x) => Err(x),
                }
            },
        }
    }
}

/// The top-level forms from `p` to the end of the input.
pub open spec fn forms_from(s: Seq<u8>, p: int) -> Result<Seq<Form>, int>
    decreases s.len() - p,
{
    let q = blank_end(s, p);
    if q < p || q >= s.len() {
        Ok(seq![])
    } else {
        match form_at(s, q) {
            Err(x) => Err(x),
            Ok((f, r)) => if r <= q || r > s.len() {
                Err(q)
            } else {
                match forms_from(s, r) {
                    Ok(fs) => Ok(seq![f] + fs),
                    Err(x) => Err(x),
                }
            },
        }
    }
}

/// Whitespace.
fn space(b: u8) -> (r: bool)
    ensures
        r == is_space(b),
{
    b == 0x20 || b == 0x09 || b == 0x0d || b == 0x0a
}

/// A byte that ends an identifier.
fn delimiter(b: u8) -> (r: bool)
    ensures
        r == is_delimiter(b),
{
    space(b) || b == 0x28 || b == 0x29 || b == 0x3b
}

/// The first position at or after `p` outside whitespace and comments.
fn scan_blank(s: &[u8], p: usize) -> (r: usize)
    requires
        p <= s@.len(),
    ensures
        r == blank_end(s@, p as int),
        p <= r <= s@.len(),
{
    let mut i = p;
    let mut in_comment = false;
    while i < s.len()
        invariant
            p <= i <= s@.len(),
            skip_blank(s@, i as int, in_comment) == blank_end(s@, p as int),
        decreases s@.len() - i,
    {
        let b = s[i];
        if in_comment {
            in_comment = b != 0x0a;
        } else if space(b) {
        } else if b == 0x3b {
            in_comment = true;
        } else {
            return i;
        }
        i += 1;
    }
    i
}

/// The end of the run of digits at `p`.
fn scan_digits(s: &[u8], p: usize) -> (r: usize)
    requires
        p <= s@.len(),
    ensures
        r == digits_end(s@, p as int),
        p <= r <= s@.len(),
        forall|j: int| p <= j < r ==> is_digit(#[trigger] s@[j]),
{
    let mut i = p;
    while i < s.len() && 0x30 <= s[i] && s[i] <= 0x39
        invariant
            p <= i <= s@.len(),
            digits_end(s@, i as int) == digits_end(s@, p as int),
            forall|j: int| p <= j < i ==> is_digit(#[trigger] s@[j]),
        decreases s@.len() - i,
    {
        i += 1;
    }
    i
}

/// The end of the run of whitespace at `p`.
fn scan_spaces(s: &[u8], p: usize) -> (r: usize)
    requires
        p <= s@.len(),
    ensures
        r == spaces_end(s@, p as int),
        p <= r <= s@.len(),
{
    let mut i = p;
    while i < s.len() && space(s[i])
        invariant
            p <= i <= s@.len(),
            spaces_end(s@, i as int) == spaces_end(s@, p as int),
        decreases s@.len() - i,
    {
        i += 1;
    }
    i
}

/// The end of the identifier at `p`: the longest run of bytes that are
/// neither whitespace, parentheses nor `;`. `None` when the run is empty.
pub fn identifier(input: &[u8], p: usize) -> (r: Option<usize>)
    requires
        p <= input@.len(),
    ensures
        match r {
            Some(e) => e == ident_end(input@, p as int) && p < e <= input@.len(),
            None => ident_end(input@, p as int) == p,
        },
{
    let mut i = p;
    while i < input.len() && !delimiter(input[i])
        invariant
            p <= i <= input@.len(),
            ident_end(input@, i as int) == ident_end(input@, p as int),
        decreases input@.len() - i,
    {
        i += 1;
    }
    if i == p {
        None
    } else {
        Some(i)
    }
}

/// An optional sign at `p`: the position after it, and whether it is `-`.
pub fn sign(input: &[u8], p: usize) -> (r: (usize, bool))
    requires
        p <= input@.len(),
    ensures
        r.0 == sign_end(input@, p as int),
        r.1 == is_minus(input@, p as int),
{
    if p < input.len() && input[p] == 0x2d {
        (p + 1, true)
    } else if p < input.len() && input[p] == 0x2b {
        (p + 1, false)
    } else {
        (p, false)
    }
}

proof fn lemma_digits_value_nonneg(d: Seq<u8>)
    requires
        forall|j: int| 0 <= j < d.len() ==> is_digit(#[trigger] d[j]),
    ensures
        digits_value(d) >= 0,
    decreases d.len(),
{
    if d.len() > 0 {
        assert forall|j: int| 0 <= j < d.drop_last().len() implies is_digit(
            #[trigger] d.drop_last()[j],
        ) by {
            assert(d.drop_last()[j] == d[j]);
        }
        lemma_digits_value_nonneg(d.drop_last());
    }
}

/// A longer run of digits is worth at least as much as its prefix.
proof fn lemma_digits_value_grows(s: Seq<u8>, q: int, i: int, e: int)
    requires
        0 <= q <= i <= e <= s.len(),
        forall|j: int| q <= j < e ==> is_digit(#[trigger] s[j]),
    ensures
        digits_value(s.subrange(q, i)) <= digits_value(s.subrange(q, e)),
    decreases e - i,
{
    if i < e {
        lemma_digits_value_grows(s, q, i, e - 1);
        assert(s.subrange(q, e).drop_last() =~= s.subrange(q, e - 1));
        let d = s.subrange(q, e - 1);
        assert forall|j: int| 0 <= j < d.len() implies is_digit(#[trigger] d[j]) by {
            assert(d[j] == s[q + j]);
        }
        lemma_digits_value_nonneg(d);
        assert(is_digit(s[e - 1]));
    }
}

/// The signed value of the digits `s[q..e]`, if it fits in an `i32`.
fn int_of_digits(s: &[u8], q: usize, e: usize, negative: bool) -> (r: Option<i32>)
    requires
        q <= e <= s@.len(),
        forall|j: int| q <= j < e ==> is_digit(#[trigger] s@[j]),
    ensures
        match r {
            Some(v) => fits_i32(signed_value(negative, s@.subrange(q as int, e as int))) && v
                == signed_value(negative, s@.subrange(q as int, e as int)),
            None => !fits_i32(signed_value(negative, s@.subrange(q as int, e as int))),
        },
{
    let mut acc: u64 = 0;
    let mut i = q;
    assert(s@.subrange(q as int, q as int).len() == 0);
    while i < e
        invariant
            q <= i <= e <= s@.len(),
            forall|j: int| q <= j < e ==> is_digit(#[trigger] s@[j]),
            acc == digits_value(s@.subrange(q as int, i as int)),
            acc <= 0x8000_0000,
        decreases e - i,
    {
        assert(s@.subrange(q as int, i + 1).drop_last() =~= s@.subrange(q as int, i as int));
        assert(is_digit(s@[i as int]));
        let next = acc * 10 + (s[i] - 0x30) as u64;
        if next > 0x8000_0000 {
            proof {
                lemma_digits_value_grows(s@, q as int, i + 1, e as int);
            }
            return None;
        }
        acc = next;
        i += 1;
    }
    if negative {
        Some((0 - (acc as i64)) as i32)
    } else if acc <= 0x7fff_ffff {
        Some(acc as i32)
    } else {
        None
    }
}

/// The signed integer that `s` is written as: an optional sign and one or
/// more digits, nothing else. `None` for any other text, or for a value
/// outside the range of `i32`.
pub fn token_from_str(s: &[u8]) -> (r: Option<Token>)
    ensures
        match r {
            Some(t) => {
                &&& digits_end(s@, sign_end(s@, 0)) == s@.len() > sign_end(s@, 0)
                &&& fits_i32(signed_value(is_minus(s@, 0), s@.subrange(sign_end(s@, 0), s@.len() as int)))
                &&& t@ == Form::Int(signed_value(is_minus(s@, 0), s@.subrange(sign_end(s@, 0), s@.len() as int)) as i32)
            },
            None => !(digits_end(s@, sign_end(s@, 0)) == s@.len() > sign_end(s@, 0)) || !fits_i32(
                signed_value(is_minus(s@, 0), s@.subrange(sign_end(s@, 0), s@.len() as int)),
            ),
        },
{
    let (q, negative) = sign(s, 0);
    let e = scan_digits(s, q);
    if e == q || e != s.len() {
        return None;
    }
    match int_of_digits(s, q, e, negative) {
        Some(v) => Some(Token::Int(v)),
        None => None,
    }
}

/// Relies on `String::from_utf8`: it accepts exactly the byte vectors that
/// are valid UTF-8, and the string it returns holds the characters they
/// encode.
#[verifier::external_body]
fn utf8_string(bytes: Vec<u8>) -> (r: Option<String>)
    ensures
        r is Some <==> valid_utf8(bytes@),
        r is Some ==> r->0@ == decode_utf8(bytes@),
{
    String::from_utf8(bytes).ok()
}

/// The width of the UTF-8 encoding that starts with byte `b`.
fn width(b: u8) -> (r: usize)
    ensures
        r == utf8_width(b),
{
    if b < 0x80 {
        1
    } else if b < 0xe0 {
        2
    } else if b < 0xf0 {
        3
    } else {
        4
    }
}

/// The character at `p`, decoded, and its end.
fn scan_char(s: &[u8], p: usize) -> (r: Option<(char, usize)>)
    requires
        p <= s@.len(),
    ensures
        match r {
            Some((c, e)) => char_literal(s@, p as int) == Some((c, e as int)) && p < e <= s@.len(),
            None => char_literal(s@, p as int) is None,
        },
{
    if p >= s.len() {
        return None;
    }
    let w = width(s[p]);
    if w > s.len() - p {
        return None;
    }
    match utf8_string(vstd::slice::slice_to_vec(&s[p..p + w])) {
        Some(text) => {
            if text.as_str().unicode_len() > 0 {
                Some((text.as_str().get_char(0), p + w))
            } else {
                None
            }
        },
        None => None,
    }
}

/// An unsigned real at `p`: the end of its integer digits, the range of its
/// fractional digits (empty when it has none), and its end.
fn scan_ureal(s: &[u8], p: usize) -> (r: Option<(usize, usize, usize, usize)>)
    requires
        p <= s@.len(),
    ensures
        match r {
            None => ureal(s@, p as int) is None,
            Some((d, fs, fe, e)) => {
                &&& p < d <= fs <= fe <= e <= s@.len()
                &&& ureal(s@, p as int) == Some(
                    (
                        s@.subrange(p as int, d as int),
                        s@.subrange(fs as int, fe as int),
                        e as int,
                    ),
                )
            },
        },
{
    let d = scan_digits(s, p);
    if d == p {
        return None;
    }
    if d < s.len() && s[d] == 0x2e {
        let fe = scan_digits(s, d + 1);
        if fe > d + 1 {
            return Some((d, d + 1, fe, fe));
        }
    }
    assert(s@.subrange(d as int, d as int) =~= Seq::<u8>::empty());
    Some((d, d, d, d))
}

/// The numeral with the given sign and digit runs of `s`.
fn decimal(s: &[u8], negative: bool, i0: usize, i1: usize, f0: usize, f1: usize) -> (r: Decimal)
    requires
        i0 <= i1 <= s@.len(),
        f0 <= f1 <= s@.len(),
    ensures
        r@ == (Numeral {
            negative,
            int_digits: s@.subrange(i0 as int, i1 as int),
            frac_digits: s@.subrange(f0 as int, f1 as int),
        }),
{
    Decimal {
        negative,
        int_digits: vstd::slice::slice_to_vec(&s[i0..i1]),
        frac_digits: vstd::slice::slice_to_vec(&s[f0..f1]),
    }
}

/// A complex literal at `p`, and its end.
fn scan_complex(s: &[u8], p: usize) -> (r: Option<(Token, usize)>)
    requires
        p <= s@.len(),
    ensures
        match r {
            None => complex_literal(s@, p as int) is None,
            Some((t, e)) => complex_literal(s@, p as int) == Some((t@, e as int)) && p < e
                <= s@.len(),
        },
{
    let (q, neg_re) = sign(s, p);
    let (d1, fs1, fe1, e1) = match scan_ureal(s, q) {
        None => {
            return None;
        },
        Some(x) => x,
    };
    let a = scan_spaces(s, e1);
    let (b0, neg_im) = sign(s, a);
    let b = scan_spaces(s, b0);
    let (d2, fs2, fe2, e2) = match scan_ureal(s, b) {
        None => {
            return None;
        },
        Some(x) => x,
    };
    if e2 < s.len() && s[e2] == 0x69 {
        let re = decimal(s, neg_re, q, d1, fs1, fe1);
        let im = decimal(s, neg_im, b, d2, fs2, fe2);
        Some((Token::Complex(re, im), e2 + 1))
    } else {
        None
    }
}

/// `+i` or `-i` standing alone at `p`, and its end.
fn scan_unit_imaginary(s: &[u8], p: usize) -> (r: Option<(Token, usize)>)
    requires
        p <= s@.len(),
    ensures
        match r {
            None => unit_imaginary(s@, p as int) is None,
            Some((t, e)) => unit_imaginary(s@, p as int) == Some((t@, e as int)) && p < e
                <= s@.len(),
        },
{
    if p < s.len() && s.len() - p > 1 && (s[p] == 0x2b || s[p] == 0x2d) && s[p + 1] == 0x69 && (
    s.len() - p == 2 || delimiter(s[p + 2])) {
        let mut zero: Vec<u8> = Vec::new();
        zero.push(0x30);
        let mut one: Vec<u8> = Vec::new();
        one.push(0x31);
        let re = Decimal { negative: false, int_digits: zero, frac_digits: Vec::new() };
        let im = Decimal { negative: s[p] == 0x2d, int_digits: one, frac_digits: Vec::new() };
        proof {
            assert(re.int_digits@ =~= seq![0x30u8]);
            assert(im.int_digits@ =~= seq![0x31u8]);
            assert(re.frac_digits@ =~= Seq::<u8>::empty());
        }
        Some((Token::Complex(re, im), p + 2))
    } else {
        None
    }
}

/// A real literal at `p`, and its end.
fn scan_real(s: &[u8], p: usize) -> (r: Option<(Token, usize)>)
    requires
        p <= s@.len(),
    ensures
        match r {
            None => real_literal(s@, p as int) is None,
            Some((t, e)) => real_literal(s@, p as int) == Some((t@, e as int)) && p < e <= s@.len(),
        },
{
    let (q, negative) = sign(s, p);
    let d = scan_digits(s, q);
    if d > q && d < s.len() && s[d] == 0x2e {
        let e = scan_digits(s, d + 1);
        Some((float_token(negative, &s[q..d], Some(&s[d + 1..e])), e))
    } else {
        None
    }
}

/// The atom at `p`, which is not `(`.
fn parse_atom(s: &[u8], p: usize) -> (r: Result<(Token, usize), usize>)
    requires
        p < s@.len(),
    ensures
        match r {
            Ok((t, e)) => atom_at(s@, p as int) == Ok::<(Form, int), int>((t@, e as int)) && p < e
                <= s@.len(),
            Err(x) => atom_at(s@, p as int) == Err::<(Form, int), int>(x as int) && x <= s@.len(),
        },
{
    let w_nil: [u8; 3] = [0x6e, 0x69, 0x6c];
    let w_space: [u8; 7] = [0x23, 0x5c, 0x73, 0x70, 0x61, 0x63, 0x65];
    let w_newline: [u8; 9] = [0x23, 0x5c, 0x6e, 0x65, 0x77, 0x6c, 0x69, 0x6e, 0x65];
    let w_char: [u8; 2] = [0x23, 0x5c];
    let w_true: [u8; 2] = [0x23, 0x74];
    let w_false: [u8; 2] = [0x23, 0x66];
    assert(w_nil@ == word_nil());
    assert(w_space@ == word_space());
    assert(w_newline@ == word_newline());
    assert(w_char@ == word_char());
    assert(w_true@ == word_true());
    assert(w_false@ == word_false());
    if word_at(s, p, &w_nil) {
        return Ok((Token::Nil, p + 3));
    }
    if word_at(s, p, &w_space) {
        return Ok((Token::Char(' '), p + 7));
    }
    if word_at(s, p, &w_newline) {
        return Ok((Token::Char('\n'), p + 9));
    }
    if word_at(s, p, &w_char) {
        return match scan_char(s, p + 2) {
            Some((c, e)) => Ok((Token::Char(c), e)),
            None => Err(p),
        };
    }
    if let Some(found) = scan_complex(s, p) {
        return Ok(found);
    }
    if let Some(found) = scan_unit_imaginary(s, p) {
        return Ok(found);
    }
    if let Some(found) = scan_real(s, p) {
        return Ok(found);
    }
    let (q, negative) = sign(s, p);
    let d = scan_digits(s, q);
    if d > q {
        return match int_of_digits(s, q, d, negative) {
            Some(v) => Ok((Token::Int(v), d)),
            None => Err(p),
        };
    }
    if word_at(s, p, &w_true) {
        return Ok((Token::Bool(true), p + 2));
    }
    if word_at(s, p, &w_false) {
        return Ok((Token::Bool(false), p + 2));
    }
    match identifier(s, p) {
        Some(k) => match utf8_string(vstd::slice::slice_to_vec(&s[p..k])) {
            Some(text) => Ok((Token::Symbol(text), k)),
            None => Err(p),
        },
        None => Err(p),
    }
}

/// The form at `p`: a list when `p` holds `(`, an atom otherwise.
fn parse_form(s: &[u8], p: usize) -> (r: Result<(Token, usize), usize>)
    requires
        p < s@.len(),
    ensures
        match r {
            Ok((t, e)) => form_at(s@, p as int) == Ok::<(Form, int), int>((t@, e as int)) && p < e
                <= s@.len(),
            Err(x) => form_at(s@, p as int) == Err::<(Form, int), int>(x as int) && x <= s@.len(),
        },
    decreases s@.len() - p, 0int,
{
    if s[p] == 0x28 {
        match parse_list(s, p + 1) {
            Ok((items, e)) => Ok((array_to_list(items), e)),
            Err(x) => Err(x),
        }
    } else {
        parse_atom(s, p)
    }
}

spec fn prepend_items(fs: Seq<Form>, r: Result<(Seq<Form>, int), int>) -> Result<
    (Seq<Form>, int),
    int,
> {
    match r {
        Ok((gs, e)) => Ok((fs + gs, e)),
        Err(x) => Err(x),
    }
}

proof fn lemma_forms_push(ts: Seq<Token>, t: Token)
    ensures
        forms_of(ts.push(t)) == forms_of(ts).push(t@),
{
    assert(forms_of(ts.push(t)) =~= forms_of(ts).push(t@));
}

/// The forms of a list, from `p` (just after its `(`) through its `)`.
fn parse_list(s: &[u8], p: usize) -> (r: Result<(Vec<Token>, usize), usize>)
    requires
        p <= s@.len(),
    ensures
        match r {
            Ok((ts, e)) => items_at(s@, p as int) == Ok::<(Seq<Form>, int), int>(
                (forms_of(ts@), e as int),
            ) && p < e <= s@.len(),
            Err(x) => items_at(s@, p as int) == Err::<(Seq<Form>, int), int>(x as int) && x
                <= s@.len(),
        },
    decreases s@.len() - p, 1int,
{
    let mut items: Vec<Token> = Vec::new();
    let mut cur = p;
    loop
        invariant
            p <= cur <= s@.len(),
            items_at(s@, p as int) == prepend_items(forms_of(items@), items_at(s@, cur as int)),
        decreases s@.len() - cur,
    {
        let q = scan_blank(s, cur);
        if q >= s.len() {
            return Err(q);
        }
        if s[q] == 0x29 {
            assert(forms_of(items@) + Seq::<Form>::empty() =~= forms_of(items@));
            return Ok((items, q + 1));
        }
        match parse_form(s, q) {
            Err(x) => {
                return Err(x);
            },
            Ok((t, r)) => {
                proof {
                    lemma_forms_push(items@, t);
                    if items_at(s@, r as int) is Ok {
                        let gs = items_at(s@, r as int)->Ok_0.0;
                        assert(forms_of(items@) + (seq![t@] + gs) =~= forms_of(items@).push(t@)
                            + gs);
                    }
                }
                items.push(t);
                cur = r;
            },
        }
    }
}

/// Reads every top-level form of `input`, in order. Fails with the offset
/// at which no alternative matched, or at the end of the input when a list
/// is not closed.
pub fn token(input: &[u8]) -> (r: Result<Vec<Token>, ParseError>)
    ensures
        match r {
            Ok(ts) => forms_from(input@, 0) == Ok::<Seq<Form>, int>(forms_of(ts@)),
            Err(e) => {
                &&& forms_from(input@, 0) == Err::<Seq<Form>, int>(e.offset as int)
                &&& e.offset <= input@.len()
                &&& e.remainder@ == input@.subrange(e.offset as int, input@.len() as int)
            },
        },
{
    let mut forms: Vec<Token> = Vec::new();
    let mut cur: usize = 0;
    loop
        invariant
            cur <= input@.len(),
            forms_from(input@, 0) == match forms_from(input@, cur as int) {
                Ok(gs) => Ok(forms_of(forms@) + gs),
                Err(x) => Err(x),
            },
        decreases input@.len() - cur,
    {
        let q = scan_blank(input, cur);
        if q >= input.len() {
            assert(forms_of(forms@) + Seq::<Form>::empty() =~= forms_of(forms@));
            return Ok(forms);
        }
        match parse_form(input, q) {
            Err(x) => {
                let remainder = vstd::slice::slice_to_vec(&input[x..input.len()]);
                return Err(ParseError { offset: x, remainder });
            },
            Ok((t, r)) => {
                proof {
                    lemma_forms_push(forms@, t);
                    if forms_from(input@, r as int) is Ok {
                        let gs = forms_from(input@, r as int)->Ok_0;
                        assert(forms_of(forms@) + (seq![t@] + gs) =~= forms_of(forms@).push(t@)
                            + gs);
                    }
                }
                forms.push(t);
                cur = r;
            },
        }
    }
}

} // verus!
