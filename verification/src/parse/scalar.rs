//! The literal parsers: null, boolean, number and string. Each opens exactly
//! one fragment at entry, consumes only the characters belonging to its
//! literal, closes that fragment before returning, and yields the value with
//! its fragment handle. A malformed literal fails with an unexpected-character
//! error positioned at the offending character.
//!
//! The numeric grammar accepted here is an optional minus sign, one or more
//! digits, an optional fraction (a dot and one or more digits) and an optional
//! exponent (`e` or `E`, an optional sign, one or more digits). The string
//! grammar is a double-quoted run of arbitrary characters other than the quote
//! and the backslash, with the closed escape set `\" \\ \/ \b \f \n \r \t`.

use vstd::prelude::*;
use crate::cursor::{char_err, spans_extend, Error, Parser, SourceChar, Span};
use crate::parse::Context;
use crate::value::NumberBuf;

verus! {

/// The characters of the input from index `i` up to index `j`.
pub open spec fn text_range(s: Seq<SourceChar>, i: int, j: int) -> Seq<char> {
    Seq::new((j - i) as nat, |k: int| s[i + k].chr)
}

/// The literal `null` stands at index `i`.
pub open spec fn null_at(s: Seq<SourceChar>, i: int) -> bool {
    &&& i + 4 <= s.len()
    &&& s[i].chr == 'n'
    &&& s[i + 1].chr == 'u'
    &&& s[i + 2].chr == 'l'
    &&& s[i + 3].chr == 'l'
}

/// The literal `true` stands at index `i`.
pub open spec fn true_at(s: Seq<SourceChar>, i: int) -> bool {
    &&& i + 4 <= s.len()
    &&& s[i].chr == 't'
    &&& s[i + 1].chr == 'r'
    &&& s[i + 2].chr == 'u'
    &&& s[i + 3].chr == 'e'
}

/// The literal `false` stands at index `i`.
pub open spec fn false_at(s: Seq<SourceChar>, i: int) -> bool {
    &&& i + 5 <= s.len()
    &&& s[i].chr == 'f'
    &&& s[i + 1].chr == 'a'
    &&& s[i + 2].chr == 'l'
    &&& s[i + 3].chr == 's'
    &&& s[i + 4].chr == 'e'
}

pub open spec fn is_digit(c: char) -> bool {
    '0' <= c && c <= '9'
}

/// The first index at or after `i` holding a non-digit, or the input's length.
pub open spec fn digits_end(s: Seq<SourceChar>, i: int) -> int
    decreases s.len() - i,
{
    if 0 <= i < s.len() && is_digit(s[i].chr) {
        digits_end(s, i + 1)
    } else {
        i
    }
}

/// Where the optional fraction part beginning at `d` ends, if well formed.
#[verifier::opaque]
pub open spec fn frac_end(s: Seq<SourceChar>, d: int) -> Option<int> {
    if d < s.len() && s[d].chr == '.' {
        if d + 1 < s.len() && is_digit(s[d + 1].chr) {
            Some(digits_end(s, d + 1))
        } else {
            None
        }
    } else {
        Some(d)
    }
}

/// Where the optional exponent part beginning at `x` ends, if well formed.
#[verifier::opaque]
pub open spec fn exp_end(s: Seq<SourceChar>, x: int) -> Option<int> {
    if x < s.len() && (s[x].chr == 'e' || s[x].chr == 'E') {
        let y = if x + 1 < s.len() && (s[x + 1].chr == '+' || s[x + 1].chr == '-') {
            x + 2
        } else {
            x + 1
        };
        if y < s.len() && is_digit(s[y].chr) {
            Some(digits_end(s, y))
        } else {
            None
        }
    } else {
        Some(x)
    }
}

/// The index just after the numeric literal beginning at `i`, or `None` if no
/// well-formed number stands there.
#[verifier::opaque]
pub open spec fn num_end(s: Seq<SourceChar>, i: int) -> Option<int> {
    let st = if i < s.len() && s[i].chr == '-' {
        i + 1
    } else {
        i
    };
    if st < s.len() && is_digit(s[st].chr) {
        match frac_end(s, digits_end(s, st)) {
            Some(f) => exp_end(s, f),
            None => None,
        }
    } else {
        None
    }
}

/// The number parser succeeds on this input: a well-formed number stands at
/// `i`, and checking the character after it does not run into a decode
/// failure of the source.
#[verifier::opaque]
pub open spec fn num_ok(s: Seq<SourceChar>, i: int, fail: bool) -> bool {
    match num_end(s, i) {
        Some(j) => j < s.len() || !fail,
        None => false,
    }
}

/// One escape code of the string grammar.
pub open spec fn is_esc(c: char) -> bool {
    c == '"' || c == '\\' || c == '/' || c == 'b' || c == 'f' || c == 'n' || c == 'r' || c == 't'
}

/// The character an escape code stands for.
pub open spec fn unesc(c: char) -> char {
    if c == 'b' {
        '\u{0008}'
    } else if c == 'f' {
        '\u{000C}'
    } else if c == 'n' {
        '\n'
    } else if c == 'r' {
        '\r'
    } else if c == 't' {
        '\t'
    } else {
        c
    }
}

/// The index of the closing quote of a string body beginning at `i` (just
/// after the opening quote), or `None` if the body is malformed or unclosed.
pub open spec fn str_body_end(s: Seq<SourceChar>, i: int) -> Option<int>
    decreases s.len() - i,
{
    if i < 0 || i >= s.len() {
        None
    } else if s[i].chr == '"' {
        Some(i)
    } else if s[i].chr == '\\' {
        if i + 1 < s.len() && is_esc(s[i + 1].chr) {
            str_body_end(s, i + 2)
        } else {
            None
        }
    } else {
        str_body_end(s, i + 1)
    }
}

/// The decoded text of a well-formed string body beginning at `i`.
pub open spec fn str_val(s: Seq<SourceChar>, i: int) -> Seq<char>
    decreases s.len() - i,
{
    if i < 0 || i >= s.len() || s[i].chr == '"' {
        Seq::empty()
    } else if s[i].chr == '\\' {
        if i + 1 < s.len() {
            seq![unesc(s[i + 1].chr)] + str_val(s, i + 2)
        } else {
            Seq::empty()
        }
    } else {
        seq![s[i].chr] + str_val(s, i + 1)
    }
}

/// The index of the first offending character when no `null` literal stands
/// at `i`.
#[verifier::opaque]
pub open spec fn null_err_at(s: Seq<SourceChar>, i: int) -> int {
    if !(i < s.len() && s[i].chr == 'n') {
        i
    } else if !(i + 1 < s.len() && s[i + 1].chr == 'u') {
        i + 1
    } else if !(i + 2 < s.len() && s[i + 2].chr == 'l') {
        i + 2
    } else {
        i + 3
    }
}

/// The index of the first offending character when neither `true` nor
/// `false` stands at `i`.
#[verifier::opaque]
pub open spec fn bool_err_at(s: Seq<SourceChar>, i: int) -> int {
    if i < s.len() && s[i].chr == 't' {
        if !(i + 1 < s.len() && s[i + 1].chr == 'r') {
            i + 1
        } else if !(i + 2 < s.len() && s[i + 2].chr == 'u') {
            i + 2
        } else {
            i + 3
        }
    } else if i < s.len() && s[i].chr == 'f' {
        if !(i + 1 < s.len() && s[i + 1].chr == 'a') {
            i + 1
        } else if !(i + 2 < s.len() && s[i + 2].chr == 'l') {
            i + 2
        } else if !(i + 3 < s.len() && s[i + 3].chr == 's') {
            i + 3
        } else {
            i + 4
        }
    } else {
        i
    }
}

/// Where a failing fraction part beginning at `i` offends: at the character
/// after the dot when it is no digit, else only at a decode failure of the
/// source at the end of the input.
#[verifier::opaque]
pub open spec fn frac_err_at(s: Seq<SourceChar>, i: int) -> int {
    if i < s.len() && s[i].chr == '.' {
        if !(i + 1 < s.len() && is_digit(s[i + 1].chr)) {
            i + 1
        } else {
            s.len() as int
        }
    } else {
        s.len() as int
    }
}

/// Where a failing exponent part beginning at `i` offends.
#[verifier::opaque]
pub open spec fn exp_err_at(s: Seq<SourceChar>, i: int) -> int {
    if i < s.len() && (s[i].chr == 'e' || s[i].chr == 'E') {
        let y = if i + 1 < s.len() && (s[i + 1].chr == '+' || s[i + 1].chr == '-') {
            i + 2
        } else {
            i + 1
        };
        if !(y < s.len() && is_digit(s[y].chr)) {
            y
        } else {
            s.len() as int
        }
    } else {
        s.len() as int
    }
}

/// Where a failing numeric literal beginning at `i` offends.
#[verifier::opaque]
pub open spec fn num_err_at(s: Seq<SourceChar>, i: int) -> int {
    let st = if i < s.len() && s[i].chr == '-' {
        i + 1
    } else {
        i
    };
    if !(st < s.len() && is_digit(s[st].chr)) {
        st
    } else {
        let d = digits_end(s, st);
        match frac_end(s, d) {
            None => frac_err_at(s, d),
            Some(f) => match exp_end(s, f) {
                None => exp_err_at(s, f),
                Some(_) => s.len() as int,
            },
        }
    }
}

/// Where a failing string body beginning at `i` (just after the opening
/// quote) offends: at a bad escape code, else at the input's unterminated
/// end.
pub open spec fn str_body_err(s: Seq<SourceChar>, i: int) -> int
    decreases s.len() - i,
{
    if i < 0 || i >= s.len() {
        s.len() as int
    } else if s[i].chr == '"' {
        s.len() as int
    } else if s[i].chr == '\\' {
        if i + 1 < s.len() && is_esc(s[i + 1].chr) {
            str_body_err(s, i + 2)
        } else if i + 1 < s.len() {
            i + 1
        } else {
            s.len() as int
        }
    } else {
        str_body_err(s, i + 1)
    }
}

/// Where a failing string literal beginning at `i` offends.
#[verifier::opaque]
pub open spec fn str_err_at(s: Seq<SourceChar>, i: int) -> int {
    if !(i < s.len() && s[i].chr == '"') {
        i
    } else {
        str_body_err(s, i + 1)
    }
}

/// The escaped rendering of one character, as a serializer of this string
/// grammar writes it.
pub open spec fn esc_char(ch: char) -> Seq<char> {
    if ch == '"' {
        seq!['\\', '"']
    } else if ch == '\\' {
        seq!['\\', '\\']
    } else if ch == '\n' {
        seq!['\\', 'n']
    } else if ch == '\r' {
        seq!['\\', 'r']
    } else if ch == '\t' {
        seq!['\\', 't']
    } else if ch == '\u{0008}' {
        seq!['\\', 'b']
    } else if ch == '\u{000C}' {
        seq!['\\', 'f']
    } else {
        seq![ch]
    }
}

/// The escaped rendering of a text.
pub open spec fn esc_text(t: Seq<char>) -> Seq<char>
    decreases t.len(),
{
    if t.len() == 0 {
        Seq::empty()
    } else {
        esc_char(t[0]) + esc_text(t.drop_first())
    }
}

/// Law: the string grammar inverts its own escaping. Wherever the source,
/// from index `i`, spells the escaped rendering of a text `t` followed by a
/// closing quote, the string body ends exactly at that quote and decodes to
/// `t` itself. With `parse_string`'s contract this gives the round trip for
/// text values: parsing a serialized text yields an equal text.
pub proof fn lemma_string_round_trip(s: Seq<SourceChar>, i: int, t: Seq<char>)
    requires
        0 <= i,
        i + esc_text(t).len() < s.len(),
        forall|k: int| 0 <= k < esc_text(t).len() ==> s[i + k].chr == #[trigger] esc_text(t)[k],
        s[i + esc_text(t).len()].chr == '"',
    ensures
        str_body_end(s, i) == Some(i + esc_text(t).len() as int),
        str_val(s, i) == t,
    decreases t.len(),
{
    if t.len() == 0 {
        assert(s[i].chr == '"');
        assert(str_val(s, i) =~= t);
    } else {
        let ch = t[0];
        let e = esc_char(ch);
        let rest = t.drop_first();
        assert(esc_text(t) == e + esc_text(rest));
        assert(esc_text(t).len() == e.len() + esc_text(rest).len());
        assert forall|k: int| 0 <= k < esc_text(rest).len() implies s[i + e.len() + k].chr
            == #[trigger] esc_text(rest)[k] by {
            assert(esc_text(t)[e.len() + k] == esc_text(rest)[k]);
            assert(s[i + (e.len() + k)].chr == esc_text(t)[e.len() + k]);
        }
        lemma_string_round_trip(s, i + e.len(), rest);
        assert(esc_text(t)[0] == e[0]);
        assert(s[i + 0].chr == esc_text(t)[0]);
        if e.len() == 2 {
            assert(esc_text(t)[1] == e[1]);
            assert(s[i + 1].chr == esc_text(t)[1]);
            assert(s[i].chr == e[0] && s[i + 1].chr == e[1]);
            assert(e[0] == '\\');
            assert(is_esc(e[1]));
            assert(unesc(e[1]) == ch);
            assert(str_body_end(s, i) == str_body_end(s, i + 2));
            assert(str_val(s, i) == seq![ch] + str_val(s, i + 2));
            assert(str_val(s, i) =~= t);
        } else {
            assert(s[i].chr == e[0]);
            assert(e[0] == ch);
            assert(ch != '"' && ch != '\\');
            assert(str_body_end(s, i) == str_body_end(s, i + 1));
            assert(str_val(s, i) == seq![ch] + str_val(s, i + 1));
            assert(str_val(s, i) =~= t);
        }
    }
}

/// A string literal stands at index `i`.
#[verifier::opaque]
pub open spec fn str_at(s: Seq<SourceChar>, i: int) -> bool {
    i < s.len() && s[i].chr == '"' && str_body_end(s, i + 1) is Some
}

pub proof fn lemma_text_range_concat(s: Seq<SourceChar>, i: int, j: int, k: int)
    requires
        i <= j <= k,
    ensures
        text_range(s, i, k) == text_range(s, i, j) + text_range(s, j, k),
{
    assert(text_range(s, i, k) =~= text_range(s, i, j) + text_range(s, j, k));
}

pub proof fn lemma_digits_end_ge(s: Seq<SourceChar>, i: int)
    ensures
        digits_end(s, i) >= i,
        i <= s.len() ==> digits_end(s, i) <= s.len(),
    decreases s.len() - i,
{
    if 0 <= i < s.len() && is_digit(s[i].chr) {
        lemma_digits_end_ge(s, i + 1);
    }
}

/// Bounds of a well-formed numeric literal's end.
pub proof fn lemma_num_end_bounds(s: Seq<SourceChar>, i: int)
    requires
        0 <= i,
    ensures
        num_end(s, i) matches Some(k) ==> i < k <= s.len(),
{
    reveal(num_end);
    reveal(frac_end);
    reveal(exp_end);
    let st = if i < s.len() && s[i].chr == '-' {
        i + 1
    } else {
        i
    };
    if st < s.len() && is_digit(s[st].chr) {
        lemma_digits_end_ge(s, st + 1);
        let d = digits_end(s, st);
        lemma_digits_end_ge(s, d + 2);
        match frac_end(s, d) {
            Some(f) => {
                if f < s.len() && (s[f].chr == 'e' || s[f].chr == 'E') {
                    lemma_digits_end_ge(s, f + 2);
                    lemma_digits_end_ge(s, f + 3);
                }
            },
            None => {},
        }
    }
}

/// Bounds of a well-formed string body's closing quote.
pub proof fn lemma_str_body_end_bounds(s: Seq<SourceChar>, i: int)
    ensures
        str_body_end(s, i) matches Some(q) ==> i <= q < s.len(),
    decreases s.len() - i,
{
    if 0 <= i < s.len() && s[i].chr != '"' {
        lemma_str_body_end_bounds(s, i + 1);
        if i + 2 <= s.len() {
            lemma_str_body_end_bounds(s, i + 2);
        }
    }
}

/// Relies on `String: FromIterator<&char>`: collecting the characters of a
/// vector yields the string of exactly those characters, in order.
#[verifier::external_body]
fn chars_to_string(v: &Vec<char>) -> (s: String)
    ensures
        s@ == v@,
{
    v.iter().collect()
}

/// Consumes one character that must equal `expected`; any other lookahead,
/// including end of input, is an unexpected-token failure at its position.
fn expect_char(parser: &mut Parser, expected: char) -> (r: Result<(), Error>)
    requires
        old(parser).wf(),
    ensures
        final(parser).wf(),
        final(parser).same_source(*old(parser)),
        final(parser).same_frags(*old(parser)),
        match r {
            Ok(()) => old(parser).index < old(parser).n() && old(parser).chars@[old(
                parser,
            ).index as int].chr == expected && final(parser).index == old(parser).index + 1,
            Err(e) => (old(parser).index < old(parser).n() ==> old(parser).chars@[old(
                parser,
            ).index as int].chr != expected) && final(parser).index == (if old(parser).index
                < old(parser).n() {
                old(parser).index + 1
            } else {
                old(parser).index as int
            }) && e == (if old(parser).index < old(parser).n() {
                Error::Unexpected(
                    old(parser).position,
                    Some(old(parser).chars@[old(parser).index as int].chr),
                )
            } else if old(parser).fail {
                Error::Decode(old(parser).position)
            } else {
                Error::Unexpected(old(parser).position, None)
            }),
        },
{
    match parser.next_char()? {
        (_, Some(c)) if c == expected => Ok(()),
        (p, unexpected) => Err(Error::unexpected(p, unexpected)),
    }
}

/// Parses the literal `null`.
#[verifier::rlimit(60)]
pub fn parse_null(parser: &mut Parser, _context: Context) -> (r: Result<((), usize), Error>)
    requires
        old(parser).wf(),
    ensures
        final(parser).wf(),
        final(parser).same_source(*old(parser)),
        spans_extend(old(parser).spans@, final(parser).spans@),
        r is Ok <==> null_at(old(parser).chars@, old(parser).index as int),
        match r {
            Ok(((), h)) => {
                &&& h == old(parser).spans@.len()
                &&& final(parser).index == old(parser).index + 4
                &&& final(parser).spans@ == old(parser).spans@.push(
                    Span { start: old(parser).position, end: Some(final(parser).position) },
                )
                &&& final(parser).open@ == old(parser).open@
            },
            Err(e) => {
                &&& e == char_err(
                    old(parser).chars@,
                    null_err_at(old(parser).chars@, old(parser).index as int),
                    old(parser).fail,
                )
                &&& old(parser).index <= final(parser).index
                &&& final(parser).index == (if null_err_at(
                    old(parser).chars@,
                    old(parser).index as int,
                ) < old(parser).chars@.len() {
                    null_err_at(old(parser).chars@, old(parser).index as int) + 1
                } else {
                    old(parser).chars@.len() as int
                })
                &&& final(parser).spans@ == old(parser).spans@.push(
                    Span { start: old(parser).position, end: None },
                )
                &&& final(parser).open@ == old(parser).open@.push(
                    old(parser).spans@.len() as usize,
                )
            },
        },
{
    proof {
        reveal(null_err_at);
    }
    let h = parser.begin_fragment();
    expect_char(parser, 'n')?;
    expect_char(parser, 'u')?;
    expect_char(parser, 'l')?;
    expect_char(parser, 'l')?;
    parser.end_fragment(h);
    proof {
        assert(final(parser).spans@ =~= old(parser).spans@.push(
            Span { start: old(parser).position, end: Some(final(parser).position) },
        ));
        assert(final(parser).open@ =~= old(parser).open@);
    }
    Ok(((), h))
}

/// Parses the literal `true` or `false`.
#[verifier::rlimit(100)]
pub fn parse_bool(parser: &mut Parser, _context: Context) -> (r: Result<(bool, usize), Error>)
    requires
        old(parser).wf(),
    ensures
        final(parser).wf(),
        final(parser).same_source(*old(parser)),
        spans_extend(old(parser).spans@, final(parser).spans@),
        r is Ok <==> true_at(old(parser).chars@, old(parser).index as int) || false_at(
            old(parser).chars@,
            old(parser).index as int,
        ),
        match r {
            Ok((b, h)) => {
                &&& b == true_at(old(parser).chars@, old(parser).index as int)
                &&& h == old(parser).spans@.len()
                &&& final(parser).index == old(parser).index + (if b {
                    4int
                } else {
                    5int
                })
                &&& final(parser).spans@ == old(parser).spans@.push(
                    Span { start: old(parser).position, end: Some(final(parser).position) },
                )
                &&& final(parser).open@ == old(parser).open@
            },
            Err(e) => {
                &&& e == char_err(
                    old(parser).chars@,
                    bool_err_at(old(parser).chars@, old(parser).index as int),
                    old(parser).fail,
                )
                &&& old(parser).index <= final(parser).index
                &&& final(parser).index == (if bool_err_at(
                    old(parser).chars@,
                    old(parser).index as int,
                ) == old(parser).index as int {
                    old(parser).index as int
                } else if bool_err_at(old(parser).chars@, old(parser).index as int) < old(
                    parser,
                ).chars@.len() {
                    bool_err_at(old(parser).chars@, old(parser).index as int) + 1
                } else {
                    old(parser).chars@.len() as int
                })
                &&& final(parser).spans@ == old(parser).spans@.push(
                    Span { start: old(parser).position, end: None },
                )
                &&& final(parser).open@ == old(parser).open@.push(
                    old(parser).spans@.len() as usize,
                )
            },
        },
{
    proof {
        reveal(bool_err_at);
    }
    let h = parser.begin_fragment();
    let b = match parser.peek_char()? {
        Some('t') => {
            expect_char(parser, 't')?;
            expect_char(parser, 'r')?;
            expect_char(parser, 'u')?;
            expect_char(parser, 'e')?;
            true
        },
        Some('f') => {
            expect_char(parser, 'f')?;
            expect_char(parser, 'a')?;
            expect_char(parser, 'l')?;
            expect_char(parser, 's')?;
            expect_char(parser, 'e')?;
            false
        },
        unexpected => {
            return Err(Error::unexpected(parser.position, unexpected));
        },
    };
    parser.end_fragment(h);
    proof {
        assert(final(parser).spans@ =~= old(parser).spans@.push(
            Span { start: old(parser).position, end: Some(final(parser).position) },
        ));
        assert(final(parser).open@ =~= old(parser).open@);
    }
    Ok((b, h))
}

/// Consumes the maximal run of digits at the cursor, appending them to `buf`.
/// Fails only if the run ends at a decode failure of the source.
fn scan_digits(parser: &mut Parser, buf: &mut Vec<char>) -> (r: Result<(), Error>)
    requires
        old(parser).wf(),
    ensures
        final(parser).wf(),
        final(parser).same_source(*old(parser)),
        final(parser).same_frags(*old(parser)),
        old(parser).index <= final(parser).index,
        final(parser).index == digits_end(old(parser).chars@, old(parser).index as int),
        final(buf)@ == old(buf)@ + text_range(
            old(parser).chars@,
            old(parser).index as int,
            final(parser).index as int,
        ),
        match r {
            Ok(()) => final(parser).index < final(parser).n() || !final(parser).fail,
            Err(e) => final(parser).index == final(parser).n() && final(parser).fail && e
                == Error::Decode(final(parser).position),
        },
{
    loop
        invariant
            parser.wf(),
            parser.same_source(*old(parser)),
            parser.same_frags(*old(parser)),
            old(parser).index <= parser.index,
            digits_end(parser.chars@, old(parser).index as int) == digits_end(
                parser.chars@,
                parser.index as int,
            ),
            buf@ == old(buf)@ + text_range(
                parser.chars@,
                old(parser).index as int,
                parser.index as int,
            ),
        decreases parser.n() - parser.index,
    {
        let ghost pre_i = parser.index as int;
        match parser.peek_char() {
            Ok(Some(c)) => {
                if '0' <= c && c <= '9' {
                    let x = parser.next_char();
                    proof {
                        assert(x is Ok);
                    }
                    buf.push(c);
                    proof {
                        assert(text_range(
                            parser.chars@,
                            old(parser).index as int,
                            pre_i + 1,
                        ) =~= text_range(parser.chars@, old(parser).index as int, pre_i).push(c));
                    }
                } else {
                    return Ok(());
                }
            },
            Ok(None) => {
                return Ok(());
            },
            Err(e) => {
                return Err(e);
            },
        }
    }
}

/// Parses a numeric literal, keeping its source text.
/// Consumes the optional fraction part (`.` and one or more digits),
/// appending it to `buf`.
fn parse_frac_opt(parser: &mut Parser, buf: &mut Vec<char>) -> (r: Result<(), Error>)
    requires
        old(parser).wf(),
    ensures
        final(parser).wf(),
        final(parser).same_source(*old(parser)),
        final(parser).same_frags(*old(parser)),
        old(parser).index <= final(parser).index,
        final(buf)@ == old(buf)@ + text_range(
            old(parser).chars@,
            old(parser).index as int,
            final(parser).index as int,
        ),
        match r {
            Ok(()) => frac_end(old(parser).chars@, old(parser).index as int) == Some(
                final(parser).index as int,
            ) && (final(parser).index == final(parser).n() ==> !final(parser).fail),
            Err(e) => (frac_end(old(parser).chars@, old(parser).index as int) is None || (frac_end(
                old(parser).chars@,
                old(parser).index as int,
            ) == Some(old(parser).chars@.len() as int) && final(parser).fail)) && final(parser).index == frac_err_at(
                old(parser).chars@,
                old(parser).index as int,
            ) && e == char_err(
                old(parser).chars@,
                frac_err_at(old(parser).chars@, old(parser).index as int),
                old(parser).fail,
            ),
        },
{
    proof {
        reveal(frac_end);
        reveal(frac_err_at);
    }
    let ghost c = old(parser).chars@;
    let ghost i0 = old(parser).index as int;
    match parser.peek_char()? {
        Some('.') => {
            let x = parser.next_char();
            proof {
                assert(x is Ok);
            }
            buf.push('.');
            proof {
                assert(buf@ =~= old(buf)@ + text_range(c, i0, i0 + 1));
            }
            let p2 = parser.peek_char()?;
            let p2_digit = match p2 {
                Some(d) => '0' <= d && d <= '9',
                None => false,
            };
            if !p2_digit {
                return Err(Error::unexpected(parser.position, p2));
            }
            scan_digits(parser, &mut *buf)?;
            proof {
                assert(buf@ =~= old(buf)@ + text_range(c, i0, parser.index as int)) by {
                    lemma_text_range_concat(c, i0, i0 + 1, parser.index as int);
                }
            }
            Ok(())
        },
        _ => {
            proof {
                assert(buf@ =~= old(buf)@ + text_range(c, i0, i0));
            }
            Ok(())
        },
    }
}

/// Consumes the optional exponent part (`e` or `E`, an optional sign, and
/// one or more digits), appending it to `buf`.
fn parse_exp_opt(parser: &mut Parser, buf: &mut Vec<char>) -> (r: Result<(), Error>)
    requires
        old(parser).wf(),
    ensures
        final(parser).wf(),
        final(parser).same_source(*old(parser)),
        final(parser).same_frags(*old(parser)),
        old(parser).index <= final(parser).index,
        final(buf)@ == old(buf)@ + text_range(
            old(parser).chars@,
            old(parser).index as int,
            final(parser).index as int,
        ),
        match r {
            Ok(()) => exp_end(old(parser).chars@, old(parser).index as int) == Some(
                final(parser).index as int,
            ) && (final(parser).index == final(parser).n() ==> !final(parser).fail),
            Err(e) => (exp_end(old(parser).chars@, old(parser).index as int) is None || (exp_end(
                old(parser).chars@,
                old(parser).index as int,
            ) == Some(old(parser).chars@.len() as int) && final(parser).fail)) && final(parser).index == exp_err_at(
                old(parser).chars@,
                old(parser).index as int,
            ) && e == char_err(
                old(parser).chars@,
                exp_err_at(old(parser).chars@, old(parser).index as int),
                old(parser).fail,
            ),
        },
{
    proof {
        reveal(exp_end);
        reveal(exp_err_at);
    }
    let ghost c = old(parser).chars@;
    let ghost i0 = old(parser).index as int;
    let pe = parser.peek_char()?;
    let is_exp = match pe {
        Some(ec) => ec == 'e' || ec == 'E',
        None => false,
    };
    if !is_exp {
        proof {
            assert(buf@ =~= old(buf)@ + text_range(c, i0, i0));
        }
        return Ok(());
    }
    let x = parser.next_char();
    let ec = match x {
        Ok((_, Some(ch))) => ch,
        _ => {
            proof {
                assert(false);
            }
            return Err(Error::unexpected(parser.position, None));
        },
    };
    buf.push(ec);
    match parser.peek_char()? {
        Some(sg) => {
            if sg == '+' || sg == '-' {
                let y = parser.next_char();
                proof {
                    assert(y is Ok);
                }
                buf.push(sg);
            }
        },
        None => {},
    }
    let ghost y_end = parser.index as int;
    proof {
        assert(buf@ =~= old(buf)@ + text_range(c, i0, y_end));
    }
    let p3 = parser.peek_char()?;
    let p3_digit = match p3 {
        Some(d) => '0' <= d && d <= '9',
        None => false,
    };
    if !p3_digit {
        return Err(Error::unexpected(parser.position, p3));
    }
    scan_digits(parser, &mut *buf)?;
    proof {
        assert(buf@ =~= old(buf)@ + text_range(c, i0, parser.index as int)) by {
            lemma_text_range_concat(c, i0, y_end, parser.index as int);
        }
        assert(exp_end(c, i0) == Some(parser.index as int));
    }
    Ok(())
}

/// Parses a numeric literal, keeping its source text.
#[verifier::rlimit(100)]
pub fn parse_number(parser: &mut Parser, _context: Context) -> (r: Result<(NumberBuf, usize), Error>)
    requires
        old(parser).wf(),
    ensures
        final(parser).wf(),
        final(parser).same_source(*old(parser)),
        spans_extend(old(parser).spans@, final(parser).spans@),
        r is Ok <==> num_ok(old(parser).chars@, old(parser).index as int, old(parser).fail),
        match r {
            Ok((num, h)) => {
                &&& final(parser).index > old(parser).index
                &&& num_end(old(parser).chars@, old(parser).index as int) == Some(
                    final(parser).index as int,
                )
                &&& num.0@ == text_range(
                    old(parser).chars@,
                    old(parser).index as int,
                    final(parser).index as int,
                )
                &&& h == old(parser).spans@.len()
                &&& final(parser).spans@ == old(parser).spans@.push(
                    Span { start: old(parser).position, end: Some(final(parser).position) },
                )
                &&& final(parser).open@ == old(parser).open@
            },
            Err(e) => {
                &&& e == char_err(
                    old(parser).chars@,
                    num_err_at(old(parser).chars@, old(parser).index as int),
                    old(parser).fail,
                )
                &&& old(parser).index <= final(parser).index
                &&& final(parser).index == num_err_at(
                    old(parser).chars@,
                    old(parser).index as int,
                )
                &&& final(parser).spans@ == old(parser).spans@.push(
                    Span { start: old(parser).position, end: None },
                )
                &&& final(parser).open@ == old(parser).open@.push(
                    old(parser).spans@.len() as usize,
                )
            },
        },
{
    proof {
        reveal(frac_end);
        reveal(exp_end);
        reveal(num_end);
        reveal(num_ok);
        reveal(frac_err_at);
        reveal(exp_err_at);
        reveal(num_err_at);
    }
    let ghost c = old(parser).chars@;
    let ghost i0 = old(parser).index as int;
    let h = parser.begin_fragment();
    let mut buf: Vec<char> = Vec::new();
    // optional minus sign
    match parser.peek_char()? {
        Some('-') => {
            let x = parser.next_char();
            proof {
                assert(x is Ok);
            }
            buf.push('-');
        },
        _ => {},
    }
    let ghost st = parser.index as int;
    proof {
        assert(buf@ =~= text_range(c, i0, st));
    }
    // the integer part needs at least one digit
    let p1 = parser.peek_char()?;
    let p1_digit = match p1 {
        Some(d) => '0' <= d && d <= '9',
        None => false,
    };
    if !p1_digit {
        return Err(Error::unexpected(parser.position, p1));
    }
    scan_digits(parser, &mut buf)?;
    let ghost d_end = parser.index as int;
    proof {
        lemma_digits_end_ge(c, st + 1);
        assert(d_end >= st + 1);
        lemma_text_range_concat(c, i0, st, d_end);
        assert(buf@ == text_range(c, i0, d_end));
    }
    parse_frac_opt(parser, &mut buf)?;
    let ghost f_end = parser.index as int;
    proof {
        lemma_text_range_concat(c, i0, d_end, f_end);
        assert(buf@ == text_range(c, i0, f_end));
    }
    parse_exp_opt(parser, &mut buf)?;
    proof {
        lemma_text_range_concat(c, i0, f_end, parser.index as int);
        assert(buf@ == text_range(c, i0, parser.index as int));
        assert(num_end(c, i0) == Some(parser.index as int));
    }
    parser.end_fragment(h);
    let text = chars_to_string(&buf);
    proof {
        assert(final(parser).spans@ =~= old(parser).spans@.push(
            Span { start: old(parser).position, end: Some(final(parser).position) },
        ));
        assert(final(parser).open@ =~= old(parser).open@);
    }
    Ok((NumberBuf(text), h))
}

fn unescape_char(e: char) -> (r: Option<char>)
    ensures
        r is Some <==> is_esc(e),
        r is Some ==> r->0 == unesc(e),
{
    match e {
        '"' => Some('"'),
        '\\' => Some('\\'),
        '/' => Some('/'),
        'b' => Some('\u{0008}'),
        'f' => Some('\u{000C}'),
        'n' => Some('\n'),
        'r' => Some('\r'),
        't' => Some('\t'),
        _ => None,
    }
}

/// Parses a string literal, yielding its decoded text.
#[verifier::rlimit(60)]
pub fn parse_string(parser: &mut Parser, _context: Context) -> (r: Result<(String, usize), Error>)
    requires
        old(parser).wf(),
    ensures
        final(parser).wf(),
        final(parser).same_source(*old(parser)),
        spans_extend(old(parser).spans@, final(parser).spans@),
        r is Ok <==> str_at(old(parser).chars@, old(parser).index as int),
        match r {
            Ok((t, h)) => {
                &&& final(parser).index >= old(parser).index + 2
                &&& str_body_end(old(parser).chars@, old(parser).index + 1) == Some(
                    final(parser).index - 1,
                )
                &&& t@ == str_val(old(parser).chars@, old(parser).index + 1)
                &&& h == old(parser).spans@.len()
                &&& final(parser).spans@ == old(parser).spans@.push(
                    Span { start: old(parser).position, end: Some(final(parser).position) },
                )
                &&& final(parser).open@ == old(parser).open@
            },
            Err(e) => {
                &&& e == char_err(
                    old(parser).chars@,
                    str_err_at(old(parser).chars@, old(parser).index as int),
                    old(parser).fail,
                )
                &&& old(parser).index <= final(parser).index
                &&& final(parser).index == (if str_err_at(
                    old(parser).chars@,
                    old(parser).index as int,
                ) < old(parser).chars@.len() {
                    str_err_at(old(parser).chars@, old(parser).index as int) + 1
                } else {
                    old(parser).chars@.len() as int
                })
                &&& final(parser).spans@ == old(parser).spans@.push(
                    Span { start: old(parser).position, end: None },
                )
                &&& final(parser).open@ == old(parser).open@.push(
                    old(parser).spans@.len() as usize,
                )
            },
        },
{
    proof {
        reveal(str_at);
        reveal(str_err_at);
    }
    let ghost c = old(parser).chars@;
    let ghost i0 = old(parser).index as int;
    let h = parser.begin_fragment();
    expect_char(parser, '"')?;
    let mut buf: Vec<char> = Vec::new();
    loop
        invariant
            parser.wf(),
            parser.same_source(*old(parser)),
            parser.chars@ == c,
            i0 == old(parser).index as int,
            i0 + 1 <= parser.index <= parser.n(),
            i0 < c.len() && c[i0].chr == '"',
            h == old(parser).spans@.len(),
            parser.spans@ == old(parser).spans@.push(
                Span { start: old(parser).position, end: None },
            ),
            parser.open@ == old(parser).open@.push(h),
            str_body_end(c, i0 + 1) == str_body_end(c, parser.index as int),
            str_body_err(c, i0 + 1) == str_body_err(c, parser.index as int),
            str_val(c, i0 + 1) == buf@ + str_val(c, parser.index as int),
        decreases parser.n() - parser.index,
    {
        proof {
            reveal(str_at);
            reveal(str_err_at);
        }
        let ghost k = parser.index as int;
        match parser.next_char()? {
            (_, Some(ch)) => {
                if ch == '"' {
                    parser.end_fragment(h);
                    let text = chars_to_string(&buf);
                    proof {
                        assert(str_body_end(c, i0 + 1) == Some(k));
                        assert(str_val(c, k) =~= Seq::<char>::empty());
                        assert(buf@ =~= str_val(c, i0 + 1));
                        assert(final(parser).spans@ =~= old(parser).spans@.push(
                            Span { start: old(parser).position, end: Some(final(parser).position) },
                        ));
                        assert(final(parser).open@ =~= old(parser).open@);
                    }
                    return Ok((text, h));
                } else if ch == '\\' {
                    match parser.next_char()? {
                        (p2, Some(esc)) => {
                            match unescape_char(esc) {
                                Some(decoded) => {
                                    buf.push(decoded);
                                    proof {
                                        assert(str_val(c, k) =~= seq![unesc(esc)] + str_val(
                                            c,
                                            k + 2,
                                        ));
                                        assert(str_val(c, i0 + 1) =~= buf@ + str_val(c, k + 2));
                                    }
                                },
                                None => {
                                    proof {
                                        assert(c[k].chr == '\\' && k + 1 < c.len() && !is_esc(
                                            c[k + 1].chr,
                                        ));
                                        assert(str_body_end(c, k) is None);
                                    }
                                    return Err(Error::unexpected(p2, Some(esc)));
                                },
                            }
                        },
                        (p2, None) => {
                            proof {
                                assert(c[k].chr == '\\' && k + 1 == c.len());
                                assert(str_body_end(c, k) is None);
                            }
                            return Err(Error::unexpected(p2, None));
                        },
                    }
                } else {
                    buf.push(ch);
                    proof {
                        assert(str_val(c, k) =~= seq![ch] + str_val(c, k + 1));
                        assert(str_val(c, i0 + 1) =~= buf@ + str_val(c, k + 1));
                    }
                }
            },
            (p, None) => {
                proof {
                    assert(k == c.len());
                    assert(str_body_end(c, k) is None);
                }
                return Err(Error::unexpected(p, None));
            },
        }
    }
}

} // verus!
