//! The parsing state machine: the unified next-parse-step abstraction tying
//! scalar and composite parsing together, and the top-level value assembler,
//! which walks arbitrarily deep nested structures with an explicit,
//! heap-allocated stack instead of native call recursion.

use vstd::prelude::*;

pub mod array;
pub mod object;
pub mod scalar;

use crate::cursor::{
    char_err, closed, frags_wf, lemma_start_of_mono, lemma_ws_end_bounds, lemma_ws_end_fix,
    on_stack, opens_preserved, spans_extend, start_of, ws_end, Error, Parser, SourceChar, Span,
};
use crate::parse::array::array_start_ok;
use crate::parse::object::{object_start_err_at, object_start_ok};
use crate::parse::scalar::{
    bool_err_at, false_at, is_digit, null_at, null_err_at, num_end, num_err_at, num_ok, parse_bool,
    parse_null, parse_number, parse_string, str_at, str_body_end, str_err_at, str_val, text_range,
    true_at,
};
use crate::value::{Array, Object, Value};

verus! {

/// The grammatical role of the value currently being parsed: the root value,
/// an array element, an object key, or an object value. Diagnostic only: the
/// grammar for a value is identical in all four roles.
#[derive(Clone, Copy, Debug, PartialEq, Eq)]
pub enum Context {
    Root,
    Array,
    ObjectKey,
    ObjectValue,
}

/// One parse step succeeds on this input: after whitespace a value begins,
/// and the production chosen by its first character is well formed.
#[verifier::opaque]
pub open spec fn step_ok(s: Seq<SourceChar>, i: int, fail: bool) -> bool {
    let j = ws_end(s, i);
    &&& j < s.len()
    &&& {
        let ch = s[j].chr;
        if ch == 'n' {
            null_at(s, j)
        } else if ch == 't' || ch == 'f' {
            true_at(s, j) || false_at(s, j)
        } else if ch == '-' || is_digit(ch) {
            num_ok(s, j, fail)
        } else if ch == '"' {
            str_at(s, j)
        } else if ch == '[' {
            array_start_ok(s, j, fail)
        } else if ch == '{' {
            object_start_ok(s, j, fail)
        } else {
            false
        }
    }
}

/// Where a failing parse step offends: at a character that begins no value,
/// at the first wrong character inside the chosen production, or at the end
/// of the input.
#[verifier::opaque]
pub open spec fn step_err_at(s: Seq<SourceChar>, i: int) -> int {
    let j = ws_end(s, i);
    if j >= s.len() {
        s.len() as int
    } else {
        let ch = s[j].chr;
        if ch == 'n' {
            null_err_at(s, j)
        } else if ch == 't' || ch == 'f' {
            bool_err_at(s, j)
        } else if ch == '-' || is_digit(ch) {
            num_err_at(s, j)
        } else if ch == '"' {
            str_err_at(s, j)
        } else if ch == '[' {
            s.len() as int
        } else if ch == '{' {
            object_start_err_at(s, j)
        } else {
            j
        }
    }
}

/// The index just after the whole value beginning exactly at `i`, by this
/// parser's grammar, or `None` where no well-formed value stands there. The
/// range guards never bite (see the bounds lemmas); they make the recursion
/// visibly well founded.
#[verifier::opaque]
pub open spec fn value_end(s: Seq<SourceChar>, i: int) -> Option<int>
    decreases s.len() - i, 0int,
{
    if i < 0 || i >= s.len() {
        None
    } else {
        let ch = s[i].chr;
        if ch == 'n' {
            if null_at(s, i) {
                Some(i + 4)
            } else {
                None
            }
        } else if ch == 't' {
            if true_at(s, i) {
                Some(i + 4)
            } else {
                None
            }
        } else if ch == 'f' {
            if false_at(s, i) {
                Some(i + 5)
            } else {
                None
            }
        } else if ch == '-' || is_digit(ch) {
            num_end(s, i)
        } else if ch == '"' {
            match str_body_end(s, i + 1) {
                Some(q) => Some(q + 1),
                None => None,
            }
        } else if ch == '[' {
            let j = ws_end(s, i + 1);
            if !(i < j && j <= s.len()) {
                None
            } else if j < s.len() && s[j].chr == ']' {
                Some(j + 1)
            } else {
                elems_end(s, j)
            }
        } else if ch == '{' {
            let j = ws_end(s, i + 1);
            if !(i < j && j <= s.len()) {
                None
            } else if j < s.len() && s[j].chr == '}' {
                Some(j + 1)
            } else {
                entries_end(s, j)
            }
        } else {
            None
        }
    }
}

/// An array element begins exactly at `i`; where the enclosing array ends.
#[verifier::opaque]
pub open spec fn elems_end(s: Seq<SourceChar>, i: int) -> Option<int>
    decreases s.len() - i, 1int,
{
    if i < 0 || i >= s.len() {
        None
    } else {
        match value_end(s, i) {
            Some(k) => if i < k && k <= s.len() {
                after_elem(s, k)
            } else {
                None
            },
            None => None,
        }
    }
}

/// An array element ended at `k`; where the enclosing array ends.
#[verifier::opaque]
pub open spec fn after_elem(s: Seq<SourceChar>, k: int) -> Option<int>
    decreases s.len() - k, 0int,
{
    let j = ws_end(s, k);
    if k < 0 || j < k || j > s.len() {
        None
    } else if j < s.len() && s[j].chr == ']' {
        Some(j + 1)
    } else if j < s.len() && s[j].chr == ',' {
        let m = ws_end(s, j + 1);
        if k < m && m <= s.len() {
            elems_end(s, m)
        } else {
            None
        }
    } else {
        None
    }
}

/// An object entry's value begins after whitespace at `i`; where the
/// enclosing object ends.
#[verifier::opaque]
pub open spec fn entry_rest(s: Seq<SourceChar>, i: int) -> Option<int>
    decreases s.len() - i, 1int,
{
    if i < 0 || i > s.len() {
        None
    } else {
        let m2 = ws_end(s, i);
        if !(i <= m2 && m2 <= s.len()) {
            None
        } else {
            match value_end(s, m2) {
                Some(k) => if m2 < k && k <= s.len() {
                    after_entry(s, k)
                } else {
                    None
                },
                None => None,
            }
        }
    }
}

/// An object entry's key begins exactly at `j`; where the enclosing object
/// ends.
#[verifier::opaque]
pub open spec fn entries_end(s: Seq<SourceChar>, j: int) -> Option<int>
    decreases s.len() - j, 2int,
{
    if j < 0 || j >= s.len() || !str_at(s, j) {
        None
    } else {
        let q = str_body_end(s, j + 1)->0;
        let m = ws_end(s, q + 1);
        if !(j < q + 1 && q + 1 <= m && m <= s.len()) {
            None
        } else if m < s.len() && s[m].chr == ':' {
            if j < m + 1 {
                entry_rest(s, m + 1)
            } else {
                None
            }
        } else {
            None
        }
    }
}

/// An object entry ended at `k`; where the enclosing object ends.
#[verifier::opaque]
pub open spec fn after_entry(s: Seq<SourceChar>, k: int) -> Option<int>
    decreases s.len() - k, 0int,
{
    let j = ws_end(s, k);
    if k < 0 || j < k || j > s.len() {
        None
    } else if j < s.len() && s[j].chr == '}' {
        Some(j + 1)
    } else if j < s.len() && s[j].chr == ',' {
        let m = ws_end(s, j + 1);
        if k < m && m <= s.len() {
            entries_end(s, m)
        } else {
            None
        }
    } else {
        None
    }
}

/// The whole parse succeeds on this input: after whitespace exactly one
/// well-formed value stands, followed by whitespace and a clean end of the
/// source.
pub open spec fn doc_ok(s: Seq<SourceChar>, i: int, fail: bool) -> bool {
    match value_end(s, ws_end(s, i)) {
        Some(t) => ws_end(s, t) == s.len() && !fail,
        None => false,
    }
}

/// What one parse step does to the parser, and what it hands back: the full
/// contract of `Fragment::parse_in`, shared by `Fragment::value_or_parse`.
pub open spec fn step_post(pre: Parser, post: Parser, r: Result<(Fragment, usize), Error>) -> bool {
    let c = pre.chars@;
    let i0 = pre.index as int;
    let j = ws_end(c, i0);
    &&& post.wf()
    &&& post.same_source(pre)
    &&& spans_extend(pre.spans@, post.spans@)
    &&& (r is Ok <==> step_ok(c, i0, pre.fail))
    &&& match r {
        Ok((frag, h)) => {
            &&& j < c.len()
            &&& post.index > pre.index
            &&& h == pre.spans@.len()
            &&& (h as int) < post.spans@.len()
            &&& post.spans@[h as int].start == start_of(c, j)
            &&& match frag {
                Fragment::Value(v) => {
                    &&& post.open@ == pre.open@
                    &&& closed(post.spans@[h as int])
                    &&& post.spans@[h as int].end == Some(post.position)
                    &&& (c[j].chr == 'n' ==> v == Value::Null && post.index == j + 4)
                    &&& (c[j].chr == 't' || c[j].chr == 'f' ==> v == Value::Boolean(true_at(c, j))
                        && post.index == j + (if true_at(c, j) {
                        4int
                    } else {
                        5int
                    }))
                    &&& (c[j].chr == '-' || is_digit(c[j].chr) ==> (v matches Value::Number(num)
                        && num.0@ == text_range(c, j, post.index as int)) && num_end(c, j) == Some(
                        post.index as int,
                    ))
                    &&& (c[j].chr == '"' ==> (v matches Value::Text(t) && t@ == str_val(c, j + 1))
                        && str_body_end(c, j + 1) == Some(post.index - 1))
                    &&& (c[j].chr == '[' ==> (v matches Value::Array(a) && a@ == Seq::<
                        Value,
                    >::empty()) && {
                        let j2 = ws_end(c, j + 1);
                        j2 < c.len() && c[j2].chr == ']' && post.index == j2 + 1
                    })
                    &&& (c[j].chr == '{' ==> (v matches Value::Object(o) && o.entries@ == Seq::<
                        (String, Value),
                    >::empty()) && {
                        let j2 = ws_end(c, j + 1);
                        j2 < c.len() && c[j2].chr == '}' && post.index == j2 + 1
                    })
                },
                Fragment::BeginArray => {
                    &&& c[j].chr == '['
                    &&& post.open@ == pre.open@.push(h)
                    &&& post.spans@ == pre.spans@.push(
                        Span { start: start_of(c, j) as usize, end: None },
                    )
                    &&& post.index == ws_end(c, j + 1)
                    &&& !(post.index < c.len() && c[post.index as int].chr == ']')
                },
                Fragment::BeginObject((key, e)) => {
                    &&& c[j].chr == '{'
                    &&& post.open@ == pre.open@.push(h).push(e)
                    &&& (e as int) < post.spans@.len()
                    &&& !closed(post.spans@[h as int])
                    &&& !closed(post.spans@[e as int])
                    &&& e == pre.spans@.len() + 1
                    &&& post.spans@.len() == pre.spans@.len() + 3
                    &&& {
                        let j2 = ws_end(c, j + 1);
                        let q = str_body_end(c, j2 + 1)->0;
                        let m = ws_end(c, q + 1);
                        &&& str_at(c, j2)
                        &&& key@ == str_val(c, j2 + 1)
                        &&& post.spans@[e as int].start == start_of(c, j2)
                        &&& m < c.len() && c[m].chr == ':'
                        &&& post.index == m + 1
                    }
                },
            }
        },
        Err(err) => {
            &&& err == char_err(c, step_err_at(c, i0), pre.fail)
            &&& opens_preserved(pre, post)
        },
    }
}

/// A value fragment: a finished scalar or empty composite with its span
/// handle, or the signal that a non-empty array or object was just opened
/// and parsing must descend.
#[derive(Debug, PartialEq, Eq)]
pub enum Fragment {
    Value(Value),
    BeginArray,
    BeginObject((String, usize)),
}

impl From<Value> for Fragment {
    /// Wraps a finished value as a fragment.
    fn from(v: Value) -> (r: Self) {
        Fragment::Value(v)
    }
}

impl vstd::std_specs::convert::FromSpecImpl<Value> for Fragment {
    open spec fn obeys_from_spec() -> bool {
        true
    }

    open spec fn from_spec(v: Value) -> Fragment {
        Fragment::Value(v)
    }
}

impl Fragment {
    /// Hands back an already-resolved value, or runs one parse step: the
    /// assembler's resume-after-composite-close helper.
    pub fn value_or_parse(
        value: Option<(Value, usize)>,
        parser: &mut Parser,
        context: Context,
    ) -> (r: Result<(Fragment, usize), Error>)
        requires
            old(parser).wf(),
        ensures
            match value {
                Some((v, m)) => r == Ok::<(Fragment, usize), Error>((Fragment::Value(v), m))
                    && *final(parser) == *old(parser),
                None => step_post(*old(parser), *final(parser), r),
            },
    {
        match value {
            Some((value, meta)) => Ok((Fragment::from(value), meta)),
            None => Self::parse_in(parser, context),
        }
    }

    /// One parse step: skips whitespace, dispatches on the first character,
    /// and yields a finished value or an open-composite signal.
    pub fn parse_in(parser: &mut Parser, context: Context) -> (r: Result<(Fragment, usize), Error>)
        requires
            old(parser).wf(),
        ensures
            step_post(*old(parser), *final(parser), r),
    {
        proof {
            reveal(step_ok);
            reveal(step_err_at);
        }
        parser.skip_whitespaces()?;
        match parser.peek_char()? {
            Some('n') => {
                let (_, m) = parse_null(parser, context)?;
                Ok((Fragment::Value(Value::Null), m))
            },
            Some('t') | Some('f') => {
                let (b, m) = parse_bool(parser, context)?;
                Ok((Fragment::Value(Value::Boolean(b)), m))
            },
            Some('"') => {
                let (t, m) = parse_string(parser, context)?;
                Ok((Fragment::Value(Value::Text(t)), m))
            },
            Some('[') => {
                match array::StartFragment::parse_in(parser, context)? {
                    (array::StartFragment::Empty, span) => {
                        Ok((Fragment::Value(Value::Array(Array::new())), span))
                    },
                    (array::StartFragment::NonEmpty, span) => Ok((Fragment::BeginArray, span)),
                }
            },
            Some('{') => {
                match object::StartFragment::parse_in(parser, context)? {
                    (object::StartFragment::Empty, span) => {
                        Ok((Fragment::Value(Value::Object(Object::new())), span))
                    },
                    (object::StartFragment::NonEmpty(key), span) => {
                        proof {
                            let cc = old(parser).chars@;
                            let j = ws_end(cc, old(parser).index as int);
                            lemma_ws_end_bounds(cc, old(parser).index as int);
                            lemma_ws_end_bounds(cc, j + 1);
                            let j2 = ws_end(cc, j + 1);
                            lemma_start_of_mono(cc, 0, j2);
                            lemma_start_of_mono(cc, j2, cc.len() as int);
                        }
                        Ok((Fragment::BeginObject(key), span))
                    },
                }
            },
            Some(ch) => {
                if ch == '-' || ('0' <= ch && ch <= '9') {
                    let (n, m) = parse_number(parser, context)?;
                    Ok((Fragment::Value(Value::Number(n)), m))
                } else {
                    Err(Error::unexpected(parser.position, Some(ch)))
                }
            },
            None => Err(Error::unexpected(parser.position, None)),
        }
    }
}

/// The span ends at a position from which only whitespace remains: together
/// with a stated start, this pins a root fragment's extent up to trailing
/// whitespace.
#[verifier::opaque]
pub open spec fn span_end_at_ws_tail(s: Seq<SourceChar>, sp: Span) -> bool {
    exists|t: int|
        0 <= t <= s.len() && (#[trigger] ws_end(s, t)) == s.len() as int && sp.end == Some(
            start_of(s, t) as usize,
        )
}

/// The first parse step yields a finished value at once: the root is a
/// scalar, or an immediately empty array or object.
#[verifier::opaque]
pub open spec fn first_step_finishes(s: Seq<SourceChar>, j: int) -> bool {
    if j < s.len() && (s[j].chr == '[' || s[j].chr == '{') {
        let j2 = ws_end(s, j + 1);
        j2 < s.len() && s[j2].chr == (if s[j].chr == '[' {
            ']'
        } else {
            '}'
        })
    } else {
        true
    }
}

/// The index just after a value that one successful parse step finishes.
#[verifier::opaque]
pub open spec fn step_value_end(s: Seq<SourceChar>, j: int) -> int {
    let ch = s[j].chr;
    if ch == 'n' || ch == 't' {
        j + 4
    } else if ch == 'f' {
        j + 5
    } else if ch == '-' || is_digit(ch) {
        num_end(s, j)->0
    } else if ch == '"' {
        str_body_end(s, j + 1)->0 + 1
    } else {
        ws_end(s, j + 1) + 1
    }
}

/// A step that hands back a finished value is one the grammar finishes at
/// once, and it leaves the cursor exactly at that value's end.
proof fn lemma_finished_value(pre: Parser, post: Parser, frag: Fragment, h: usize)
    requires
        step_post(pre, post, Ok::<(Fragment, usize), Error>((frag, h))),
        frag matches Fragment::Value(_),
    ensures
        first_step_finishes(pre.chars@, ws_end(pre.chars@, pre.index as int)),
        post.index == step_value_end(pre.chars@, ws_end(pre.chars@, pre.index as int)),
{
    reveal(step_ok);
    reveal(first_step_finishes);
    reveal(step_value_end);
    reveal(crate::parse::scalar::str_at);
    reveal(crate::parse::scalar::num_ok);
    reveal(crate::parse::scalar::num_end);
}

/// A step that opens a composite is one the grammar does not finish at once.
proof fn lemma_begin_not_finished(pre: Parser, post: Parser, frag: Fragment, h: usize)
    requires
        step_post(pre, post, Ok::<(Fragment, usize), Error>((frag, h))),
        !(frag matches Fragment::Value(_)),
    ensures
        !first_step_finishes(pre.chars@, ws_end(pre.chars@, pre.index as int)),
{
    reveal(step_ok);
    reveal(first_step_finishes);
    reveal(crate::parse::scalar::str_at);
}


pub proof fn lemma_value_end_bounds(s: Seq<SourceChar>, i: int)
    ensures
        value_end(s, i) matches Some(k) ==> i < k <= s.len(),
    decreases s.len() - i, 0int,
{
    reveal_with_fuel(value_end, 2);
    reveal_with_fuel(elems_end, 2);
    reveal_with_fuel(after_elem, 2);
    reveal_with_fuel(entry_rest, 2);
    reveal_with_fuel(entries_end, 2);
    reveal_with_fuel(after_entry, 2);
    if 0 <= i < s.len() {
        let ch = s[i].chr;
        if ch == '-' || is_digit(ch) {
            crate::parse::scalar::lemma_num_end_bounds(s, i);
        } else if ch == '"' {
            crate::parse::scalar::lemma_str_body_end_bounds(s, i + 1);
        } else if ch == '[' {
            let j = ws_end(s, i + 1);
            if i < j <= s.len() && !(j < s.len() && s[j].chr == ']') {
                lemma_elems_end_bounds(s, j);
            }
        } else if ch == '{' {
            let j = ws_end(s, i + 1);
            if i < j <= s.len() && !(j < s.len() && s[j].chr == '}') {
                lemma_entries_end_bounds(s, j);
            }
        }
    }
}

pub proof fn lemma_elems_end_bounds(s: Seq<SourceChar>, i: int)
    ensures
        elems_end(s, i) matches Some(k) ==> i < k <= s.len(),
    decreases s.len() - i, 1int,
{
    reveal_with_fuel(value_end, 2);
    reveal_with_fuel(elems_end, 2);
    reveal_with_fuel(after_elem, 2);
    reveal_with_fuel(entry_rest, 2);
    reveal_with_fuel(entries_end, 2);
    reveal_with_fuel(after_entry, 2);
    if 0 <= i < s.len() {
        lemma_value_end_bounds(s, i);
        match value_end(s, i) {
            Some(k0) => {
                if i < k0 <= s.len() {
                    lemma_after_elem_bounds(s, k0);
                }
            },
            None => {},
        }
    }
}

pub proof fn lemma_after_elem_bounds(s: Seq<SourceChar>, k: int)
    ensures
        after_elem(s, k) is Some ==> k < after_elem(s, k)->0 <= s.len(),
    decreases s.len() - k, 0int,
{
    reveal_with_fuel(after_elem, 2);
    reveal_with_fuel(value_end, 2);
    reveal_with_fuel(elems_end, 2);
    reveal_with_fuel(after_elem, 2);
    reveal_with_fuel(entry_rest, 2);
    reveal_with_fuel(entries_end, 2);
    reveal_with_fuel(after_entry, 2);
    let j = ws_end(s, k);
    if k >= 0 && j >= k && j <= s.len() && j < s.len() && s[j].chr == ',' {
        let m = ws_end(s, j + 1);
        if k < m <= s.len() {
            lemma_elems_end_bounds(s, m);
        }
    }
}

pub proof fn lemma_entry_rest_bounds(s: Seq<SourceChar>, i: int)
    ensures
        entry_rest(s, i) matches Some(k) ==> i < k <= s.len(),
    decreases s.len() - i, 1int,
{
    reveal_with_fuel(value_end, 2);
    reveal_with_fuel(elems_end, 2);
    reveal_with_fuel(after_elem, 2);
    reveal_with_fuel(entry_rest, 2);
    reveal_with_fuel(entries_end, 2);
    reveal_with_fuel(after_entry, 2);
    if 0 <= i <= s.len() {
        let m2 = ws_end(s, i);
        if i <= m2 <= s.len() {
            lemma_value_end_bounds(s, m2);
            match value_end(s, m2) {
                Some(k) => {
                    if m2 < k <= s.len() {
                        lemma_after_entry_bounds(s, k);
                    }
                },
                None => {},
            }
        }
    }
}

pub proof fn lemma_entries_end_bounds(s: Seq<SourceChar>, j: int)
    ensures
        entries_end(s, j) matches Some(k) ==> j < k <= s.len(),
    decreases s.len() - j, 2int,
{
    reveal_with_fuel(value_end, 2);
    reveal_with_fuel(elems_end, 2);
    reveal_with_fuel(after_elem, 2);
    reveal_with_fuel(entry_rest, 2);
    reveal_with_fuel(entries_end, 2);
    reveal_with_fuel(after_entry, 2);
    reveal(crate::parse::scalar::str_at);
    if 0 <= j < s.len() && str_at(s, j) {
        crate::parse::scalar::lemma_str_body_end_bounds(s, j + 1);
        let q = str_body_end(s, j + 1)->0;
        let m = ws_end(s, q + 1);
        if j < q + 1 <= m <= s.len() && m < s.len() && s[m].chr == ':' && j < m + 1 {
            lemma_entry_rest_bounds(s, m + 1);
        }
    }
}

pub proof fn lemma_after_entry_bounds(s: Seq<SourceChar>, k: int)
    ensures
        after_entry(s, k) matches Some(r) ==> k < r <= s.len(),
    decreases s.len() - k, 0int,
{
    reveal_with_fuel(value_end, 2);
    reveal_with_fuel(elems_end, 2);
    reveal_with_fuel(after_elem, 2);
    reveal_with_fuel(entry_rest, 2);
    reveal_with_fuel(entries_end, 2);
    reveal_with_fuel(after_entry, 2);
    let j = ws_end(s, k);
    if k >= 0 && j >= k && j <= s.len() && j < s.len() && s[j].chr == ',' {
        let m = ws_end(s, j + 1);
        if k < m <= s.len() {
            lemma_entries_end_bounds(s, m);
        }
    }
}

/// A step that hands back a finished value parsed exactly one grammar value,
/// ending at the new cursor.
proof fn lemma_step_value_end(pre: Parser, post: Parser, frag: Fragment, h: usize)
    requires
        step_post(pre, post, Ok::<(Fragment, usize), Error>((frag, h))),
        frag matches Fragment::Value(_),
    ensures
        value_end(pre.chars@, ws_end(pre.chars@, pre.index as int)) == Some(post.index as int),
{
    reveal(step_ok);
    reveal_with_fuel(value_end, 2);
    reveal_with_fuel(elems_end, 2);
    reveal_with_fuel(after_elem, 2);
    reveal_with_fuel(entry_rest, 2);
    reveal_with_fuel(entries_end, 2);
    reveal_with_fuel(after_entry, 2);
    let c = pre.chars@;
    let j = ws_end(c, pre.index as int);
    lemma_ws_end_bounds(c, pre.index as int);
    if c[j].chr == '[' || c[j].chr == '{' {
        lemma_ws_end_bounds(c, j + 1);
    }
}

/// A step that opened a non-empty array left the grammar's work at the first
/// element: the value ends where the element chain ends.
proof fn lemma_step_begin_array(pre: Parser, post: Parser, frag: Fragment, h: usize)
    requires
        step_post(pre, post, Ok::<(Fragment, usize), Error>((frag, h))),
        frag == Fragment::BeginArray,
    ensures
        value_end(pre.chars@, ws_end(pre.chars@, pre.index as int)) == elems_end(
            pre.chars@,
            post.index as int,
        ),
{
    reveal(step_ok);
    reveal_with_fuel(value_end, 2);
    reveal_with_fuel(elems_end, 2);
    reveal_with_fuel(after_elem, 2);
    reveal_with_fuel(entry_rest, 2);
    reveal_with_fuel(entries_end, 2);
    reveal_with_fuel(after_entry, 2);
    let c = pre.chars@;
    lemma_ws_end_bounds(c, pre.index as int);
    lemma_ws_end_bounds(c, ws_end(c, pre.index as int) + 1);
}

/// A step that opened a non-empty object left the grammar's work at the
/// first entry's value.
proof fn lemma_step_begin_object(pre: Parser, post: Parser, frag: Fragment, h: usize)
    requires
        step_post(pre, post, Ok::<(Fragment, usize), Error>((frag, h))),
        frag matches Fragment::BeginObject(_),
    ensures
        value_end(pre.chars@, ws_end(pre.chars@, pre.index as int)) == entry_rest(
            pre.chars@,
            post.index as int,
        ),
{
    reveal(step_ok);
    reveal_with_fuel(value_end, 2);
    reveal_with_fuel(elems_end, 2);
    reveal_with_fuel(after_elem, 2);
    reveal_with_fuel(entry_rest, 2);
    reveal_with_fuel(entries_end, 2);
    reveal_with_fuel(after_entry, 2);
    reveal_with_fuel(value_end, 2);
    reveal_with_fuel(elems_end, 2);
    reveal_with_fuel(after_elem, 2);
    reveal_with_fuel(entry_rest, 2);
    reveal_with_fuel(entries_end, 2);
    reveal_with_fuel(after_entry, 2);
    reveal(crate::parse::scalar::str_at);
    let c = pre.chars@;
    let j = ws_end(c, pre.index as int);
    lemma_ws_end_bounds(c, pre.index as int);
    lemma_ws_end_bounds(c, j + 1);
    let j2 = ws_end(c, j + 1);
    crate::parse::scalar::lemma_str_body_end_bounds(c, j2 + 1);
    let q = str_body_end(c, j2 + 1)->0;
    lemma_ws_end_bounds(c, q + 1);
}

/// A failing step means the grammar rejects the value here, or the value
/// runs to the very end of a source that then reports a decode failure.
proof fn lemma_not_step_ok(s: Seq<SourceChar>, i: int, fail: bool)
    requires
        0 <= i <= s.len(),
        !step_ok(s, i, fail),
    ensures
        value_end(s, ws_end(s, i)) is None || (value_end(s, ws_end(s, i)) == Some(s.len() as int)
            && fail),
{
    reveal(step_ok);
    reveal_with_fuel(value_end, 2);
    reveal_with_fuel(elems_end, 2);
    reveal_with_fuel(after_elem, 2);
    reveal_with_fuel(entry_rest, 2);
    reveal_with_fuel(entries_end, 2);
    reveal_with_fuel(after_entry, 2);
    reveal_with_fuel(value_end, 2);
    reveal_with_fuel(elems_end, 2);
    reveal_with_fuel(after_elem, 2);
    reveal_with_fuel(entry_rest, 2);
    reveal_with_fuel(entries_end, 2);
    reveal_with_fuel(after_entry, 2);
    reveal_with_fuel(value_end, 2);
    reveal_with_fuel(elems_end, 2);
    reveal_with_fuel(after_elem, 2);
    reveal_with_fuel(entry_rest, 2);
    reveal_with_fuel(entries_end, 2);
    reveal_with_fuel(after_entry, 2);
    reveal(crate::parse::scalar::num_ok);
    reveal(crate::parse::scalar::str_at);
    reveal(array_start_ok);
    reveal(object_start_ok);
    let j = ws_end(s, i);
    lemma_ws_end_bounds(s, i);
    if j < s.len() {
        let ch = s[j].chr;
        if ch == '-' || is_digit(ch) {
            crate::parse::scalar::lemma_num_end_bounds(s, j);
        }
        if ch == '[' || ch == '{' {
            lemma_ws_end_bounds(s, j + 1);
        }
        if ch == '{' {
            let j2 = ws_end(s, j + 1);
            if str_at(s, j2) {
                crate::parse::scalar::lemma_str_body_end_bounds(s, j2 + 1);
                lemma_ws_end_bounds(s, str_body_end(s, j2 + 1)->0 + 1);
            }
        }
    }
}

/// One in-progress composite of the assembler: an array awaiting its
/// continuation, an array awaiting its next element's value, an object
/// awaiting its continuation, or an object awaiting the value of `key`.
enum StackItem {
    Array(Array, usize),
    ArrayItem(Array, usize),
    Object(Object, usize),
    ObjectEntry(Object, usize, String, usize),
}

/// The still-open fragment handles one frame contributes, outermost first.
spec fn item_handles(it: StackItem) -> Seq<usize> {
    match it {
        StackItem::Array(_, h) => seq![h],
        StackItem::ArrayItem(_, h) => seq![h],
        StackItem::Object(_, h) => seq![h],
        StackItem::ObjectEntry(_, h, _, e) => seq![h, e],
    }
}

/// The still-open fragment handles of the whole stack, outermost first: the
/// assembler keeps this equal to the tracker's stack of open fragments.
spec fn handles_of(s: Seq<StackItem>) -> Seq<usize>
    decreases s.len(),
{
    if s.len() == 0 {
        Seq::empty()
    } else {
        handles_of(s.drop_last()) + item_handles(s.last())
    }
}

proof fn lemma_handles_of_last(s: Seq<StackItem>)
    requires
        s.len() > 0,
    ensures
        handles_of(s) == handles_of(s.drop_last()) + item_handles(s.last()),
{
}

/// Where the grammar says the composite of one suspended frame ends, given
/// the cursor and whether a finished value is pending for it.
spec fn frame_rest_end(s: Seq<SourceChar>, frame: StackItem, i: int, pending: bool) -> Option<int> {
    match frame {
        StackItem::Array(_, _) => after_elem(s, i),
        StackItem::ArrayItem(_, _) => if pending {
            after_elem(s, i)
        } else {
            elems_end(s, ws_end(s, i))
        },
        StackItem::Object(_, _) => after_entry(s, i),
        StackItem::ObjectEntry(_, _, _, _) => if pending {
            after_entry(s, i)
        } else {
            entry_rest(s, i)
        },
    }
}

/// Where the grammar says the whole document's root value ends, given the
/// machine's configuration: each frame's composite is finished in turn, the
/// result flowing outward.
spec fn config_end(s: Seq<SourceChar>, fs: Seq<StackItem>, i: int, pending: bool) -> Option<int>
    decreases fs.len(),
{
    if fs.len() == 0 {
        Some(i)
    } else {
        match frame_rest_end(s, fs.last(), i, pending) {
            Some(k) => config_end(s, fs.drop_last(), k, true),
            None => None,
        }
    }
}

proof fn lemma_config_unfold(s: Seq<SourceChar>, fs: Seq<StackItem>, f: StackItem, i: int, p: bool)
    ensures
        config_end(s, fs.push(f), i, p) == (match frame_rest_end(s, f, i, p) {
            Some(k) => config_end(s, fs, k, true),
            None => None,
        }),
{
    assert(fs.push(f).drop_last() =~= fs);
    assert(fs.push(f).last() == f);
}

/// A frame waiting for a value: the only shape of non-top frames.
spec fn is_suspended(it: StackItem) -> bool {
    match it {
        StackItem::ArrayItem(_, _) => true,
        StackItem::ObjectEntry(_, _, _, _) => true,
        StackItem::Array(_, _) => false,
        StackItem::Object(_, _) => false,
    }
}

/// The frame belongs to an array composite (else to an object composite).
spec fn is_array_frame(it: StackItem) -> bool {
    match it {
        StackItem::Array(_, _) => true,
        StackItem::ArrayItem(_, _) => true,
        StackItem::Object(_, _) => false,
        StackItem::ObjectEntry(_, _, _, _) => false,
    }
}

/// The handle of a frame's own composite fragment.
spec fn frame_handle(it: StackItem) -> usize {
    match it {
        StackItem::Array(_, h) => h,
        StackItem::ArrayItem(_, h) => h,
        StackItem::Object(_, h) => h,
        StackItem::ObjectEntry(_, h, _, _) => h,
    }
}

/// Whether a resolved value is pending: part of the assembler loop's
/// termination measure.
spec fn pending_count(v: Option<(Value, usize)>) -> int {
    if v is Some {
        1
    } else {
        0
    }
}

/// The context implied by the top of the assembler's stack, defaulting to
/// the caller-supplied root context when the stack is empty.
fn stack_context(stack: &Vec<StackItem>, root: Context) -> Context {
    if stack.len() == 0 {
        root
    } else {
        match &stack[stack.len() - 1] {
            StackItem::Array(..) => Context::Array,
            StackItem::ArrayItem(..) => Context::Array,
            StackItem::Object(..) => Context::ObjectKey,
            StackItem::ObjectEntry(..) => Context::ObjectValue,
        }
    }
}

impl Value {
    /// The top-level entry point: parses exactly one value plus trailing
    /// whitespace, requiring that no further content remains, and returns it
    /// with its fragment handle. Nesting depth is represented entirely by an
    /// explicit heap-allocated stack, never by native call recursion.
    ///
    /// The contract is a full success characterization: the parse succeeds if
    /// and only if the input is whitespace, exactly one well-formed value of
    /// the grammar (`value_end`), whitespace, and a clean end of the source.
    /// On success every fragment opened during the parse has been closed, the
    /// returned handle names the closed span covering exactly the value's
    /// text, and the value's kind — for a scalar, its exact content — is the
    /// one the grammar gives the input. A malformed first production fails
    /// with the error at its first offending character; trailing content and
    /// a decode failure at the end fail with the exact error at its position.
    /// The contents of nested composites are pinned one level down, by the
    /// sub-machine and step contracts.
    #[verifier::rlimit(100)]
    pub fn parse_in(parser: &mut Parser, context: Context) -> (r: Result<(Value, usize), Error>)
        requires
            old(parser).wf(),
            old(parser).open@.len() == 0,
        ensures
            final(parser).wf(),
            final(parser).same_source(*old(parser)),
            spans_extend(old(parser).spans@, final(parser).spans@),
            ({
                let c = old(parser).chars@;
                let i0 = old(parser).index as int;
                let rs = ws_end(c, i0);
                let n = c.len() as int;
                &&& (r is Ok <==> doc_ok(c, i0, old(parser).fail))
                &&& (!step_ok(c, i0, old(parser).fail) ==> (r matches Err(e) && e == char_err(
                    c,
                    step_err_at(c, i0),
                    old(parser).fail,
                )))
                &&& (value_end(c, rs) matches Some(t) ==> (ws_end(c, t) < n ==> (r matches Err(e)
                    && e == Error::Unexpected(
                    start_of(c, ws_end(c, t)) as usize,
                    Some(c[ws_end(c, t)].chr),
                ))))
                &&& (value_end(c, rs) matches Some(t) ==> ((ws_end(c, t) == n && old(parser).fail
                    && step_ok(c, i0, old(parser).fail)) ==> (r matches Err(e) && e == Error::Decode(
                    start_of(c, n) as usize,
                ))))
                &&& ((step_ok(c, i0, old(parser).fail) && first_step_finishes(c, rs)) ==> {
                    let t = step_value_end(c, rs);
                    let t2 = ws_end(c, t);
                    &&& (t2 < n ==> (r matches Err(e) && e == Error::Unexpected(
                        start_of(c, t2) as usize,
                        Some(c[t2].chr),
                    )))
                    &&& ((t2 == n && old(parser).fail) ==> (r matches Err(e) && e == Error::Decode(
                        start_of(c, n) as usize,
                    )))
                })
                &&& match r {
                    Ok((v, h)) => {
                        &&& step_ok(c, i0, old(parser).fail)
                        &&& rs < n
                        &&& final(parser).index == final(parser).n()
                        &&& !final(parser).fail
                        &&& final(parser).open@.len() == 0
                        &&& forall|k: int|
                            0 <= k < final(parser).spans@.len() ==> closed(
                                #[trigger] final(parser).spans@[k],
                            )
                        &&& (h as int) < final(parser).spans@.len()
                        &&& final(parser).spans@[h as int].start == start_of(c, rs)
                        &&& final(parser).spans@[h as int].end == Some(
                            start_of(c, value_end(c, rs)->0) as usize,
                        )
                        &&& span_end_at_ws_tail(c, final(parser).spans@[h as int])
                        &&& (c[rs].chr == 'n' ==> v == Value::Null)
                        &&& (c[rs].chr == 't' || c[rs].chr == 'f' ==> v == Value::Boolean(
                            true_at(c, rs),
                        ))
                        &&& (c[rs].chr == '-' || is_digit(c[rs].chr) ==> (v matches Value::Number(
                            num,
                        ) && num.0@ == text_range(c, rs, num_end(c, rs)->0)))
                        &&& (c[rs].chr == '"' ==> (v matches Value::Text(t) && t@ == str_val(
                            c,
                            rs + 1,
                        )))
                        &&& (c[rs].chr == '[' ==> v matches Value::Array(_))
                        &&& (c[rs].chr == '{' ==> v matches Value::Object(_))
                    },
                    Err(_) => true,
                }
            }),
    {
        let ghost c = old(parser).chars@;
        let ghost i0 = old(parser).index as int;
        let ghost rs = ws_end(c, i0);
        let mut stack: Vec<StackItem> = Vec::new();
        let mut value: Option<(Value, usize)> = None;
        loop
            invariant
                parser.wf(),
                parser.same_source(*old(parser)),
                spans_extend(old(parser).spans@, parser.spans@),
                c == old(parser).chars@,
                i0 == old(parser).index as int,
                rs == ws_end(c, i0),
                parser.open@ == handles_of(stack@),
                (stack@.len() == 0 && value is None) ==> parser.index == old(parser).index
                    && parser.spans@ == old(parser).spans@ && parser.open@.len() == 0,
                value matches Some((v, m)) ==> (m as int) < parser.spans@.len() && closed(
                    parser.spans@[m as int],
                ),
                value matches Some((v, m)) ==> (stack@.len() == 0
                    ==> parser.spans@[m as int].start == start_of(c, rs)
                    && parser.spans@[m as int].end == Some(parser.position) && rs < c.len() && (
                c[rs].chr == '[' || c[rs].chr == '{') && (c[rs].chr == '['
                    ==> v matches Value::Array(_)) && (c[rs].chr == '{' ==> v matches Value::Object(
                    _,
                ))),
                (value is Some && stack@.len() > 0) ==> is_suspended(stack@.last()),
                forall|d: int| 0 <= d < stack@.len() - 1 ==> is_suspended(#[trigger] stack@[d]),
                stack@.len() > 0 ==> (frame_handle(stack@[0]) as int) < parser.spans@.len()
                    && parser.spans@[frame_handle(stack@[0]) as int].start == start_of(c, rs) && rs
                    < c.len() && (c[rs].chr == '[' || c[rs].chr == '{') && (c[rs].chr == '[' <==>
                is_array_frame(stack@[0])),
                (stack@.len() > 0 || value is Some) ==> step_ok(c, i0, old(parser).fail)
                    && !first_step_finishes(c, rs),
                (stack@.len() > 0 || value is Some) ==> value_end(c, rs) == config_end(
                    c,
                    stack@,
                    parser.index as int,
                    value is Some,
                ),
            decreases parser.n() - parser.index, pending_count(value),
        {
            let ghost sorig = stack@;
            let ghost ip = parser.index as int;
            let ghost pend0 = value is Some;
            let popped = stack.pop();
            proof {
                if sorig.len() > 0 {
                    lemma_handles_of_last(sorig);
                    assert(stack@ =~= sorig.drop_last());
                    assert(sorig =~= stack@.push(sorig.last()));
                }
                lemma_ws_end_bounds(c, ip);
            }
            match popped {
                None => {
                    let taken = value;
                    let ghost gtaken = taken;
                    let ghost pstate = *parser;
                    value = None;
                    let step = match Fragment::value_or_parse(
                        taken,
                        parser,
                        stack_context(&stack, context),
                    ) {
                        Ok(st) => st,
                        Err(err) => {
                            proof {
                                lemma_not_step_ok(c, pstate.index as int, pstate.fail);
                            }
                            return Err(err);
                        },
                    };
                    let ghost gstep = step;
                    let ghost pafter = *parser;
                    match step {
                        (Fragment::Value(v), i) => {
                            let ghost tw = parser.index as int;
                            let ghost pw = parser.position;
                            proof {
                                if gtaken is None {
                                    lemma_finished_value(pstate, pafter, gstep.0, gstep.1);
                                    lemma_step_value_end(pstate, pafter, gstep.0, gstep.1);
                                }
                                assert(value_end(c, rs) == Some(tw));
                            }
                            parser.skip_whitespaces()?;
                            match parser.next_char()? {
                                (p, Some(ch)) => {
                                    return Err(Error::unexpected(p, Some(ch)));
                                },
                                (_, None) => {
                                    proof {
                                        assert forall|k: int|
                                            0 <= k < parser.spans@.len() implies closed(
                                            #[trigger] parser.spans@[k],
                                        ) by {
                                            reveal(frags_wf);
                                            assert(!on_stack(parser.open@, k));
                                        }
                                        assert(ws_end(c, tw) == parser.n());
                                        assert(parser.spans@[i as int].end == Some(pw));
                                        assert(pw == start_of(c, tw) as usize);
                                        reveal(span_end_at_ws_tail);
                                        assert(span_end_at_ws_tail(c, parser.spans@[i as int]));
                                    }
                                    return Ok((v, i));
                                },
                            }
                        },
                        (Fragment::BeginArray, i) => {
                            proof {
                                lemma_begin_not_finished(pstate, pafter, gstep.0, gstep.1);
                                lemma_step_begin_array(pstate, pafter, gstep.0, gstep.1);
                            }
                            let ghost s0 = stack@;
                            stack.push(StackItem::ArrayItem(Array::new(), i));
                            proof {
                                assert(stack@.drop_last() =~= s0);
                                lemma_handles_of_last(stack@);
                                assert(parser.open@ =~= handles_of(stack@));
                                lemma_ws_end_fix(c, ws_end(c, ip) + 1);
                                lemma_config_unfold(
                                    c,
                                    s0,
                                    stack@.last(),
                                    parser.index as int,
                                    false,
                                );
                                assert(value_end(c, rs) == config_end(
                                    c,
                                    stack@,
                                    parser.index as int,
                                    false,
                                )) by {
                                    reveal_with_fuel(value_end, 2);
                                    reveal_with_fuel(elems_end, 2);
                                    reveal_with_fuel(after_elem, 2);
                                    reveal_with_fuel(entry_rest, 2);
                                    reveal_with_fuel(entries_end, 2);
                                    reveal_with_fuel(after_entry, 2);
                                }
                            }
                        },
                        (Fragment::BeginObject(key), i) => {
                            proof {
                                lemma_begin_not_finished(pstate, pafter, gstep.0, gstep.1);
                                lemma_step_begin_object(pstate, pafter, gstep.0, gstep.1);
                            }
                            let ghost s0 = stack@;
                            stack.push(StackItem::ObjectEntry(Object::new(), i, key.0, key.1));
                            proof {
                                assert(stack@.drop_last() =~= s0);
                                lemma_handles_of_last(stack@);
                                assert(parser.open@ =~= handles_of(stack@));
                                lemma_config_unfold(
                                    c,
                                    s0,
                                    stack@.last(),
                                    parser.index as int,
                                    false,
                                );
                                assert(value_end(c, rs) == config_end(
                                    c,
                                    stack@,
                                    parser.index as int,
                                    false,
                                )) by {
                                    reveal_with_fuel(value_end, 2);
                                    reveal_with_fuel(elems_end, 2);
                                    reveal_with_fuel(after_elem, 2);
                                    reveal_with_fuel(entry_rest, 2);
                                    reveal_with_fuel(entries_end, 2);
                                    reveal_with_fuel(after_entry, 2);
                                }
                            }
                        },
                    }
                },
                Some(StackItem::Array(arr, i)) => {
                    proof {
                        assert(parser.open@.last() == i);
                        lemma_config_unfold(c, stack@, sorig.last(), ip, pend0);
                        assert(!pend0);
                    }
                    let cont = match array::ContinueFragment::parse_in(parser, i) {
                        Ok(cf) => cf,
                        Err(err) => {
                            proof {
                                assert(value_end(c, rs) is None) by {
                                    reveal_with_fuel(value_end, 2);
                                    reveal_with_fuel(elems_end, 2);
                                    reveal_with_fuel(after_elem, 2);
                                    reveal_with_fuel(entry_rest, 2);
                                    reveal_with_fuel(entries_end, 2);
                                    reveal_with_fuel(after_entry, 2);
                                    lemma_ws_end_bounds(c, ip);
                                    assert(after_elem(c, ip) is None);
                                }
                            }
                            return Err(err);
                        },
                    };
                    match cont {
                        array::ContinueFragment::Item => {
                            let ghost s0 = stack@;
                            stack.push(StackItem::ArrayItem(arr, i));
                            proof {
                                assert(stack@.drop_last() =~= s0);
                                lemma_handles_of_last(stack@);
                                assert(parser.open@ =~= handles_of(stack@));
                                lemma_config_unfold(c, s0, stack@.last(), parser.index as int, false);
                                assert(value_end(c, rs) == config_end(
                                    c,
                                    stack@,
                                    parser.index as int,
                                    false,
                                )) by {
                                    reveal_with_fuel(value_end, 2);
                                    reveal_with_fuel(elems_end, 2);
                                    reveal_with_fuel(after_elem, 2);
                                    reveal_with_fuel(entry_rest, 2);
                                    reveal_with_fuel(entries_end, 2);
                                    reveal_with_fuel(after_entry, 2);
                                    let j = ws_end(c, ip);
                                    lemma_ws_end_bounds(c, ip);
                                    if j < c.len() {
                                        lemma_ws_end_bounds(c, j + 1);
                                        lemma_ws_end_fix(c, j + 1);
                                    }
                                    assert(frame_rest_end(c, sorig.last(), ip, pend0) == elems_end(
                                        c,
                                        ws_end(c, j + 1),
                                    ));
                                }
                            }
                        },
                        array::ContinueFragment::End => {
                            value = Some((Value::Array(arr), i));
                            proof {
                                assert(parser.open@ =~= handles_of(stack@));
                                assert(value_end(c, rs) == config_end(
                                    c,
                                    stack@,
                                    parser.index as int,
                                    true,
                                )) by {
                                    reveal_with_fuel(value_end, 2);
                                    reveal_with_fuel(elems_end, 2);
                                    reveal_with_fuel(after_elem, 2);
                                    reveal_with_fuel(entry_rest, 2);
                                    reveal_with_fuel(entries_end, 2);
                                    reveal_with_fuel(after_entry, 2);
                                }
                            }
                        },
                    }
                },
                Some(StackItem::ArrayItem(arr, i)) => {
                    let mut arr = arr;
                    let taken = value;
                    let ghost gtaken = taken;
                    let ghost pstate = *parser;
                    value = None;
                    proof {
                        lemma_config_unfold(c, stack@, sorig.last(), ip, pend0);
                    }
                    let step = match Fragment::value_or_parse(taken, parser, Context::Array) {
                        Ok(st) => st,
                        Err(err) => {
                            proof {
                                lemma_not_step_ok(c, pstate.index as int, pstate.fail);
                                assert(value_end(c, rs) is None) by {
                                    reveal_with_fuel(value_end, 2);
                                    reveal_with_fuel(elems_end, 2);
                                    reveal_with_fuel(after_elem, 2);
                                    reveal_with_fuel(entry_rest, 2);
                                    reveal_with_fuel(entries_end, 2);
                                    reveal_with_fuel(after_entry, 2);
                                    assert(after_elem(c, c.len() as int) is None);
                                    assert(elems_end(c, ws_end(c, ip)) is None);
                                }
                            }
                            return Err(err);
                        },
                    };
                    let ghost gstep = step;
                    let ghost pafter = *parser;
                    match step {
                        (Fragment::Value(v), _m) => {
                            arr.push(v);
                            let ghost s0 = stack@;
                            stack.push(StackItem::Array(arr, i));
                            proof {
                                assert(stack@.drop_last() =~= s0);
                                lemma_handles_of_last(stack@);
                                assert(parser.open@ =~= handles_of(stack@));
                                if gtaken is None {
                                    lemma_step_value_end(pstate, pafter, gstep.0, gstep.1);
                                    lemma_value_end_bounds(c, ws_end(c, ip));
                                }
                                lemma_config_unfold(c, s0, stack@.last(), parser.index as int, false);
                                assert(value_end(c, rs) == config_end(
                                    c,
                                    stack@,
                                    parser.index as int,
                                    false,
                                )) by {
                                    reveal_with_fuel(value_end, 2);
                                    reveal_with_fuel(elems_end, 2);
                                    reveal_with_fuel(after_elem, 2);
                                    reveal_with_fuel(entry_rest, 2);
                                    reveal_with_fuel(entries_end, 2);
                                    reveal_with_fuel(after_entry, 2);
                                }
                            }
                        },
                        (Fragment::BeginArray, j) => {
                            let ghost s0 = stack@;
                            stack.push(StackItem::ArrayItem(arr, i));
                            let ghost s1 = stack@;
                            stack.push(StackItem::ArrayItem(Array::new(), j));
                            proof {
                                assert(s1.drop_last() =~= s0);
                                lemma_handles_of_last(s1);
                                assert(stack@.drop_last() =~= s1);
                                lemma_handles_of_last(stack@);
                                assert(parser.open@ =~= handles_of(stack@));
                                lemma_step_begin_array(pstate, pafter, gstep.0, gstep.1);
                                let jj = ws_end(c, ip);
                                lemma_ws_end_bounds(c, jj + 1);
                                lemma_ws_end_fix(c, jj + 1);
                                lemma_elems_end_bounds(c, parser.index as int);
                                lemma_config_unfold(c, s1, stack@.last(), parser.index as int, false);
                                lemma_config_unfold(c, s0, s1.last(), parser.index as int, false);
                                assert(value_end(c, rs) == config_end(
                                    c,
                                    stack@,
                                    parser.index as int,
                                    false,
                                )) by {
                                    reveal_with_fuel(value_end, 2);
                                    reveal_with_fuel(elems_end, 2);
                                    reveal_with_fuel(after_elem, 2);
                                    reveal_with_fuel(entry_rest, 2);
                                    reveal_with_fuel(entries_end, 2);
                                    reveal_with_fuel(after_entry, 2);
                                }
                            }
                        },
                        (Fragment::BeginObject(key), j) => {
                            let ghost s0 = stack@;
                            stack.push(StackItem::ArrayItem(arr, i));
                            let ghost s1 = stack@;
                            stack.push(StackItem::ObjectEntry(Object::new(), j, key.0, key.1));
                            proof {
                                assert(s1.drop_last() =~= s0);
                                lemma_handles_of_last(s1);
                                assert(stack@.drop_last() =~= s1);
                                lemma_handles_of_last(stack@);
                                assert(parser.open@ =~= handles_of(stack@));
                                lemma_step_begin_object(pstate, pafter, gstep.0, gstep.1);
                                lemma_entry_rest_bounds(c, parser.index as int);
                                lemma_config_unfold(c, s1, stack@.last(), parser.index as int, false);
                                assert(value_end(c, rs) == config_end(
                                    c,
                                    stack@,
                                    parser.index as int,
                                    false,
                                )) by {
                                    reveal_with_fuel(value_end, 2);
                                    reveal_with_fuel(elems_end, 2);
                                    reveal_with_fuel(after_elem, 2);
                                    reveal_with_fuel(entry_rest, 2);
                                    reveal_with_fuel(entries_end, 2);
                                    reveal_with_fuel(after_entry, 2);
                                }
                            }
                        },
                    }
                },
                Some(StackItem::Object(obj, i)) => {
                    proof {
                        assert(parser.open@.last() == i);
                        lemma_config_unfold(c, stack@, sorig.last(), ip, pend0);
                        assert(!pend0);
                    }
                    let cont = match object::ContinueFragment::parse_in(parser, i) {
                        Ok(cf) => cf,
                        Err(err) => {
                            proof {
                                assert(value_end(c, rs) is None) by {
                                    reveal_with_fuel(value_end, 2);
                                    reveal_with_fuel(elems_end, 2);
                                    reveal_with_fuel(after_elem, 2);
                                    reveal_with_fuel(entry_rest, 2);
                                    reveal_with_fuel(entries_end, 2);
                                    reveal_with_fuel(after_entry, 2);
                                    reveal(crate::parse::scalar::str_at);
                                    lemma_ws_end_bounds(c, ip);
                                    let j = ws_end(c, ip);
                                    if j < c.len() {
                                        lemma_ws_end_bounds(c, j + 1);
                                        let j2 = ws_end(c, j + 1);
                                        if str_at(c, j2) {
                                            crate::parse::scalar::lemma_str_body_end_bounds(
                                                c,
                                                j2 + 1,
                                            );
                                            lemma_ws_end_bounds(
                                                c,
                                                str_body_end(c, j2 + 1)->0 + 1,
                                            );
                                        }
                                    }
                                    assert(after_entry(c, ip) is None);
                                }
                            }
                            return Err(err);
                        },
                    };
                    match cont {
                        object::ContinueFragment::Entry(key) => {
                            let ghost s0 = stack@;
                            stack.push(StackItem::ObjectEntry(obj, i, key.0, key.1));
                            proof {
                                assert(stack@.drop_last() =~= s0);
                                lemma_handles_of_last(stack@);
                                assert(parser.open@ =~= handles_of(stack@));
                                reveal(crate::parse::scalar::str_at);
                                let j = ws_end(c, ip);
                                lemma_ws_end_bounds(c, j + 1);
                                let j2 = ws_end(c, j + 1);
                                crate::parse::scalar::lemma_str_body_end_bounds(c, j2 + 1);
                                let q = str_body_end(c, j2 + 1)->0;
                                lemma_ws_end_bounds(c, q + 1);
                                lemma_config_unfold(c, s0, stack@.last(), parser.index as int, false);
                                assert(value_end(c, rs) == config_end(
                                    c,
                                    stack@,
                                    parser.index as int,
                                    false,
                                )) by {
                                    reveal_with_fuel(value_end, 2);
                                    reveal_with_fuel(elems_end, 2);
                                    reveal_with_fuel(after_elem, 2);
                                    reveal_with_fuel(entry_rest, 2);
                                    reveal_with_fuel(entries_end, 2);
                                    reveal_with_fuel(after_entry, 2);
                                }
                            }
                        },
                        object::ContinueFragment::End => {
                            value = Some((Value::Object(obj), i));
                            proof {
                                assert(parser.open@ =~= handles_of(stack@));
                                assert(value_end(c, rs) == config_end(
                                    c,
                                    stack@,
                                    parser.index as int,
                                    true,
                                )) by {
                                    reveal_with_fuel(value_end, 2);
                                    reveal_with_fuel(elems_end, 2);
                                    reveal_with_fuel(after_elem, 2);
                                    reveal_with_fuel(entry_rest, 2);
                                    reveal_with_fuel(entries_end, 2);
                                    reveal_with_fuel(after_entry, 2);
                                }
                            }
                        },
                    }
                },
                Some(StackItem::ObjectEntry(obj, i, key, e)) => {
                    let mut obj = obj;
                    let taken = value;
                    let ghost gtaken = taken;
                    let ghost pstate = *parser;
                    value = None;
                    proof {
                        lemma_config_unfold(c, stack@, sorig.last(), ip, pend0);
                    }
                    let step = match Fragment::value_or_parse(taken, parser, Context::ObjectValue) {
                        Ok(st) => st,
                        Err(err) => {
                            proof {
                                lemma_not_step_ok(c, pstate.index as int, pstate.fail);
                                assert(value_end(c, rs) is None) by {
                                    reveal_with_fuel(value_end, 2);
                                    reveal_with_fuel(elems_end, 2);
                                    reveal_with_fuel(after_elem, 2);
                                    reveal_with_fuel(entry_rest, 2);
                                    reveal_with_fuel(entries_end, 2);
                                    reveal_with_fuel(after_entry, 2);
                                    assert(after_entry(c, c.len() as int) is None);
                                    assert(entry_rest(c, ip) is None);
                                }
                            }
                            return Err(err);
                        },
                    };
                    let ghost gstep = step;
                    let ghost pafter = *parser;
                    match step {
                        (Fragment::Value(v), _m) => {
                            proof {
                                reveal(frags_wf);
                                assert(parser.open@.last() == e);
                            }
                            parser.end_fragment(e);
                            obj.push(key, v);
                            let ghost s0 = stack@;
                            stack.push(StackItem::Object(obj, i));
                            proof {
                                assert(stack@.drop_last() =~= s0);
                                lemma_handles_of_last(stack@);
                                assert(parser.open@ =~= handles_of(stack@));
                                if gtaken is None {
                                    lemma_step_value_end(pstate, pafter, gstep.0, gstep.1);
                                    lemma_value_end_bounds(c, ws_end(c, ip));
                                }
                                lemma_config_unfold(c, s0, stack@.last(), parser.index as int, false);
                                assert(value_end(c, rs) == config_end(
                                    c,
                                    stack@,
                                    parser.index as int,
                                    false,
                                )) by {
                                    reveal_with_fuel(value_end, 2);
                                    reveal_with_fuel(elems_end, 2);
                                    reveal_with_fuel(after_elem, 2);
                                    reveal_with_fuel(entry_rest, 2);
                                    reveal_with_fuel(entries_end, 2);
                                    reveal_with_fuel(after_entry, 2);
                                }
                            }
                        },
                        (Fragment::BeginArray, j) => {
                            let ghost s0 = stack@;
                            stack.push(StackItem::ObjectEntry(obj, i, key, e));
                            let ghost s1 = stack@;
                            stack.push(StackItem::ArrayItem(Array::new(), j));
                            proof {
                                assert(s1.drop_last() =~= s0);
                                lemma_handles_of_last(s1);
                                assert(stack@.drop_last() =~= s1);
                                lemma_handles_of_last(stack@);
                                assert(parser.open@ =~= handles_of(stack@));
                                lemma_step_begin_array(pstate, pafter, gstep.0, gstep.1);
                                let jj = ws_end(c, ip);
                                lemma_ws_end_bounds(c, jj + 1);
                                lemma_ws_end_fix(c, jj + 1);
                                lemma_elems_end_bounds(c, parser.index as int);
                                lemma_config_unfold(c, s1, stack@.last(), parser.index as int, false);
                                assert(value_end(c, rs) == config_end(
                                    c,
                                    stack@,
                                    parser.index as int,
                                    false,
                                )) by {
                                    reveal_with_fuel(value_end, 2);
                                    reveal_with_fuel(elems_end, 2);
                                    reveal_with_fuel(after_elem, 2);
                                    reveal_with_fuel(entry_rest, 2);
                                    reveal_with_fuel(entries_end, 2);
                                    reveal_with_fuel(after_entry, 2);
                                }
                            }
                        },
                        (Fragment::BeginObject(value_key), j) => {
                            let ghost s0 = stack@;
                            stack.push(StackItem::ObjectEntry(obj, i, key, e));
                            let ghost s1 = stack@;
                            stack.push(
                                StackItem::ObjectEntry(Object::new(), j, value_key.0, value_key.1),
                            );
                            proof {
                                assert(s1.drop_last() =~= s0);
                                lemma_handles_of_last(s1);
                                assert(stack@.drop_last() =~= s1);
                                lemma_handles_of_last(stack@);
                                assert(parser.open@ =~= handles_of(stack@));
                                lemma_step_begin_object(pstate, pafter, gstep.0, gstep.1);
                                lemma_entry_rest_bounds(c, parser.index as int);
                                lemma_config_unfold(c, s1, stack@.last(), parser.index as int, false);
                                assert(value_end(c, rs) == config_end(
                                    c,
                                    stack@,
                                    parser.index as int,
                                    false,
                                )) by {
                                    reveal_with_fuel(value_end, 2);
                                    reveal_with_fuel(elems_end, 2);
                                    reveal_with_fuel(after_elem, 2);
                                    reveal_with_fuel(entry_rest, 2);
                                    reveal_with_fuel(entries_end, 2);
                                    reveal_with_fuel(after_entry, 2);
                                }
                            }
                        },
                    }
                },
            }
        }
    }
}

} // verus!
