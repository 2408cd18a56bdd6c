//! The object sub-machine: recognizing `{`, parsing a key and its `:`, and,
//! after each entry, recognizing `,` plus the next key or the closing `}`.
//!
//! A key fragment is deliberately left open when returned: its closing marks
//! the end of the entry's *value*, so the recorded span of an entry covers
//! the key's first character through the value's last. The fragment of an
//! immediately empty object is closed right away, exactly as for arrays.

use vstd::prelude::*;
use crate::cursor::{char_err, closed, opens_preserved, spans_extend, start_of, ws_end, Error, Parser, SourceChar, Span};
use crate::parse::scalar::{parse_string, str_at, str_body_end, str_err_at, str_val};
use crate::parse::Context;

verus! {

/// The object-start sub-machine succeeds on this input: `{` stands at `i`,
/// followed (after whitespace) by `}`, or by a well-formed key string and,
/// after further whitespace, `:`.
#[verifier::opaque]
pub open spec fn object_start_ok(s: Seq<SourceChar>, i: int, fail: bool) -> bool {
    i < s.len() && s[i].chr == '{' && {
        let j = ws_end(s, i + 1);
        (j < s.len() && s[j].chr == '}') || (str_at(s, j) && {
            let q = str_body_end(s, j + 1)->0;
            let m = ws_end(s, q + 1);
            m < s.len() && s[m].chr == ':'
        })
    }
}

/// Where a failing object start beginning at `i` offends: at a first
/// character other than `{`, inside or at the missing first key, or at a
/// missing `:` after it.
#[verifier::opaque]
pub open spec fn object_start_err_at(s: Seq<SourceChar>, i: int) -> int {
    if !(i < s.len() && s[i].chr == '{') {
        i
    } else {
        let j = ws_end(s, i + 1);
        if j < s.len() && s[j].chr == '}' {
            s.len() as int
        } else if !str_at(s, j) {
            str_err_at(s, j)
        } else {
            let q = str_body_end(s, j + 1)->0;
            let m = ws_end(s, q + 1);
            if m < s.len() && s[m].chr == ':' {
                s.len() as int
            } else {
                m
            }
        }
    }
}

/// Where a failing object continuation beginning at `i` offends: at a first
/// character other than `,` or `}`, inside or at the missing next key, or at
/// a missing `:` after it.
#[verifier::opaque]
pub open spec fn object_continue_err_at(s: Seq<SourceChar>, i: int) -> int {
    let j = ws_end(s, i);
    if !(j < s.len() && (s[j].chr == ',' || s[j].chr == '}')) {
        j
    } else if s[j].chr == '}' {
        s.len() as int
    } else {
        let j2 = ws_end(s, j + 1);
        if !str_at(s, j2) {
            str_err_at(s, j2)
        } else {
            let q = str_body_end(s, j2 + 1)->0;
            let m = ws_end(s, q + 1);
            if m < s.len() && s[m].chr == ':' {
                s.len() as int
            } else {
                m
            }
        }
    }
}

/// The result of consuming `{`: the object closed immediately, or its first
/// key was read and an entry fragment for key and value is left open.
#[derive(Debug, PartialEq, Eq)]
pub enum StartFragment {
    Empty,
    NonEmpty((String, usize)),
}

impl StartFragment {
    /// Opens a fragment, requires `{`; on a non-empty object also opens the
    /// first entry's fragment, parses its key and requires `:`.
    pub fn parse_in(parser: &mut Parser, _context: Context) -> (r: Result<
        (StartFragment, usize),
        Error,
    >)
        requires
            old(parser).wf(),
        ensures
            final(parser).wf(),
            final(parser).same_source(*old(parser)),
            spans_extend(old(parser).spans@, final(parser).spans@),
            ({
                let c = old(parser).chars@;
                let i0 = old(parser).index as int;
                let j = ws_end(c, i0 + 1);
                &&& (r is Ok <==> object_start_ok(c, i0, old(parser).fail))
                &&& match r {
                    Ok((sf, h)) => {
                        &&& final(parser).index > old(parser).index
                        &&& h == old(parser).spans@.len()
                        &&& match sf {
                            StartFragment::Empty => {
                                &&& j < c.len() && c[j].chr == '}'
                                &&& final(parser).index == j + 1
                                &&& final(parser).spans@ == old(parser).spans@.push(
                                    Span {
                                        start: old(parser).position,
                                        end: Some(final(parser).position),
                                    },
                                )
                                &&& final(parser).open@ == old(parser).open@
                            },
                            StartFragment::NonEmpty((key, e)) => {
                                &&& str_at(c, j)
                                &&& key@ == str_val(c, j + 1)
                                &&& e == old(parser).spans@.len() + 1
                                &&& {
                                    let q = str_body_end(c, j + 1)->0;
                                    let m = ws_end(c, q + 1);
                                    &&& m < c.len() && c[m].chr == ':'
                                    &&& final(parser).index == m + 1
                                    &&& final(parser).spans@ == old(parser).spans@.push(
                                        Span { start: old(parser).position, end: None },
                                    ).push(Span { start: start_of(c, j) as usize, end: None }).push(
                                        Span {
                                            start: start_of(c, j) as usize,
                                            end: Some(start_of(c, q + 1) as usize),
                                        },
                                    )
                                    &&& final(parser).open@ == old(parser).open@.push(h).push(e)
                                }
                            },
                        }
                    },
                    Err(e) => {
                        &&& e == char_err(c, object_start_err_at(c, i0), old(parser).fail)
                        &&& opens_preserved(*old(parser), *final(parser))
                    },
                }
            }),
    {
        proof {
            reveal(crate::parse::scalar::str_at);
            reveal(crate::parse::scalar::str_err_at);
            reveal(object_start_ok);
            reveal(object_start_err_at);
            reveal(crate::cursor::frags_wf);
        }
        let h = parser.begin_fragment();
        match parser.next_char()? {
            (_, Some('{')) => {
                parser.skip_whitespaces()?;
                match parser.peek_char()? {
                    Some('}') => {
                        let x = parser.next_char();
                        proof {
                            assert(x is Ok);
                        }
                        parser.end_fragment(h);
                        proof {
                            assert(final(parser).spans@ =~= old(parser).spans@.push(
                                Span {
                                    start: old(parser).position,
                                    end: Some(final(parser).position),
                                },
                            ));
                            assert(final(parser).open@ =~= old(parser).open@);
                        }
                        Ok((StartFragment::Empty, h))
                    },
                    _ => {
                        let e = parser.begin_fragment();
                        let (key, _kh) = parse_string(parser, Context::ObjectKey)?;
                        parser.skip_whitespaces()?;
                        match parser.next_char()? {
                            (_, Some(':')) => {
                                proof {
                                    assert(final(parser).open@ =~= old(parser).open@.push(h).push(
                                        e,
                                    ));
                                }
                                Ok((StartFragment::NonEmpty((key, e)), h))
                            },
                            (p, unexpected) => Err(Error::unexpected(p, unexpected)),
                        }
                    },
                }
            },
            (p, unexpected) => Err(Error::unexpected(p, unexpected)),
        }
    }
}

/// The step taken after one entry: the closing `}` was consumed, or a next
/// key was read and a fresh entry fragment is left open.
#[derive(Debug, PartialEq, Eq)]
pub enum ContinueFragment {
    End,
    Entry((String, usize)),
}

impl ContinueFragment {
    /// Continues the object whose still-open fragment is `object`: `,` opens
    /// the next entry's fragment and parses its key and `:`, `}` closes the
    /// object.
    pub fn parse_in(parser: &mut Parser, object: usize) -> (r: Result<ContinueFragment, Error>)
        requires
            old(parser).wf(),
            old(parser).open@.len() > 0,
            old(parser).open@.last() == object,
        ensures
            final(parser).wf(),
            final(parser).same_source(*old(parser)),
            spans_extend(old(parser).spans@, final(parser).spans@),
            (object as int) < old(parser).spans@.len(),
            !closed(old(parser).spans@[object as int]),
            ({
                let c = old(parser).chars@;
                let j = ws_end(c, old(parser).index as int);
                let j2 = ws_end(c, j + 1);
                &&& (r is Ok <==> j < c.len() && (c[j].chr == '}' || (c[j].chr == ',' && str_at(
                    c,
                    j2,
                ) && {
                    let q = str_body_end(c, j2 + 1)->0;
                    let m = ws_end(c, q + 1);
                    m < c.len() && c[m].chr == ':'
                })))
                &&& (r is Ok ==> final(parser).index > old(parser).index)
                &&& match r {
                    Ok(cf) => match cf {
                        ContinueFragment::End => {
                            &&& c[j].chr == '}'
                            &&& final(parser).index == j + 1
                            &&& final(parser).spans@ == old(parser).spans@.update(
                                object as int,
                                Span {
                                    start: old(parser).spans@[object as int].start,
                                    end: Some(final(parser).position),
                                },
                            )
                            &&& final(parser).open@ == old(parser).open@.drop_last()
                        },
                        ContinueFragment::Entry((key, e)) => {
                            &&& c[j].chr == ','
                            &&& str_at(c, j2)
                            &&& key@ == str_val(c, j2 + 1)
                            &&& e == old(parser).spans@.len()
                            &&& {
                                let q = str_body_end(c, j2 + 1)->0;
                                let m = ws_end(c, q + 1);
                                &&& m < c.len() && c[m].chr == ':'
                                &&& final(parser).index == m + 1
                                &&& final(parser).spans@ == old(parser).spans@.push(
                                    Span { start: start_of(c, j2) as usize, end: None },
                                ).push(
                                    Span { start: start_of(c, j2) as usize, end: Some(start_of(c, q + 1) as usize) },
                                )
                                &&& final(parser).open@ == old(parser).open@.push(e)
                            }
                        },
                    },
                    Err(e) => {
                        &&& e == char_err(
                            c,
                            object_continue_err_at(c, old(parser).index as int),
                            old(parser).fail,
                        )
                        &&& opens_preserved(*old(parser), *final(parser))
                        &&& !closed(final(parser).spans@[object as int])
                        &&& final(parser).spans@[object as int] == old(parser).spans@[object as int]
                    },
                }
            }),
    {
        proof {
            reveal(crate::parse::scalar::str_at);
            reveal(crate::parse::scalar::str_err_at);
            reveal(object_continue_err_at);
            reveal(crate::cursor::frags_wf);
        }
        parser.skip_whitespaces()?;
        match parser.next_char()? {
            (_, Some(',')) => {
                parser.skip_whitespaces()?;
                let e = parser.begin_fragment();
                let (key, _kh) = parse_string(parser, Context::ObjectKey)?;
                parser.skip_whitespaces()?;
                match parser.next_char()? {
                    (_, Some(':')) => {
                        proof {
                            assert(final(parser).open@ =~= old(parser).open@.push(e));
                        }
                        Ok(ContinueFragment::Entry((key, e)))
                    },
                    (p, unexpected) => Err(Error::unexpected(p, unexpected)),
                }
            },
            (_, Some('}')) => {
                parser.end_fragment(object);
                Ok(ContinueFragment::End)
            },
            (p, unexpected) => Err(Error::unexpected(p, unexpected)),
        }
    }
}

} // verus!
