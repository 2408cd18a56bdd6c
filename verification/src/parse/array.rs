//! The array sub-machine: recognizing `[` and deciding whether the array is
//! immediately empty, and, after each element, recognizing `,` (a further
//! element is pending) or `]` (the array closes).

use vstd::prelude::*;
use crate::cursor::{char_err, closed, spans_extend, ws_end, Error, Parser, SourceChar, Span};
use crate::parse::Context;

verus! {

/// The array-start sub-machine succeeds on this input: `[` stands at `i`,
/// and looking past the whitespace after it does not run into a decode
/// failure of the source.
#[verifier::opaque]
pub open spec fn array_start_ok(s: Seq<SourceChar>, i: int, fail: bool) -> bool {
    i < s.len() && s[i].chr == '[' && (ws_end(s, i + 1) < s.len() || !fail)
}

/// The result of consuming `[`: the array closed immediately, or its first
/// element is pending and its fragment stays open.
#[derive(Clone, Copy, Debug, PartialEq, Eq)]
pub enum StartFragment {
    Empty,
    NonEmpty,
}

impl StartFragment {
    /// Opens a fragment, requires `[`, and closes both delimiter and fragment
    /// at once when the array is immediately empty.
    pub fn parse_in(parser: &mut Parser, _context: Context) -> (r: Result<
        (StartFragment, usize),
        Error,
    >)
        requires
            old(parser).wf(),
        ensures
            final(parser).wf(),
            final(parser).same_source(*old(parser)),
            spans_extend(old(parser).spans@, final(parser).spans@),
            ({
                let c = old(parser).chars@;
                let i0 = old(parser).index as int;
                let j = ws_end(c, i0 + 1);
                &&& (r is Ok <==> array_start_ok(c, i0, old(parser).fail))
                &&& match r {
                    Ok((sf, h)) => {
                        &&& final(parser).index > old(parser).index
                        &&& h == old(parser).spans@.len()
                        &&& match sf {
                            StartFragment::Empty => {
                                &&& j < c.len() && c[j].chr == ']'
                                &&& final(parser).index == j + 1
                                &&& final(parser).spans@ == old(parser).spans@.push(
                                    Span {
                                        start: old(parser).position,
                                        end: Some(final(parser).position),
                                    },
                                )
                                &&& final(parser).open@ == old(parser).open@
                            },
                            StartFragment::NonEmpty => {
                                &&& j == c.len() || c[j].chr != ']'
                                &&& final(parser).index == j
                                &&& final(parser).spans@ == old(parser).spans@.push(
                                    Span { start: old(parser).position, end: None },
                                )
                                &&& final(parser).open@ == old(parser).open@.push(h)
                            },
                        }
                    },
                    Err(e) => {
                        &&& e == char_err(
                            c,
                            if i0 < c.len() && c[i0].chr == '[' {
                                c.len() as int
                            } else {
                                i0
                            },
                            old(parser).fail,
                        )
                        &&& final(parser).spans@ == old(parser).spans@.push(
                            Span { start: old(parser).position, end: None },
                        )
                        &&& final(parser).open@ == old(parser).open@.push(
                            old(parser).spans@.len() as usize,
                        )
                    },
                }
            }),
    {
        proof {
            reveal(array_start_ok);
            reveal(crate::cursor::frags_wf);
        }
        let h = parser.begin_fragment();
        match parser.next_char()? {
            (_, Some('[')) => {
                parser.skip_whitespaces()?;
                match parser.peek_char()? {
                    Some(']') => {
                        let x = parser.next_char();
                        proof {
                            assert(x is Ok);
                        }
                        parser.end_fragment(h);
                        proof {
                            assert(final(parser).spans@ =~= old(parser).spans@.push(
                                Span {
                                    start: old(parser).position,
                                    end: Some(final(parser).position),
                                },
                            ));
                            assert(final(parser).open@ =~= old(parser).open@);
                        }
                        Ok((StartFragment::Empty, h))
                    },
                    _ => {
                        // wait for the first element; the fragment stays open
                        Ok((StartFragment::NonEmpty, h))
                    },
                }
            },
            (p, unexpected) => Err(Error::unexpected(p, unexpected)),
        }
    }
}

/// The step taken after one element: another element is pending, or the
/// closing `]` was consumed and the array's fragment is closed.
#[derive(Clone, Copy, Debug, PartialEq, Eq)]
pub enum ContinueFragment {
    Item,
    End,
}

impl ContinueFragment {
    /// Continues the array whose still-open fragment is `array`: `,` keeps it
    /// open for the next element, `]` closes it.
    pub fn parse_in(parser: &mut Parser, array: usize) -> (r: Result<ContinueFragment, Error>)
        requires
            old(parser).wf(),
            old(parser).open@.len() > 0,
            old(parser).open@.last() == array,
        ensures
            final(parser).wf(),
            final(parser).same_source(*old(parser)),
            spans_extend(old(parser).spans@, final(parser).spans@),
            (array as int) < old(parser).spans@.len(),
            !closed(old(parser).spans@[array as int]),
            ({
                let c = old(parser).chars@;
                let j = ws_end(c, old(parser).index as int);
                &&& (r is Ok <==> j < c.len() && (c[j].chr == ',' || c[j].chr == ']'))
                &&& match r {
                    Ok(cf) => {
                        &&& final(parser).index > old(parser).index
                        &&& final(parser).index == j + 1
                        &&& match cf {
                            ContinueFragment::Item => {
                                &&& c[j].chr == ','
                                &&& final(parser).same_frags(*old(parser))
                            },
                            ContinueFragment::End => {
                                &&& c[j].chr == ']'
                                &&& final(parser).spans@ == old(parser).spans@.update(
                                    array as int,
                                    Span {
                                        start: old(parser).spans@[array as int].start,
                                        end: Some(final(parser).position),
                                    },
                                )
                                &&& final(parser).open@ == old(parser).open@.drop_last()
                            },
                        }
                    },
                    Err(e) => e == char_err(c, j, old(parser).fail) && final(parser).same_frags(
                        *old(parser),
                    ),
                }
            }),
    {
        proof {
            reveal(crate::cursor::frags_wf);
        }
        parser.skip_whitespaces()?;
        match parser.next_char()? {
            (_, Some(',')) => Ok(ContinueFragment::Item),
            (_, Some(']')) => {
                parser.end_fragment(array);
                Ok(ContinueFragment::End)
            },
            (p, unexpected) => Err(Error::unexpected(p, unexpected)),
        }
    }
}

} // verus!
