//! The position and fragment tracker, together with the one-character
//! lookahead cursor built on it.
//!
//! The tracker owns an append-only table of spans. A fragment handle is an
//! index into that table; `begin_fragment` opens a span at the current byte
//! position and `end_fragment` closes the most recently opened span, so open
//! spans always follow a strict stack discipline. From that discipline the
//! tracker maintains, as part of its well-formedness, that closed spans are
//! well nested: any two either nest or are disjoint.

use vstd::prelude::*;

verus! {

/// One character of the source, together with the number of bytes it occupied
/// in the encoded input. Byte positions are recovered by accumulating these
/// lengths from zero.
#[derive(Clone, Copy, Debug)]
pub struct SourceChar {
    pub chr: char,
    pub len: usize,
}

/// A contiguous range of byte positions of the source belonging to one
/// syntactic unit. `end` is `None` while the fragment is still open.
#[derive(Clone, Copy, Debug, PartialEq, Eq)]
pub struct Span {
    pub start: usize,
    pub end: Option<usize>,
}

/// A fatal parse failure, carrying the byte position at which it was
/// detected. `Decode` wraps a failure of the character source itself;
/// `Unexpected` reports a lookahead character (`None` at end of input) that
/// matches no production expected in the current state.
#[derive(Clone, Copy, Debug, PartialEq, Eq)]
pub enum Error {
    Decode(usize),
    Unexpected(usize, Option<char>),
}

impl Error {
    pub fn unexpected(position: usize, chr: Option<char>) -> (e: Error)
        ensures
            e == Error::Unexpected(position, chr),
    {
        Error::Unexpected(position, chr)
    }

    /// The byte position at which the failure was detected.
    pub fn position(&self) -> (p: usize)
        ensures
            self matches Error::Decode(q) ==> p == q,
            self matches Error::Unexpected(q, _) ==> p == q,
    {
        match self {
            Error::Decode(q) => *q,
            Error::Unexpected(q, _) => *q,
        }
    }
}

/// The byte position of the character at index `k`: the sum of the byte
/// lengths of all characters before it.
pub open spec fn start_of(s: Seq<SourceChar>, k: int) -> int
    decreases k,
{
    if k <= 0 {
        0
    } else {
        start_of(s, k - 1) + s[k - 1].len
    }
}

pub proof fn lemma_start_of_mono(s: Seq<SourceChar>, i: int, j: int)
    requires
        0 <= i <= j,
    ensures
        start_of(s, i) <= start_of(s, j),
    decreases j - i,
{
    if i < j {
        lemma_start_of_mono(s, i, j - 1);
    }
}

/// The whitespace characters of the grammar.
pub open spec fn is_ws(c: char) -> bool {
    c == ' ' || c == '\t' || c == '\n' || c == '\r'
}

/// The first index at or after `i` holding a non-whitespace character, or the
/// input's length if only whitespace remains.
pub open spec fn ws_end(s: Seq<SourceChar>, i: int) -> int
    decreases s.len() - i,
{
    if 0 <= i < s.len() && is_ws(s[i].chr) {
        ws_end(s, i + 1)
    } else {
        i
    }
}

pub proof fn lemma_ws_end_bounds(s: Seq<SourceChar>, i: int)
    requires
        0 <= i <= s.len(),
    ensures
        i <= ws_end(s, i) <= s.len(),
    decreases s.len() - i,
{
    if i < s.len() && is_ws(s[i].chr) {
        lemma_ws_end_bounds(s, i + 1);
    }
}

/// Skipping whitespace is idempotent: its result points at a non-whitespace
/// character or the end.
pub proof fn lemma_ws_end_fix(s: Seq<SourceChar>, i: int)
    ensures
        ws_end(s, ws_end(s, i)) == ws_end(s, i),
    decreases s.len() - i,
{
    if 0 <= i < s.len() && is_ws(s[i].chr) {
        lemma_ws_end_fix(s, i + 1);
    }
}

pub open spec fn closed(s: Span) -> bool {
    s.end is Some
}

pub open spec fn end_of(s: Span) -> int {
    s.end->0 as int
}

/// Span `a` covers all of span `b`.
pub open spec fn sp_contains(a: Span, b: Span) -> bool {
    a.start <= b.start && end_of(b) <= end_of(a)
}

/// Spans `a` and `b` share no position.
pub open spec fn sp_disjoint(a: Span, b: Span) -> bool {
    end_of(a) <= b.start || end_of(b) <= a.start
}

/// The span table grew only at its end: old entries keep their start, and an
/// entry once closed keeps its end.
pub open spec fn spans_extend(a: Seq<Span>, b: Seq<Span>) -> bool {
    &&& a.len() <= b.len()
    &&& forall|k: int|
        0 <= k < a.len() ==> (#[trigger] b[k]).start == a[k].start && (closed(a[k]) ==> b[k]
            == a[k])
}

/// The failure a parser reports at index `j`: the unexpected character that
/// stands there, or, at the end of the input, the decode failure of the
/// source or an unexpected end.
pub open spec fn char_err(s: Seq<SourceChar>, j: int, fail: bool) -> Error {
    if j < s.len() {
        Error::Unexpected(start_of(s, j) as usize, Some(s[j].chr))
    } else if fail {
        Error::Decode(start_of(s, s.len() as int) as usize)
    } else {
        Error::Unexpected(start_of(s, s.len() as int) as usize, None)
    }
}

/// Every fragment open before the call is still open after it, in place: the
/// open stack only grew. This is what a failing parse step leaves behind.
pub open spec fn opens_preserved(a: Parser, b: Parser) -> bool {
    &&& a.open@.len() <= b.open@.len()
    &&& forall|k: int| 0 <= k < a.open@.len() ==> (#[trigger] b.open@[k]) == a.open@[k]
}

/// Handle `k` is somewhere on the stack of open fragments.
pub open spec fn on_stack(open: Seq<usize>, k: int) -> bool {
    exists|a: int| 0 <= a < open.len() && (#[trigger] open[a]) == k
}

/// The nesting discipline of the span table, given the cursor's position:
/// every span lies before the cursor; the open stack holds exactly the
/// indices of the open spans, in opening order at nondecreasing positions; a
/// closed span never straddles the start of an open one; and closed spans
/// are well nested.
#[verifier::opaque]
pub open spec fn frags_wf(spans: Seq<Span>, open: Seq<usize>, position: int) -> bool {
    &&& forall|k: int|
        0 <= k < spans.len() ==> (#[trigger] spans[k]).start <= position && (closed(spans[k])
            ==> spans[k].start <= end_of(spans[k]) <= position)
    &&& forall|a: int|
        0 <= a < open.len() ==> (#[trigger] open[a]) < spans.len() && !closed(
            spans[open[a] as int],
        )
    &&& forall|k: int|
        0 <= k < spans.len() && !closed(#[trigger] spans[k]) ==> on_stack(open, k)
    &&& forall|a: int, b: int|
        0 <= a < b < open.len() ==> #[trigger] open[a] < #[trigger] open[b]
            && spans[open[a] as int].start <= spans[open[b] as int].start
    &&& forall|k: int, a: int|
        0 <= k < spans.len() && 0 <= a < open.len() && closed(#[trigger] spans[k]) ==> spans[
            k
        ].start >= spans[open[a] as int].start || end_of(spans[k]) <= spans[#[trigger] open[
            a
        ] as int].start
    &&& forall|j: int, k: int|
        0 <= j < spans.len() && 0 <= k < spans.len() && closed(#[trigger] spans[j]) && closed(
            #[trigger] spans[k],
        ) ==> sp_contains(spans[j], spans[k]) || sp_contains(spans[k], spans[j]) || sp_disjoint(
            spans[j],
            spans[k],
        )
}

/// The discipline only constrains spans from above by the cursor: moving the
/// cursor forward preserves it.
pub proof fn lemma_frags_wf_mono(spans: Seq<Span>, open: Seq<usize>, p1: int, p2: int)
    requires
        frags_wf(spans, open, p1),
        p1 <= p2,
    ensures
        frags_wf(spans, open, p2),
{
    reveal(frags_wf);
}

/// The tracker and cursor over one source. `chars` is the decoded input;
/// `fail` records whether, after those characters, the source reports a
/// decode failure instead of a clean end. `spans` is the fragment table and
/// `open` the stack of still-open fragment handles, innermost last.
pub struct Parser {
    pub chars: Vec<SourceChar>,
    pub index: usize,
    pub position: usize,
    pub fail: bool,
    pub spans: Vec<Span>,
    pub open: Vec<usize>,
}

impl Parser {
    pub open spec fn n(self) -> int {
        self.chars@.len() as int
    }

    /// The byte position of the end of the input.
    pub open spec fn end_pos(self) -> int {
        start_of(self.chars@, self.n())
    }

    /// Well-formedness: the cursor is inside the input, the position is the
    /// accumulated byte length of what was consumed, and the span table obeys
    /// the nesting discipline described at the top of this module.
    pub open spec fn wf(self) -> bool {
        &&& self.index <= self.n()
        &&& self.position == start_of(self.chars@, self.index as int)
        &&& self.end_pos() <= usize::MAX
        &&& frags_wf(self.spans@, self.open@, self.position as int)
    }

    /// The source and the failure marker: fixed for the parser's lifetime.
    pub open spec fn same_source(self, other: Parser) -> bool {
        self.chars@ == other.chars@ && self.fail == other.fail
    }

    /// Neither the span table nor the open stack changed.
    pub open spec fn same_frags(self, other: Parser) -> bool {
        self.spans@ == other.spans@ && self.open@ == other.open@
    }

    /// Builds a parser over a decoded source. `fail` states that the source
    /// reports a decode failure after the given characters.
    pub fn new(chars: Vec<SourceChar>, fail: bool) -> (p: Parser)
        requires
            start_of(chars@, chars@.len() as int) <= usize::MAX,
        ensures
            p.wf(),
            p.chars@ == chars@,
            p.fail == fail,
            p.index == 0,
            p.position == 0,
            p.spans@ =~= Seq::<Span>::empty(),
            p.open@ =~= Seq::<usize>::empty(),
    {
        proof {
            reveal(frags_wf);
        }
        Parser { chars, index: 0, position: 0, fail, spans: Vec::new(), open: Vec::new() }
    }

    /// Consumes one character and returns it with its byte position; `None`
    /// marks a clean end of input. Fails exactly when the source reports a
    /// decode failure at the cursor.
    pub fn next_char(&mut self) -> (r: Result<(usize, Option<char>), Error>)
        requires
            old(self).wf(),
        ensures
            final(self).wf(),
            final(self).same_source(*old(self)),
            final(self).same_frags(*old(self)),
            match r {
                Ok((p, Some(c))) => old(self).index < old(self).n() && p == old(self).position && c
                    == old(self).chars@[old(self).index as int].chr && final(self).index == old(
                    self,
                ).index + 1,
                Ok((p, None)) => old(self).index == old(self).n() && !old(self).fail && p == old(
                    self,
                ).position && final(self).index == old(self).index,
                Err(e) => old(self).index == old(self).n() && old(self).fail && e == Error::Decode(
                    old(self).position,
                ) && final(self).index == old(self).index,
            },
    {
        if self.index < self.chars.len() {
            let sc = self.chars[self.index];
            let p = self.position;
            proof {
                lemma_start_of_mono(self.chars@, self.index + 1, self.n());
                assert(start_of(self.chars@, self.index + 1) == self.position + sc.len);
                lemma_frags_wf_mono(
                    self.spans@,
                    self.open@,
                    self.position as int,
                    self.position + sc.len,
                );
            }
            self.index = self.index + 1;
            self.position = self.position + sc.len;
            Ok((p, Some(sc.chr)))
        } else if self.fail {
            Err(Error::Decode(self.position))
        } else {
            Ok((self.position, None))
        }
    }

    /// Returns the next character without consuming it; `None` at a clean end
    /// of input. Fails exactly when the source reports a decode failure at
    /// the cursor.
    pub fn peek_char(&self) -> (r: Result<Option<char>, Error>)
        requires
            self.wf(),
        ensures
            match r {
                Ok(Some(c)) => self.index < self.n() && c == self.chars@[self.index as int].chr,
                Ok(None) => self.index == self.n() && !self.fail,
                Err(e) => self.index == self.n() && self.fail && e == Error::Decode(self.position),
            },
    {
        if self.index < self.chars.len() {
            Ok(Some(self.chars[self.index].chr))
        } else if self.fail {
            Err(Error::Decode(self.position))
        } else {
            Ok(None)
        }
    }

    /// Consumes the maximal run of whitespace at the cursor. Fails only if
    /// the run ends at a decode failure of the source.
    pub fn skip_whitespaces(&mut self) -> (r: Result<(), Error>)
        requires
            old(self).wf(),
        ensures
            final(self).wf(),
            final(self).same_source(*old(self)),
            final(self).same_frags(*old(self)),
            old(self).index <= final(self).index,
            final(self).index == ws_end(old(self).chars@, old(self).index as int),
            match r {
                Ok(()) => final(self).index < final(self).n() || !final(self).fail,
                Err(e) => final(self).index == final(self).n() && final(self).fail && e
                    == Error::Decode(final(self).position),
            },
    {
        loop
            invariant
                self.wf(),
                self.same_source(*old(self)),
                self.same_frags(*old(self)),
                old(self).index <= self.index,
                ws_end(self.chars@, old(self).index as int) == ws_end(
                    self.chars@,
                    self.index as int,
                ),
            decreases self.n() - self.index,
        {
            match self.peek_char() {
                Ok(Some(c)) => {
                    if c == ' ' || c == '\t' || c == '\n' || c == '\r' {
                        let x = self.next_char();
                        proof {
                            assert(x is Ok);
                        }
                    } else {
                        return Ok(());
                    }
                },
                Ok(None) => {
                    return Ok(());
                },
                Err(e) => {
                    return Err(e);
                },
            }
        }
    }

    /// Opens a new fragment at the current position and returns its handle.
    pub fn begin_fragment(&mut self) -> (h: usize)
        requires
            old(self).wf(),
        ensures
            final(self).wf(),
            final(self).same_source(*old(self)),
            final(self).index == old(self).index,
            final(self).position == old(self).position,
            h == old(self).spans@.len(),
            final(self).spans@ == old(self).spans@.push(
                Span { start: old(self).position, end: None },
            ),
            final(self).open@ == old(self).open@.push(h),
    {
        let h = self.spans.len();
        self.spans.push(Span { start: self.position, end: None });
        self.open.push(h);
        proof {
            reveal(frags_wf);
            assert forall|k: int|
                0 <= k < self.spans@.len() && !closed(#[trigger] self.spans@[k]) implies on_stack(
                self.open@,
                k,
            ) by {
                if k < h {
                    assert(on_stack(old(self).open@, k));
                    let a = choose|a: int|
                        0 <= a < old(self).open@.len() && (#[trigger] old(self).open@[a]) == k;
                    assert(self.open@[a] == k);
                } else {
                    assert(self.open@[self.open@.len() - 1] == k);
                }
            }
        }
        h
    }

    /// Closes the most recently opened fragment, which must be the one named
    /// by `h`, at the current position.
    pub fn end_fragment(&mut self, h: usize)
        requires
            old(self).wf(),
            old(self).open@.len() > 0,
            old(self).open@.last() == h,
        ensures
            final(self).wf(),
            final(self).same_source(*old(self)),
            final(self).index == old(self).index,
            final(self).position == old(self).position,
            final(self).spans@ == old(self).spans@.update(
                h as int,
                Span { start: old(self).spans@[h as int].start, end: Some(old(self).position) },
            ),
            final(self).open@ == old(self).open@.drop_last(),
    {
        proof {
            reveal(frags_wf);
        }
        let ghost pre = *old(self);
        self.open.pop();
        let start = self.spans[h].start;
        self.spans[h] = Span { start, end: Some(self.position) };
        proof {
            reveal(frags_wf);
            let sp = self.spans@;
            let hs = pre.spans@[h as int];
            assert(sp[h as int] == Span { start: hs.start, end: Some(pre.position) });
            // every still-open span is on the shortened stack
            assert forall|k: int|
                0 <= k < sp.len() && !closed(#[trigger] sp[k]) implies on_stack(self.open@, k) by {
                assert(closed(sp[h as int]));
                assert(k != h as int);
                assert(!closed(pre.spans@[k]));
                assert(on_stack(pre.open@, k));
                let a = choose|a: int| 0 <= a < pre.open@.len() && (#[trigger] pre.open@[a]) == k;
                assert(pre.open@[pre.open@.len() - 1] == h);
                if a == pre.open@.len() - 1 {
                    assert(pre.open@[a] == k);
                    assert(false);
                }
                assert(self.open@[a] == k);
            }
            // the newly closed span nests with every other closed span
            assert forall|j: int, k: int|
                0 <= j < sp.len() && 0 <= k < sp.len() && closed(#[trigger] sp[j]) && closed(
                    #[trigger] sp[k],
                ) implies sp_contains(sp[j], sp[k]) || sp_contains(sp[k], sp[j]) || sp_disjoint(
                sp[j],
                sp[k],
            ) by {
                let a = pre.open@.len() - 1;
                assert(pre.open@[a] == h);
                if j == h as int && k != h as int {
                    assert(closed(pre.spans@[k]));
                    assert(pre.spans@[k].start >= hs.start || end_of(pre.spans@[k]) <= hs.start);
                } else if k == h as int && j != h as int {
                    assert(closed(pre.spans@[j]));
                    assert(pre.spans@[j].start >= hs.start || end_of(pre.spans@[j]) <= hs.start);
                }
            }
            // a closed span never straddles the start of a remaining open one
            assert forall|k: int, a: int|
                0 <= k < sp.len() && 0 <= a < self.open@.len() && closed(
                    #[trigger] sp[k],
                ) implies sp[k].start >= sp[self.open@[a] as int].start || end_of(sp[k])
                <= sp[#[trigger] self.open@[a] as int].start by {
                assert(self.open@[a] == pre.open@[a]);
                assert(self.open@[a] < h);
                if k == h as int {
                    // h was opened after open[a], so it starts no earlier
                    assert(pre.spans@[pre.open@[a] as int].start <= hs.start);
                }
            }
        }
    }

    /// The number of fragments allocated so far.
    pub fn span_count(&self) -> (n: usize)
        ensures
            n == self.spans@.len(),
    {
        self.spans.len()
    }

    /// The recorded range of a closed fragment: `Some((start, end))` when `h`
    /// names a closed span, `None` when `h` is unknown or still open.
    pub fn get_span(&self, h: usize) -> (r: Option<(usize, usize)>)
        ensures
            match r {
                Some((s, e)) => h < self.spans@.len() && self.spans@[h as int].start == s
                    && self.spans@[h as int].end == Some(e),
                None => h >= self.spans@.len() || !closed(self.spans@[h as int]),
            },
    {
        if h < self.spans.len() {
            let sp = self.spans[h];
            match sp.end {
                Some(e) => Some((sp.start, e)),
                None => None,
            }
        } else {
            None
        }
    }
}

/// Law: fragment handles form a well-nested interval structure. For any two
/// closed fragments of a well-formed tracker, either one entirely contains
/// the other or they are disjoint.
pub proof fn lemma_fragments_well_nested(p: Parser, j: int, k: int)
    requires
        p.wf(),
        0 <= j < p.spans@.len(),
        0 <= k < p.spans@.len(),
        closed(p.spans@[j]),
        closed(p.spans@[k]),
    ensures
        sp_contains(p.spans@[j], p.spans@[k]) || sp_contains(p.spans@[k], p.spans@[j])
            || sp_disjoint(p.spans@[j], p.spans@[k]),
{
    reveal(frags_wf);
}

} // verus!
