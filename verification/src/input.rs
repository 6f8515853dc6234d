use vstd::prelude::*;

use crate::pattern::{Pat, pat_run, pat_run_len, pat_find, pat_find_at, pat_desc, pat_desc_string};

verus! {

/// A parse failure report over raw text: what was expected, the 1-based line
/// and the 0-based column where it was expected, and the text of that line.
#[derive(Debug, PartialEq)]
pub struct ParseError {
    pub expected: String,
    pub at: (usize, usize),
    pub line: String,
}

pub type ParseResult<O> = Result<O, ParseError>;

/// The number of line feeds among the characters of `s` strictly before
/// position `x`.
pub open spec fn nl_below(s: Seq<char>, x: int) -> nat
    decreases x,
{
    if x <= 0 {
        0
    } else {
        nl_below(s, x - 1) + (if x - 1 < s.len() && s[x - 1] == '\n' {
            1nat
        } else {
            0nat
        })
    }
}

/// The start of the line containing position `x`: the position right after
/// the closest line feed before `x`, or the start of the text.
pub open spec fn line_start_of(s: Seq<char>, x: int) -> int
    decreases x,
{
    if x <= 0 {
        0
    } else if x - 1 < s.len() && s[x - 1] == '\n' {
        x
    } else {
        line_start_of(s, x - 1)
    }
}

/// The end of the line containing position `x`: the position of the next
/// line feed at or after `x`, or the end of the text.
pub open spec fn line_end_of(s: Seq<char>, x: int) -> int
    decreases s.len() - x,
{
    if x >= s.len() {
        s.len() as int
    } else if s[x] == '\n' {
        x
    } else {
        line_end_of(s, x + 1)
    }
}

/// The 1-based line number of position `x`, held to the machine's range.
pub open spec fn line_no(s: Seq<char>, x: int) -> int {
    if nl_below(s, x) + 1 <= usize::MAX {
        nl_below(s, x) as int + 1
    } else {
        nl_below(s, x) as int
    }
}

/// Counting never passes the end of the text.
proof fn lemma_nl_below_past_end(s: Seq<char>, x: int)
    requires
        x >= s.len(),
    ensures
        nl_below(s, x) == nl_below(s, s.len() as int),
    decreases x,
{
    if x > s.len() {
        lemma_nl_below_past_end(s, x - 1);
    }
}

/// The start of a line lies at or before the position itself.
proof fn lemma_line_start_bounds(s: Seq<char>, x: int)
    requires
        x >= 0,
    ensures
        0 <= line_start_of(s, x) <= x,
    decreases x,
{
    if x > 0 && !(x - 1 < s.len() && s[x - 1] == '\n') {
        lemma_line_start_bounds(s, x - 1);
    }
}

/// The end of a line lies between the position and the end of the text.
proof fn lemma_line_end_bounds(s: Seq<char>, x: int)
    requires
        0 <= x <= s.len(),
    ensures
        x <= line_end_of(s, x) <= s.len(),
    decreases s.len() - x,
{
    if x < s.len() && s[x] != '\n' {
        lemma_line_end_bounds(s, x + 1);
    }
}


/// The length a line terminator occupies at the head of `rest`: nothing at
/// the end of input, a carriage-return line-feed pair, or a line feed alone.
pub open spec fn lineend_len(rest: Seq<char>) -> Option<int> {
    if rest.len() == 0 {
        Some(0)
    } else if rest.len() >= 2 && rest[0] == '\r' && rest[1] == '\n' {
        Some(2)
    } else if rest[0] == '\n' {
        Some(1)
    } else {
        None
    }
}

/// Whether `e` reports an expectation `desc` at position `at` of the text `s`.
pub open spec fn is_error_for(e: ParseError, s: Seq<char>, at: int, desc: Seq<char>) -> bool {
    &&& e.expected@ == desc
    &&& e.at.0 as int == line_no(s, at)
    &&& e.at.1 as int == at - line_start_of(s, at)
    &&& e.line@ == s.subrange(line_start_of(s, at), line_end_of(s, at))
}

/// Whether a run of the sub-parser `p` can succeed with the output `o`:
/// there is a cursor state on which `p`'s own contract admits that outcome.
pub open spec fn may_parse<Out, F: Fn(&mut Input) -> ParseResult<Out>>(p: F, o: Out) -> bool {
    exists|q: &mut Input| call_ensures(p, (q,), Result::<Out, ParseError>::Ok(o))
}

/// Whether a run of the sub-parser `p` can fail: there is a cursor state on
/// which `p`'s own contract admits a failure.
pub open spec fn may_fail<Out, F: Fn(&mut Input) -> ParseResult<Out>>(p: F) -> bool {
    exists|q: &mut Input, res: ParseResult<Out>|
        #![trigger call_ensures(p, (q,), res)]
        call_ensures(p, (q,), res) && res is Err
}

/// A raw-text cursor for recursive-descent parsing with line/column error
/// reporting: the full input and the number of characters consumed so far.
#[derive(Debug)]
pub struct Input {
    input: String,
    consumed: usize,
}

impl Input {
    /// The whole input text.
    pub closed spec fn text(self) -> Seq<char> {
        self.input@
    }

    /// The number of characters consumed so far.
    pub closed spec fn consumed(self) -> usize {
        self.consumed
    }

    #[verifier::type_invariant]
    spec fn wf(self) -> bool {
        self.consumed <= self.input@.len()
    }

    /// The unconsumed remainder of the input.
    pub fn input(&self) -> (r: String)
        ensures
            r@ == self.text().skip(self.consumed() as int),
    {
        proof {
            use_type_invariant(&*self);
        }
        let tl = self.input.as_str().unicode_len();
        self.input.as_str().substring_char(self.consumed, tl).to_owned()
    }

    /// The 0-based index of the line containing position `index`: the number
    /// of line feeds before that position.
    pub fn line_idx(&self, index: usize) -> (r: usize)
        ensures
            r as nat == nl_below(self.text(), index as int),
    {
        let tl = self.input.as_str().unicode_len();
        let m: usize = if index <= tl {
            index
        } else {
            tl
        };
        let mut li: usize = 0;
        let mut p: usize = 0;
        while p < m
            invariant
                m <= tl,
                tl == self.text().len(),
                p <= m,
                li <= p,
                li as nat == nl_below(self.text(), p as int),
            decreases m - p,
        {
            let c = self.input.as_str().get_char(p);
            if c == '\n' {
                li += 1;
            }
            p += 1;
        }
        proof {
            if index > tl {
                lemma_nl_below_past_end(self.text(), index as int);
            }
        }
        li
    }

    /// The 1-based line number, the 0-based column, and the text of the line
    /// containing position `index`.
    pub fn ln_cn_line(&self, index: usize) -> (r: (usize, usize, String))
        requires
            index <= self.text().len(),
        ensures
            r.0 as int == line_no(self.text(), index as int),
            r.1 as int == index - line_start_of(self.text(), index as int),
            r.2@ == self.text().subrange(
                line_start_of(self.text(), index as int),
                line_end_of(self.text(), index as int),
            ),
    {
        let tl = self.input.as_str().unicode_len();
        let mut li: usize = 0;
        let mut start: usize = 0;
        let mut p: usize = 0;
        while p < index
            invariant
                index <= tl,
                tl == self.text().len(),
                p <= index,
                li <= p,
                start <= p,
                li as nat == nl_below(self.text(), p as int),
                start as int == line_start_of(self.text(), p as int),
            decreases index - p,
        {
            let c = self.input.as_str().get_char(p);
            if c == '\n' {
                li += 1;
                start = p + 1;
            }
            p += 1;
        }
        let mut q: usize = index;
        let mut found: bool = false;
        while !found && q < tl
            invariant
                index <= q <= tl,
                tl == self.text().len(),
                line_end_of(self.text(), index as int) == if found {
                    q as int
                } else {
                    line_end_of(self.text(), q as int)
                },
            decreases tl - q, (if found {
                0int
            } else {
                1int
            }),
        {
            if self.input.as_str().get_char(q) == '\n' {
                found = true;
            } else {
                q += 1;
            }
        }
        proof {
            lemma_line_start_bounds(self.text(), index as int);
            lemma_line_end_bounds(self.text(), index as int);
        }
        let ln: usize = if li == usize::MAX {
            li
        } else {
            li + 1
        };
        let line = self.input.as_str().substring_char(start, q).to_owned();
        (ln, index - start, line)
    }


    /// Consumes the longest run of adjacent matches of the pattern.  An empty
    /// run is a failure: a report is returned and nothing is consumed.
    pub fn expect_pattern(&mut self, p: &Pat) -> (r: ParseResult<String>)
        ensures
            final(self).text() == old(self).text(),
            ({
                let rest = old(self).text().skip(old(self).consumed() as int);
                let run = pat_run_len(*p, rest);
                &&& (r is Ok) == (run > 0)
                &&& match r {
                    Ok(s) => {
                        &&& s@ == rest.take(run as int)
                        &&& s@.len() == run
                        &&& final(self).consumed() == old(self).consumed() + run
                        &&& final(self).consumed() <= old(self).text().len()
                    },
                    Err(e) => {
                        &&& final(self).consumed() == old(self).consumed()
                        &&& is_error_for(
                            e,
                            old(self).text(),
                            old(self).consumed() as int,
                            pat_desc(*p),
                        )
                    },
                }
            }),
    {
        proof {
            use_type_invariant(&*self);
        }
        let c0 = self.consumed;
        let tl = self.input.as_str().unicode_len();
        let ghost rest0 = self.text().skip(c0 as int);
        let run = pat_run(p, self.input.as_str(), c0);
        if run > 0 {
            let s = self.input.as_str().substring_char(c0, c0 + run).to_owned();
            proof {
                assert(s@ =~= rest0.take(run as int));
            }
            self.consumed = c0 + run;
            Ok(s)
        } else {
            let desc = pat_desc_string(p);
            let e = self.error(desc.as_str());
            Err(e)
        }
    }

    /// Consumes everything before the first match of the pattern.  When the
    /// pattern matches nowhere, returns the whole remainder but consumes
    /// nothing.  Never fails.
    pub fn expect_antipattern(&mut self, p: &Pat) -> (r: ParseResult<String>)
        ensures
            final(self).text() == old(self).text(),
            r is Ok,
            ({
                let rest = old(self).text().skip(old(self).consumed() as int);
                match pat_find(*p, rest) {
                    Some(j) => r matches Ok(s) && s@ == rest.take(j as int)
                        && final(self).consumed() == old(self).consumed() + j,
                    None => r matches Ok(s) && s@ == rest
                        && final(self).consumed() == old(self).consumed(),
                }
            }),
    {
        proof {
            use_type_invariant(&*self);
        }
        let c0 = self.consumed;
        let tl = self.input.as_str().unicode_len();
        let ghost rest0 = self.text().skip(c0 as int);
        match pat_find_at(p, self.input.as_str(), c0) {
            Some(j) => {
                let s = self.input.as_str().substring_char(c0, c0 + j).to_owned();
                proof {
                    assert(s@ =~= rest0.take(j as int));
                }
                self.consumed = c0 + j;
                Ok(s)
            },
            None => {
                let s = self.input.as_str().substring_char(c0, tl).to_owned();
                proof {
                    assert(s@ =~= rest0);
                }
                Ok(s)
            },
        }
    }

    /// Consumes a line terminator: nothing at the end of input, a
    /// carriage-return line-feed pair, or a line feed alone.
    pub fn expect_lineend(&mut self) -> (r: ParseResult<()>)
        ensures
            final(self).text() == old(self).text(),
            ({
                let rest = old(self).text().skip(old(self).consumed() as int);
                &&& (r is Ok) == (lineend_len(rest) is Some)
                &&& match lineend_len(rest) {
                    Some(n) => final(self).consumed() == old(self).consumed() + n,
                    None => {
                        &&& final(self).consumed() == old(self).consumed()
                        &&& r matches Err(e) && is_error_for(
                            e,
                            old(self).text(),
                            old(self).consumed() as int,
                            "<Newline or EOI>"@,
                        )
                    },
                }
            }),
    {
        proof {
            use_type_invariant(&*self);
        }
        let c0 = self.consumed;
        let tl = self.input.as_str().unicode_len();
        if c0 == tl {
            return Ok(());
        }
        let c = self.input.as_str().get_char(c0);
        if c == '\r' {
            if c0 + 1 < tl && self.input.as_str().get_char(c0 + 1) == '\n' {
                self.consumed = c0 + 2;
                return Ok(());
            }
        } else if c == '\n' {
            self.consumed = c0 + 1;
            return Ok(());
        }
        Err(self.error("<Newline or EOI>"))
    }

    /// Succeeds exactly at the end of the input.
    pub fn expect_eoi(&mut self) -> (r: ParseResult<()>)
        ensures
            final(self).text() == old(self).text(),
            final(self).consumed() == old(self).consumed(),
            (r is Ok) == (old(self).consumed() == old(self).text().len()),
            r matches Err(e) ==> is_error_for(
                e,
                old(self).text(),
                old(self).consumed() as int,
                "<EOI>"@,
            ),
    {
        proof {
            use_type_invariant(&*self);
        }
        let tl = self.input.as_str().unicode_len();
        if self.consumed == tl {
            Ok(())
        } else {
            Err(self.error("<EOI>"))
        }
    }

    /// Consumes a non-empty line: characters up to a line terminator, then
    /// the terminator itself.  The terminator is consumed but not returned.
    pub fn expect_line(&mut self) -> (r: ParseResult<String>)
        ensures
            final(self).text() == old(self).text(),
            ({
                let rest = old(self).text().skip(old(self).consumed() as int);
                let run = pat_run_len(Pat::NotNewline, rest);
                let le = lineend_len(rest.skip(run as int));
                &&& (r is Ok) == (run > 0 && le is Some)
                &&& match r {
                    Ok(s) => {
                        &&& s@ == rest.take(run as int)
                        &&& le matches Some(n) && final(self).consumed() == old(self).consumed()
                            + run + n
                    },
                    Err(e) => {
                        if run == 0 {
                            &&& final(self).consumed() == old(self).consumed()
                            &&& is_error_for(
                                e,
                                old(self).text(),
                                old(self).consumed() as int,
                                pat_desc(Pat::NotNewline),
                            )
                        } else {
                            &&& final(self).consumed() == old(self).consumed() + run
                            &&& is_error_for(
                                e,
                                old(self).text(),
                                old(self).consumed() as int + run,
                                "<Newline or EOI>"@,
                            )
                        }
                    },
                }
            }),
    {
        let ghost rest0 = self.text().skip(self.consumed() as int);
        match self.expect_pattern(&Pat::NotNewline) {
            Ok(s) => {
                proof {
                    assert(self.text().skip(self.consumed() as int) =~= rest0.skip(
                        pat_run_len(Pat::NotNewline, rest0) as int,
                    ));
                }
                match self.expect_lineend() {
                    Ok(_) => Ok(s),
                    Err(e) => Err(e),
                }
            },
            Err(e) => Err(e),
        }
    }

    /// Runs a sub-parser with backtracking: remembers the cursor, and on
    /// failure restores it, so the caller can try an alternative from the
    /// same point.  The remembered cursor is held to the text's length.
    pub fn expect<Out, F: Fn(&mut Self) -> ParseResult<Out>>(&mut self, p: F) -> (r: ParseResult<
        Out,
    >)
        requires
            forall|q: &mut Self| call_requires(p, (q,)),
        ensures
            exists|q: &mut Self|
                {
                    &&& call_ensures(p, (q,), r)
                    &&& *q == *old(self)
                    &&& final(q).text() == final(self).text()
                    &&& (r is Ok ==> *final(q) == *final(self))
                },
            r is Err ==> final(self).consumed() as int == if old(self).consumed()
                <= final(self).text().len() {
                old(self).consumed() as int
            } else {
                final(self).text().len() as int
            },
    {
        let snap = self.consumed;
        let ret = p(self);
        let ghost s1 = *self;
        proof {
            assert(exists|q: &mut Self|
                #![trigger call_ensures(p, (q,), ret)]
                call_ensures(p, (q,), ret) && *q == *old(self) && *final(q) == s1);
        }
        if ret.is_err() {
            let tl = self.input.as_str().unicode_len();
            if snap <= tl {
                self.consumed = snap;
            } else {
                self.consumed = tl;
            }
        }
        proof {
            assert(self.text() == s1.text());
            assert(exists|q: &mut Self|
                #![trigger call_ensures(p, (q,), ret)]
                call_ensures(p, (q,), ret) && *q == *old(self) && final(q).text() == self.text()
                    && (ret is Ok ==> *final(q) == *self));
        }
        ret
    }

    /// Runs the sub-parser repeatedly, collecting its outputs in order,
    /// until it fails; each attempt backtracks like `expect`.  The sub-parser
    /// must leave the text itself alone and must consume input whenever it
    /// succeeds: that is what bounds the repetition.
    pub fn expect_star<Out, F: Fn(&mut Self) -> ParseResult<Out>>(&mut self, p: F) -> (r: Vec<
        Out,
    >)
        requires
            forall|q: &mut Self| call_requires(p, (q,)),
            forall|q: &mut Self, res: ParseResult<Out>| #[trigger] call_ensures(p, (q,), res)
                ==> final(q).text() == (*q).text() && (res is Ok ==> final(q).consumed() > (
            *q).consumed()),
        ensures
            final(self).text() == old(self).text(),
            final(self).consumed() >= old(self).consumed(),
            forall|k: int| 0 <= k < r@.len() ==> may_parse(p, #[trigger] r@[k]),
            may_fail::<Out, F>(p),
    {
        proof {
            use_type_invariant(&*self);
        }
        let mut out: Vec<Out> = Vec::new();
        let mut cont: bool = true;
        while cont
            invariant
                forall|q: &mut Self| call_requires(p, (q,)),
                forall|q: &mut Self, res: ParseResult<Out>| #[trigger] call_ensures(p, (q,), res)
                    ==> final(q).text() == (*q).text() && (res is Ok ==> final(q).consumed() > (
                *q).consumed()),
                self.text() == old(self).text(),
                self.consumed() >= old(self).consumed(),
                self.consumed() <= self.text().len(),
                forall|k: int| 0 <= k < out@.len() ==> may_parse(p, #[trigger] out@[k]),
                !cont ==> may_fail::<Out, F>(p),
            decreases self.text().len() - self.consumed() + (if cont {
                1int
            } else {
                0int
            }),
        {
            let snap = self.consumed;
            let ret = p(self);
            let ghost ret_g = ret;
            proof {
                use_type_invariant(&*self);
            }
            match ret {
                Ok(o) => {
                    out.push(o);
                    proof {
                        assert(ret_g == Result::<Out, ParseError>::Ok(out@[out@.len() - 1]));
                        assert(may_parse(p, out@[out@.len() - 1]));
                    }
                },
                Err(_) => {
                    let tl = self.input.as_str().unicode_len();
                    if snap <= tl {
                        self.consumed = snap;
                    } else {
                        self.consumed = tl;
                    }
                    proof {
                        assert(ret_g is Err);
                        assert(may_fail::<Out, F>(p));
                    }
                    cont = false;
                },
            }
        }
        out
    }

    /// A report that `expected` was expected at the current position.
    pub fn error(&self, expected: &str) -> (r: ParseError)
        ensures
            is_error_for(r, self.text(), self.consumed() as int, expected@),
    {
        proof {
            use_type_invariant(&*self);
        }
        let (ln, cn, line) = self.ln_cn_line(self.consumed);
        ParseError { expected: expected.to_owned(), at: (ln, cn), line }
    }
}

impl<'a> From<&'a str> for Input {
    /// A fresh cursor at the start of the text.
    fn from(s: &'a str) -> (r: Input)
        ensures
            r.text() == s@,
            r.consumed() == 0,
    {
        Input { input: s.to_owned(), consumed: 0 }
    }
}

impl<'a> vstd::std_specs::convert::FromSpecImpl<&'a str> for Input {
    open spec fn obeys_from_spec() -> bool {
        false
    }

    open spec fn from_spec(v: &'a str) -> Input {
        arbitrary()
    }
}

} // verus!
