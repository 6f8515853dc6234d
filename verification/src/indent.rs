use vstd::prelude::*;

use crate::engine::{LexRes, Lexer as LexerTrait};
use crate::pattern::{Pat, pat_run, pat_run_len, class_match, is_ws_char};

verus! {

/// The tokens of the indentation-sensitive lexical layer: indentation going
/// one level deeper or shallower, the separation between lines, a run of
/// blank lines, a control character, or a named tag.
#[derive(Debug, Clone, PartialEq, Eq)]
pub enum Token {
    Indent,
    Dedent,
    Newline,
    BlankLine,
    Control(char),
    Tag(String),
}

/// A line is blank when every character in it is white space.
pub open spec fn is_blank(l: Seq<char>) -> bool {
    forall|i: int| 0 <= i < l.len() ==> is_ws_char(#[trigger] l[i])
}

/// The position of the first line feed in `s`.
pub open spec fn nl_find(s: Seq<char>) -> Option<nat>
    decreases s.len(),
{
    if s.len() == 0 {
        None
    } else if s[0] == '\n' {
        Some(0nat)
    } else {
        match nl_find(s.skip(1)) {
            Some(j) => Some((j + 1) as nat),
            None => None,
        }
    }
}

/// A line with its terminator's carriage return removed.
pub open spec fn strip_cr(l: Seq<char>) -> Seq<char> {
    if l.len() > 0 && l.last() == '\r' {
        l.drop_last()
    } else {
        l
    }
}

/// The input split into lines: split at each line feed, with a carriage
/// return before the line feed removed; a final line without terminator is
/// kept as it stands, and a trailing terminator adds no empty final line.
pub open spec fn lines_of(s: Seq<char>) -> Seq<Seq<char>>
    decreases s.len(),
{
    if s.len() == 0 {
        Seq::empty()
    } else {
        match nl_find(s) {
            Some(i) => if i < s.len() {
                seq![strip_cr(s.take(i as int))] + lines_of(s.skip(i as int + 1))
            } else {
                seq![strip_cr(s)]
            },
            None => seq![s],
        }
    }
}

/// Whether `p` is a prefix of `l`.
pub open spec fn is_prefix(p: Seq<char>, l: Seq<char>) -> bool {
    p.len() <= l.len() && l.take(p.len() as int) == p
}

/// Matches the indentation stack against the start of a line: the number of
/// characters all the stack entries together cover, or `None` at the first
/// entry that is not present.
pub open spec fn stack_match(stack: Seq<Seq<char>>, line: Seq<char>) -> Option<nat>
    decreases stack.len(),
{
    if stack.len() == 0 {
        Some(0nat)
    } else if is_prefix(stack[0], line) {
        match stack_match(stack.skip(1), line.skip(stack[0].len() as int)) {
            Some(n) => Some((stack[0].len() + n) as nat),
            None => None,
        }
    } else {
        None
    }
}

/// The first line at or after `li` that is not blank, or the number of lines.
pub open spec fn skip_blank(lines: Seq<Seq<char>>, li: int) -> int
    decreases lines.len() - li,
{
    if 0 <= li < lines.len() && is_blank(lines[li]) {
        skip_blank(lines, li + 1)
    } else {
        li
    }
}

/// The indentation-sensitive lexical source: the input split into lines, the
/// current line, the stack of open indentation levels, and whether the
/// separation before the current line has been emitted.
pub struct Lexer {
    lines: Vec<String>,
    li: usize,
    indentation: Vec<String>,
    sent_newline: bool,
}

impl Lexer {
    /// The lines of the input.
    pub closed spec fn lines_v(self) -> Seq<Seq<char>> {
        self.lines@.map_values(|l: String| l@)
    }

    /// The index of the current line.
    pub closed spec fn line_idx(self) -> usize {
        self.li
    }

    /// The open indentation levels, outermost first.
    pub closed spec fn indent_v(self) -> Seq<Seq<char>> {
        self.indentation@.map_values(|l: String| l@)
    }

    /// Whether the separation before the current line was already emitted.
    pub closed spec fn sent(self) -> bool {
        self.sent_newline
    }
}

/// What one pull of the lexer emits and how the state moves: past the last
/// line, open indentation levels are closed one by one, then the sequence
/// ends.  Before a line whose separation has not been emitted, a blank line
/// emits one blank-line token and skips to the next non-blank line, any
/// other line emits a newline token.  Otherwise the line's indentation is
/// matched against the stack: a missing level closes the deepest open level,
/// further whitespace opens a new level, and the rest of the line is emitted
/// as text.
pub open spec fn next_rel(pre: Lexer, post: Lexer, r: Option<LexRes<Token, ()>>) -> bool {
    let lines = pre.lines_v();
    let li = pre.line_idx() as int;
    if li >= lines.len() {
        if pre.indent_v().len() > 0 {
            &&& r == Some(LexRes::<Token, ()>::Token(Token::Dedent))
            &&& post.indent_v() == pre.indent_v().drop_last()
            &&& post.lines_v() == lines
            &&& post.line_idx() == pre.line_idx()
            &&& post.sent() == pre.sent()
        } else {
            &&& r is None
            &&& post.lines_v() == lines
            &&& post.line_idx() == pre.line_idx()
            &&& post.indent_v() == pre.indent_v()
            &&& post.sent() == pre.sent()
        }
    } else if !pre.sent() {
        &&& post.sent()
        &&& post.lines_v() == lines
        &&& post.indent_v() == pre.indent_v()
        &&& if is_blank(lines[li]) {
            &&& r == Some(LexRes::<Token, ()>::Token(Token::BlankLine))
            &&& post.line_idx() as int == skip_blank(lines, li)
        } else {
            &&& r == Some(LexRes::<Token, ()>::Token(Token::Newline))
            &&& post.line_idx() == pre.line_idx()
        }
    } else {
        let line = lines[li];
        match stack_match(pre.indent_v(), line) {
            None => {
                &&& r == Some(LexRes::<Token, ()>::Token(Token::Dedent))
                &&& post.indent_v() == pre.indent_v().drop_last()
                &&& post.lines_v() == lines
                &&& post.line_idx() == pre.line_idx()
                &&& post.sent() == pre.sent()
            },
            Some(off) => {
                let w = pat_run_len(Pat::Whitespace, line.skip(off as int));
                if w > 0 {
                    &&& r == Some(LexRes::<Token, ()>::Token(Token::Indent))
                    &&& post.indent_v() == pre.indent_v().push(
                        line.subrange(off as int, off as int + w as int),
                    )
                    &&& post.lines_v() == lines
                    &&& post.line_idx() == pre.line_idx()
                    &&& post.sent() == pre.sent()
                } else {
                    &&& r matches Some(LexRes::Text(t)) && t@ == line.skip(off as int)
                    &&& post.line_idx() == pre.line_idx() + 1
                    &&& !post.sent()
                    &&& post.lines_v() == lines
                    &&& post.indent_v() == pre.indent_v()
                }
            },
        }
    }
}

/// Whether every character of `l` is whitespace.
fn is_blank_line(l: &str) -> (r: bool)
    ensures
        r == is_blank(l@),
{
    let tl = l.unicode_len();
    let mut i: usize = 0;
    while i < tl
        invariant
            i <= tl,
            tl == l@.len(),
            forall|k: int| 0 <= k < i ==> is_ws_char(#[trigger] l@[k]),
        decreases tl - i,
    {
        let c = l.get_char(i);
        if !class_match(&Pat::Whitespace, c) {
            return false;
        }
        i += 1;
    }
    true
}

/// Whether `p`'s characters stand in `l` starting at `off`.
fn has_prefix_at(l: &str, off: usize, p: &str) -> (r: bool)
    requires
        off <= l@.len(),
    ensures
        r == is_prefix(p@, l@.skip(off as int)),
{
    let pl = p.unicode_len();
    let ll = l.unicode_len();
    if pl > ll - off {
        return false;
    }
    let ghost rest = l@.skip(off as int);
    let mut k: usize = 0;
    while k < pl
        invariant
            off + pl <= ll,
            ll == l@.len(),
            pl == p@.len(),
            k <= pl,
            rest == l@.skip(off as int),
            forall|j: int| 0 <= j < k ==> rest[j] == p@[j],
        decreases pl - k,
    {
        if l.get_char(off + k) != p.get_char(k) {
            proof {
                assert(rest[k as int] == l@[off + k]);
                assert(rest.take(pl as int)[k as int] == rest[k as int]);
                assert(rest.take(pl as int) != p@);
            }
            return false;
        }
        k += 1;
    }
    proof {
        assert(rest.take(pl as int) =~= p@);
    }
    true
}

impl LexerTrait<Token, ()> for Lexer {
    /// A fresh source stands before the first line of the split input, with
    /// no open indentation and the first line's separation counted as
    /// already emitted.
    open spec fn fresh(s: Seq<char>, l: Lexer) -> bool {
        &&& l.lines_v() == lines_of(s)
        &&& l.line_idx() == 0
        &&& l.indent_v() == Seq::<Seq<char>>::empty()
        &&& l.sent()
    }

    /// One pull follows the transition relation `next_rel`.
    open spec fn emits(pre: Lexer, post: Lexer, r: Option<LexRes<Token, ()>>) -> bool {
        next_rel(pre, post, r)
    }

    /// Splits the input into lines and stands before the first of them.
    fn new(s: &str) -> (r: Lexer) {
        let tl = s.unicode_len();
        let mut lines: Vec<String> = Vec::new();
        let mut pos: usize = 0;
        proof {
            assert(s@.skip(0) =~= s@);
            assert(lines@.map_values(|l: String| l@) + lines_of(s@.skip(0)) =~= lines_of(s@));
        }
        while pos < tl
            invariant
                pos <= tl,
                tl == s@.len(),
                lines@.map_values(|l: String| l@) + lines_of(s@.skip(pos as int)) == lines_of(s@),
            decreases tl - pos,
        {
            let ghost lines0 = lines@;
            let ghost w = s@.skip(pos as int);
            let mut j: usize = pos;
            let mut found: bool = false;
            while !found && j < tl
                invariant
                    pos <= j <= tl,
                    tl == s@.len(),
                    w == s@.skip(pos as int),
                    found ==> j < tl && s@[j as int] == '\n',
                    forall|k: int| pos <= k < j ==> s@[k] != '\n',
                    found ==> nl_find(w) == Some((j - pos) as nat),
                    !found ==> match nl_find(s@.skip(j as int)) {
                        Some(m) => nl_find(w) == Some((j - pos + m) as nat),
                        None => nl_find(w) is None,
                    },
                decreases tl - j, (if found {
                    0int
                } else {
                    1int
                }),
            {
                if s.get_char(j) == '\n' {
                    found = true;
                    proof {
                        assert(s@.skip(j as int)[0] == s@[j as int]);
                    }
                } else {
                    proof {
                        assert(s@.skip(j as int)[0] == s@[j as int]);
                        assert(s@.skip(j as int).skip(1) =~= s@.skip(j as int + 1));
                    }
                    j += 1;
                }
            }
            if found {
                let mut end = j;
                if end > pos && s.get_char(end - 1) == '\r' {
                    end -= 1;
                }
                let seg = s.substring_char(pos, end).to_owned();
                proof {
                    let raw = w.take((j - pos) as int);
                    assert(raw =~= s@.subrange(pos as int, j as int));
                    if j > pos && s@[j - 1] == '\r' {
                        assert(raw.last() == s@[j - 1]);
                        assert(strip_cr(raw) =~= s@.subrange(pos as int, j - 1));
                    } else {
                        if raw.len() > 0 {
                            assert(raw.last() == s@[j - 1]);
                        }
                        assert(strip_cr(raw) =~= s@.subrange(pos as int, j as int));
                    }
                    assert(seg@ == strip_cr(raw));
                }
                lines.push(seg);
                proof {
                    assert(w.skip((j - pos) as int + 1) =~= s@.skip(j as int + 1));
                    assert(lines_of(w) == seq![strip_cr(w.take((j - pos) as int))] + lines_of(
                        s@.skip(j as int + 1),
                    ));
                    assert(lines@.map_values(|l: String| l@) =~= lines0.map_values(
                        |l: String| l@,
                    ) + seq![seg@]);
                    assert(lines@.map_values(|l: String| l@) + lines_of(s@.skip(j as int + 1))
                        =~= lines0.map_values(|l: String| l@) + lines_of(w));
                }
                pos = j + 1;
            } else {
                let seg = s.substring_char(pos, tl).to_owned();
                proof {
                    assert(seg@ =~= w);
                    assert(lines_of(w) == seq![w]);
                    assert(lines@.push(seg).map_values(|l: String| l@) =~= lines0.map_values(
                        |l: String| l@,
                    ) + seq![seg@]);
                    assert(s@.skip(tl as int) =~= Seq::<char>::empty());
                    assert(lines@.push(seg).map_values(|l: String| l@) + lines_of(
                        s@.skip(tl as int),
                    ) =~= lines0.map_values(|l: String| l@) + lines_of(w));
                }
                lines.push(seg);
                pos = tl;
            }
        }
        proof {
            assert(s@.skip(tl as int) =~= Seq::<char>::empty());
        }
        let r = Lexer { lines, li: 0, indentation: Vec::new(), sent_newline: true };
        proof {
            assert(r.lines_v() =~= lines_of(s@));
            assert(r.indent_v() =~= Seq::<Seq<char>>::empty());
        }
        r
    }

    /// One pull: see `next_rel` for the transition this emits.
    fn next(&mut self) -> (r: Option<LexRes<Token, ()>>) {
        let nlines = self.lines.len();
        if self.li >= nlines {
            if self.indentation.len() > 0 {
                self.indentation.pop();
                proof {
                    assert(self.indent_v() =~= old(self).indent_v().drop_last());
                }
                return Some(LexRes::Token(Token::Dedent));
            }
            return None;
        }
        if !self.sent_newline {
            self.sent_newline = true;
            if is_blank_line(self.lines[self.li].as_str()) {
                while self.li < nlines && is_blank_line(self.lines[self.li].as_str())
                    invariant
                        nlines == self.lines_v().len(),
                        self.li <= nlines,
                        skip_blank(self.lines_v(), old(self).line_idx() as int) == skip_blank(
                            self.lines_v(),
                            self.li as int,
                        ),
                        self.lines_v() == old(self).lines_v(),
                        self.indentation@ == old(self).indentation@,
                        self.sent_newline,
                    decreases nlines - self.li,
                {
                    self.li = self.li + 1;
                }
                return Some(LexRes::Token(Token::BlankLine));
            }
            return Some(LexRes::Token(Token::Newline));
        }
        let ghost line = self.lines_v()[self.li as int];
        let ghost stack = self.indent_v();
        let nstack = self.indentation.len();
        let mut off: usize = 0;
        let mut d: usize = 0;
        proof {
            assert(line.skip(0) =~= line);
            assert(stack.skip(0) =~= stack);
        }
        while d < nstack
            invariant
                nstack == stack.len(),
                d <= nstack,
                stack == self.indent_v(),
                line == self.lines_v()[self.li as int],
                self.li < self.lines_v().len(),
                nlines == self.lines_v().len(),
                self.li < nlines,
                off <= line.len(),
                self.sent_newline,
                match stack_match(stack.skip(d as int), line.skip(off as int)) {
                    Some(n) => stack_match(stack, line) == Some((off + n) as nat),
                    None => stack_match(stack, line) is None,
                },
                *self == *old(self),
            decreases nstack - d,
        {
            let ll = self.lines[self.li].as_str().unicode_len();
            let pl = self.indentation[d].as_str().unicode_len();
            let matched = has_prefix_at(
                self.lines[self.li].as_str(),
                off,
                self.indentation[d].as_str(),
            );
            if !matched {
                proof {
                    assert(stack.skip(d as int)[0] == stack[d as int]);
                    assert(stack_match(stack, line) is None);
                }
                self.indentation.pop();
                proof {
                    assert(self.indent_v() =~= old(self).indent_v().drop_last());
                }
                return Some(LexRes::Token(Token::Dedent));
            }
            proof {
                assert(stack.skip(d as int)[0] == stack[d as int]);
                assert(stack.skip(d as int).skip(1) =~= stack.skip(d as int + 1));
                assert(line.skip(off as int).skip(stack[d as int].len() as int) =~= line.skip(
                    off + stack[d as int].len(),
                ));
            }
            off = off + pl;
            d += 1;
        }
        proof {
            assert(stack.skip(nstack as int) =~= Seq::<Seq<char>>::empty());
            assert(stack_match(stack, line) == Some(off as nat));
        }
        let lln = self.lines[self.li].as_str().unicode_len();
        let w = pat_run(&Pat::Whitespace, self.lines[self.li].as_str(), off);
        if w > 0 {
            let ind = self.lines[self.li].as_str().substring_char(off, off + w).to_owned();
            proof {
                assert(ind@ =~= line.subrange(off as int, off + w));
                assert(self.indent_v().push(ind@) =~= self.indentation@.push(ind).map_values(
                    |l: String| l@,
                ));
            }
            self.indentation.push(ind);
            return Some(LexRes::Token(Token::Indent));
        }
        let ll = self.lines[self.li].as_str().unicode_len();
        let text = self.lines[self.li].as_str().substring_char(off, ll).to_owned();
        proof {
            assert(text@ =~= line.skip(off as int));
        }
        self.sent_newline = false;
        self.li = self.li + 1;
        Some(LexRes::Text(text))
    }
}

} // verus!
