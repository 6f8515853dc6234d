use vstd::prelude::*;
use vstd::pervasive::cloned;
use vstd::std_specs::cmp::PartialEqSpec;

use crate::pattern::{Pat, pat_match, pat_match_len, pat_desc, pat_desc_string};

verus! {

broadcast use vstd::seq_lib::group_seq_lib_default;

/// One unit of lexical input: raw text open to pattern matching, a discrete
/// token, or a tokenization failure.
#[derive(Debug, Clone, PartialEq)]
pub enum LexRes<S, E> {
    Text(String),
    Token(S),
    LexError(E),
}

/// A source of lexical items.  The engine pulls items strictly forward, one at
/// a time, and caches every item it has seen, so a source need not be
/// rewindable.  After the source first returns `None` the engine never asks it
/// again.  Each source says in `fresh` what state building it establishes and
/// in `emits` what one pull emits and how its state moves; the engine's
/// contracts thread these through, so whatever a concrete source pins down,
/// a caller of the engine can recover.
pub trait Lexer<T, E>: Sized {
    /// The state a fresh source over the input text `s` is in.  A source
    /// that promises nothing leaves the default, which holds always.
    open spec fn fresh(s: Seq<char>, l: Self) -> bool {
        true
    }

    /// What one pull emits and how the state moves from `pre` to `post`.  A
    /// source that promises nothing leaves the default, which holds always.
    open spec fn emits(pre: Self, post: Self, r: Option<LexRes<T, E>>) -> bool {
        true
    }

    /// Builds the source over the whole input text.
    fn new(s: &str) -> (r: Self)
        ensures
            Self::fresh(s@, r),
    ;

    /// The next lexical item, or `None` when the input is exhausted.
    fn next(&mut self) -> (r: Option<LexRes<T, E>>)
        ensures
            Self::emits(*old(self), *final(self), r),
    ;
}

/// The degenerate source for grammars with no token layer: emits the whole
/// input as a single text item, then ends.  An empty input emits nothing.
pub struct NoLex {
    text: String,
    emitted: bool,
}

impl NoLex {
    /// The input text this source was built over.
    pub closed spec fn text_v(self) -> Seq<char> {
        self.text@
    }

    /// Whether the single text item was already emitted.
    pub closed spec fn emitted_v(self) -> bool {
        self.emitted
    }
}

impl Lexer<(), ()> for NoLex {
    /// A fresh source holds the whole input, not yet emitted.
    open spec fn fresh(s: Seq<char>, l: NoLex) -> bool {
        l.text_v() == s && !l.emitted_v()
    }

    /// The first pull over a non-empty input emits the whole input as one
    /// text item; every later pull, and any pull over an empty input, ends
    /// the sequence.
    open spec fn emits(pre: NoLex, post: NoLex, r: Option<LexRes<(), ()>>) -> bool {
        &&& post.text_v() == pre.text_v()
        &&& match r {
            Some(item) => {
                &&& !pre.emitted_v() && pre.text_v().len() > 0
                &&& item matches LexRes::Text(t) && t@ == pre.text_v()
                &&& post.emitted_v()
            },
            None => {
                &&& pre.emitted_v() || pre.text_v().len() == 0
                &&& post.emitted_v() == pre.emitted_v()
            },
        }
    }

    fn new(s: &str) -> (r: Self) {
        NoLex { text: s.to_owned(), emitted: false }
    }

    fn next(&mut self) -> (r: Option<LexRes<(), ()>>) {
        if !self.emitted && self.text.as_str().unicode_len() > 0 {
            self.emitted = true;
            Some(LexRes::Text(self.text.clone()))
        } else {
            None
        }
    }
}

/// What a failed primitive matcher expected at the position it failed.
#[derive(Debug, Clone, PartialEq)]
pub enum ParseError<T, E> {
    /// The lexical source itself reported a failure item at this position.
    LexError { e: E },
    /// A token match failed: this token was expected.
    ExpectedToken { expected: T },
    /// A pattern match failed: a pattern with this description was expected.
    ExpectedPattern { pattern: String },
}

/// One record of the memoization cache: the outcome of running the rule with
/// identity `rule` at position `(start_index, start_consumed)`.  `None` as the
/// outcome records a failure; a success records the position reached and the
/// output produced.
pub struct MemoEntry<O> {
    pub start_index: usize,
    pub start_consumed: usize,
    pub rule: u64,
    pub outcome: Option<(usize, usize, O)>,
}

/// The first recorded outcome for the key `(i, c, rule)`, scanning the log
/// from the front, or `None` when the key was never recorded.
pub open spec fn find_memo<O>(log: Seq<MemoEntry<O>>, i: usize, c: usize, rule: u64) -> Option<
    Option<(usize, usize, O)>,
>
    decreases log.len(),
{
    if log.len() == 0 {
        None
    } else if log[0].start_index == i && log[0].start_consumed == c && log[0].rule == rule {
        Some(log[0].outcome)
    } else {
        find_memo(log.skip(1), i, c, rule)
    }
}

/// Whether a memo record is for the key `(i, c, rule)`.
pub open spec fn key_matches<O>(e: MemoEntry<O>, i: usize, c: usize, rule: u64) -> bool {
    e.start_index == i && e.start_consumed == c && e.rule == rule
}

/// When the records before `j` are all for other keys and the record at `j`
/// is for this key, the lookup finds exactly the record at `j`.
proof fn lemma_find_memo_at<O>(log: Seq<MemoEntry<O>>, i: usize, c: usize, rule: u64, j: int)
    requires
        0 <= j < log.len(),
        key_matches(log[j], i, c, rule),
        forall|k: int| 0 <= k < j ==> !key_matches(#[trigger] log[k], i, c, rule),
    ensures
        find_memo(log, i, c, rule) == Some(log[j].outcome),
    decreases j,
{
    if j == 0 {
    } else {
        assert(!key_matches(log[0], i, c, rule));
        assert(log.skip(1)[j - 1] == log[j]);
        assert(forall|k: int|
            0 <= k < j - 1 ==> !key_matches(#[trigger] log.skip(1)[k], i, c, rule)) by {
            assert(forall|k: int| 0 <= k < j - 1 ==> log.skip(1)[k] == log[k + 1]);
        }
        lemma_find_memo_at(log.skip(1), i, c, rule, j - 1);
    }
}

/// When no record is for the key, the lookup finds nothing.
proof fn lemma_find_memo_none<O>(log: Seq<MemoEntry<O>>, i: usize, c: usize, rule: u64)
    requires
        forall|k: int| 0 <= k < log.len() ==> !key_matches(#[trigger] log[k], i, c, rule),
    ensures
        find_memo(log, i, c, rule) is None,
    decreases log.len(),
{
    if log.len() == 0 {
    } else {
        assert(!key_matches(log[0], i, c, rule));
        assert(forall|k: int|
            0 <= k < log.len() - 1 ==> !key_matches(#[trigger] log.skip(1)[k], i, c, rule)) by {
            assert(forall|k: int| 0 <= k < log.len() - 1 ==> log.skip(1)[k] == log[k + 1]);
        }
        lemma_find_memo_none(log.skip(1), i, c, rule);
    }
}

/// Appending a record for another key leaves a lookup unchanged.
proof fn lemma_find_memo_push_other<O>(
    log: Seq<MemoEntry<O>>,
    e: MemoEntry<O>,
    i: usize,
    c: usize,
    rule: u64,
)
    requires
        !key_matches(e, i, c, rule),
    ensures
        find_memo(log.push(e), i, c, rule) == find_memo(log, i, c, rule),
    decreases log.len(),
{
    if log.len() == 0 {
        assert(log.push(e)[0] == e);
        assert(log.push(e).skip(1) =~= Seq::<MemoEntry<O>>::empty());
        assert(find_memo(log.push(e), i, c, rule) == find_memo(
            Seq::<MemoEntry<O>>::empty(),
            i,
            c,
            rule,
        ));
    } else {
        assert(log.push(e)[0] == log[0]);
        assert(log.push(e).skip(1) =~= log.skip(1).push(e));
        lemma_find_memo_push_other(log.skip(1), e, i, c, rule);
        if key_matches(log[0], i, c, rule) {
            assert(find_memo(log.push(e), i, c, rule) == Some(log[0].outcome));
        } else {
            assert(find_memo(log.push(e), i, c, rule) == find_memo(
                log.skip(1).push(e),
                i,
                c,
                rule,
            ));
        }
    }
}

/// Overwriting a record with one for the same key leaves a lookup for any
/// other key unchanged.
proof fn lemma_find_memo_update_other<O>(
    log: Seq<MemoEntry<O>>,
    j: int,
    e: MemoEntry<O>,
    i: usize,
    c: usize,
    rule: u64,
)
    requires
        0 <= j < log.len(),
        !key_matches(log[j], i, c, rule),
        !key_matches(e, i, c, rule),
    ensures
        find_memo(log.update(j, e), i, c, rule) == find_memo(log, i, c, rule),
    decreases j,
{
    if j == 0 {
        assert(log.update(0, e)[0] == e);
        assert(log.update(0, e).skip(1) =~= log.skip(1));
    } else {
        assert(log.update(j, e)[0] == log[0]);
        assert(log.update(j, e).skip(1) =~= log.skip(1).update(j - 1, e));
        assert(log.skip(1)[j - 1] == log[j]);
        lemma_find_memo_update_other(log.skip(1), j - 1, e, i, c, rule);
    }
}

/// One step of cursor normalization: a text item is exhausted, and advanced
/// past, exactly when the consumed length has reached the item's length.
/// Token and error items are never advanced past here (only `etok` does).
pub open spec fn skips_exhausted<T, E>(items: Seq<LexRes<T, E>>, i: usize, c: usize) -> bool {
    i < items.len() && (items[i as int] matches LexRes::Text(t) && c >= t@.len())
}

/// The item index after one normalization step.
pub open spec fn norm_index<T, E>(items: Seq<LexRes<T, E>>, i: usize, c: usize) -> int {
    if skips_exhausted(items, i, c) {
        i + 1
    } else {
        i as int
    }
}

/// The intra-item offset after one normalization step.
pub open spec fn norm_consumed<T, E>(items: Seq<LexRes<T, E>>, i: usize, c: usize) -> int {
    if skips_exhausted(items, i, c) {
        0
    } else {
        c as int
    }
}

/// The unconsumed tail of a text item at offset `c`; empty when the offset is
/// out of range.
pub open spec fn text_rest(t: Seq<char>, c: int) -> Seq<char> {
    if 0 <= c && c <= t.len() {
        t.skip(c)
    } else {
        Seq::empty()
    }
}

/// How one engine step may move the lexical source and the item cache: they
/// stay untouched; or, when the source had not ended, one emitted item is
/// appended at the frontier (the cursor then stands on it); or the source
/// reports its end and the end flag is set.  Threading the source's `emits`
/// relation here lets a caller recover, from a concrete source's contract,
/// exactly which item each pull contributed.
pub open spec fn source_step<L, T, E, O>(pre: PackRat<L, T, E, O>, post: PackRat<L, T, E, O>) -> bool
    where L: Lexer<T, E>, T: Copy + PartialEq, E: Copy, O: Clone
{
    ||| {
        &&& post.lexer_v() == pre.lexer_v()
        &&& post.lex_done() == pre.lex_done()
        &&& post.items() == pre.items()
    }
    ||| {
        &&& !pre.lex_done() && post.lex_done() == pre.lex_done()
        &&& post.items().len() == pre.items().len() + 1
        &&& post.items().take(pre.items().len() as int) == pre.items()
        &&& L::emits(pre.lexer_v(), post.lexer_v(), Some(post.items().last()))
    }
    ||| {
        &&& !pre.lex_done() && post.lex_done()
        &&& post.items() == pre.items()
        &&& L::emits(pre.lexer_v(), post.lexer_v(), None)
    }
}

/// The memoizing backtracking parser state: the lexical source with the items
/// already pulled from it, the cursor, the memoization cache, and the
/// diagnostics ledger.  Exactly one exists per parse run, passed by mutable
/// reference into every matcher and combinator.
pub struct PackRat<L, T, E, O> {
    lexer: L,
    done: bool,
    tokens: Vec<LexRes<T, E>>,
    tokens_index: usize,
    str_consumed: usize,
    errors: Vec<(usize, usize, ParseError<T, E>)>,
    memo: Vec<MemoEntry<O>>,
}

impl<L, T, E, O> PackRat<L, T, E, O> where L: Lexer<T, E>, T: Copy + PartialEq, E: Copy, O: Clone {
    /// The lexical items observed so far, in order.
    pub closed spec fn items(self) -> Seq<LexRes<T, E>> {
        self.tokens@
    }

    /// The cursor: index of the current item.
    pub closed spec fn item_index(self) -> usize {
        self.tokens_index
    }

    /// The cursor: characters consumed within the current text item.
    pub closed spec fn consumed(self) -> usize {
        self.str_consumed
    }

    /// The diagnostics ledger: every primitive-matcher failure recorded so
    /// far, as (item index, offset, expectation).
    pub closed spec fn diags(self) -> Seq<(usize, usize, ParseError<T, E>)> {
        self.errors@
    }

    /// The memoization log.
    pub closed spec fn memo_log(self) -> Seq<MemoEntry<O>> {
        self.memo@
    }

    /// Whether the lexical source has reported the end of the input.
    pub closed spec fn lex_done(self) -> bool {
        self.done
    }

    /// The lexical source's own state, for reasoning through its `Lexer`
    /// contract.
    pub closed spec fn lexer_v(self) -> L {
        self.lexer
    }

    /// A fresh engine over the input text: nothing pulled, cursor at the
    /// start, no memo entries, no diagnostics.
    pub fn new(s: &str) -> (r: Self)
        ensures
            r.items() == Seq::<LexRes<T, E>>::empty(),
            r.item_index() == 0,
            r.consumed() == 0,
            r.diags() == Seq::<(usize, usize, ParseError<T, E>)>::empty(),
            r.memo_log() == Seq::<MemoEntry<O>>::empty(),
            !r.lex_done(),
            L::fresh(s@, r.lexer_v()),
    {
        PackRat {
            lexer: L::new(s),
            done: false,
            tokens: Vec::new(),
            tokens_index: 0,
            str_consumed: 0,
            errors: Vec::new(),
            memo: Vec::new(),
        }
    }

    /// Normalizes the cursor past an exhausted text item and pulls one more
    /// item from the source when the cursor sits at the frontier.  Returns
    /// whether an item is available at the cursor.
    #[verifier::rlimit(30)]
    fn fetch(&mut self) -> (r: bool)
        ensures
            final(self).items().len() >= old(self).items().len(),
            final(self).items().len() <= old(self).items().len() + 1,
            final(self).items().take(old(self).items().len() as int) == old(self).items(),
            final(self).diags() == old(self).diags(),
            final(self).memo_log() == old(self).memo_log(),
            final(self).item_index() as int == norm_index(
                old(self).items(),
                old(self).item_index(),
                old(self).consumed(),
            ),
            final(self).consumed() as int == if final(self).items().len() > old(
                self,
            ).items().len() {
                0int
            } else {
                norm_consumed(old(self).items(), old(self).item_index(), old(self).consumed())
            },
            final(self).items().len() > old(self).items().len() ==> final(self).item_index() + 1
                == final(self).items().len(),
            r == (final(self).item_index() < final(self).items().len()),
            (!r && final(self).item_index() == final(self).items().len())
                ==> final(self).lex_done(),
            source_step(*old(self), *final(self)),
    {
        if self.tokens_index < self.tokens.len() {
            let advance: bool = match &self.tokens[self.tokens_index] {
                LexRes::Text(t) => self.str_consumed >= t.as_str().unicode_len(),
                _ => false,
            };
            if advance {
                self.str_consumed = 0;
                self.tokens_index = self.tokens_index + 1;
            }
        }
        if self.tokens_index == self.tokens.len() && !self.done {
            match self.lexer.next() {
                Some(item) => {
                    self.tokens.push(item);
                    self.str_consumed = 0;
                },
                None => {
                    self.done = true;
                },
            }
        }
        proof {
            assert(self.items().take(old(self).items().len() as int) =~= old(self).items());
            if self.items().len() > old(self).items().len() {
                assert(self.items().last() == self.items()[old(self).items().len() as int]);
            }
            assert(source_step(*old(self), *self));
        }
        self.tokens_index < self.tokens.len()
    }

    /// Pattern match: consumes the longest matching prefix of the current
    /// text item.  On success advances the cursor by the match length and
    /// returns the matched slice; on failure leaves the cursor where the
    /// fetch normalized it and appends one diagnostic.  A zero-width match is
    /// a failure, so a success always consumes input.
    pub fn epat(&mut self, pat: &Pat) -> (r: Option<String>)
        ensures
            final(self).items().len() >= old(self).items().len(),
            final(self).items().len() <= old(self).items().len() + 1,
            final(self).items().take(old(self).items().len() as int) == old(self).items(),
            final(self).memo_log() == old(self).memo_log(),
            source_step(*old(self), *final(self)),
            ({
                let fi = norm_index(old(self).items(), old(self).item_index(), old(self).consumed());
                let fc = if final(self).items().len() > old(self).items().len() {
                    0int
                } else {
                    norm_consumed(old(self).items(), old(self).item_index(), old(self).consumed())
                };
                let avail = fi < final(self).items().len();
                let mtch = if avail && final(self).items()[fi] is Text {
                    pat_match_len(*pat, text_rest(final(self).items()[fi]->Text_0@, fc))
                } else {
                    None
                };
                &&& final(self).items().len() > old(self).items().len()
                    ==> fi + 1 == final(self).items().len()
                &&& !avail ==> fi > final(self).items().len() || final(self).lex_done()
                &&& final(self).item_index() as int == fi
                &&& match r {
                    Some(s) => {
                        &&& avail && final(self).items()[fi] is Text
                        &&& mtch == Some(s@.len())
                        &&& s@.len() > 0
                        &&& s@ == final(self).items()[fi]->Text_0@.subrange(fc, fc + s@.len())
                        &&& final(self).consumed() as int == fc + s@.len()
                        &&& final(self).diags() == old(self).diags()
                    },
                    None => {
                        &&& mtch is None
                        &&& final(self).consumed() as int == fc
                        &&& final(self).diags() == old(self).diags().push(
                            final(self).diags().last(),
                        )
                        &&& ({
                            let d = final(self).diags().last();
                            &&& d.0 as int == fi
                            &&& d.1 as int == fc
                            &&& match d.2 {
                                ParseError::LexError { e } => avail && (final(self).items()[fi]
                                    matches LexRes::LexError(e2) && e == e2),
                                ParseError::ExpectedPattern { pattern } => {
                                    &&& pattern@ == pat_desc(*pat)
                                    &&& !(avail && final(self).items()[fi] is LexError)
                                },
                                ParseError::ExpectedToken { .. } => false,
                            }
                        })
                    },
                }
            }),
    {
        let available = self.fetch();
        if !available {
            let i = self.tokens_index;
            let c = self.str_consumed;
            self.errors.push((i, c, ParseError::ExpectedPattern { pattern: pat_desc_string(pat) }));
            return None;
        }
        let idx = self.tokens_index;
        let off = self.str_consumed;
        let mut lex_err: Option<E> = None;
        let mut matched: Option<(String, usize)> = None;
        match &self.tokens[idx] {
            LexRes::Text(t) => {
                let ts = t.as_str();
                let tl = ts.unicode_len();
                if off <= tl {
                    match pat_match(pat, ts, off) {
                        Some(m) => {
                            let s = ts.substring_char(off, off + m).to_owned();
                            matched = Some((s, m));
                        },
                        None => {},
                    }
                }
            },
            LexRes::Token(_) => {},
            LexRes::LexError(e) => {
                lex_err = Some(*e);
            },
        }
        match matched {
            Some((s, m)) => {
                self.str_consumed = off + m;
                Some(s)
            },
            None => {
                let d = match lex_err {
                    Some(e) => ParseError::LexError { e },
                    None => ParseError::ExpectedPattern { pattern: pat_desc_string(pat) },
                };
                self.errors.push((idx, off, d));
                None
            },
        }
    }

    /// Token match: compares the expected token against the current item.  On
    /// a match advances past the token and returns it; on failure leaves the
    /// cursor where the fetch normalized it and appends one diagnostic.  A
    /// token can be matched only when the cursor sits exactly at a token
    /// item: text must be fully drained first.
    pub fn etok(&mut self, tok: T) -> (r: Option<T>)
        ensures
            final(self).items().len() >= old(self).items().len(),
            final(self).items().len() <= old(self).items().len() + 1,
            final(self).items().take(old(self).items().len() as int) == old(self).items(),
            final(self).memo_log() == old(self).memo_log(),
            source_step(*old(self), *final(self)),
            ({
                let fi = norm_index(old(self).items(), old(self).item_index(), old(self).consumed());
                let fc = if final(self).items().len() > old(self).items().len() {
                    0int
                } else {
                    norm_consumed(old(self).items(), old(self).item_index(), old(self).consumed())
                };
                let avail = fi < final(self).items().len();
                &&& final(self).items().len() > old(self).items().len()
                    ==> fi + 1 == final(self).items().len()
                &&& !avail ==> fi > final(self).items().len() || final(self).lex_done()
                &&& match r {
                    Some(t) => {
                        &&& avail && (final(self).items()[fi] matches LexRes::Token(t2) && t == t2)
                        &&& final(self).item_index() as int == fi + 1
                        &&& final(self).consumed() as int == fc
                        &&& final(self).diags() == old(self).diags()
                    },
                    None => {
                        &&& final(self).item_index() as int == fi
                        &&& final(self).consumed() as int == fc
                        &&& final(self).diags() == old(self).diags().push(
                            final(self).diags().last(),
                        )
                        &&& ({
                            let d = final(self).diags().last();
                            &&& d.0 as int == fi
                            &&& d.1 as int == fc
                            &&& match d.2 {
                                ParseError::LexError { e } => avail && (final(self).items()[fi]
                                    matches LexRes::LexError(e2) && e == e2),
                                ParseError::ExpectedToken { expected } => {
                                    &&& expected == tok
                                    &&& !(avail && final(self).items()[fi] is LexError)
                                },
                                ParseError::ExpectedPattern { .. } => false,
                            }
                        })
                    },
                }
                &&& T::obeys_eq_spec() ==> ((r is Some) == (avail && (final(self).items()[fi]
                    matches LexRes::Token(t2) && tok.eq_spec(&t2))))
            }),
    {
        let available = self.fetch();
        if !available {
            let i = self.tokens_index;
            let c = self.str_consumed;
            self.errors.push((i, c, ParseError::ExpectedToken { expected: tok }));
            return None;
        }
        let idx = self.tokens_index;
        let off = self.str_consumed;
        let mut cur: Option<T> = None;
        let mut lex_err: Option<E> = None;
        match &self.tokens[idx] {
            LexRes::Token(t) => {
                cur = Some(*t);
            },
            LexRes::LexError(e) => {
                lex_err = Some(*e);
            },
            _ => {},
        }
        match cur {
            Some(t) => {
                if tok == t {
                    let n = self.tokens.len();
                    assert(idx < n);
                    self.tokens_index = idx + 1;
                    Some(t)
                } else {
                    self.errors.push((idx, off, ParseError::ExpectedToken { expected: tok }));
                    None
                }
            },
            None => {
                let d = match lex_err {
                    Some(e) => ParseError::LexError { e },
                    None => ParseError::ExpectedToken { expected: tok },
                };
                self.errors.push((idx, off, d));
                None
            },
        }
    }

    /// The current token, without advancing.  `None` when the current item is
    /// text or a lexical failure, or the input is exhausted.
    pub fn get_token(&mut self) -> (r: Option<T>)
        ensures
            final(self).items().len() >= old(self).items().len(),
            final(self).items().len() <= old(self).items().len() + 1,
            final(self).items().take(old(self).items().len() as int) == old(self).items(),
            final(self).memo_log() == old(self).memo_log(),
            final(self).diags() == old(self).diags(),
            source_step(*old(self), *final(self)),
            ({
                let fi = norm_index(old(self).items(), old(self).item_index(), old(self).consumed());
                let fc = if final(self).items().len() > old(self).items().len() {
                    0int
                } else {
                    norm_consumed(old(self).items(), old(self).item_index(), old(self).consumed())
                };
                let avail = fi < final(self).items().len();
                &&& final(self).items().len() > old(self).items().len()
                    ==> fi + 1 == final(self).items().len()
                &&& !avail ==> fi > final(self).items().len() || final(self).lex_done()
                &&& final(self).item_index() as int == fi
                &&& final(self).consumed() as int == fc
                &&& match r {
                    Some(t) => avail && (final(self).items()[fi] matches LexRes::Token(t2) && t
                        == t2),
                    None => !(avail && final(self).items()[fi] is Token),
                }
            }),
    {
        let available = self.fetch();
        if !available {
            return None;
        }
        match &self.tokens[self.tokens_index] {
            LexRes::Token(t) => Some(*t),
            _ => None,
        }
    }

    /// The unconsumed text of the current item, without advancing.  `None`
    /// when the current item is a token or a lexical failure, or the input is
    /// exhausted.
    pub fn get_input(&mut self) -> (r: Option<String>)
        ensures
            final(self).items().len() >= old(self).items().len(),
            final(self).items().len() <= old(self).items().len() + 1,
            final(self).items().take(old(self).items().len() as int) == old(self).items(),
            final(self).memo_log() == old(self).memo_log(),
            final(self).diags() == old(self).diags(),
            source_step(*old(self), *final(self)),
            ({
                let fi = norm_index(old(self).items(), old(self).item_index(), old(self).consumed());
                let fc = if final(self).items().len() > old(self).items().len() {
                    0int
                } else {
                    norm_consumed(old(self).items(), old(self).item_index(), old(self).consumed())
                };
                let avail = fi < final(self).items().len();
                &&& final(self).items().len() > old(self).items().len()
                    ==> fi + 1 == final(self).items().len()
                &&& !avail ==> fi > final(self).items().len() || final(self).lex_done()
                &&& final(self).item_index() as int == fi
                &&& final(self).consumed() as int == fc
                &&& match r {
                    Some(s) => avail && (final(self).items()[fi] matches LexRes::Text(t) && s@
                        == text_rest(t@, fc)),
                    None => !(avail && final(self).items()[fi] is Text),
                }
            }),
    {
        let available = self.fetch();
        if !available {
            return None;
        }
        let off = self.str_consumed;
        match &self.tokens[self.tokens_index] {
            LexRes::Text(t) => {
                let ts = t.as_str();
                let tl = ts.unicode_len();
                if off <= tl {
                    Some(ts.substring_char(off, tl).to_owned())
                } else {
                    Some(String::new())
                }
            },
            _ => None,
        }
    }

    /// End-of-input query: true exactly when the lexical source is exhausted
    /// and the cursor stands at the end of the final item.
    pub fn is_eoi(&mut self) -> (r: bool)
        ensures
            final(self).items().len() >= old(self).items().len(),
            final(self).items().len() <= old(self).items().len() + 1,
            final(self).items().take(old(self).items().len() as int) == old(self).items(),
            final(self).memo_log() == old(self).memo_log(),
            final(self).diags() == old(self).diags(),
            final(self).item_index() as int == norm_index(
                old(self).items(),
                old(self).item_index(),
                old(self).consumed(),
            ),
            final(self).consumed() as int == if final(self).items().len() > old(
                self,
            ).items().len() {
                0int
            } else {
                norm_consumed(old(self).items(), old(self).item_index(), old(self).consumed())
            },
            r == (final(self).item_index() >= final(self).items().len()),
            (r && final(self).item_index() == final(self).items().len())
                ==> final(self).lex_done(),
            source_step(*old(self), *final(self)),
    {
        let available = self.fetch();
        !available
    }

    /// The index of the first memo record for the key, when there is one.
    fn memo_lookup(&self, i: usize, c: usize, rule: u64) -> (r: Option<usize>)
        ensures
            match r {
                Some(j) => {
                    &&& j < self.memo_log().len()
                    &&& key_matches(self.memo_log()[j as int], i, c, rule)
                    &&& forall|k: int|
                        0 <= k < j ==> !key_matches(#[trigger] self.memo_log()[k], i, c, rule)
                    &&& find_memo(self.memo_log(), i, c, rule) == Some(
                        self.memo_log()[j as int].outcome,
                    )
                },
                None => {
                    &&& forall|k: int|
                        0 <= k < self.memo_log().len() ==> !key_matches(
                            #[trigger] self.memo_log()[k],
                            i,
                            c,
                            rule,
                        )
                    &&& find_memo(self.memo_log(), i, c, rule) is None
                },
            },
    {
        let n = self.memo.len();
        let mut j: usize = 0;
        while j < n
            invariant
                n == self.memo_log().len(),
                j <= n,
                forall|k: int| 0 <= k < j ==> !key_matches(#[trigger] self.memo_log()[k], i, c, rule),
            decreases n - j,
        {
            let e = &self.memo[j];
            if e.start_index == i && e.start_consumed == c && e.rule == rule {
                proof {
                    lemma_find_memo_at(self.memo_log(), i, c, rule, j as int);
                }
                return Some(j);
            }
            j += 1;
        }
        proof {
            lemma_find_memo_none(self.memo_log(), i, c, rule);
        }
        None
    }

    /// Records the outcome observed for the key, overwriting an earlier
    /// record of the same key, so that a later lookup finds exactly this
    /// outcome; lookups for every other key are unchanged, and nothing else
    /// of the state moves.
    fn memo_store(&mut self, i: usize, c: usize, rule: u64, outcome: Option<(usize, usize, O)>)
        ensures
            find_memo(final(self).memo_log(), i, c, rule) == Some(outcome),
            forall|i2: usize, c2: usize, rule2: u64|
                !(i2 == i && c2 == c && rule2 == rule) ==> find_memo(
                    final(self).memo_log(),
                    i2,
                    c2,
                    rule2,
                ) == find_memo(old(self).memo_log(), i2, c2, rule2),
            final(self).items() == old(self).items(),
            final(self).item_index() == old(self).item_index(),
            final(self).consumed() == old(self).consumed(),
            final(self).diags() == old(self).diags(),
            final(self).lex_done() == old(self).lex_done(),
            final(self).lexer_v() == old(self).lexer_v(),
    {
        let entry = MemoEntry { start_index: i, start_consumed: c, rule, outcome };
        let ghost entry_g = entry;
        match self.memo_lookup(i, c, rule) {
            Some(j) => {
                self.memo.set(j, entry);
                proof {
                    lemma_find_memo_at(self.memo_log(), i, c, rule, j as int);
                    assert forall|i2: usize, c2: usize, rule2: u64|
                        !(i2 == i && c2 == c && rule2 == rule) implies find_memo(
                        self.memo_log(),
                        i2,
                        c2,
                        rule2,
                    ) == find_memo(old(self).memo_log(), i2, c2, rule2) by {
                        lemma_find_memo_update_other(
                            old(self).memo_log(),
                            j as int,
                            entry_g,
                            i2,
                            c2,
                            rule2,
                        );
                    }
                }
            },
            None => {
                let ghost n = self.memo_log().len() as int;
                self.memo.push(entry);
                proof {
                    assert(forall|k: int|
                        0 <= k < n ==> !key_matches(#[trigger] self.memo_log()[k], i, c, rule));
                    lemma_find_memo_at(self.memo_log(), i, c, rule, n);
                    assert forall|i2: usize, c2: usize, rule2: u64|
                        !(i2 == i && c2 == c && rule2 == rule) implies find_memo(
                        self.memo_log(),
                        i2,
                        c2,
                        rule2,
                    ) == find_memo(old(self).memo_log(), i2, c2, rule2) by {
                        lemma_find_memo_push_other(old(self).memo_log(), entry_g, i2, c2, rule2);
                    }
                }
            },
        }
    }

    /// The backtracking combinator runner with memoization: runs `par` at the
    /// current position, unless the memo already records an outcome for
    /// `(position, rule)`, in which case that outcome is replayed without
    /// running `par` and without touching the diagnostics ledger.  When `par`
    /// runs, its outcome is recorded, and on failure the cursor is restored
    /// exactly to where it was before the call.  `rule` must identify the
    /// grammar rule `par` implements, uniquely among all memoized rules of
    /// one parse run; a left-recursive rule is not supported and may loop.
    /// A lookup scans the memo log, so one call costs time linear in the
    /// number of rules already recorded.
    pub fn epar<F: Fn(&mut Self) -> Option<O>>(&mut self, rule: u64, par: F) -> (r: Option<O>)
        requires
            forall|e: &mut Self| call_requires(par, (e,)),
        ensures
            ({
                let hit = find_memo(
                    old(self).memo_log(),
                    old(self).item_index(),
                    old(self).consumed(),
                    rule,
                );
                match hit {
                    Some(outcome) => {
                        &&& final(self).items() == old(self).items()
                        &&& final(self).diags() == old(self).diags()
                        &&& final(self).memo_log() == old(self).memo_log()
                        &&& final(self).lex_done() == old(self).lex_done()
                        &&& final(self).lexer_v() == old(self).lexer_v()
                        &&& match outcome {
                            Some((ni, nc, o)) => {
                                &&& final(self).item_index() == ni
                                &&& final(self).consumed() == nc
                                &&& r matches Some(x) && cloned(o, x)
                            },
                            None => {
                                &&& r is None
                                &&& final(self).item_index() == old(self).item_index()
                                &&& final(self).consumed() == old(self).consumed()
                            },
                        }
                    },
                    None => {
                        &&& exists|q: &mut Self|
                            {
                                &&& call_ensures(par, (q,), r)
                                &&& *q == *old(self)
                                &&& final(self).items() == final(q).items()
                                &&& final(self).diags() == final(q).diags()
                                &&& final(self).lexer_v() == final(q).lexer_v()
                                &&& final(self).lex_done() == final(q).lex_done()
                                &&& (r is Some ==> final(self).item_index()
                                    == final(q).item_index() && final(self).consumed()
                                    == final(q).consumed())
                                &&& forall|i2: usize, c2: usize, rule2: u64|
                                    !(i2 == old(self).item_index() && c2 == old(self).consumed()
                                        && rule2 == rule) ==> #[trigger] find_memo(
                                        final(self).memo_log(),
                                        i2,
                                        c2,
                                        rule2,
                                    ) == find_memo(final(q).memo_log(), i2, c2, rule2)
                            }
                        &&& (r is None ==> final(self).item_index() == old(self).item_index()
                            && final(self).consumed() == old(self).consumed())
                        &&& match r {
                            Some(x) => exists|oc: O|
                                #[trigger] cloned(x, oc) && find_memo(
                                    final(self).memo_log(),
                                    old(self).item_index(),
                                    old(self).consumed(),
                                    rule,
                                ) == Some(Some((final(self).item_index(), final(self).consumed(), oc))),
                            None => find_memo(
                                final(self).memo_log(),
                                old(self).item_index(),
                                old(self).consumed(),
                                rule,
                            ) == Some(None::<(usize, usize, O)>),
                        }
                    },
                }
            }),
    {
        let i0 = self.tokens_index;
        let c0 = self.str_consumed;
        match self.memo_lookup(i0, c0, rule) {
            Some(j) => {
                let (advance, res): (Option<(usize, usize)>, Option<O>) = match &self.memo[j]
                    .outcome {
                    Some(t) => (Some((t.0, t.1)), Some(t.2.clone())),
                    None => (None, None),
                };
                if let Some((ni, nc)) = advance {
                    self.tokens_index = ni;
                    self.str_consumed = nc;
                }
                res
            },
            None => {
                let ret = par(self);
                match ret {
                    Some(x) => {
                        let ti = self.tokens_index;
                        let tc = self.str_consumed;
                        let xc = x.clone();
                        proof {
                            assert(cloned(x, xc));
                        }
                        self.memo_store(i0, c0, rule, Some((ti, tc, xc)));
                        Some(x)
                    },
                    None => {
                        self.memo_store(i0, c0, rule, None);
                        self.tokens_index = i0;
                        self.str_consumed = c0;
                        None
                    },
                }
            },
        }
    }

    /// The diagnostics ledger, in the order the failures were recorded.
    pub fn diagnostics(&self) -> (r: &Vec<(usize, usize, ParseError<T, E>)>)
        ensures
            r@ == self.diags(),
    {
        &self.errors
    }

    /// Reports the most informative recorded failure: one at the maximum
    /// position, item index first, offset second; of several failures tied at
    /// that position, the first recorded.  `None` exactly when the ledger is
    /// empty.
    pub fn best_error(&self) -> (r: Option<&(usize, usize, ParseError<T, E>)>)
        ensures
            match r {
                None => self.diags().len() == 0,
                Some(d) => {
                    &&& exists|j: int|
                        {
                            &&& 0 <= j < self.diags().len()
                            &&& #[trigger] self.diags()[j] == *d
                            &&& forall|k: int|
                                0 <= k < j ==> !pos_le(
                                    (d.0, d.1),
                                    (#[trigger] self.diags()[k].0, self.diags()[k].1),
                                )
                        }
                    &&& forall|k: int|
                        0 <= k < self.diags().len() ==> pos_le(
                            (#[trigger] self.diags()[k].0, self.diags()[k].1),
                            (d.0, d.1),
                        )
                },
            },
    {
        let n = self.errors.len();
        if n == 0 {
            return None;
        }
        let mut best: usize = 0;
        let mut j: usize = 1;
        while j < n
            invariant
                n == self.diags().len(),
                0 < n,
                best < j,
                j <= n,
                forall|k: int|
                    0 <= k < j ==> pos_le(
                        (#[trigger] self.diags()[k].0, self.diags()[k].1),
                        (self.diags()[best as int].0, self.diags()[best as int].1),
                    ),
                forall|k: int|
                    0 <= k < best ==> !pos_le(
                        (self.diags()[best as int].0, self.diags()[best as int].1),
                        (#[trigger] self.diags()[k].0, self.diags()[k].1),
                    ),
            decreases n - j,
        {
            let better: bool = self.errors[j].0 > self.errors[best].0 || (self.errors[j].0
                == self.errors[best].0 && self.errors[j].1 > self.errors[best].1);
            if better {
                best = j;
            }
            j += 1;
        }
        proof {
            let d = self.diags()[best as int];
            assert(0 <= best < self.diags().len() && self.diags()[best as int] == d && (forall|
                k: int,
            |
                0 <= k < best ==> !pos_le(
                    (d.0, d.1),
                    (#[trigger] self.diags()[k].0, self.diags()[k].1),
                )));
        }
        Some(&self.errors[best])
    }

    /// All recorded failures standing at the maximum position, in the order
    /// they were recorded: the tied expectations that a report surfaces
    /// together.  Empty exactly when the ledger is empty.
    pub fn best_errors(&self) -> (r: Vec<&(usize, usize, ParseError<T, E>)>)
        ensures
            (r@.len() == 0) == (self.diags().len() == 0),
            self.diags().len() > 0 ==> r@.map_values(
                |d: &(usize, usize, ParseError<T, E>)| *d,
            ) == self.diags().filter(
                |d: (usize, usize, ParseError<T, E>)|
                    d.0 == max_pos(self.diags()).0 && d.1 == max_pos(self.diags()).1,
            ),
    {
        let n = self.errors.len();
        if n == 0 {
            return Vec::new();
        }
        let mut best: usize = 0;
        let mut j: usize = 1;
        proof {
            assert(self.diags().take(1)[0] == self.diags()[0]);
        }
        while j < n
            invariant
                n == self.diags().len(),
                0 < n,
                best < j,
                j <= n,
                (self.diags()[best as int].0, self.diags()[best as int].1) == max_pos(
                    self.diags().take(j as int),
                ),
            decreases n - j,
        {
            let better: bool = self.errors[j].0 > self.errors[best].0 || (self.errors[j].0
                == self.errors[best].0 && self.errors[j].1 > self.errors[best].1);
            proof {
                assert(self.diags().take(j as int + 1).drop_last() =~= self.diags().take(
                    j as int,
                ));
                assert(self.diags().take(j as int + 1).last() == self.diags()[j as int]);
            }
            if better {
                best = j;
            }
            j += 1;
        }
        proof {
            assert(self.diags().take(n as int) =~= self.diags());
        }
        let bi = self.errors[best].0;
        let bc = self.errors[best].1;
        let mut out: Vec<&(usize, usize, ParseError<T, E>)> = Vec::new();
        let mut k: usize = 0;
        proof {
            reveal(Seq::filter);
            assert(self.diags().take(0).len() == 0);
        }
        while k < n
            invariant
                n == self.diags().len(),
                0 < n,
                best < n,
                k <= n,
                (bi, bc) == max_pos(self.diags()),
                bi == self.diags()[best as int].0 && bc == self.diags()[best as int].1,
                k > best ==> out@.len() > 0,
                out@.map_values(|d: &(usize, usize, ParseError<T, E>)| *d) == self.diags().take(
                    k as int,
                ).filter(
                    |d: (usize, usize, ParseError<T, E>)|
                        d.0 == max_pos(self.diags()).0 && d.1 == max_pos(self.diags()).1,
                ),
            decreases n - k,
        {
            let ghost outs0 = out@;
            let e = &self.errors[k];
            if e.0 == bi && e.1 == bc {
                out.push(e);
            }
            proof {
                reveal(Seq::filter);
                assert(self.diags().take(k as int + 1).drop_last() =~= self.diags().take(
                    k as int,
                ));
                assert(self.diags().take(k as int + 1).last() == self.diags()[k as int]);
                if self.diags()[k as int].0 == bi && self.diags()[k as int].1 == bc {
                    assert(out@.map_values(|d: &(usize, usize, ParseError<T, E>)| *d)
                        =~= outs0.map_values(|d: &(usize, usize, ParseError<T, E>)| *d).push(
                        self.diags()[k as int],
                    ));
                } else {
                    assert(out@ == outs0);
                }
            }
            k += 1;
        }
        out
    }
}

/// The order on diagnostic positions: item index first, offset second.
pub open spec fn pos_le(a: (usize, usize), b: (usize, usize)) -> bool {
    a.0 < b.0 || (a.0 == b.0 && a.1 <= b.1)
}

/// The maximum position among the recorded failures (meaningful only when
/// some failure was recorded).
pub open spec fn max_pos<T, E>(s: Seq<(usize, usize, ParseError<T, E>)>) -> (usize, usize)
    decreases s.len(),
{
    if s.len() <= 1 {
        (s[0].0, s[0].1)
    } else {
        let m = max_pos(s.drop_last());
        if pos_le(m, (s.last().0, s.last().1)) {
            (s.last().0, s.last().1)
        } else {
            m
        }
    }
}

/// Strips a matching prefix from `input`: on a match, returns the matched
/// prefix and leaves the remainder in `input`; otherwise leaves `input`
/// untouched.
pub fn take_pattern(input: &mut String, p: &Pat) -> (r: Option<String>)
    ensures
        match pat_match_len(*p, old(input)@) {
            Some(n) => {
                &&& r matches Some(s) && s@ == old(input)@.take(n as int)
                &&& final(input)@ == old(input)@.skip(n as int)
            },
            None => r is None && final(input)@ == old(input)@,
        },
{
    let len = input.as_str().unicode_len();
    match pat_match(p, input.as_str(), 0) {
        Some(m) => {
            proof {
                assert(old(input)@.skip(0) =~= old(input)@);
            }
            let s = input.as_str().substring_char(0, m).to_owned();
            let rest = input.as_str().substring_char(m, len).to_owned();
            proof {
                assert(s@ =~= old(input)@.take(m as int));
                assert(rest@ =~= old(input)@.skip(m as int));
            }
            *input = rest;
            Some(s)
        },
        None => {
            proof {
                assert(old(input)@.skip(0) =~= old(input)@);
            }
            None
        },
    }
}

} // verus!
