use vstd::prelude::*;

use crate::engine::{LexRes, Lexer, NoLex, PackRat};
use crate::pattern::Pat;

verus! {

/// A two-item source for the token-boundary walkthrough: a run of text, then
/// one discrete token, then the end.
pub struct TextThenToken {
    stage: u8,
}

impl TextThenToken {
    /// How far the source has emitted: nothing, the text, or everything.
    pub closed spec fn stage_v(self) -> u8 {
        self.stage
    }
}

impl Lexer<u8, ()> for TextThenToken {
    open spec fn fresh(s: Seq<char>, l: TextThenToken) -> bool {
        l.stage_v() == 0
    }

    open spec fn emits(pre: TextThenToken, post: TextThenToken, r: Option<LexRes<u8, ()>>) -> bool {
        if pre.stage_v() == 0 {
            &&& r matches Some(LexRes::Text(t)) && t@ == "this "@
            &&& post.stage_v() == 1
        } else if pre.stage_v() == 1 {
            &&& r == Some(LexRes::<u8, ()>::Token(7u8))
            &&& post.stage_v() == 2
        } else {
            &&& r is None
            &&& post.stage_v() == pre.stage_v()
        }
    }

    fn new(s: &str) -> (r: TextThenToken) {
        TextThenToken { stage: 0 }
    }

    fn next(&mut self) -> (r: Option<LexRes<u8, ()>>) {
        if self.stage == 0 {
            self.stage = 1;
            Some(LexRes::Text("this ".to_owned()))
        } else if self.stage == 1 {
            self.stage = 2;
            Some(LexRes::Token(7u8))
        } else {
            None
        }
    }
}

/// Token boundaries pinned by contracts alone: once the text before a token
/// is drained, pattern matching fails at the boundary — only a token match
/// crosses it — and a token match succeeds only on the equal token.
pub fn token_boundary_walkthrough() {
    proof {
        reveal_strlit("this ");
    }
    let mut pr: PackRat<TextThenToken, u8, (), ()> = PackRat::new("this !");

    let p1 = Pat::Lit("this ".to_owned());
    let r1 = pr.epat(&p1);
    proof {
        assert("this "@.skip(0) =~= "this "@);
        assert("this "@.take(5) =~= "this "@);
        assert(pr.items().len() == 1 && (pr.items()[0] matches LexRes::Text(t) && t@
            == "this "@));
    }
    assert(r1 matches Some(m) && m@ == "this "@);
    assert(pr.item_index() == 0 && pr.consumed() == 5);

    // The text is exhausted and a token is pending: no pattern can match.
    let r2 = pr.epat(&Pat::AnyChar);
    proof {
        assert(pr.items().len() == 2 && pr.items()[1] == LexRes::<u8, ()>::Token(7u8));
    }
    assert(r2 is None);
    assert(pr.item_index() == 1 && pr.consumed() == 0);

    // The wrong token is refused, with the cursor untouched.
    let r3 = pr.etok(3u8);
    assert(r3 is None);
    assert(pr.item_index() == 1 && pr.consumed() == 0);

    // The pending token itself is accepted and crossed.
    let r4 = pr.etok(7u8);
    proof {
        assert(pr.items().len() == 2);
    }
    assert(r4 == Some(7u8));
    assert(pr.item_index() == 2);

    let done = pr.is_eoi();
    assert(done);
}

/// A whole run pinned by contracts alone: over the degenerate source, the
/// four matchers consume the sentence exactly, and the end-of-input query
/// then answers true.  Every `assert` here is discharged from the public
/// contracts of `PackRat`, `NoLex` and the pattern functions — no assumption
/// stands anywhere in the chain.
pub fn simple_sentence_walkthrough() {
    let text = "This is a simple test.";
    proof {
        reveal_strlit("This is a simple test.");
        reveal_strlit("This");
        reveal_strlit(" ");
        reveal_strlit("is");
        reveal_strlit(" a simple test.");
    }
    let ghost s = text@;
    let mut pr: PackRat<NoLex, (), (), ()> = PackRat::new(text);

    let at_end = pr.is_eoi();
    proof {
        // The source had not ended and held text, so the first fetch must
        // have pulled the one item the degenerate source emits.
        assert(pr.items().len() == 1 && (pr.items()[0] matches LexRes::Text(t) && t@ == s));
        assert(pr.item_index() == 0 && pr.consumed() == 0);
    }
    assert(!at_end);

    let p1 = Pat::Lit("This".to_owned());
    let r1 = pr.epat(&p1);
    proof {
        assert(s.skip(0) =~= s);
        assert(s.take(4) =~= "This"@);
        assert(pr.items().len() == 1 && (pr.items()[0] matches LexRes::Text(t) && t@ == s));
    }
    assert(r1 matches Some(m) && m@ == "This"@);
    assert(pr.item_index() == 0 && pr.consumed() == 4);

    let r2 = pr.epat(&Pat::Whitespace);
    proof {
        assert(s.skip(4)[0] == s[4]);
        assert(pr.items().len() == 1 && (pr.items()[0] matches LexRes::Text(t) && t@ == s));
        assert(s.subrange(4, 5) =~= " "@);
    }
    assert(r2 matches Some(m) && m@ == " "@);
    assert(pr.consumed() == 5);

    let p3 = Pat::Lit("is".to_owned());
    let r3 = pr.epat(&p3);
    proof {
        assert(s.skip(5).take(2) =~= "is"@);
        assert(pr.items().len() == 1 && (pr.items()[0] matches LexRes::Text(t) && t@ == s));
        assert(s.subrange(5, 7) =~= "is"@);
    }
    assert(r3 matches Some(m) && m@ == "is"@);
    assert(pr.consumed() == 7);

    let p4 = Pat::Lit(" a simple test.".to_owned());
    let r4 = pr.epat(&p4);
    proof {
        assert(s.skip(7).take(15) =~= " a simple test."@);
        assert(pr.items().len() == 1 && (pr.items()[0] matches LexRes::Text(t) && t@ == s));
        assert(s.subrange(7, 22) =~= " a simple test."@);
    }
    assert(r4 matches Some(m) && m@ == " a simple test."@);
    assert(pr.consumed() == 22);

    // The item is exhausted and the source has nothing further: the cursor
    // stands at the end of the input.
    let done = pr.is_eoi();
    assert(done);
}

} // verus!
