use vstd::prelude::*;

verus! {

/// The failure a basic lexer reports when it is pulled past the end marker.
#[derive(Debug, PartialEq)]
pub enum BasicLexError {
    PastEnd,
}

/// The kind of a basic lexical unit: one character of text, or the end
/// marker.
#[derive(Debug, PartialEq, Clone, Copy)]
pub enum BasicTokenKind {
    Text,
    End,
}

/// A character-at-a-time lexical source: each pull yields one character as
/// text, then once the end marker, and fails past that.
pub struct BasicLexer {
    input: String,
    consumed: usize,
}

impl BasicLexer {
    /// The whole input text.
    pub closed spec fn text(self) -> Seq<char> {
        self.input@
    }

    /// The number of characters already pulled, the end marker counted too.
    pub closed spec fn consumed(self) -> usize {
        self.consumed
    }

    /// One pull: the next character as a text unit; at the end of the input
    /// the end marker, once; past that, the past-end failure.
    pub fn get_token(&mut self) -> (r: Result<(BasicTokenKind, String), BasicLexError>)
        ensures
            final(self).text() == old(self).text(),
            ({
                let n = old(self).text().len();
                let c = old(self).consumed() as int;
                if c > n {
                    &&& r matches Err(e) && e == BasicLexError::PastEnd
                    &&& final(self).consumed() == old(self).consumed()
                } else if c == n {
                    &&& r matches Ok(u) && u.0 == BasicTokenKind::End && u.1@ == Seq::<
                        char,
                    >::empty()
                    &&& final(self).consumed() as int == if c + 1 <= usize::MAX {
                        c + 1
                    } else {
                        c
                    }
                } else {
                    &&& r matches Ok(u) && u.0 == BasicTokenKind::Text && u.1@ == old(
                        self,
                    ).text().subrange(c, c + 1)
                    &&& final(self).consumed() == old(self).consumed() + 1
                }
            }),
    {
        let tl = self.input.as_str().unicode_len();
        if self.consumed > tl {
            return Err(BasicLexError::PastEnd);
        }
        if self.consumed == tl {
            if self.consumed < usize::MAX {
                self.consumed = self.consumed + 1;
            }
            return Ok((BasicTokenKind::End, String::new()));
        }
        let c0 = self.consumed;
        let s = self.input.as_str().substring_char(c0, c0 + 1).to_owned();
        self.consumed = c0 + 1;
        Ok((BasicTokenKind::Text, s))
    }
}

impl<'a> From<&'a str> for BasicLexer {
    /// A fresh lexer at the start of the text.
    fn from(s: &'a str) -> (r: BasicLexer)
        ensures
            r.text() == s@,
            r.consumed() == 0,
    {
        BasicLexer { input: s.to_owned(), consumed: 0 }
    }
}

impl<'a> vstd::std_specs::convert::FromSpecImpl<&'a str> for BasicLexer {
    open spec fn obeys_from_spec() -> bool {
        false
    }

    open spec fn from_spec(v: &'a str) -> BasicLexer {
        arbitrary()
    }
}

} // verus!
