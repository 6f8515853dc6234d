use vstd::prelude::*;

use crate::pattern::{Pat, pat_match_len, pat_find, pat_find_at};

verus! {

/// Strips a matching prefix from `input`: on a match, returns the matched
/// prefix and leaves the remainder in `input`; otherwise leaves `input`
/// untouched.
pub fn take_prefix(input: &mut String, p: &Pat) -> (r: Option<String>)
    ensures
        match pat_match_len(*p, old(input)@) {
            Some(n) => {
                &&& r matches Some(s) && s@ == old(input)@.take(n as int)
                &&& final(input)@ == old(input)@.skip(n as int)
            },
            None => r is None && final(input)@ == old(input)@,
        },
{
    crate::engine::take_pattern(input, p)
}

/// Consumes everything before the first match of `p`: the prefix before the
/// match is returned and removed from `input`.  When `p` matches nowhere the
/// whole of `input` is returned and `input` is left empty.
pub fn take_until(input: &mut String, p: &Pat) -> (r: String)
    ensures
        match pat_find(*p, old(input)@) {
            Some(j) => {
                &&& r@ == old(input)@.take(j as int)
                &&& final(input)@ == old(input)@.skip(j as int)
            },
            None => r@ == old(input)@ && final(input)@ == Seq::<char>::empty(),
        },
{
    let tl = input.as_str().unicode_len();
    proof {
        assert(input@.skip(0) =~= input@);
    }
    match pat_find_at(p, input.as_str(), 0) {
        Some(j) => {
            let r = input.as_str().substring_char(0, j).to_owned();
            let rest = input.as_str().substring_char(j, tl).to_owned();
            proof {
                assert(r@ =~= old(input)@.take(j as int));
                assert(rest@ =~= old(input)@.skip(j as int));
            }
            *input = rest;
            r
        },
        None => {
            let r = input.clone();
            *input = String::new();
            r
        },
    }
}

/// The kinds of markup elements, inline and block.
#[derive(Debug, Clone, PartialEq, Eq)]
pub enum Kind {
    Strong,
    Emphasis,
    Mark,
    Code,
    Insert,
    Delete,
    Superscript,
    Subscript,
    Cite,
    Quote,
    Span,
    Paragraph,
    Heading(u8),
    OrderedList,
    UnorderedList,
    BlockQuote,
    CodeBlock(String),
    Tag(String),
}

/// One event of a markup token stream: raw text, a single symbol, text
/// passed through unchanged, the opening or closing of an element, or a
/// void element.
#[derive(Debug, PartialEq)]
pub enum Token {
    Text(String),
    Symbol(char),
    Passthrough(String),
    Start(Option<Attributes>, Kind),
    End(Kind),
    HorizontalRule(Attributes),
    Image(Attributes, String, String),
}

/// Element attributes written as a `#id.class.class` prefix: an optional
/// identifier, a list of class names, and named attribute pairs (the brace
/// form that would fill them is not supported).
#[derive(Debug, PartialEq)]
pub struct Attributes {
    pub id: Option<String>,
    pub classes: Vec<String>,
    pub attributes: Vec<(String, String)>,
}

/// How many characters `take_until` with the non-alphanumeric class consumes
/// from `s`: up to its first non-alphanumeric character, or all of it.
pub open spec fn until_len(s: Seq<char>) -> nat {
    match pat_find(Pat::NonAlnum, s) {
        Some(j) => j,
        None => s.len(),
    }
}

/// A found position lies within the text.
proof fn lemma_pat_find_le(p: Pat, s: Seq<char>)
    ensures
        match pat_find(p, s) {
            Some(j) => j <= s.len(),
            None => true,
        },
    decreases s.len(),
{
    if pat_find(p, s) is Some && !(pat_match_len(p, s) is Some) && s.len() > 0 {
        lemma_pat_find_le(p, s.skip(1));
    }
}

/// `take_until` never consumes more than the text.
pub proof fn lemma_until_le(s: Seq<char>)
    ensures
        until_len(s) <= s.len(),
{
    lemma_pat_find_le(Pat::NonAlnum, s);
}

/// The characters that the identifier part consumes: a `#` and the
/// alphanumeric run after it, or nothing.
pub open spec fn id_len(s: Seq<char>) -> nat {
    if s.len() > 0 && s[0] == '#' {
        1 + until_len(s.skip(1))
    } else {
        0
    }
}

/// The characters that the class list consumes: for each leading `.`, the
/// dot and the alphanumeric run after it.
pub open spec fn classes_len(s: Seq<char>) -> nat
    decreases s.len(),
{
    if s.len() > 0 && s[0] == '.' {
        let r = 1 + until_len(s.skip(1));
        if r <= s.len() {
            (r + classes_len(s.skip(r as int))) as nat
        } else {
            s.len()
        }
    } else {
        0
    }
}

/// The class names in order: for each leading `.`, the alphanumeric run
/// after it (possibly empty).
pub open spec fn classes_seq(s: Seq<char>) -> Seq<Seq<char>>
    decreases s.len(),
{
    if s.len() > 0 && s[0] == '.' {
        let u = until_len(s.skip(1));
        let r = 1 + u;
        if r <= s.len() {
            seq![s.skip(1).take(u as int)] + classes_seq(s.skip(r as int))
        } else {
            seq![s.skip(1)]
        }
    } else {
        Seq::empty()
    }
}

/// The characters that a whole attribute prefix consumes: the identifier
/// part, then the class list.
pub open spec fn attrs_consumed(s: Seq<char>) -> nat {
    id_len(s) + classes_len(s.skip(id_len(s) as int))
}

impl Attributes {
    /// Parses a `#id.class.class` prefix off the front of `input`, leaving
    /// the remainder in `input`.  The identifier and each class name are the
    /// alphanumeric runs after their markers.  The brace form of named
    /// attributes is not supported: the input must not continue with a `{`
    /// where that form would begin.
    pub fn new(input: &mut String) -> (r: Attributes)
        requires
            ({
                let p = attrs_consumed(old(input)@);
                p < old(input)@.len() ==> old(input)@[p as int] != '{'
            }),
        ensures
            final(input)@ == old(input)@.skip(attrs_consumed(old(input)@) as int),
            ({
                let s = old(input)@;
                &&& match r.id {
                    Some(i) => s.len() > 0 && s[0] == '#' && i@ == s.skip(1).take(
                        until_len(s.skip(1)) as int,
                    ),
                    None => !(s.len() > 0 && s[0] == '#'),
                }
                &&& r.classes@.map_values(|c: String| c@) == classes_seq(s.skip(id_len(s) as int))
                &&& r.attributes@ == Seq::<(String, String)>::empty()
            }),
    {
        proof {
            reveal_strlit("#");
            reveal_strlit(".");
        }
        let ghost s0 = input@;
        let hash = Pat::Lit("#".to_owned());
        let mut id: Option<String> = None;
        proof {
            if s0.len() > 0 && s0[0] == '#' {
                assert(s0.take(1) =~= "#"@);
            }
        }
        match take_prefix(input, &hash) {
            Some(_) => {
                proof {
                    assert(s0.take(1) == "#"@);
                    assert(s0[0] == s0.take(1)[0]);
                    lemma_until_le(s0.skip(1));
                }
                let ghost u = until_len(s0.skip(1));
                let i = take_until(input, &Pat::NonAlnum);
                proof {
                    if pat_find(Pat::NonAlnum, s0.skip(1)) is None {
                        assert(i@ =~= s0.skip(1).take(u as int));
                        assert(input@ =~= s0.skip(1).skip(u as int));
                    }
                    assert(s0.skip(1).skip(u as int) =~= s0.skip(1 + u as int));
                    assert(input@ =~= s0.skip(id_len(s0) as int));
                }
                id = Some(i);
            },
            None => {
                proof {
                    if s0.len() > 0 && s0[0] == '#' {
                        assert(pat_match_len(hash, s0) is Some);
                    }
                    assert(input@ =~= s0.skip(id_len(s0) as int));
                }
            },
        }
        let ghost s1 = input@;
        let dot = Pat::Lit(".".to_owned());
        let mut classes: Vec<String> = Vec::new();
        let mut cont: bool = true;
        let ghost mut k: int = 0;
        while cont
            invariant
                dot matches Pat::Lit(d) && d@ == "."@,
                "."@.len() == 1 && "."@[0] == '.',
                0 <= k <= s1.len(),
                input@ == s1.skip(k),
                cont ==> classes_len(s1) == k + classes_len(input@) && classes_seq(s1)
                    == classes@.map_values(|c: String| c@) + classes_seq(input@),
                !cont ==> classes_len(s1) == k && classes_seq(s1) == classes@.map_values(
                    |c: String| c@,
                ),
            decreases input@.len() + (if cont {
                1int
            } else {
                0int
            }),
        {
            let ghost w = input@;
            let ghost cs_before = classes@;
            proof {
                if w.len() > 0 && w[0] == '.' {
                    assert(w.take(1) =~= "."@);
                }
            }
            match take_prefix(input, &dot) {
                Some(_) => {
                    proof {
                        assert(w.take(1) == "."@);
                        assert(w[0] == w.take(1)[0]);
                        lemma_until_le(w.skip(1));
                    }
                    let ghost u = until_len(w.skip(1));
                    let c = take_until(input, &Pat::NonAlnum);
                    proof {
                        if pat_find(Pat::NonAlnum, w.skip(1)) is None {
                            assert(c@ =~= w.skip(1).take(u as int));
                            assert(input@ =~= w.skip(1).skip(u as int));
                        }
                        assert(s1.skip(k).skip(1 + u as int) =~= s1.skip(k + 1 + u as int));
                        assert(w.skip(1).skip(u as int) =~= w.skip(1 + u as int));
                        assert(input@ =~= s1.skip(k + 1 + u as int));
                    }
                    classes.push(c);
                    proof {
                        k = k + 1 + u as int;
                        assert(classes@.map_values(|x: String| x@) =~= cs_before.map_values(
                            |x: String| x@,
                        ) + seq![c@]);
                        assert(classes_seq(w) == seq![c@] + classes_seq(input@));
                        assert(cs_before.map_values(|x: String| x@) + classes_seq(w)
                            =~= classes@.map_values(|x: String| x@) + classes_seq(input@));
                    }
                },
                None => {
                    proof {
                        if w.len() > 0 && w[0] == '.' {
                            assert(pat_match_len(dot, w) is Some);
                        }
                        assert(classes_seq(w) =~= Seq::<Seq<char>>::empty());
                        assert(classes@.map_values(|c: String| c@) + classes_seq(w)
                            =~= classes@.map_values(|c: String| c@));
                    }
                    cont = false;
                },
            }
        }
        proof {
            assert(s1.skip(classes_len(s1) as int) =~= s0.skip(attrs_consumed(s0) as int));
        }
        Attributes { id, classes, attributes: Vec::new() }
    }
}

} // verus!
