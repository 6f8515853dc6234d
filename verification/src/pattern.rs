use vstd::prelude::*;

verus! {

/// A pattern that the primitive matchers consume input against: either an
/// exact literal or a single-character class.  The pattern language is a
/// closed enumeration so that the spec functions over it stay evaluable:
/// a grammar needing a further character class extends it with a variant
/// here, a matching arm in `class_matches`, and one in `class_match`.
pub enum Pat {
    /// Matches exactly this sequence of characters; a zero-length literal
    /// never matches, so no matcher can succeed without consuming input.
    Lit(String),
    /// Matches any single character.
    AnyChar,
    /// Matches a single Unicode white-space character.
    Whitespace,
    /// Matches a single character that is not ASCII alphanumeric.
    NonAlnum,
    /// Matches a single character that is neither carriage return nor line feed.
    NotNewline,
}

/// Unicode white space: the characters with the White_Space property.
pub open spec fn is_ws_char(c: char) -> bool {
    ||| c == ' ' || c == '\t' || c == '\n' || c == '\u{0B}' || c == '\u{0C}' || c == '\r'
    ||| c == '\u{85}' || c == '\u{A0}' || c == '\u{1680}'
    ||| ('\u{2000}' <= c && c <= '\u{200A}')
    ||| c == '\u{2028}' || c == '\u{2029}' || c == '\u{202F}' || c == '\u{205F}' || c == '\u{3000}'
}

/// ASCII alphanumeric.
pub open spec fn is_alnum_char(c: char) -> bool {
    ('a' <= c && c <= 'z') || ('A' <= c && c <= 'Z') || ('0' <= c && c <= '9')
}

pub open spec fn is_newline_char(c: char) -> bool {
    c == '\n' || c == '\r'
}

/// Whether a single-character class pattern accepts the character `c`.
/// A literal pattern is not a character class.
pub open spec fn class_matches(p: Pat, c: char) -> bool {
    match p {
        Pat::Lit(_) => false,
        Pat::AnyChar => true,
        Pat::Whitespace => is_ws_char(c),
        Pat::NonAlnum => !is_alnum_char(c),
        Pat::NotNewline => !is_newline_char(c),
    }
}

/// The length of the prefix of `s` that `p` matches, or `None` when `p` does
/// not match a non-empty prefix.  A zero-length match counts as a failure.
pub open spec fn pat_match_len(p: Pat, s: Seq<char>) -> Option<nat> {
    match p {
        Pat::Lit(l) => if l@.len() > 0 && l@.len() <= s.len() && s.take(l@.len() as int) == l@ {
            Some(l@.len())
        } else {
            None
        },
        _ => if s.len() > 0 && class_matches(p, s[0]) {
            Some(1nat)
        } else {
            None
        },
    }
}

/// A match, when there is one, consumes at least one character and at most
/// the whole of `s`: no pattern can succeed on a zero-width match.
pub proof fn lemma_pat_match_positive(p: Pat, s: Seq<char>)
    ensures
        match pat_match_len(p, s) {
            Some(n) => 1 <= n && n <= s.len(),
            None => true,
        },
{
}

/// Exec test of a single-character class.
pub fn class_match(p: &Pat, c: char) -> (r: bool)
    ensures
        r == class_matches(*p, c),
{
    match p {
        Pat::Lit(_) => false,
        Pat::AnyChar => true,
        Pat::Whitespace => c == ' ' || c == '\t' || c == '\n' || c == '\u{0B}' || c == '\u{0C}'
            || c == '\r' || c == '\u{85}' || c == '\u{A0}' || c == '\u{1680}' || ('\u{2000}' <= c
            && c <= '\u{200A}') || c == '\u{2028}' || c == '\u{2029}' || c == '\u{202F}' || c
            == '\u{205F}' || c == '\u{3000}',
        Pat::NonAlnum => !(('a' <= c && c <= 'z') || ('A' <= c && c <= 'Z') || ('0' <= c && c
            <= '9')),
        Pat::NotNewline => !(c == '\n' || c == '\r'),
    }
}

/// Exec matcher: the length of the prefix of `t`'s characters from `off`
/// onward that `p` matches, or `None` when `p` does not match there.
pub fn pat_match(p: &Pat, t: &str, off: usize) -> (r: Option<usize>)
    requires
        off <= t@.len(),
    ensures
        (r is Some) == (pat_match_len(*p, t@.skip(off as int)) is Some),
        (match r {
            Some(m) => pat_match_len(*p, t@.skip(off as int)) == Some(m as nat) && 1 <= m && off
                + m <= t@.len(),
            None => true,
        }),
{
    let ghost rest = t@.skip(off as int);
    match p {
        Pat::Lit(l) => {
            let ll = l.unicode_len();
            let tl = t.unicode_len();
            if ll == 0 || ll > tl - off {
                return None;
            }
            let mut k: usize = 0;
            while k < ll
                invariant
                    *p is Lit,
                    p->Lit_0 == *l,
                    off + ll <= tl,
                    tl == t@.len(),
                    ll == l@.len(),
                    0 < ll,
                    k <= ll,
                    rest == t@.skip(off as int),
                    forall|j: int| 0 <= j < k ==> rest[j] == l@[j],
                decreases ll - k,
            {
                if t.get_char(off + k) != l.get_char(k) {
                    proof {
                        assert(rest[k as int] == t@[off + k]);
                        assert(rest.take(ll as int)[k as int] == rest[k as int]);
                        assert(rest.take(ll as int) != l@);
                    }
                    return None;
                }
                k += 1;
            }
            proof {
                assert(rest.take(ll as int) =~= l@);
            }
            Some(ll)
        },
        _ => {
            let tl = t.unicode_len();
            if off < tl {
                let c = t.get_char(off);
                if class_match(p, c) {
                    Some(1)
                } else {
                    None
                }
            } else {
                None
            }
        },
    }
}

/// The longest prefix of `s` made of adjacent matches of `p`: each step
/// consumes one match and continues on the remainder.
pub open spec fn pat_run_len(p: Pat, s: Seq<char>) -> nat
    decreases s.len(),
{
    match pat_match_len(p, s) {
        Some(n) => if 1 <= n && n <= s.len() {
            n + pat_run_len(p, s.skip(n as int))
        } else {
            0
        },
        None => 0,
    }
}

/// The first position of `s` at which `p` matches, or `None` when it matches
/// nowhere.
pub open spec fn pat_find(p: Pat, s: Seq<char>) -> Option<nat>
    decreases s.len(),
{
    if pat_match_len(p, s) is Some {
        Some(0nat)
    } else if s.len() == 0 {
        None
    } else {
        match pat_find(p, s.skip(1)) {
            Some(j) => Some((j + 1) as nat),
            None => None,
        }
    }
}

/// A description of the expected pattern, for diagnostics.
pub open spec fn pat_desc(p: Pat) -> Seq<char> {
    match p {
        Pat::Lit(l) => l@,
        Pat::AnyChar => "<any character>"@,
        Pat::Whitespace => "<whitespace>"@,
        Pat::NonAlnum => "<non-alphanumeric>"@,
        Pat::NotNewline => "<not a newline>"@,
    }
}

/// Exec rendering of `pat_desc`.
pub fn pat_desc_string(p: &Pat) -> (r: String)
    ensures
        r@ == pat_desc(*p),
{
    match p {
        Pat::Lit(l) => l.clone(),
        Pat::AnyChar => "<any character>".to_owned(),
        Pat::Whitespace => "<whitespace>".to_owned(),
        Pat::NonAlnum => "<non-alphanumeric>".to_owned(),
        Pat::NotNewline => "<not a newline>".to_owned(),
    }
}

/// The longest run of adjacent matches of `p` in `t` starting at `from`.
pub fn pat_run(p: &Pat, t: &str, from: usize) -> (r: usize)
    requires
        from <= t@.len(),
    ensures
        from + r <= t@.len(),
        r as nat == pat_run_len(*p, t@.skip(from as int)),
{
    let tl = t.unicode_len();
    let mut run: usize = 0;
    let mut cont: bool = true;
    proof {
        assert(t@.skip(from as int).skip(0) =~= t@.skip(from as int));
    }
    while cont
        invariant
            from + run <= tl,
            tl == t@.len(),
            cont ==> pat_run_len(*p, t@.skip(from as int)) == run + pat_run_len(
                *p,
                t@.skip((from + run) as int),
            ),
            !cont ==> pat_run_len(*p, t@.skip(from as int)) == run,
        decreases tl - from - run + (if cont {
            1int
        } else {
            0int
        }),
    {
        let ghost run0 = run;
        match pat_match(p, t, from + run) {
            Some(m) => {
                proof {
                    let s1 = t@.skip((from + run0) as int);
                    assert(s1.skip(m as int) =~= t@.skip((from + run0 + m) as int));
                }
                run += m;
            },
            None => {
                cont = false;
            },
        }
    }
    run
}

/// The first position at or after `from` where `p` matches in `t`, as an
/// offset from `from`.
pub fn pat_find_at(p: &Pat, t: &str, from: usize) -> (r: Option<usize>)
    requires
        from <= t@.len(),
    ensures
        match r {
            Some(u) => pat_find(*p, t@.skip(from as int)) == Some(u as nat) && from + u <= t@.len(),
            None => pat_find(*p, t@.skip(from as int)) is None,
        },
{
    let tl = t.unicode_len();
    let mut i: usize = from;
    let mut res: Option<usize> = None;
    let mut fin: bool = false;
    while !fin
        invariant
            from <= i <= tl,
            tl == t@.len(),
            !fin ==> res is None,
            !fin ==> match pat_find(*p, t@.skip(i as int)) {
                Some(j) => pat_find(*p, t@.skip(from as int)) == Some((i - from + j) as nat),
                None => pat_find(*p, t@.skip(from as int)) is None,
            },
            fin ==> match res {
                Some(u) => pat_find(*p, t@.skip(from as int)) == Some(u as nat) && from + u <= tl,
                None => pat_find(*p, t@.skip(from as int)) is None,
            },
        decreases tl - i + (if fin {
            0int
        } else {
            1int
        }),
    {
        match pat_match(p, t, i) {
            Some(_) => {
                res = Some(i - from);
                fin = true;
            },
            None => {
                if i == tl {
                    fin = true;
                } else {
                    proof {
                        assert(t@.skip(i as int).skip(1) =~= t@.skip(i as int + 1));
                    }
                    i += 1;
                }
            },
        }
    }
    res
}

} // verus!
