use vstd::prelude::*;
use crate::outcome::{agrees, lemma_agrees_consumes, ParseOutcome, ParserErr, Scan, AST};

verus! {

/// The characters of white space: space, tab, newline and form feed.
pub open spec fn is_white_space_char(c: char) -> bool {
    c == ' ' || c == '\t' || c == '\n' || c == '\x0C'
}

/// A.9.4 White space DEF: 0
///
/// The formal syntax also accepts end of file as white space, which the
/// prose definition of white space does not. End of file is not accepted
/// here: a parser that may consume nothing at the end of an empty file can
/// loop forever.
#[derive(Debug, Clone, Copy, PartialEq, Eq, Structural)]
pub enum WhiteSpace {
    Space,
    Tab,
    Newline,
    Formfeed,
}

impl WhiteSpace {
    /// The character that this kind of white space stands for.
    pub open spec fn spec_char(self) -> char {
        match self {
            WhiteSpace::Space => ' ',
            WhiteSpace::Tab => '\t',
            WhiteSpace::Newline => '\n',
            WhiteSpace::Formfeed => '\x0C',
        }
    }

    /// The kind of white space that `c` is, if it is one.
    pub fn classify(c: char) -> (r: Option<WhiteSpace>)
        ensures
            r is Some <==> is_white_space_char(c),
            r matches Some(w) ==> w.spec_char() == c,
    {
        if c == ' ' {
            Some(WhiteSpace::Space)
        } else if c == '\t' {
            Some(WhiteSpace::Tab)
        } else if c == '\n' {
            Some(WhiteSpace::Newline)
        } else if c == '\x0C' {
            Some(WhiteSpace::Formfeed)
        } else {
            None
        }
    }
}

/// White space takes exactly one character.
pub open spec fn white_space_scan(s: Seq<char>) -> Scan {
    if s.len() == 0 {
        Scan::Incomplete
    } else if is_white_space_char(s[0]) {
        Scan::Match(1)
    } else {
        Scan::Reject
    }
}

impl AST for WhiteSpace {
    open spec fn text(&self) -> Seq<char> {
        seq![self.spec_char()]
    }

    fn gen_ast<'a>(i: &'a str) -> (r: ParseOutcome<'a, Self>)
        ensures
            agrees(i@, r, |n: WhiteSpace| n.text(), white_space_scan(i@), ParserErr::WhiteSpace),
    {
        let r = match split_first(i) {
            None => ParseOutcome::NeedsMoreInput(1),
            Some((c, rest)) => match WhiteSpace::classify(c) {
                Some(w) => {
                    assert(w.text() =~= i@.take(1));
                    ParseOutcome::Parsed(rest, w)
                },
                None => ParseOutcome::Failed(ParserErr::WhiteSpace),
            },
        };
        proof {
            lemma_agrees_consumes(i@, r, |n: WhiteSpace| n.text(), white_space_scan(i@), ParserErr::WhiteSpace);
        }
        r
    }
}

/// Characters that may begin a simple identifier: ASCII letters and `_`.
pub open spec fn is_ident_start(c: char) -> bool {
    ('a' <= c && c <= 'z') || ('A' <= c && c <= 'Z') || c == '_'
}

/// Characters that may continue a simple identifier: ASCII letters, digits,
/// `_` and `$`.
pub open spec fn is_ident_continue(c: char) -> bool {
    is_ident_start(c) || ('0' <= c && c <= '9') || c == '$'
}

/// Characters that may stand in an escaped identifier: printable ASCII other
/// than white space.
pub open spec fn is_escaped_char(c: char) -> bool {
    '!' <= c && c <= '~'
}

/// The end of the run of identifier characters in `s` that starts at `k`.
pub open spec fn continue_end(s: Seq<char>, k: nat) -> nat
    decreases s.len() - k,
{
    if k < s.len() && is_ident_continue(s[k as int]) {
        continue_end(s, k + 1)
    } else {
        k
    }
}

/// The end of the run of escaped-identifier characters in `s` that starts at `k`.
pub open spec fn escaped_end(s: Seq<char>, k: nat) -> nat
    decreases s.len() - k,
{
    if k < s.len() && is_escaped_char(s[k as int]) {
        escaped_end(s, k + 1)
    } else {
        k
    }
}

/// A simple identifier takes the longest run of identifier characters that
/// begins with a letter or `_`; a run that reaches the end of the input may
/// still grow.
pub open spec fn simple_identifier_scan(s: Seq<char>) -> Scan {
    if s.len() == 0 {
        Scan::Incomplete
    } else if !is_ident_start(s[0]) {
        Scan::Reject
    } else if continue_end(s, 1) == s.len() {
        Scan::Incomplete
    } else {
        Scan::Match(continue_end(s, 1))
    }
}

/// An escaped identifier is a backslash and the longest run of printable
/// non-white-space characters after it, which white space must end.
pub open spec fn escaped_identifier_scan(s: Seq<char>) -> Scan {
    if s.len() == 0 {
        Scan::Incomplete
    } else if s[0] != '\\' {
        Scan::Reject
    } else if escaped_end(s, 1) == s.len() {
        Scan::Incomplete
    } else if is_white_space_char(s[escaped_end(s, 1) as int]) {
        Scan::Match(escaped_end(s, 1))
    } else {
        Scan::Reject
    }
}

/// Relies on `str::len`: the length in bytes, at least one per character,
/// and zero exactly for the empty string.
#[verifier::external_body]
fn byte_len(s: &str) -> (n: usize)
    ensures
        s@.len() <= n,
        n == 0 <==> s@.len() == 0,
{
    s.len()
}

/// Relies on `str::strip_prefix` with a `char` pattern: when `s` begins with
/// `c`, the characters that follow it.
#[verifier::external_body]
fn strip_char<'a>(s: &'a str, c: char) -> (r: Option<&'a str>)
    ensures
        r is Some <==> (s@.len() > 0 && s@[0] == c),
        r matches Some(rest) ==> s@ == seq![c] + rest@,
{
    s.strip_prefix(c)
}

/// The first character of `s` and the characters after it, if `s` is not
/// empty.
fn split_first<'a>(s: &'a str) -> (r: Option<(char, &'a str)>)
    ensures
        r is None <==> s@.len() == 0,
        r matches Some((c, rest)) ==> s@.len() > 0 && c == s@[0] && rest@ == s@.skip(1),
{
    if byte_len(s) == 0 {
        return None;
    }
    let c = s.get_char(0);
    match strip_char(s, c) {
        Some(rest) => {
            assert(rest@ =~= s@.skip(1));
            Some((c, rest))
        },
        None => None,
    }
}

fn is_ident_start_char(c: char) -> (r: bool)
    ensures
        r == is_ident_start(c),
{
    ('a' <= c && c <= 'z') || ('A' <= c && c <= 'Z') || c == '_'
}

fn is_ident_continue_char(c: char) -> (r: bool)
    ensures
        r == is_ident_continue(c),
{
    is_ident_start_char(c) || ('0' <= c && c <= '9') || c == '$'
}

fn is_escaped_char_exec(c: char) -> (r: bool)
    ensures
        r == is_escaped_char(c),
{
    '!' <= c && c <= '~'
}

/// A.9.3 Identifiers DEF: simple_identifier
#[derive(Debug)]
pub struct SimpleIdentifier {
    pub body: String,
}

impl AST for SimpleIdentifier {
    open spec fn text(&self) -> Seq<char> {
        self.body@
    }

    fn gen_ast<'a>(i: &'a str) -> (r: ParseOutcome<'a, Self>)
        ensures
            agrees(i@, r, |n: SimpleIdentifier| n.text(), simple_identifier_scan(i@), ParserErr::SimpleIdentifier),
    {
        let bound = byte_len(i);
        let (c, mut rest) = match split_first(i) {
            None => return ParseOutcome::NeedsMoreInput(1),
            Some(p) => p,
        };
        if !is_ident_start_char(c) {
            return ParseOutcome::Failed(ParserErr::SimpleIdentifier);
        }
        let mut k: usize = 1;
        loop
            invariant
                1 <= k <= i@.len() <= bound,
                rest@ == i@.skip(k as int),
                continue_end(i@, k as nat) == continue_end(i@, 1),
                is_ident_start(i@[0]),
            ensures
                1 <= k < i@.len(),
                rest@ == i@.skip(k as int),
                continue_end(i@, 1) == k,
            decreases rest@.len(),
        {
            match split_first(rest) {
                None => {
                    assert(k == i@.len());
                    assert(continue_end(i@, k as nat) == k);
                    return ParseOutcome::NeedsMoreInput(1);
                },
                Some((c, next)) => {
                    assert(c == i@[k as int]);
                    if !is_ident_continue_char(c) {
                        break;
                    }
                    assert(next@ =~= i@.skip(k + 1));
                    rest = next;
                    k = k + 1;
                },
            }
        }
        let body = String::from_str(i.substring_char(0, k));
        assert(body@ =~= i@.take(k as int));
        let r = ParseOutcome::Parsed(rest, SimpleIdentifier { body });
        proof {
            lemma_agrees_consumes(i@, r, |n: SimpleIdentifier| n.text(), simple_identifier_scan(i@), ParserErr::SimpleIdentifier);
        }
        r
    }
}

/// A.9.3 Identifiers DEF: escaped_identifier
///
/// The body holds the characters after the leading backslash.
#[derive(Debug)]
pub struct EscapedIdentifier {
    pub body: String,
}

impl AST for EscapedIdentifier {
    open spec fn text(&self) -> Seq<char> {
        seq!['\\'] + self.body@
    }

    fn gen_ast<'a>(i: &'a str) -> (r: ParseOutcome<'a, Self>)
        ensures
            agrees(i@, r, |n: EscapedIdentifier| n.text(), escaped_identifier_scan(i@), ParserErr::EscapedIdentifier),
    {
        let bound = byte_len(i);
        let (c, mut rest) = match split_first(i) {
            None => return ParseOutcome::NeedsMoreInput(1),
            Some(p) => p,
        };
        if c != '\\' {
            return ParseOutcome::Failed(ParserErr::EscapedIdentifier);
        }
        let mut k: usize = 1;
        loop
            invariant
                1 <= k <= i@.len() <= bound,
                rest@ == i@.skip(k as int),
                escaped_end(i@, k as nat) == escaped_end(i@, 1),
                i@[0] == '\\',
            ensures
                1 <= k < i@.len(),
                rest@ == i@.skip(k as int),
                escaped_end(i@, 1) == k,
                is_white_space_char(i@[k as int]),
            decreases rest@.len(),
        {
            match split_first(rest) {
                None => {
                    assert(k == i@.len());
                    assert(escaped_end(i@, k as nat) == k);
                    return ParseOutcome::NeedsMoreInput(1);
                },
                Some((c, next)) => {
                    assert(c == i@[k as int]);
                    if !is_escaped_char_exec(c) {
                        if WhiteSpace::classify(c).is_none() {
                            return ParseOutcome::Failed(ParserErr::EscapedIdentifier);
                        }
                        break;
                    }
                    assert(next@ =~= i@.skip(k + 1));
                    rest = next;
                    k = k + 1;
                },
            }
        }
        let body = String::from_str(i.substring_char(1, k));
        let node = EscapedIdentifier { body };
        assert(node.text() =~= i@.take(k as int));
        let r = ParseOutcome::Parsed(rest, node);
        proof {
            lemma_agrees_consumes(i@, r, |n: EscapedIdentifier| n.text(), escaped_identifier_scan(i@), ParserErr::EscapedIdentifier);
        }
        r
    }
}

} // verus!
