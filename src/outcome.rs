use vstd::prelude::*;

verus! {

/// The kind of production that was being attempted when a parse failed.
#[derive(Debug, Clone, Copy, PartialEq, Eq, Structural)]
pub enum ParserErr {
    /// A.9.4 White space DEF: 0
    WhiteSpace,
    /// A.9.3 Identifiers: simple_identifier
    SimpleIdentifier,
    /// A.9.3 Identifiers: escaped_identifier
    EscapedIdentifier,
    /// A lexical item: white space, a simple identifier and an escaped
    /// identifier were each tried on the same input, and each failed.
    LexicalItem,
    /// A.1.2 SystemVerilog source text DEF: 0
    SourceText,
}

/// The result of asking a production to parse a prefix of the input.
#[derive(Debug)]
pub enum ParseOutcome<'a, T> {
    /// The node was recognised; the first field is the input left unconsumed.
    Parsed(&'a str, T),
    /// The input is a possibly truncated prefix of a longer match: at least
    /// this many more characters are needed before a decision can be made.
    NeedsMoreInput(usize),
    /// No continuation of the input can begin this production.
    Failed(ParserErr),
}

/// The abstract decision a production makes on a sequence of characters.
pub enum Scan {
    /// The production matches the first `n` characters.
    Match(nat),
    /// The characters seen so far could still grow into a match.
    Incomplete,
    /// No continuation of the characters can begin the production.
    Reject,
}

/// A syntactic category that can parse itself from a prefix of its input.
pub trait AST: Sized {
    /// The characters of the input that this node was parsed from.
    spec fn text(&self) -> Seq<char>;

    /// Parses a node from the start of `i`.
    ///
    /// On success the consumed prefix, which is the node's text, followed by
    /// the returned remainder is exactly `i`; a request for more input asks
    /// for at least one character.
    fn gen_ast<'a>(i: &'a str) -> (r: ParseOutcome<'a, Self>)
        ensures
            r matches ParseOutcome::Parsed(rest, node) ==> i@ == node.text() + rest@,
            r matches ParseOutcome::NeedsMoreInput(n) ==> n >= 1,
    ;
}

/// `r` is the outcome that the decision `scan` on `input` calls for, where
/// `text` gives the characters a node stands for and `err` is the failure kind.
pub open spec fn agrees<'a, T>(
    input: Seq<char>,
    r: ParseOutcome<'a, T>,
    text: spec_fn(T) -> Seq<char>,
    scan: Scan,
    err: ParserErr,
) -> bool {
    match scan {
        Scan::Match(n) => match r {
            ParseOutcome::Parsed(rest, node) => n <= input.len() && text(node) == input.take(
                n as int,
            ) && rest@ == input.skip(n as int),
            _ => false,
        },
        Scan::Incomplete => match r {
            ParseOutcome::NeedsMoreInput(k) => k == 1,
            _ => false,
        },
        Scan::Reject => match r {
            ParseOutcome::Failed(e) => e == err,
            _ => false,
        },
    }
}

/// An outcome that agrees with a decision also meets the consumption rule.
pub proof fn lemma_agrees_consumes<'a, T>(
    input: Seq<char>,
    r: ParseOutcome<'a, T>,
    text: spec_fn(T) -> Seq<char>,
    scan: Scan,
    err: ParserErr,
)
    requires
        agrees(input, r, text, scan, err),
    ensures
        r matches ParseOutcome::Parsed(rest, node) ==> input == text(node) + rest@,
        r matches ParseOutcome::NeedsMoreInput(n) ==> n >= 1,
{
    if let ParseOutcome::Parsed(rest, node) = r {
        if let Scan::Match(n) = scan {
            assert(input =~= input.take(n as int) + input.skip(n as int));
        }
    }
}

} // verus!
