use std::rc::Rc;
use vstd::prelude::*;
use crate::lexical::{
    continue_end, escaped_end, escaped_identifier_scan, is_escaped_char, is_ident_continue,
    simple_identifier_scan, white_space_scan, EscapedIdentifier, SimpleIdentifier, WhiteSpace,
};
use crate::outcome::{agrees, lemma_agrees_consumes, ParseOutcome, ParserErr, Scan, AST};

verus! {

/// One lexical item of source text.
#[derive(Debug)]
pub enum Lexeme {
    WhiteSpace(WhiteSpace),
    SimpleIdentifier(SimpleIdentifier),
    EscapedIdentifier(EscapedIdentifier),
}

impl Lexeme {
    /// The characters this item was parsed from.
    pub open spec fn text(&self) -> Seq<char> {
        match self {
            Lexeme::WhiteSpace(w) => w.text(),
            Lexeme::SimpleIdentifier(s) => s.text(),
            Lexeme::EscapedIdentifier(e) => e.text(),
        }
    }
}

/// Where a parsed item came from: its line (counted from one), the span of
/// character offsets `[head, tail)` it covers, and the source it was read
/// from, a handle shared by every item of that source.
#[derive(Debug)]
pub struct SourceLocation {
    pub line: usize,
    pub head: usize,
    pub tail: usize,
    pub source: Rc<String>,
}

/// A lexical item together with its location.
#[derive(Debug)]
pub struct Located {
    pub lexeme: Lexeme,
    pub location: SourceLocation,
}

/// A.1.2 SystemVerilog source text DEF: 0
///
/// The items recognised from the start of a compilation unit, in order.
#[derive(Debug)]
pub struct SourceText {
    pub items: Vec<Located>,
}

/// The lexical alternatives are tried in order, each on the unmodified
/// input: white space, then a simple identifier, then an escaped one. The
/// first that does not reject decides.
pub open spec fn lexeme_scan(s: Seq<char>) -> Scan {
    match white_space_scan(s) {
        Scan::Reject => match simple_identifier_scan(s) {
            Scan::Reject => escaped_identifier_scan(s),
            other => other,
        },
        other => other,
    }
}

/// Source text takes lexical items one after another until the input
/// begins none of them. It asks for more input whenever an item, or the
/// input itself, may still continue.
pub open spec fn source_text_scan(s: Seq<char>) -> Scan
    decreases s.len(),
{
    match lexeme_scan(s) {
        Scan::Reject => Scan::Match(0),
        Scan::Incomplete => Scan::Incomplete,
        Scan::Match(n) => if 0 < n <= s.len() {
            match source_text_scan(s.skip(n as int)) {
                Scan::Match(m) => Scan::Match(n + m),
                other => other,
            }
        } else {
            Scan::Incomplete
        },
    }
}

/// The number of newline characters in `s`.
pub open spec fn newlines(s: Seq<char>) -> nat
    decreases s.len(),
{
    if s.len() == 0 {
        0
    } else {
        newlines(s.drop_last()) + if s.last() == '\n' {
            1nat
        } else {
            0nat
        }
    }
}

/// The characters of `items`, one item after another.
pub open spec fn texts(items: Seq<Located>) -> Seq<char>
    decreases items.len(),
{
    if items.len() == 0 {
        Seq::empty()
    } else {
        texts(items.drop_last()) + items.last().lexeme.text()
    }
}

/// Every item of `items` records where in `input` it was found: the items
/// cover the input from its start without gaps, each is the item that the
/// input holds at its head, its line counts the newlines before it, and all
/// share `source`.
#[verifier::opaque]
pub open spec fn located_in(input: Seq<char>, items: Seq<Located>, source: Rc<String>) -> bool {
    forall|k: int|
        0 <= k < items.len() ==> {
            let loc = #[trigger] items[k].location;
            &&& loc.head <= loc.tail <= input.len()
            &&& loc.head == if k == 0 {
                0
            } else {
                items[k - 1].location.tail as int
            }
            &&& input.subrange(loc.head as int, loc.tail as int) == items[k].lexeme.text()
            &&& lexeme_scan(input.skip(loc.head as int)) == Scan::Match((loc.tail - loc.head) as nat)
            &&& loc.line == 1 + newlines(input.take(loc.head as int))
            &&& loc.source == source
        }
}

/// Relies on `Rc::clone`: the new handle points to the same value.
#[verifier::external_body]
fn share(source: &Rc<String>) -> (r: Rc<String>)
    ensures
        r == *source,
{
    Rc::clone(source)
}

proof fn lemma_continue_run(s: Seq<char>, k: nat)
    requires
        k <= s.len(),
    ensures
        k <= continue_end(s, k) <= s.len(),
        forall|j: int| k <= j < continue_end(s, k) ==> is_ident_continue(#[trigger] s[j]),
    decreases s.len() - k,
{
    if k < s.len() && is_ident_continue(s[k as int]) {
        lemma_continue_run(s, k + 1);
    }
}

proof fn lemma_escaped_run(s: Seq<char>, k: nat)
    requires
        k <= s.len(),
    ensures
        k <= escaped_end(s, k) <= s.len(),
        forall|j: int| k <= j < escaped_end(s, k) ==> is_escaped_char(#[trigger] s[j]),
    decreases s.len() - k,
{
    if k < s.len() && is_escaped_char(s[k as int]) {
        lemma_escaped_run(s, k + 1);
    }
}

/// Characters other than newline leave the count unchanged.
proof fn lemma_newlines_extend(s: Seq<char>, a: int, b: int)
    requires
        0 <= a <= b <= s.len(),
        forall|j: int| a <= j < b ==> #[trigger] s[j] != '\n',
    ensures
        newlines(s.take(b)) == newlines(s.take(a)),
    decreases b - a,
{
    if a < b {
        lemma_newlines_extend(s, a, b - 1);
        assert(s.take(b).drop_last() =~= s.take(b - 1));
    }
}

/// How the decision on the whole input follows from the one on what is left
/// after `pos` characters were taken as items.
pub open spec fn after(pos: nat, rest: Scan) -> Scan {
    match rest {
        Scan::Match(m) => Scan::Match(pos + m),
        other => other,
    }
}

/// Whether `l` is a newline.
pub open spec fn is_newline(l: Lexeme) -> bool {
    l matches Lexeme::WhiteSpace(WhiteSpace::Newline)
}

/// Taking the item found at `pos` adds one line exactly when that item is a
/// newline character.
proof fn lemma_step_newlines(input: Seq<char>, pos: int, n: nat)
    requires
        0 <= pos < input.len(),
        lexeme_scan(input.skip(pos)) == Scan::Match(n),
    ensures
        1 <= n,
        pos + n <= input.len(),
        after(pos as nat, source_text_scan(input.skip(pos))) == after(
            (pos + n) as nat,
            source_text_scan(input.skip(pos + n)),
        ),
        newlines(input.take(pos + n)) == newlines(input.take(pos)) + if input[pos] == '\n' {
            1nat
        } else {
            0nat
        },
{
    let s = input.skip(pos);
    if white_space_scan(s) is Match {
        assert(input.take(pos + 1).drop_last() =~= input.take(pos));
    } else if simple_identifier_scan(s) is Match {
        lemma_continue_run(s, 1);
        assert forall|j: int| pos + 1 <= j < pos + n implies #[trigger] input[j] != '\n' by {
            assert(input[j] == s[j - pos]);
        }
        assert(input.take(pos + 1).drop_last() =~= input.take(pos));
        lemma_newlines_extend(input, pos + 1, pos + n);
    } else {
        lemma_escaped_run(s, 1);
        assert forall|j: int| pos + 1 <= j < pos + n implies #[trigger] input[j] != '\n' by {
            assert(input[j] == s[j - pos]);
        }
        assert(input.take(pos + 1).drop_last() =~= input.take(pos));
        lemma_newlines_extend(input, pos + 1, pos + n);
    }
    assert(s.skip(n as int) =~= input.skip(pos + n));
}

/// Appending an item found at the end of the covered input keeps every
/// item's record.
proof fn lemma_located_push(
    input: Seq<char>,
    items: Seq<Located>,
    x: Located,
    source: Rc<String>,
)
    requires
        located_in(input, items, source),
        items.len() == 0 ==> x.location.head == 0,
        items.len() > 0 ==> items.last().location.tail == x.location.head,
        x.location.head <= x.location.tail <= input.len(),
        input.subrange(x.location.head as int, x.location.tail as int) == x.lexeme.text(),
        lexeme_scan(input.skip(x.location.head as int)) == Scan::Match(
            (x.location.tail - x.location.head) as nat,
        ),
        x.location.line == 1 + newlines(input.take(x.location.head as int)),
        x.location.source == source,
    ensures
        located_in(input, items.push(x), source),
        texts(items.push(x)) == texts(items) + x.lexeme.text(),
{
    reveal(located_in);
    let t = items.push(x);
    assert(t.drop_last() =~= items);
    assert forall|k: int| 0 <= k < t.len() implies {
        let loc = #[trigger] t[k].location;
        &&& loc.head <= loc.tail <= input.len()
        &&& loc.head == if k == 0 {
            0
        } else {
            t[k - 1].location.tail as int
        }
        &&& input.subrange(loc.head as int, loc.tail as int) == t[k].lexeme.text()
        &&& lexeme_scan(input.skip(loc.head as int)) == Scan::Match((loc.tail - loc.head) as nat)
        &&& loc.line == 1 + newlines(input.take(loc.head as int))
        &&& loc.source == source
    } by {
        if k < items.len() {
            assert(t[k] == items[k]);
            if k > 0 {
                assert(t[k - 1] == items[k - 1]);
            }
        } else {
            if k > 0 {
                assert(t[k - 1] == items[k - 1]);
            }
        }
    }
}

impl Lexeme {
    /// Parses one lexical item from the start of `i`, trying white space, a
    /// simple identifier and an escaped identifier in that order.
    pub fn gen_ast<'a>(i: &'a str) -> (r: ParseOutcome<'a, Lexeme>)
        ensures
            agrees(i@, r, |l: Lexeme| l.text(), lexeme_scan(i@), ParserErr::LexicalItem),
            r matches ParseOutcome::Parsed(_, l) ==> (is_newline(l) <==> i@[0] == '\n'),
    {
        match WhiteSpace::gen_ast(i) {
            ParseOutcome::Parsed(next, w) => ParseOutcome::Parsed(next, Lexeme::WhiteSpace(w)),
            ParseOutcome::NeedsMoreInput(n) => ParseOutcome::NeedsMoreInput(n),
            ParseOutcome::Failed(_) => match SimpleIdentifier::gen_ast(i) {
                ParseOutcome::Parsed(next, id) => ParseOutcome::Parsed(
                    next,
                    Lexeme::SimpleIdentifier(id),
                ),
                ParseOutcome::NeedsMoreInput(n) => ParseOutcome::NeedsMoreInput(n),
                ParseOutcome::Failed(_) => match EscapedIdentifier::gen_ast(i) {
                    ParseOutcome::Parsed(next, id) => ParseOutcome::Parsed(
                        next,
                        Lexeme::EscapedIdentifier(id),
                    ),
                    ParseOutcome::NeedsMoreInput(n) => ParseOutcome::NeedsMoreInput(n),
                    ParseOutcome::Failed(_) => ParseOutcome::Failed(ParserErr::LexicalItem),
                },
            },
        }
    }

    /// The number of characters this item was parsed from.
    pub fn len(&self) -> (n: usize)
        requires
            self.text().len() <= usize::MAX,
        ensures
            n == self.text().len(),
    {
        match self {
            Lexeme::WhiteSpace(_) => 1,
            Lexeme::SimpleIdentifier(id) => id.body.as_str().unicode_len(),
            Lexeme::EscapedIdentifier(id) => id.body.as_str().unicode_len() + 1,
        }
    }

    /// Whether this item is a newline.
    pub fn is_newline(&self) -> (r: bool)
        ensures
            r == is_newline(*self),
    {
        match self {
            Lexeme::WhiteSpace(WhiteSpace::Newline) => true,
            _ => false,
        }
    }
}

impl SourceText {
    /// Parses source text from the start of `i`, which was read from `source`.
    pub fn parse_from<'a>(i: &'a str, source: Rc<String>) -> (r: ParseOutcome<'a, SourceText>)
        ensures
            agrees(i@, r, |t: SourceText| t.text(), source_text_scan(i@), ParserErr::SourceText),
            r matches ParseOutcome::Parsed(_, t) ==> located_in(i@, t.items@, source),
    {
        let len = i.unicode_len();
        let mut rest = i;
        let mut pos: usize = 0;
        let mut line: usize = 1;
        let mut pending_newline = false;
        let mut items: Vec<Located> = Vec::new();
        proof {
            reveal(located_in);
        }
        assert(i@.skip(0) =~= i@);
        assert(i@.take(0) =~= Seq::<char>::empty());
        loop
            invariant
                len == i@.len(),
                pos <= len,
                rest@ == i@.skip(pos as int),
                texts(items@) == i@.take(pos as int),
                source_text_scan(i@) == after(pos as nat, source_text_scan(rest@)),
                located_in(i@, items@, source),
                items@.len() == 0 ==> pos == 0,
                items@.len() > 0 ==> items@.last().location.tail == pos,
                line + if pending_newline {
                    1nat
                } else {
                    0nat
                } == 1 + newlines(i@.take(pos as int)),
                newlines(i@.take(pos as int)) <= pos,
            decreases len - pos,
        {
            let ghost s = rest@;
            match Lexeme::gen_ast(rest) {
                ParseOutcome::Parsed(next, lexeme) => {
                    let n = lexeme.len();
                    if pending_newline {
                        line = line + 1;
                    }
                    proof {
                        lemma_step_newlines(i@, pos as int, n as nat);
                        assert(s[0] == i@[pos as int]);
                        assert(i@.subrange(pos as int, pos + n) =~= s.take(n as int));
                        assert(i@.take(pos + n) =~= i@.take(pos as int) + s.take(n as int));
                    }
                    let location = SourceLocation {
                        line,
                        head: pos,
                        tail: pos + n,
                        source: share(&source),
                    };
                    pending_newline = lexeme.is_newline();
                    pos = pos + n;
                    let x = Located { lexeme, location };
                    proof {
                        lemma_located_push(i@, items@, x, source);
                    }
                    items.push(x);
                    rest = next;
                },
                ParseOutcome::NeedsMoreInput(_) => {
                    return ParseOutcome::NeedsMoreInput(1);
                },
                ParseOutcome::Failed(_) => {
                    let r = ParseOutcome::Parsed(rest, SourceText { items });
                    proof {
                        lemma_agrees_consumes(
                            i@,
                            r,
                            |t: SourceText| t.text(),
                            source_text_scan(i@),
                            ParserErr::SourceText,
                        );
                    }
                    return r;
                },
            }
        }
    }
}

impl AST for SourceText {
    open spec fn text(&self) -> Seq<char> {
        texts(self.items@)
    }

    fn gen_ast<'a>(i: &'a str) -> (r: ParseOutcome<'a, Self>)
        ensures
            agrees(i@, r, |t: SourceText| t.text(), source_text_scan(i@), ParserErr::SourceText),
    {
        let r = SourceText::parse_from(i, Rc::new(String::new()));
        proof {
            lemma_agrees_consumes(i@, r, |t: SourceText| t.text(), source_text_scan(i@), ParserErr::SourceText);
        }
        r
    }
}

} // verus!
