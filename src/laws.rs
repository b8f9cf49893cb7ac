use vstd::prelude::*;
use crate::lexical::{
    continue_end, escaped_end, escaped_identifier_scan, is_escaped_char, is_ident_continue,
    is_white_space_char, simple_identifier_scan, white_space_scan,
};
use crate::outcome::{agrees, ParseOutcome, ParserErr, Scan};
use crate::source_text::{lexeme_scan, source_text_scan};

verus! {

proof fn lemma_continue_end_extend(s: Seq<char>, t: Seq<char>, k: nat)
    requires
        k <= s.len(),
    ensures
        continue_end(s, k) < s.len() ==> continue_end(s + t, k) == continue_end(s, k),
        continue_end(s, k) == s.len() ==> continue_end(s + t, k) >= s.len(),
        continue_end(s, k) < s.len() ==> !is_ident_continue(s[continue_end(s, k) as int]),
        k <= continue_end(s, k) <= s.len(),
    decreases s.len() - k,
{
    let u = s + t;
    if k < s.len() {
        assert(u[k as int] == s[k as int]);
        if is_ident_continue(s[k as int]) {
            lemma_continue_end_extend(s, t, k + 1);
        }
    } else {
        lemma_continue_end_grows(u, k);
    }
}

proof fn lemma_continue_end_grows(s: Seq<char>, k: nat)
    ensures
        continue_end(s, k) >= k,
    decreases s.len() - k,
{
    if k < s.len() && is_ident_continue(s[k as int]) {
        lemma_continue_end_grows(s, k + 1);
    }
}

proof fn lemma_escaped_end_extend(s: Seq<char>, t: Seq<char>, k: nat)
    requires
        k <= s.len(),
    ensures
        escaped_end(s, k) < s.len() ==> escaped_end(s + t, k) == escaped_end(s, k),
        escaped_end(s, k) == s.len() ==> escaped_end(s + t, k) >= s.len(),
        k <= escaped_end(s, k) <= s.len(),
    decreases s.len() - k,
{
    let u = s + t;
    if k < s.len() {
        assert(u[k as int] == s[k as int]);
        if is_escaped_char(s[k as int]) {
            lemma_escaped_end_extend(s, t, k + 1);
        }
    } else {
        lemma_escaped_end_grows(u, k);
    }
}

proof fn lemma_escaped_end_grows(s: Seq<char>, k: nat)
    ensures
        escaped_end(s, k) >= k,
    decreases s.len() - k,
{
    if k < s.len() && is_escaped_char(s[k as int]) {
        lemma_escaped_end_grows(s, k + 1);
    }
}

/// A white-space failure is decided by characters already seen: no further
/// input turns it into anything else, so a failure never consumes input.
pub proof fn lemma_white_space_failure_final(s: Seq<char>, t: Seq<char>)
    requires
        white_space_scan(s) is Reject,
    ensures
        white_space_scan(s + t) is Reject,
{
    assert((s + t)[0] == s[0]);
}

/// A simple-identifier failure is decided by characters already seen: no
/// further input turns it into anything else.
pub proof fn lemma_simple_identifier_failure_final(s: Seq<char>, t: Seq<char>)
    requires
        simple_identifier_scan(s) is Reject,
    ensures
        simple_identifier_scan(s + t) is Reject,
{
    assert((s + t)[0] == s[0]);
}

/// An escaped-identifier failure is decided by characters already seen: no
/// further input turns it into anything else.
pub proof fn lemma_escaped_identifier_failure_final(s: Seq<char>, t: Seq<char>)
    requires
        escaped_identifier_scan(s) is Reject,
    ensures
        escaped_identifier_scan(s + t) is Reject,
{
    let u = s + t;
    assert(u[0] == s[0]);
    if s[0] == '\\' {
        lemma_escaped_end_extend(s, t, 1);
        assert(u[escaped_end(s, 1) as int] == s[escaped_end(s, 1) as int]);
    }
}

/// A simple identifier is taken maximally: the character after it cannot
/// continue it, and no further input changes the match.
pub proof fn lemma_simple_identifier_maximal(s: Seq<char>, t: Seq<char>, n: nat)
    requires
        simple_identifier_scan(s) == Scan::Match(n),
    ensures
        n < s.len(),
        !is_ident_continue(s[n as int]),
        simple_identifier_scan(s + t) == Scan::Match(n),
{
    lemma_continue_end_extend(s, t, 1);
    assert((s + t)[0] == s[0]);
}

/// An escaped identifier is taken maximally: white space ends it, and no
/// further input changes the match.
pub proof fn lemma_escaped_identifier_maximal(s: Seq<char>, t: Seq<char>, n: nat)
    requires
        escaped_identifier_scan(s) == Scan::Match(n),
    ensures
        n < s.len(),
        is_white_space_char(s[n as int]),
        escaped_identifier_scan(s + t) == Scan::Match(n),
{
    lemma_escaped_end_extend(s, t, 1);
    let u = s + t;
    assert(u[0] == s[0]);
    assert(u[n as int] == s[n as int]);
}

/// Resuming a simple identifier that asked for more input never yields a
/// match shorter than what was already seen, nor a failure unless nothing
/// was seen.
pub proof fn lemma_simple_identifier_resumption(s: Seq<char>, t: Seq<char>)
    requires
        simple_identifier_scan(s) is Incomplete,
    ensures
        simple_identifier_scan(s + t) matches Scan::Match(n) ==> n >= s.len(),
        simple_identifier_scan(s + t) is Reject ==> s.len() == 0,
{
    if s.len() > 0 {
        lemma_continue_end_extend(s, t, 1);
        assert((s + t)[0] == s[0]);
    }
}

/// Resuming an escaped identifier that asked for more input never yields a
/// match shorter than what was already seen.
pub proof fn lemma_escaped_identifier_resumption(s: Seq<char>, t: Seq<char>)
    requires
        escaped_identifier_scan(s) is Incomplete,
    ensures
        escaped_identifier_scan(s + t) matches Scan::Match(n) ==> n >= s.len(),
{
    if s.len() > 0 {
        lemma_escaped_end_extend(s, t, 1);
        assert((s + t)[0] == s[0]);
    }
}

/// Two outcomes that cannot be told apart: the same variant, the same
/// remainder, the same node text, the same request or the same failure.
pub open spec fn same_outcome<'a, 'b, T>(
    r1: ParseOutcome<'a, T>,
    r2: ParseOutcome<'b, T>,
    text: spec_fn(T) -> Seq<char>,
) -> bool {
    match (r1, r2) {
        (ParseOutcome::Parsed(a, x), ParseOutcome::Parsed(b, y)) => a@ == b@ && text(x) == text(
            y,
        ),
        (ParseOutcome::NeedsMoreInput(m), ParseOutcome::NeedsMoreInput(n)) => m == n,
        (ParseOutcome::Failed(e), ParseOutcome::Failed(f)) => e == f,
        _ => false,
    }
}

/// Resumption is single-shot parsing: after a request for more input on
/// `s`, the outcome on `s` followed by the new characters `t` is the outcome
/// of parsing `s + t` in one call, for any production whose outcome is given
/// by a decision on its input.
pub proof fn lemma_resumption_is_single_shot<'a, 'b, 'c, T>(
    s: Seq<char>,
    t: Seq<char>,
    scan: spec_fn(Seq<char>) -> Scan,
    text: spec_fn(T) -> Seq<char>,
    err: ParserErr,
    truncated: ParseOutcome<'a, T>,
    resumed: ParseOutcome<'b, T>,
    single: ParseOutcome<'c, T>,
)
    requires
        agrees(s, truncated, text, scan(s), err),
        truncated is NeedsMoreInput,
        agrees(s + t, resumed, text, scan(s + t), err),
        agrees(s + t, single, text, scan(s + t), err),
    ensures
        same_outcome(resumed, single, text),
{
}

/// The ordered choice of lexical items fails only where every alternative
/// fails, and such a failure is final.
pub proof fn lemma_lexeme_failure_final(s: Seq<char>, t: Seq<char>)
    requires
        lexeme_scan(s) is Reject,
    ensures
        lexeme_scan(s + t) is Reject,
{
    lemma_white_space_failure_final(s, t);
    lemma_simple_identifier_failure_final(s, t);
    lemma_escaped_identifier_failure_final(s, t);
}

/// Source text never fails: a sequence of no items is source text too.
pub proof fn lemma_source_text_never_fails(s: Seq<char>)
    ensures
        !(source_text_scan(s) is Reject),
    decreases s.len(),
{
    if let Scan::Match(n) = lexeme_scan(s) {
        if 0 < n <= s.len() {
            lemma_source_text_never_fails(s.skip(n as int));
        }
    }
}

} // verus!
