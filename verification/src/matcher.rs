//! The compiled patterns that the leaves of an expression hold, and what
//! it means to match input against them.

use vstd::prelude::*;
use regex::bytes::Regex;
use crate::capture::Named;
use crate::error::Failure;

verus! {

/// A compiled regular expression on bytes, `regex::bytes::Regex`. Nothing
/// inside it is visible to the proofs.
#[verifier::external_type_specification]
#[verifier::external_body]
pub struct ExRegex(regex::bytes::Regex);

/// The error of compiling a regular expression, `regex::Error`.
#[verifier::external_type_specification]
#[verifier::external_body]
pub struct ExRegexError(regex::Error);

/// Whether the compiled expression has a match somewhere in the haystack:
/// what `Regex::is_match` returns.
pub uninterp spec fn regex_matches(re: Regex, haystack: Seq<u8>) -> bool;

/// The text that the expression was compiled from: what `Regex::as_str`
/// returns.
pub uninterp spec fn regex_pattern(re: Regex) -> Seq<char>;

/// Whether the text compiles to a regular expression: whether `Regex::new`
/// returns `Ok`.
pub uninterp spec fn regex_compiles(pattern: Seq<char>) -> bool;

/// `regex::bytes::Regex::is_match`: the result depends on nothing but the
/// compiled expression and the bytes of the haystack.
pub assume_specification[ regex::bytes::Regex::is_match ](
    re: &regex::bytes::Regex,
    haystack: &[u8],
) -> (b: bool)
    ensures
        b == regex_matches(*re, haystack@),
;

/// `regex::bytes::Regex::as_str`: the text is that of the compiled
/// expression.
pub assume_specification<'a>[ regex::bytes::Regex::as_str ](re: &'a regex::bytes::Regex) -> (s:
    &'a str)
    ensures
        s@ == regex_pattern(*re),
;

/// `Clone` of `regex::bytes::Regex`. Nothing is said of the clone.
pub assume_specification[ <regex::bytes::Regex as std::clone::Clone>::clone ](
    re: &regex::bytes::Regex,
) -> (r: regex::bytes::Regex)
;

/// Compiles a pattern with `regex::bytes::Regex::new`: whether a text
/// compiles depends on the text alone, and the compiled expression
/// remembers the text.
#[verifier::external_body]
pub(crate) fn compile_pattern(pattern: &str) -> (r: Result<Regex, regex::Error>)
    ensures
        r is Ok <==> regex_compiles(pattern@),
        r matches Ok(x) ==> regex_pattern(x) == pattern@,
{
    Regex::new(pattern)
}

/// The state of a parse: how many bytes were read, and the stack of open
/// captures.
pub struct State {
    pub pos: nat,
    pub stack: Seq<Named>,
}

/// How a step of a parse ends.
pub type Outcome = Result<State, Failure>;

impl State {
    /// The state with the position moved on by `n`.
    pub open spec fn advance(self, n: nat) -> State {
        State { pos: self.pos + n, ..self }
    }
}

/// The least number of bytes from `n` on, such that the input has as many
/// from `start` on and the expression matches them.
pub open spec fn first_match(re: Regex, input: Seq<u8>, start: nat, n: nat) -> Option<nat>
    decreases input.len() + 1 - start - n,
{
    if start + n > input.len() {
        None
    } else if regex_matches(re, input.subrange(start as int, (start + n) as int)) {
        Some(n)
    } else {
        first_match(re, input, start, n + 1)
    }
}

/// What `first_match` finds is a length from `n` on that matches.
pub proof fn lemma_first_match(re: Regex, input: Seq<u8>, start: nat, n: nat)
    ensures
        first_match(re, input, start, n) matches Some(m) ==> n <= m && start + m <= input.len(),
    decreases input.len() + 1 - start - n,
{
    if start + n <= input.len() && !regex_matches(
        re,
        input.subrange(start as int, (start + n) as int),
    ) {
        lemma_first_match(re, input, start, n + 1);
    }
}

/// Matching with no bound: bytes are read one by one until what was read
/// matches. The input ends before that: unexpected end of file.
pub open spec fn match_unbounded(re: Regex, input: Seq<u8>, st: State) -> Outcome {
    match first_match(re, input, st.pos, 0) {
        Some(n) => Ok(st.advance(n)),
        None => Err(Failure::UnexpectedEof),
    }
}

/// Matching within a bound: as without, but no more than `bound` bytes are
/// read. Where the input ends before the bound is reached: unexpected end
/// of file. Where `bound` bytes were read and do not match: the error names
/// the pattern and those bytes.
pub open spec fn match_bounded(re: Regex, bound: nat, input: Seq<u8>, st: State) -> Outcome {
    match first_match(re, input, st.pos, 0) {
        Some(n) if n <= bound => Ok(st.advance(n)),
        _ => if st.pos + bound > input.len() {
            Err(Failure::UnexpectedEof)
        } else {
            Err(
                Failure::Regex {
                    regex: regex_pattern(re),
                    value: input.subrange(st.pos as int, (st.pos + bound) as int),
                },
            )
        },
    }
}

/// Matching an exact length: that many bytes are read and must match.
pub open spec fn match_exact(re: Regex, length: nat, input: Seq<u8>, st: State) -> Outcome {
    if st.pos + length > input.len() {
        Err(Failure::UnexpectedEof)
    } else if regex_matches(re, input.subrange(st.pos as int, (st.pos + length) as int)) {
        Ok(st.advance(length))
    } else {
        Err(
            Failure::Regex {
                regex: regex_pattern(re),
                value: input.subrange(st.pos as int, (st.pos + length) as int),
            },
        )
    }
}

} // verus!
