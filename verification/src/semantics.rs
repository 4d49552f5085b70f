//! What parsing an input against an expression means: for each node of an
//! expression and each of the three ways of parsing it, the state in which
//! the parse ends or the error with which it fails.

use vstd::prelude::*;
use crate::calc_regex::{Inner, Node, NodeIndex};
use crate::capture::{
    Named,
    Scope,
    finish_capture,
    finish_repeat,
    fresh,
    start_capture,
    start_repeat,
};
use crate::error::Failure;
use crate::matcher::{Outcome, State, match_bounded, match_exact, match_unbounded};

verus! {

/// Whether a count function may return `r` for the given bytes.
pub open spec fn may_yield<F: Fn(&[u8]) -> Option<usize>>(
    f: F,
    raw: Seq<u8>,
    r: Option<usize>,
) -> bool {
    exists|b: &[u8]| b@ == raw && #[trigger] call_ensures(f, (b,), r)
}

/// What a count function returns for the given bytes.
pub open spec fn decoded<F: Fn(&[u8]) -> Option<usize>>(f: F, raw: Seq<u8>) -> Option<usize> {
    choose|r: Option<usize>| #[trigger] may_yield(f, raw, r)
}

/// A count function is pure: it can be called on all bytes, and what it
/// returns depends on the bytes alone.
pub open spec fn pure<F: Fn(&[u8]) -> Option<usize>>(f: F) -> bool {
    &&& forall|b: &[u8]| #[trigger] call_requires(f, (b,))
    &&& forall|b: &[u8], r1: Option<usize>, r2: Option<usize>|
        #[trigger] call_ensures(f, (b,), r1) && #[trigger] call_ensures(f, (b,), r2) ==> r1 == r2
}

/// The state after a capture of the given name was opened.
pub open spec fn opened(name: Seq<char>, st: State) -> State {
    State { stack: start_capture(st.stack, name, st.pos), ..st }
}

/// The state after the innermost capture was finished.
pub open spec fn closed(st: State) -> State {
    State { stack: finish_capture(st.stack, st.pos), ..st }
}

/// The state after a repeat was opened.
pub open spec fn repeat_opened(st: State) -> State {
    State { stack: start_repeat(st.stack), ..st }
}

/// The state after the innermost repeat was finished.
pub open spec fn repeat_closed(st: State) -> State {
    State { stack: finish_repeat(st.stack), ..st }
}

/// The state after the capture of a node was opened, if it has a name.
pub open spec fn entered<F>(node: Node<F>, st: State) -> State {
    match node.name {
        Some(name) => opened(name@, st),
        None => st,
    }
}

/// What is left of a bound after the bytes between two states were read.
pub open spec fn rest(bound: nat, from: State, to: State) -> nat {
    (bound - (to.pos - from.pos)) as nat
}

/// The error of a node that is parsed in a way that its kind excludes. No
/// parse of a well-formed expression comes here.
pub open spec fn stuck() -> Outcome {
    Err(Failure::UnexpectedEof)
}

/// A finished step followed by the rest of a parse.
pub open spec fn finishing(r: Outcome, node_named: bool) -> Outcome {
    match r {
        Ok(st) => Ok(
            if node_named {
                closed(st)
            } else {
                st
            },
        ),
        Err(e) => Err(e),
    }
}

/// Parsing a node with no bound from outside. The node's own bound, if it
/// has one, holds; its capture is opened before and finished after.
pub open spec fn parse_unbounded<F: Fn(&[u8]) -> Option<usize>>(
    g: Seq<Node<F>>,
    i: int,
    input: Seq<u8>,
    st: State,
) -> Outcome
    decreases i, 2nat, 0nat,
{
    if 0 <= i < g.len() {
        let st1 = entered(g[i], st);
        finishing(
            match g[i].length_bound {
                Some(b) => inner_bounded(g, i, b as nat, input, st1),
                None => inner_unbounded(g, i, input, st1),
            },
            g[i].name is Some,
        )
    } else {
        stuck()
    }
}

/// Parsing a node within a bound. The smaller of the bound and the node's
/// own holds.
pub open spec fn parse_bounded<F: Fn(&[u8]) -> Option<usize>>(
    g: Seq<Node<F>>,
    i: int,
    bound: nat,
    input: Seq<u8>,
    st: State,
) -> Outcome
    decreases i, 2nat, 0nat,
{
    if 0 <= i < g.len() {
        let tight = match g[i].length_bound {
            Some(b) if b < bound => b as nat,
            _ => bound,
        };
        finishing(inner_bounded(g, i, tight, input, entered(g[i], st)), g[i].name is Some)
    } else {
        stuck()
    }
}

/// Parsing a node to an exact length. A bound of the node's own that is
/// smaller than the length conflicts with it.
pub open spec fn parse_exact<F: Fn(&[u8]) -> Option<usize>>(
    g: Seq<Node<F>>,
    i: int,
    length: nat,
    input: Seq<u8>,
    st: State,
) -> Outcome
    decreases i, 2nat, 0nat,
{
    if 0 <= i < g.len() {
        match g[i].length_bound {
            Some(b) if b < length => Err(
                Failure::ConflictingBounds { old: length, new: b as nat },
            ),
            _ => finishing(
                inner_exact(g, i, length, input, entered(g[i], st)),
                g[i].name is Some,
            ),
        }
    } else {
        stuck()
    }
}

/// A node parsed `n` times in a row with no bound.
pub open spec fn repeat_unbounded<F: Fn(&[u8]) -> Option<usize>>(
    g: Seq<Node<F>>,
    c: int,
    n: nat,
    input: Seq<u8>,
    st: State,
) -> Outcome
    decreases c, 3nat, n,
{
    if n == 0 {
        Ok(st)
    } else {
        match parse_unbounded(g, c, input, st) {
            Ok(st1) => repeat_unbounded(g, c, (n - 1) as nat, input, st1),
            Err(e) => Err(e),
        }
    }
}

/// A node parsed `n` times in a row within a bound on all of them.
pub open spec fn repeat_bounded<F: Fn(&[u8]) -> Option<usize>>(
    g: Seq<Node<F>>,
    c: int,
    n: nat,
    bound: nat,
    input: Seq<u8>,
    st: State,
) -> Outcome
    decreases c, 3nat, n,
{
    if n == 0 {
        Ok(st)
    } else {
        match parse_bounded(g, c, bound, input, st) {
            Ok(st1) => repeat_bounded(g, c, (n - 1) as nat, rest(bound, st, st1), input, st1),
            Err(e) => Err(e),
        }
    }
}

/// A node parsed `n` times in a row to an exact length of all of them: all
/// but the last within what is left of the length, the last to exactly
/// what is left. No repetition at all has length zero and conflicts with
/// any other.
pub open spec fn repeat_exact<F: Fn(&[u8]) -> Option<usize>>(
    g: Seq<Node<F>>,
    c: int,
    n: nat,
    length: nat,
    input: Seq<u8>,
    st: State,
) -> Outcome
    decreases c, 4nat, 0nat,
{
    if n == 0 {
        if length == 0 {
            Ok(st)
        } else {
            Err(Failure::ConflictingBounds { old: length, new: 0 })
        }
    } else {
        match repeat_bounded(g, c, (n - 1) as nat, length, input, st) {
            Ok(st1) => parse_exact(g, c, rest(length, st, st1), input, st1),
            Err(e) => Err(e),
        }
    }
}

/// A node parsed again and again until an exact length is used up. Each
/// time at least one byte must be read.
pub open spec fn star<F: Fn(&[u8]) -> Option<usize>>(
    g: Seq<Node<F>>,
    c: int,
    length: nat,
    input: Seq<u8>,
    st: State,
) -> Outcome
    decreases c, 3nat, length,
{
    if length == 0 {
        Ok(st)
    } else {
        match parse_bounded(g, c, length, input, st) {
            Ok(st1) => if st.pos < st1.pos <= st.pos + length {
                star(g, c, rest(length, st, st1), input, st1)
            } else {
                stuck()
            },
            Err(e) => Err(e),
        }
    }
}

/// The bytes that a counting sub-expression matched, read as a count.
pub open spec fn count_of<F: Fn(&[u8]) -> Option<usize>>(
    f: F,
    input: Seq<u8>,
    from: State,
    to: State,
) -> Result<(State, nat), Failure> {
    let raw = input.subrange(from.pos as int, to.pos as int);
    match decoded(f, raw) {
        Some(count) => Ok((closed(to), count as nat)),
        None => Err(Failure::CannotReadCount { raw_count: raw }),
    }
}

/// Reading a count with no bound: the counting sub-expression is parsed
/// inside a capture named `$count`, and the bytes it matched are handed to
/// the count function.
pub open spec fn count_unbounded<F: Fn(&[u8]) -> Option<usize>>(
    g: Seq<Node<F>>,
    r: int,
    f: F,
    input: Seq<u8>,
    st: State,
) -> Result<(State, nat), Failure>
    decreases r, 3nat, 0nat,
{
    match parse_unbounded(g, r, input, opened("$count"@, st)) {
        Ok(st1) => count_of(f, input, st, st1),
        Err(e) => Err(e),
    }
}

/// Reading a count within a bound.
pub open spec fn count_bounded<F: Fn(&[u8]) -> Option<usize>>(
    g: Seq<Node<F>>,
    r: int,
    f: F,
    bound: nat,
    input: Seq<u8>,
    st: State,
) -> Result<(State, nat), Failure>
    decreases r, 3nat, 0nat,
{
    match parse_bounded(g, r, bound, input, opened("$count"@, st)) {
        Ok(st1) => count_of(f, input, st, st1),
        Err(e) => Err(e),
    }
}

/// The separator of a counted production, if it has one, parsed with no
/// bound.
pub open spec fn separator_unbounded<F: Fn(&[u8]) -> Option<usize>>(
    g: Seq<Node<F>>,
    i: int,
    s: Option<NodeIndex>,
    input: Seq<u8>,
    st: State,
) -> Outcome
    decreases i, 0nat, 0nat,
{
    match s {
        Some(c) => if 0 <= c@ < i {
            parse_unbounded(g, c@, input, st)
        } else {
            stuck()
        },
        None => Ok(st),
    }
}

/// The separator of a counted production, if it has one, parsed within a
/// bound.
pub open spec fn separator_bounded<F: Fn(&[u8]) -> Option<usize>>(
    g: Seq<Node<F>>,
    i: int,
    s: Option<NodeIndex>,
    bound: nat,
    input: Seq<u8>,
    st: State,
) -> Outcome
    decreases i, 0nat, 0nat,
{
    match s {
        Some(c) => if 0 <= c@ < i {
            parse_bounded(g, c@, bound, input, st)
        } else {
            stuck()
        },
        None => Ok(st),
    }
}

/// The target of a length count: parsed to exactly the count, inside a
/// capture named `$value`.
pub open spec fn value_exact<F: Fn(&[u8]) -> Option<usize>>(
    g: Seq<Node<F>>,
    t: int,
    count: nat,
    input: Seq<u8>,
    st: State,
) -> Outcome
    decreases t, 3nat, 0nat,
{
    finishing(parse_exact(g, t, count, input, opened("$value"@, st)), true)
}

/// The target of an occurrence count with no bound: parsed as often as the
/// count says, as a repeat inside a capture named `$value`.
pub open spec fn occurrences_unbounded<F: Fn(&[u8]) -> Option<usize>>(
    g: Seq<Node<F>>,
    t: int,
    count: nat,
    input: Seq<u8>,
    st: State,
) -> Outcome
    decreases t, 4nat, 0nat,
{
    match repeat_unbounded(g, t, count, input, repeat_opened(opened("$value"@, st))) {
        Ok(st1) => Ok(closed(repeat_closed(st1))),
        Err(e) => Err(e),
    }
}

/// The target of an occurrence count within a bound.
pub open spec fn occurrences_bounded<F: Fn(&[u8]) -> Option<usize>>(
    g: Seq<Node<F>>,
    t: int,
    count: nat,
    bound: nat,
    input: Seq<u8>,
    st: State,
) -> Outcome
    decreases t, 4nat, 0nat,
{
    match repeat_bounded(g, t, count, bound, input, repeat_opened(opened("$value"@, st))) {
        Ok(st1) => Ok(closed(repeat_closed(st1))),
        Err(e) => Err(e),
    }
}

/// The target of an occurrence count to an exact length.
pub open spec fn occurrences_exact<F: Fn(&[u8]) -> Option<usize>>(
    g: Seq<Node<F>>,
    t: int,
    count: nat,
    length: nat,
    input: Seq<u8>,
    st: State,
) -> Outcome
    decreases t, 5nat, 0nat,
{
    match repeat_exact(g, t, count, length, input, repeat_opened(opened("$value"@, st))) {
        Ok(st1) => Ok(closed(repeat_closed(st1))),
        Err(e) => Err(e),
    }
}

/// What a node's kind asks for when the node is parsed with no bound.
pub open spec fn inner_unbounded<F: Fn(&[u8]) -> Option<usize>>(
    g: Seq<Node<F>>,
    i: int,
    input: Seq<u8>,
    st: State,
) -> Outcome
    decreases i, 1nat, 0nat,
{
    if !(0 <= i < g.len()) {
        stuck()
    } else {
        match g[i].inner {
            Inner::Regex(re) => match_unbounded(re, input, st),
            Inner::CalcRegex(c) => if 0 <= c@ < i {
                parse_unbounded(g, c@, input, st)
            } else {
                stuck()
            },
            Inner::Concat(l, r) => if 0 <= l@ < i && 0 <= r@ < i {
                match parse_unbounded(g, l@, input, st) {
                    Ok(st1) => parse_unbounded(g, r@, input, st1),
                    Err(e) => Err(e),
                }
            } else {
                stuck()
            },
            Inner::Repeat(c, n) => if 0 <= c@ < i {
                match repeat_unbounded(g, c@, n as nat, input, repeat_opened(st)) {
                    Ok(st1) => Ok(repeat_closed(st1)),
                    Err(e) => Err(e),
                }
            } else {
                stuck()
            },
            Inner::KleeneStar(_) => stuck(),
            Inner::LengthCount { r, s, t, f } => if 0 <= r@ < i && 0 <= t@ < i {
                match count_unbounded(g, r@, f, input, st) {
                    Ok((st1, count)) => match separator_unbounded(g, i, s, input, st1) {
                        Ok(st2) => value_exact(g, t@, count, input, st2),
                        Err(e) => Err(e),
                    },
                    Err(e) => Err(e),
                }
            } else {
                stuck()
            },
            Inner::OccurrenceCount { r, s, t, f } => if 0 <= r@ < i && 0 <= t@ < i {
                match count_unbounded(g, r@, f, input, st) {
                    Ok((st1, count)) => match separator_unbounded(g, i, s, input, st1) {
                        Ok(st2) => occurrences_unbounded(g, t@, count, input, st2),
                        Err(e) => Err(e),
                    },
                    Err(e) => Err(e),
                }
            } else {
                stuck()
            },
        }
    }
}

/// What a node's kind asks for when the node is parsed within a bound.
/// Each part is parsed within what the parts before it left of the bound.
pub open spec fn inner_bounded<F: Fn(&[u8]) -> Option<usize>>(
    g: Seq<Node<F>>,
    i: int,
    bound: nat,
    input: Seq<u8>,
    st: State,
) -> Outcome
    decreases i, 1nat, 0nat,
{
    if !(0 <= i < g.len()) {
        stuck()
    } else {
        match g[i].inner {
            Inner::Regex(re) => match_bounded(re, bound, input, st),
            Inner::CalcRegex(c) => if 0 <= c@ < i {
                parse_bounded(g, c@, bound, input, st)
            } else {
                stuck()
            },
            Inner::Concat(l, r) => if 0 <= l@ < i && 0 <= r@ < i {
                match parse_bounded(g, l@, bound, input, st) {
                    Ok(st1) => parse_bounded(g, r@, rest(bound, st, st1), input, st1),
                    Err(e) => Err(e),
                }
            } else {
                stuck()
            },
            Inner::Repeat(c, n) => if 0 <= c@ < i {
                match repeat_bounded(g, c@, n as nat, bound, input, repeat_opened(st)) {
                    Ok(st1) => Ok(repeat_closed(st1)),
                    Err(e) => Err(e),
                }
            } else {
                stuck()
            },
            Inner::KleeneStar(_) => stuck(),
            Inner::LengthCount { r, s, t, f } => if 0 <= r@ < i && 0 <= t@ < i {
                match count_bounded(g, r@, f, bound, input, st) {
                    Ok((st1, count)) => match separator_bounded(
                        g,
                        i,
                        s,
                        rest(bound, st, st1),
                        input,
                        st1,
                    ) {
                        Ok(st2) => if rest(bound, st, st2) < count {
                            Err(
                                Failure::ConflictingBounds {
                                    old: rest(bound, st, st2),
                                    new: count,
                                },
                            )
                        } else {
                            value_exact(g, t@, count, input, st2)
                        },
                        Err(e) => Err(e),
                    },
                    Err(e) => Err(e),
                }
            } else {
                stuck()
            },
            Inner::OccurrenceCount { r, s, t, f } => if 0 <= r@ < i && 0 <= t@ < i {
                match count_bounded(g, r@, f, bound, input, st) {
                    Ok((st1, count)) => match separator_bounded(
                        g,
                        i,
                        s,
                        rest(bound, st, st1),
                        input,
                        st1,
                    ) {
                        Ok(st2) => occurrences_bounded(
                            g,
                            t@,
                            count,
                            rest(bound, st, st2),
                            input,
                            st2,
                        ),
                        Err(e) => Err(e),
                    },
                    Err(e) => Err(e),
                }
            } else {
                stuck()
            },
        }
    }
}

/// The separator and the check of the count in a length count that is
/// parsed to an exact length, of which `left` is left after the count was
/// read. With a separator, the separator gets exactly what the count
/// leaves; a count that is larger than what is left conflicts. Without,
/// the count must be what is left.
pub open spec fn separator_exact<F: Fn(&[u8]) -> Option<usize>>(
    g: Seq<Node<F>>,
    i: int,
    s: Option<NodeIndex>,
    left: nat,
    count: nat,
    input: Seq<u8>,
    st: State,
) -> Outcome
    decreases i, 0nat, 0nat,
{
    match s {
        Some(c) => if left < count {
            Err(Failure::ConflictingBounds { old: left, new: count })
        } else if 0 <= c@ < i {
            parse_exact(g, c@, (left - count) as nat, input, st)
        } else {
            stuck()
        },
        None => if left != count {
            Err(Failure::ConflictingBounds { old: left, new: count })
        } else {
            Ok(st)
        },
    }
}

/// What a node's kind asks for when the node is parsed to an exact length.
/// All parts but the last are parsed within what is left of the length,
/// the last to exactly what is left.
pub open spec fn inner_exact<F: Fn(&[u8]) -> Option<usize>>(
    g: Seq<Node<F>>,
    i: int,
    length: nat,
    input: Seq<u8>,
    st: State,
) -> Outcome
    decreases i, 1nat, 0nat,
{
    if !(0 <= i < g.len()) {
        stuck()
    } else {
        match g[i].inner {
            Inner::Regex(re) => match_exact(re, length, input, st),
            Inner::CalcRegex(c) => if 0 <= c@ < i {
                parse_exact(g, c@, length, input, st)
            } else {
                stuck()
            },
            Inner::Concat(l, r) => if 0 <= l@ < i && 0 <= r@ < i {
                match parse_bounded(g, l@, length, input, st) {
                    Ok(st1) => parse_exact(g, r@, rest(length, st, st1), input, st1),
                    Err(e) => Err(e),
                }
            } else {
                stuck()
            },
            Inner::Repeat(c, n) => if 0 <= c@ < i {
                match repeat_exact(g, c@, n as nat, length, input, repeat_opened(st)) {
                    Ok(st1) => Ok(repeat_closed(st1)),
                    Err(e) => Err(e),
                }
            } else {
                stuck()
            },
            Inner::KleeneStar(c) => if 0 <= c@ < i {
                match star(g, c@, length, input, repeat_opened(st)) {
                    Ok(st1) => Ok(repeat_closed(st1)),
                    Err(e) => Err(e),
                }
            } else {
                stuck()
            },
            Inner::LengthCount { r, s, t, f } => if 0 <= r@ < i && 0 <= t@ < i {
                match count_bounded(g, r@, f, length, input, st) {
                    Ok((st1, count)) => match separator_exact(
                        g,
                        i,
                        s,
                        rest(length, st, st1),
                        count,
                        input,
                        st1,
                    ) {
                        Ok(st2) => value_exact(g, t@, count, input, st2),
                        Err(e) => Err(e),
                    },
                    Err(e) => Err(e),
                }
            } else {
                stuck()
            },
            Inner::OccurrenceCount { r, s, t, f } => if 0 <= r@ < i && 0 <= t@ < i {
                match count_bounded(g, r@, f, length, input, st) {
                    Ok((st1, count)) => match separator_bounded(
                        g,
                        i,
                        s,
                        rest(length, st, st1),
                        input,
                        st1,
                    ) {
                        Ok(st2) => occurrences_exact(
                            g,
                            t@,
                            count,
                            rest(length, st, st2),
                            input,
                            st2,
                        ),
                        Err(e) => Err(e),
                    },
                    Err(e) => Err(e),
                }
            } else {
                stuck()
            },
        }
    }
}

/// The stack on which a parse starts: the one scope of the root, opened at
/// the position where the parse starts.
pub open spec fn root_stack(name: Seq<char>, from: nat) -> Seq<Named> {
    seq![Named { name, entry: fresh(from) }]
}

/// Parsing one record: the root is parsed from `from` on, within its bound
/// if it has one. The result is the scope of the root, which ends where
/// the parse ended.
pub open spec fn parse_record<F: Fn(&[u8]) -> Option<usize>>(
    g: Seq<Node<F>>,
    root: int,
    input: Seq<u8>,
    from: nat,
) -> Result<Scope, Failure> {
    let st = State { pos: from, stack: root_stack(g[root].name.unwrap()@, from) };
    match (match g[root].length_bound {
        Some(b) => inner_bounded(g, root, b as nat, input, st),
        None => inner_unbounded(g, root, input, st),
    }) {
        Ok(st1) => Ok(Scope { end: st1.pos, ..st1.stack[0].entry->Single_0 }),
        Err(e) => Err(e),
    }
}

/// Parsing an input that holds one record and nothing else: bytes that are
/// left after the record are an error.
pub open spec fn parse_all<F: Fn(&[u8]) -> Option<usize>>(
    g: Seq<Node<F>>,
    root: int,
    input: Seq<u8>,
    from: nat,
) -> Result<Scope, Failure> {
    match parse_record(g, root, input, from) {
        Ok(scope) => if scope.end == input.len() {
            Ok(scope)
        } else {
            Err(Failure::TrailingCharacters)
        },
        Err(e) => Err(e),
    }
}

} // verus!
