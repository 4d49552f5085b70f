//! What holds of every parse: where it ends, and when it reads at least
//! one byte.

use vstd::prelude::*;
use crate::calc_regex::{Inner, Node, NodeIndex};
use crate::error::Failure;
use crate::matcher::{
    Outcome,
    State,
    lemma_first_match,
    match_bounded,
    match_exact,
    match_unbounded,
};
use crate::semantics::{
    count_bounded,
    count_unbounded,
    entered,
    inner_bounded,
    inner_exact,
    inner_unbounded,
    occurrences_bounded,
    occurrences_exact,
    occurrences_unbounded,
    opened,
    parse_bounded,
    parse_exact,
    parse_unbounded,
    repeat_bounded,
    repeat_exact,
    repeat_opened,
    repeat_unbounded,
    rest,
    separator_bounded,
    separator_exact,
    separator_unbounded,
    star,
    value_exact,
};

verus! {

/// A step that succeeds ends behind where it began, and within the input.
pub open spec fn onward(r: Outcome, st: State, input: Seq<u8>) -> bool {
    r matches Ok(st1) ==> st.pos <= st1.pos <= input.len()
}

/// A step within a bound that succeeds reads no more than the bound.
pub open spec fn within(r: Outcome, st: State, bound: nat, input: Seq<u8>) -> bool {
    r matches Ok(st1) ==> st.pos <= st1.pos <= input.len() && st1.pos <= st.pos + bound
}

/// A step to an exact length that succeeds reads exactly the length.
pub open spec fn exactly(r: Outcome, st: State, length: nat, input: Seq<u8>) -> bool {
    r matches Ok(st1) ==> st1.pos == st.pos + length && st1.pos <= input.len()
}

/// The state in which a count was read.
pub open spec fn counted(r: Result<(State, nat), Failure>) -> Outcome {
    match r {
        Ok((st, _)) => Ok(st),
        Err(e) => Err(e),
    }
}

/// Where matching ends.
pub proof fn lemma_match(re: regex::bytes::Regex, bound: nat, input: Seq<u8>, st: State)
    requires
        st.pos <= input.len(),
    ensures
        onward(match_unbounded(re, input, st), st, input),
        within(match_bounded(re, bound, input, st), st, bound, input),
        exactly(match_exact(re, bound, input, st), st, bound, input),
{
    lemma_first_match(re, input, st.pos, 0);
}

/// A node that is parsed with no bound from outside ends within the input.
pub proof fn lemma_parse_unbounded<F: Fn(&[u8]) -> Option<usize>>(
    g: Seq<Node<F>>,
    i: int,
    input: Seq<u8>,
    st: State,
)
    requires
        st.pos <= input.len(),
    ensures
        onward(parse_unbounded(g, i, input, st), st, input),
    decreases i, 2nat, 0nat,
{
    if 0 <= i < g.len() {
        let st1 = entered(g[i], st);
        match g[i].length_bound {
            Some(b) => lemma_inner_bounded(g, i, b as nat, input, st1),
            None => lemma_inner_unbounded(g, i, input, st1),
        }
    }
}

/// A node that is parsed within a bound reads no more than the bound.
pub proof fn lemma_parse_bounded<F: Fn(&[u8]) -> Option<usize>>(
    g: Seq<Node<F>>,
    i: int,
    bound: nat,
    input: Seq<u8>,
    st: State,
)
    requires
        st.pos <= input.len(),
    ensures
        within(parse_bounded(g, i, bound, input, st), st, bound, input),
    decreases i, 2nat, 0nat,
{
    if 0 <= i < g.len() {
        let st1 = entered(g[i], st);
        let tight = match g[i].length_bound {
            Some(b) if b < bound => b as nat,
            _ => bound,
        };
        lemma_inner_bounded(g, i, tight, input, st1);
    }
}

/// A node that is parsed to an exact length reads exactly the length.
pub proof fn lemma_parse_exact<F: Fn(&[u8]) -> Option<usize>>(
    g: Seq<Node<F>>,
    i: int,
    length: nat,
    input: Seq<u8>,
    st: State,
)
    requires
        st.pos <= input.len(),
    ensures
        exactly(parse_exact(g, i, length, input, st), st, length, input),
    decreases i, 2nat, 0nat,
{
    if 0 <= i < g.len() {
        let st1 = entered(g[i], st);
        lemma_inner_exact(g, i, length, input, st1);
    }
}

/// Repetitions with no bound end within the input.
pub proof fn lemma_repeat_unbounded<F: Fn(&[u8]) -> Option<usize>>(
    g: Seq<Node<F>>,
    c: int,
    n: nat,
    input: Seq<u8>,
    st: State,
)
    requires
        st.pos <= input.len(),
    ensures
        onward(repeat_unbounded(g, c, n, input, st), st, input),
    decreases c, 3nat, n,
{
    if n > 0 {
        lemma_parse_unbounded(g, c, input, st);
        match parse_unbounded(g, c, input, st) {
            Ok(st1) => lemma_repeat_unbounded(g, c, (n - 1) as nat, input, st1),
            Err(_) => {},
        }
    }
}

/// Repetitions within a bound read no more than the bound.
pub proof fn lemma_repeat_bounded<F: Fn(&[u8]) -> Option<usize>>(
    g: Seq<Node<F>>,
    c: int,
    n: nat,
    bound: nat,
    input: Seq<u8>,
    st: State,
)
    requires
        st.pos <= input.len(),
    ensures
        within(repeat_bounded(g, c, n, bound, input, st), st, bound, input),
    decreases c, 3nat, n,
{
    if n > 0 {
        lemma_parse_bounded(g, c, bound, input, st);
        match parse_bounded(g, c, bound, input, st) {
            Ok(st1) => lemma_repeat_bounded(
                g,
                c,
                (n - 1) as nat,
                rest(bound, st, st1),
                input,
                st1,
            ),
            Err(_) => {},
        }
    }
}

/// Repetitions to an exact length read exactly the length.
pub proof fn lemma_repeat_exact<F: Fn(&[u8]) -> Option<usize>>(
    g: Seq<Node<F>>,
    c: int,
    n: nat,
    length: nat,
    input: Seq<u8>,
    st: State,
)
    requires
        st.pos <= input.len(),
    ensures
        exactly(repeat_exact(g, c, n, length, input, st), st, length, input),
    decreases c, 4nat, 0nat,
{
    if n > 0 {
        lemma_repeat_bounded(g, c, (n - 1) as nat, length, input, st);
        match repeat_bounded(g, c, (n - 1) as nat, length, input, st) {
            Ok(st1) => lemma_parse_exact(
                g,
                c,
                rest(length, st, st1),
                input,
                st1,
            ),
            Err(_) => {},
        }
    }
}

/// A Kleene star that is parsed to an exact length reads exactly the length.
pub proof fn lemma_star<F: Fn(&[u8]) -> Option<usize>>(
    g: Seq<Node<F>>,
    c: int,
    length: nat,
    input: Seq<u8>,
    st: State,
)
    requires
        st.pos <= input.len(),
    ensures
        exactly(star(g, c, length, input, st), st, length, input),
    decreases c, 3nat, length,
{
    if length > 0 {
        lemma_parse_bounded(g, c, length, input, st);
        match parse_bounded(g, c, length, input, st) {
            Ok(st1) => if st.pos < st1.pos <= st.pos + length {
                lemma_star(g, c, rest(length, st, st1), input, st1);
            },
            Err(_) => {},
        }
    }
}

/// Reading a count with no bound ends within the input.
pub proof fn lemma_count_unbounded<F: Fn(&[u8]) -> Option<usize>>(
    g: Seq<Node<F>>,
    r: int,
    f: F,
    input: Seq<u8>,
    st: State,
)
    requires
        st.pos <= input.len(),
    ensures
        onward(counted(count_unbounded(g, r, f, input, st)), st, input),
    decreases r, 3nat, 0nat,
{
    lemma_parse_unbounded(g, r, input, opened("$count"@, st));
}

/// Reading a count within a bound reads no more than the bound.
pub proof fn lemma_count_bounded<F: Fn(&[u8]) -> Option<usize>>(
    g: Seq<Node<F>>,
    r: int,
    f: F,
    bound: nat,
    input: Seq<u8>,
    st: State,
)
    requires
        st.pos <= input.len(),
    ensures
        within(counted(count_bounded(g, r, f, bound, input, st)), st, bound, input),
    decreases r, 3nat, 0nat,
{
    lemma_parse_bounded(g, r, bound, input, opened("$count"@, st));
}

/// A separator that is parsed with no bound ends within the input.
pub proof fn lemma_separator_unbounded<F: Fn(&[u8]) -> Option<usize>>(
    g: Seq<Node<F>>,
    i: int,
    s: Option<NodeIndex>,
    input: Seq<u8>,
    st: State,
)
    requires
        st.pos <= input.len(),
    ensures
        onward(separator_unbounded(g, i, s, input, st), st, input),
    decreases i, 0nat, 0nat,
{
    match s {
        Some(c) => if 0 <= c@ < i {
            lemma_parse_unbounded(g, c@, input, st);
        },
        None => {},
    }
}

/// A separator that is parsed within a bound reads no more than the bound.
pub proof fn lemma_separator_bounded<F: Fn(&[u8]) -> Option<usize>>(
    g: Seq<Node<F>>,
    i: int,
    s: Option<NodeIndex>,
    bound: nat,
    input: Seq<u8>,
    st: State,
)
    requires
        st.pos <= input.len(),
    ensures
        within(separator_bounded(g, i, s, bound, input, st), st, bound, input),
    decreases i, 0nat, 0nat,
{
    match s {
        Some(c) => if 0 <= c@ < i {
            lemma_parse_bounded(g, c@, bound, input, st);
        },
        None => {},
    }
}

/// The separator of a length count to an exact length leaves exactly the count
/// of what was left.
pub proof fn lemma_separator_exact<F: Fn(&[u8]) -> Option<usize>>(
    g: Seq<Node<F>>,
    i: int,
    s: Option<NodeIndex>,
    left: nat,
    count: nat,
    input: Seq<u8>,
    st: State,
)
    requires
        st.pos <= input.len(),
    ensures
        separator_exact(g, i, s, left, count, input, st) matches Ok(st1) ==> st1.pos + count
            == st.pos + left && st1.pos <= input.len(),
    decreases i, 0nat, 0nat,
{
    match s {
        Some(c) => if left >= count && 0 <= c@ < i {
            lemma_parse_exact(g, c@, (left - count) as nat, input, st);
        },
        None => {},
    }
}

/// What a length count counts is read to exactly the count.
pub proof fn lemma_value_exact<F: Fn(&[u8]) -> Option<usize>>(
    g: Seq<Node<F>>,
    t: int,
    count: nat,
    input: Seq<u8>,
    st: State,
)
    requires
        st.pos <= input.len(),
    ensures
        exactly(value_exact(g, t, count, input, st), st, count, input),
    decreases t, 3nat, 0nat,
{
    lemma_parse_exact(g, t, count, input, opened("$value"@, st));
}

/// The occurrences that are counted end within the input.
pub proof fn lemma_occurrences_unbounded<F: Fn(&[u8]) -> Option<usize>>(
    g: Seq<Node<F>>,
    t: int,
    count: nat,
    input: Seq<u8>,
    st: State,
)
    requires
        st.pos <= input.len(),
    ensures
        onward(occurrences_unbounded(g, t, count, input, st), st, input),
    decreases t, 4nat, 0nat,
{
    lemma_repeat_unbounded(
        g,
        t,
        count,
        input,
        repeat_opened(opened("$value"@, st)),
    );
}

/// The occurrences that are counted within a bound read no more than the bound.
pub proof fn lemma_occurrences_bounded<F: Fn(&[u8]) -> Option<usize>>(
    g: Seq<Node<F>>,
    t: int,
    count: nat,
    bound: nat,
    input: Seq<u8>,
    st: State,
)
    requires
        st.pos <= input.len(),
    ensures
        within(occurrences_bounded(g, t, count, bound, input, st), st, bound, input),
    decreases t, 4nat, 0nat,
{
    lemma_repeat_bounded(
        g,
        t,
        count,
        bound,
        input,
        repeat_opened(opened("$value"@, st)),
    );
}

/// The occurrences that are counted to an exact length read exactly the length.
pub proof fn lemma_occurrences_exact<F: Fn(&[u8]) -> Option<usize>>(
    g: Seq<Node<F>>,
    t: int,
    count: nat,
    length: nat,
    input: Seq<u8>,
    st: State,
)
    requires
        st.pos <= input.len(),
    ensures
        exactly(occurrences_exact(g, t, count, length, input, st), st, length, input),
    decreases t, 5nat, 0nat,
{
    lemma_repeat_exact(
        g,
        t,
        count,
        length,
        input,
        repeat_opened(opened("$value"@, st)),
    );
}

/// What the kind of a node asks for with no bound ends within the input.
#[verifier::rlimit(50)]
pub proof fn lemma_inner_unbounded<F: Fn(&[u8]) -> Option<usize>>(
    g: Seq<Node<F>>,
    i: int,
    input: Seq<u8>,
    st: State,
)
    requires
        st.pos <= input.len(),
    ensures
        onward(inner_unbounded(g, i, input, st), st, input),
    decreases i, 1nat, 0nat,
{
    if 0 <= i < g.len() {
        match g[i].inner {
            Inner::Regex(re) => lemma_match(re, 0, input, st),
            Inner::CalcRegex(c) => if 0 <= c@ < i {
                lemma_parse_unbounded(g, c@, input, st);
            },
            Inner::Concat(l, r) => if 0 <= l@ < i && 0 <= r@ < i {
                lemma_parse_unbounded(g, l@, input, st);
                match parse_unbounded(g, l@, input, st) {
                    Ok(st1) => lemma_parse_unbounded(g, r@, input, st1),
                    Err(_) => {},
                }
            },
            Inner::Repeat(c, n) => if 0 <= c@ < i {
                lemma_repeat_unbounded(g, c@, n as nat, input, repeat_opened(st));
            },
            Inner::KleeneStar(_) => {},
            Inner::LengthCount { r, s, t, f } => if 0 <= r@ < i && 0 <= t@ < i {
                lemma_count_unbounded(g, r@, f, input, st);
                match count_unbounded(g, r@, f, input, st) {
                    Ok((st1, count)) => {
                        lemma_separator_unbounded(g, i, s, input, st1);
                        match separator_unbounded(g, i, s, input, st1) {
                            Ok(st2) => lemma_value_exact(g, t@, count, input, st2),
                            Err(_) => {},
                        }
                    },
                    Err(_) => {},
                }
            },
            Inner::OccurrenceCount { r, s, t, f } => if 0 <= r@ < i && 0 <= t@ < i {
                lemma_count_unbounded(g, r@, f, input, st);
                match count_unbounded(g, r@, f, input, st) {
                    Ok((st1, count)) => {
                        lemma_separator_unbounded(g, i, s, input, st1);
                        match separator_unbounded(g, i, s, input, st1) {
                            Ok(st2) => lemma_occurrences_unbounded(g, t@, count, input, st2),
                            Err(_) => {},
                        }
                    },
                    Err(_) => {},
                }
            },
        }
    }
}

/// What the kind of a node asks for within a bound reads no more than the bound.
#[verifier::rlimit(50)]
pub proof fn lemma_inner_bounded<F: Fn(&[u8]) -> Option<usize>>(
    g: Seq<Node<F>>,
    i: int,
    bound: nat,
    input: Seq<u8>,
    st: State,
)
    requires
        st.pos <= input.len(),
    ensures
        within(inner_bounded(g, i, bound, input, st), st, bound, input),
    decreases i, 1nat, 0nat,
{
    if 0 <= i < g.len() {
        match g[i].inner {
            Inner::Regex(re) => lemma_match(re, bound, input, st),
            Inner::CalcRegex(c) => if 0 <= c@ < i {
                lemma_parse_bounded(g, c@, bound, input, st);
            },
            Inner::Concat(l, r) => if 0 <= l@ < i && 0 <= r@ < i {
                lemma_parse_bounded(g, l@, bound, input, st);
                match parse_bounded(g, l@, bound, input, st) {
                    Ok(st1) => lemma_parse_bounded(g, r@, rest(bound, st, st1), input, st1),
                    Err(_) => {},
                }
            },
            Inner::Repeat(c, n) => if 0 <= c@ < i {
                lemma_repeat_bounded(g, c@, n as nat, bound, input, repeat_opened(st));
            },
            Inner::KleeneStar(_) => {},
            Inner::LengthCount { r, s, t, f } => if 0 <= r@ < i && 0 <= t@ < i {
                lemma_count_bounded(g, r@, f, bound, input, st);
                match count_bounded(g, r@, f, bound, input, st) {
                    Ok((st1, count)) => {
                        let left = rest(bound, st, st1);
                        lemma_separator_bounded(g, i, s, left, input, st1);
                        match separator_bounded(g, i, s, left, input, st1) {
                            Ok(st2) => lemma_value_exact(g, t@, count, input, st2),
                            Err(_) => {},
                        }
                    },
                    Err(_) => {},
                }
            },
            Inner::OccurrenceCount { r, s, t, f } => if 0 <= r@ < i && 0 <= t@ < i {
                lemma_count_bounded(g, r@, f, bound, input, st);
                match count_bounded(g, r@, f, bound, input, st) {
                    Ok((st1, count)) => {
                        let left = rest(bound, st, st1);
                        lemma_separator_bounded(g, i, s, left, input, st1);
                        match separator_bounded(g, i, s, left, input, st1) {
                            Ok(st2) => lemma_occurrences_bounded(g, t@, count, rest(bound, st, st2), input, st2),
                            Err(_) => {},
                        }
                    },
                    Err(_) => {},
                }
            },
        }
    }
}

/// What the kind of a node asks for to an exact length reads exactly the length.
#[verifier::rlimit(50)]
pub proof fn lemma_inner_exact<F: Fn(&[u8]) -> Option<usize>>(
    g: Seq<Node<F>>,
    i: int,
    length: nat,
    input: Seq<u8>,
    st: State,
)
    requires
        st.pos <= input.len(),
    ensures
        exactly(inner_exact(g, i, length, input, st), st, length, input),
    decreases i, 1nat, 0nat,
{
    if 0 <= i < g.len() {
        match g[i].inner {
            Inner::Regex(re) => lemma_match(re, length, input, st),
            Inner::CalcRegex(c) => if 0 <= c@ < i {
                lemma_parse_exact(g, c@, length, input, st);
            },
            Inner::Concat(l, r) => if 0 <= l@ < i && 0 <= r@ < i {
                lemma_parse_bounded(g, l@, length, input, st);
                match parse_bounded(g, l@, length, input, st) {
                    Ok(st1) => lemma_parse_exact(g, r@, rest(length, st, st1), input, st1),
                    Err(_) => {},
                }
            },
            Inner::Repeat(c, n) => if 0 <= c@ < i {
                lemma_repeat_exact(g, c@, n as nat, length, input, repeat_opened(st));
            },
            Inner::KleeneStar(c) => if 0 <= c@ < i {
                lemma_star(g, c@, length, input, repeat_opened(st));
            },
            Inner::LengthCount { r, s, t, f } => if 0 <= r@ < i && 0 <= t@ < i {
                lemma_count_bounded(g, r@, f, length, input, st);
                match count_bounded(g, r@, f, length, input, st) {
                    Ok((st1, count)) => {
                        let left = rest(length, st, st1);
                        lemma_separator_exact(g, i, s, left, count, input, st1);
                        match separator_exact(g, i, s, left, count, input, st1) {
                            Ok(st2) => lemma_value_exact(g, t@, count, input, st2),
                            Err(_) => {},
                        }
                    },
                    Err(_) => {},
                }
            },
            Inner::OccurrenceCount { r, s, t, f } => if 0 <= r@ < i && 0 <= t@ < i {
                lemma_count_bounded(g, r@, f, length, input, st);
                match count_bounded(g, r@, f, length, input, st) {
                    Ok((st1, count)) => {
                        let left = rest(length, st, st1);
                        lemma_separator_bounded(g, i, s, left, input, st1);
                        match separator_bounded(g, i, s, left, input, st1) {
                            Ok(st2) => lemma_occurrences_exact(
                                g,
                                t@,
                                count,
                                rest(length, st, st2),
                                input,
                                st2,
                            ),
                            Err(_) => {},
                        }
                    },
                    Err(_) => {},
                }
            },
        }
    }
}

/// A count that is larger than the number of bytes that are left is no
/// match: whatever is counted, the parse fails.
pub proof fn lemma_count_beyond_input_fails<F: Fn(&[u8]) -> Option<usize>>(
    g: Seq<Node<F>>,
    t: int,
    count: nat,
    input: Seq<u8>,
    st: State,
)
    requires
        st.pos <= input.len(),
        st.pos + count > input.len(),
    ensures
        value_exact(g, t, count, input, st) is Err,
{
    lemma_value_exact(g, t, count, input, st);
}

/// A count that is larger than the number of bytes that are left is no
/// match: where what is counted is a regex whose own bound, if it has
/// one, allows the count, the parse fails with an unexpected end of file.
pub proof fn lemma_count_beyond_input_ends<F: Fn(&[u8]) -> Option<usize>>(
    g: Seq<Node<F>>,
    t: int,
    count: nat,
    input: Seq<u8>,
    st: State,
)
    requires
        0 <= t < g.len(),
        g[t].inner is Regex,
        g[t].length_bound matches Some(b) ==> count <= b,
        st.pos + count > input.len(),
    ensures
        value_exact(g, t, count, input, st) == Err::<State, Failure>(Failure::UnexpectedEof),
{
    let st1 = entered(g[t], opened("$value"@, st));
    assert(st1.pos == st.pos);
    assert(inner_exact(g, t, count, input, st1) == match_exact(
        g[t].inner->Regex_0,
        count,
        input,
        st1,
    ));
}

} // verus!
