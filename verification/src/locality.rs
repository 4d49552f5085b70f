//! A parse depends on no byte beyond those that it reads: it ends in the
//! same state on each input that holds the same bytes up to there.

use vstd::prelude::*;
use crate::calc_regex::{Inner, Node, NodeIndex};
use crate::capture::Scope;
use crate::error::Failure;
use crate::matcher::{
    Outcome,
    State,
    first_match,
    lemma_first_match,
    match_bounded,
    match_exact,
    match_unbounded,
    regex_matches,
};
use crate::semantics::{
    count_bounded,
    count_unbounded,
    entered,
    inner_bounded,
    inner_exact,
    inner_unbounded,
    occurrences_bounded,
    occurrences_exact,
    occurrences_unbounded,
    opened,
    parse_all,
    parse_bounded,
    parse_exact,
    parse_record,
    parse_unbounded,
    repeat_bounded,
    repeat_exact,
    repeat_opened,
    repeat_unbounded,
    rest,
    root_stack,
    separator_bounded,
    separator_exact,
    separator_unbounded,
    star,
    value_exact,
};
use crate::shape::{
    lemma_count_bounded,
    lemma_count_unbounded,
    lemma_inner_bounded,
    lemma_inner_unbounded,
    lemma_occurrences_bounded,
    lemma_occurrences_exact,
    lemma_occurrences_unbounded,
    lemma_parse_bounded,
    lemma_parse_exact,
    lemma_parse_unbounded,
    lemma_repeat_bounded,
    lemma_repeat_unbounded,
    lemma_separator_bounded,
    lemma_separator_exact,
    lemma_separator_unbounded,
    lemma_star,
    lemma_value_exact,
};

verus! {

/// Whether two inputs hold the same first `k` bytes.
pub open spec fn agree(a: Seq<u8>, b: Seq<u8>, k: nat) -> bool {
    &&& k <= a.len()
    &&& k <= b.len()
    &&& a.take(k as int) == b.take(k as int)
}

/// Whether a step that succeeds on one input without reading beyond the
/// first `k` bytes ends in the same state on another.
pub open spec fn local(on_a: Outcome, on_b: Outcome, k: nat) -> bool {
    on_a matches Ok(st1) && st1.pos <= k ==> on_b == on_a
}

/// Whether a count that is read from one input without reading beyond the
/// first `k` bytes is read from another in the same way.
pub open spec fn local_count(
    on_a: Result<(State, nat), Failure>,
    on_b: Result<(State, nat), Failure>,
    k: nat,
) -> bool {
    on_a matches Ok((st1, _)) && st1.pos <= k ==> on_b == on_a
}

/// Inputs that agree on their first bytes hold the same bytes in each
/// range within these.
pub proof fn lemma_agree_subrange(a: Seq<u8>, b: Seq<u8>, k: nat, from: int, to: int)
    requires
        agree(a, b, k),
        0 <= from <= to <= k,
    ensures
        a.subrange(from, to) == b.subrange(from, to),
{
    assert(a.subrange(from, to) =~= a.take(k as int).subrange(from, to));
    assert(b.subrange(from, to) =~= b.take(k as int).subrange(from, to));
}

/// The first match within the bytes that two inputs agree on is the first
/// match in both.
pub proof fn lemma_local_first_match(
    re: regex::bytes::Regex,
    a: Seq<u8>,
    b: Seq<u8>,
    k: nat,
    start: nat,
    n: nat,
)
    requires
        agree(a, b, k),
    ensures
        first_match(re, a, start, n) is Some && start + first_match(re, a, start, n)->Some_0 <= k
            ==> first_match(re, b, start, n) == first_match(re, a, start, n),
    decreases a.len() + 1 - start - n,
{
    lemma_first_match(re, a, start, n);
    if start + n <= a.len() && start + n <= k {
        lemma_agree_subrange(a, b, k, start as int, (start + n) as int);
        if !regex_matches(re, a.subrange(start as int, (start + n) as int)) {
            lemma_local_first_match(re, a, b, k, start, n + 1);
        }
    }
}

/// Matching depends on no byte beyond those that it reads.
pub proof fn lemma_local_match(
    re: regex::bytes::Regex,
    bound: nat,
    a: Seq<u8>,
    b: Seq<u8>,
    k: nat,
    st: State,
)
    requires
        agree(a, b, k),
    ensures
        local(match_unbounded(re, a, st), match_unbounded(re, b, st), k),
        local(match_bounded(re, bound, a, st), match_bounded(re, bound, b, st), k),
        local(match_exact(re, bound, a, st), match_exact(re, bound, b, st), k),
{
    lemma_local_first_match(re, a, b, k, st.pos, 0);
    if st.pos + bound <= k {
        lemma_agree_subrange(a, b, k, st.pos as int, (st.pos + bound) as int);
    }
}

/// A node that is parsed with no bound from outside depends on no byte
/// beyond those that it reads.
pub proof fn lemma_local_parse_unbounded<F: Fn(&[u8]) -> Option<usize>>(
    g: Seq<Node<F>>,
    i: int,
    a: Seq<u8>,
    b: Seq<u8>,
    k: nat,
    st: State,
)
    requires
        agree(a, b, k),
        st.pos <= a.len(),
    ensures
        local(parse_unbounded(g, i, a, st), parse_unbounded(g, i, b, st), k),
    decreases i, 2nat, 0nat,
{
    if 0 <= i < g.len() {
        let st1 = entered(g[i], st);
        match g[i].length_bound {
            Some(bound) => lemma_local_inner_bounded(g, i, bound as nat, a, b, k, st1),
            None => lemma_local_inner_unbounded(g, i, a, b, k, st1),
        }
    }
}

/// A node that is parsed within a bound depends on no byte beyond those
/// that it reads.
pub proof fn lemma_local_parse_bounded<F: Fn(&[u8]) -> Option<usize>>(
    g: Seq<Node<F>>,
    i: int,
    bound: nat,
    a: Seq<u8>,
    b: Seq<u8>,
    k: nat,
    st: State,
)
    requires
        agree(a, b, k),
        st.pos <= a.len(),
    ensures
        local(parse_bounded(g, i, bound, a, st), parse_bounded(g, i, bound, b, st), k),
    decreases i, 2nat, 0nat,
{
    if 0 <= i < g.len() {
        let tight = match g[i].length_bound {
            Some(own) if own < bound => own as nat,
            _ => bound,
        };
        lemma_local_inner_bounded(g, i, tight, a, b, k, entered(g[i], st));
    }
}

/// A node that is parsed to an exact length depends on no byte beyond
/// those that it reads.
pub proof fn lemma_local_parse_exact<F: Fn(&[u8]) -> Option<usize>>(
    g: Seq<Node<F>>,
    i: int,
    length: nat,
    a: Seq<u8>,
    b: Seq<u8>,
    k: nat,
    st: State,
)
    requires
        agree(a, b, k),
        st.pos <= a.len(),
    ensures
        local(parse_exact(g, i, length, a, st), parse_exact(g, i, length, b, st), k),
    decreases i, 2nat, 0nat,
{
    if 0 <= i < g.len() {
        lemma_local_inner_exact(g, i, length, a, b, k, entered(g[i], st));
    }
}

/// Repetitions with no bound depend on no byte beyond those that they
/// read.
pub proof fn lemma_local_repeat_unbounded<F: Fn(&[u8]) -> Option<usize>>(
    g: Seq<Node<F>>,
    c: int,
    n: nat,
    a: Seq<u8>,
    b: Seq<u8>,
    k: nat,
    st: State,
)
    requires
        agree(a, b, k),
        st.pos <= a.len(),
    ensures
        local(repeat_unbounded(g, c, n, a, st), repeat_unbounded(g, c, n, b, st), k),
    decreases c, 3nat, n,
{
    if n > 0 {
        lemma_parse_unbounded(g, c, a, st);
        lemma_local_parse_unbounded(g, c, a, b, k, st);
        match parse_unbounded(g, c, a, st) {
            Ok(st1) => {
                lemma_repeat_unbounded(g, c, (n - 1) as nat, a, st1);
                lemma_local_repeat_unbounded(g, c, (n - 1) as nat, a, b, k, st1);
            },
            Err(_) => {},
        }
    }
}

/// Repetitions within a bound depend on no byte beyond those that they
/// read.
pub proof fn lemma_local_repeat_bounded<F: Fn(&[u8]) -> Option<usize>>(
    g: Seq<Node<F>>,
    c: int,
    n: nat,
    bound: nat,
    a: Seq<u8>,
    b: Seq<u8>,
    k: nat,
    st: State,
)
    requires
        agree(a, b, k),
        st.pos <= a.len(),
    ensures
        local(repeat_bounded(g, c, n, bound, a, st), repeat_bounded(g, c, n, bound, b, st), k),
    decreases c, 3nat, n,
{
    if n > 0 {
        lemma_parse_bounded(g, c, bound, a, st);
        lemma_local_parse_bounded(g, c, bound, a, b, k, st);
        match parse_bounded(g, c, bound, a, st) {
            Ok(st1) => {
                lemma_repeat_bounded(g, c, (n - 1) as nat, rest(bound, st, st1), a, st1);
                lemma_local_repeat_bounded(
                    g,
                    c,
                    (n - 1) as nat,
                    rest(bound, st, st1),
                    a,
                    b,
                    k,
                    st1,
                );
            },
            Err(_) => {},
        }
    }
}

/// Repetitions to an exact length depend on no byte beyond those that
/// they read.
pub proof fn lemma_local_repeat_exact<F: Fn(&[u8]) -> Option<usize>>(
    g: Seq<Node<F>>,
    c: int,
    n: nat,
    length: nat,
    a: Seq<u8>,
    b: Seq<u8>,
    k: nat,
    st: State,
)
    requires
        agree(a, b, k),
        st.pos <= a.len(),
    ensures
        local(repeat_exact(g, c, n, length, a, st), repeat_exact(g, c, n, length, b, st), k),
    decreases c, 4nat, 0nat,
{
    if n > 0 {
        lemma_repeat_bounded(g, c, (n - 1) as nat, length, a, st);
        lemma_local_repeat_bounded(g, c, (n - 1) as nat, length, a, b, k, st);
        match repeat_bounded(g, c, (n - 1) as nat, length, a, st) {
            Ok(st1) => {
                lemma_parse_exact(g, c, rest(length, st, st1), a, st1);
                lemma_local_parse_exact(g, c, rest(length, st, st1), a, b, k, st1);
            },
            Err(_) => {},
        }
    }
}

/// A Kleene star depends on no byte beyond those that it reads.
pub proof fn lemma_local_star<F: Fn(&[u8]) -> Option<usize>>(
    g: Seq<Node<F>>,
    c: int,
    length: nat,
    a: Seq<u8>,
    b: Seq<u8>,
    k: nat,
    st: State,
)
    requires
        agree(a, b, k),
        st.pos <= a.len(),
    ensures
        local(star(g, c, length, a, st), star(g, c, length, b, st), k),
    decreases c, 3nat, length,
{
    if length > 0 {
        lemma_parse_bounded(g, c, length, a, st);
        lemma_local_parse_bounded(g, c, length, a, b, k, st);
        match parse_bounded(g, c, length, a, st) {
            Ok(st1) => if st.pos < st1.pos <= st.pos + length {
                lemma_star(g, c, rest(length, st, st1), a, st1);
                lemma_local_star(g, c, rest(length, st, st1), a, b, k, st1);
            },
            Err(_) => {},
        }
    }
}

/// Reading a count with no bound depends on no byte beyond those that
/// are read.
pub proof fn lemma_local_count_unbounded<F: Fn(&[u8]) -> Option<usize>>(
    g: Seq<Node<F>>,
    r: int,
    f: F,
    a: Seq<u8>,
    b: Seq<u8>,
    k: nat,
    st: State,
)
    requires
        agree(a, b, k),
        st.pos <= a.len(),
    ensures
        local_count(count_unbounded(g, r, f, a, st), count_unbounded(g, r, f, b, st), k),
    decreases r, 3nat, 0nat,
{
    let st0 = opened("$count"@, st);
    lemma_parse_unbounded(g, r, a, st0);
    lemma_local_parse_unbounded(g, r, a, b, k, st0);
    match parse_unbounded(g, r, a, st0) {
        Ok(st1) => if st1.pos <= k {
            lemma_agree_subrange(a, b, k, st.pos as int, st1.pos as int);
        },
        Err(_) => {},
    }
}

/// Reading a count within a bound depends on no byte beyond those that
/// are read.
pub proof fn lemma_local_count_bounded<F: Fn(&[u8]) -> Option<usize>>(
    g: Seq<Node<F>>,
    r: int,
    f: F,
    bound: nat,
    a: Seq<u8>,
    b: Seq<u8>,
    k: nat,
    st: State,
)
    requires
        agree(a, b, k),
        st.pos <= a.len(),
    ensures
        local_count(count_bounded(g, r, f, bound, a, st), count_bounded(g, r, f, bound, b, st), k),
    decreases r, 3nat, 0nat,
{
    let st0 = opened("$count"@, st);
    lemma_parse_bounded(g, r, bound, a, st0);
    lemma_local_parse_bounded(g, r, bound, a, b, k, st0);
    match parse_bounded(g, r, bound, a, st0) {
        Ok(st1) => if st1.pos <= k {
            lemma_agree_subrange(a, b, k, st.pos as int, st1.pos as int);
        },
        Err(_) => {},
    }
}

/// A separator depends on no byte beyond those that it reads.
pub proof fn lemma_local_separator_unbounded<F: Fn(&[u8]) -> Option<usize>>(
    g: Seq<Node<F>>,
    i: int,
    s: Option<NodeIndex>,
    a: Seq<u8>,
    b: Seq<u8>,
    k: nat,
    st: State,
)
    requires
        agree(a, b, k),
        st.pos <= a.len(),
    ensures
        local(separator_unbounded(g, i, s, a, st), separator_unbounded(g, i, s, b, st), k),
    decreases i, 0nat, 0nat,
{
    match s {
        Some(c) => if 0 <= c@ < i {
            lemma_local_parse_unbounded(g, c@, a, b, k, st);
        },
        None => {},
    }
}

/// A separator depends on no byte beyond those that it reads.
pub proof fn lemma_local_separator_bounded<F: Fn(&[u8]) -> Option<usize>>(
    g: Seq<Node<F>>,
    i: int,
    s: Option<NodeIndex>,
    bound: nat,
    a: Seq<u8>,
    b: Seq<u8>,
    k: nat,
    st: State,
)
    requires
        agree(a, b, k),
        st.pos <= a.len(),
    ensures
        local(separator_bounded(g, i, s, bound, a, st), separator_bounded(g, i, s, bound, b, st), k),
    decreases i, 0nat, 0nat,
{
    match s {
        Some(c) => if 0 <= c@ < i {
            lemma_local_parse_bounded(g, c@, bound, a, b, k, st);
        },
        None => {},
    }
}

/// A separator depends on no byte beyond those that it reads.
pub proof fn lemma_local_separator_exact<F: Fn(&[u8]) -> Option<usize>>(
    g: Seq<Node<F>>,
    i: int,
    s: Option<NodeIndex>,
    left: nat,
    count: nat,
    a: Seq<u8>,
    b: Seq<u8>,
    k: nat,
    st: State,
)
    requires
        agree(a, b, k),
        st.pos <= a.len(),
    ensures
        local(separator_exact(g, i, s, left, count, a, st), separator_exact(g, i, s, left, count, b, st), k),
    decreases i, 0nat, 0nat,
{
    match s {
        Some(c) => if left >= count && 0 <= c@ < i {
            lemma_local_parse_exact(g, c@, (left - count) as nat, a, b, k, st);
        },
        None => {},
    }
}

/// What a length count counts depends on no byte beyond those that are
/// read.
pub proof fn lemma_local_value_exact<F: Fn(&[u8]) -> Option<usize>>(
    g: Seq<Node<F>>,
    t: int,
    count: nat,
    a: Seq<u8>,
    b: Seq<u8>,
    k: nat,
    st: State,
)
    requires
        agree(a, b, k),
        st.pos <= a.len(),
    ensures
        local(value_exact(g, t, count, a, st), value_exact(g, t, count, b, st), k),
    decreases t, 3nat, 0nat,
{
    lemma_local_parse_exact(g, t, count, a, b, k, opened("$value"@, st));
}

/// The occurrences that are counted depend on no byte beyond those that
/// are read.
pub proof fn lemma_local_occurrences_unbounded<F: Fn(&[u8]) -> Option<usize>>(
    g: Seq<Node<F>>,
    t: int,
    count: nat,
    a: Seq<u8>,
    b: Seq<u8>,
    k: nat,
    st: State,
)
    requires
        agree(a, b, k),
        st.pos <= a.len(),
    ensures
        local(occurrences_unbounded(g, t, count, a, st), occurrences_unbounded(g, t, count, b, st), k),
    decreases t, 4nat, 0nat,
{
    lemma_local_repeat_unbounded(g, t, count, a, b, k, repeat_opened(opened("$value"@, st)));
}

/// The occurrences that are counted depend on no byte beyond those that
/// are read.
pub proof fn lemma_local_occurrences_bounded<F: Fn(&[u8]) -> Option<usize>>(
    g: Seq<Node<F>>,
    t: int,
    count: nat,
    bound: nat,
    a: Seq<u8>,
    b: Seq<u8>,
    k: nat,
    st: State,
)
    requires
        agree(a, b, k),
        st.pos <= a.len(),
    ensures
        local(occurrences_bounded(g, t, count, bound, a, st), occurrences_bounded(g, t, count, bound, b, st), k),
    decreases t, 4nat, 0nat,
{
    lemma_local_repeat_bounded(g, t, count, bound, a, b, k, repeat_opened(opened("$value"@, st)));
}

/// The occurrences that are counted depend on no byte beyond those that
/// are read.
pub proof fn lemma_local_occurrences_exact<F: Fn(&[u8]) -> Option<usize>>(
    g: Seq<Node<F>>,
    t: int,
    count: nat,
    length: nat,
    a: Seq<u8>,
    b: Seq<u8>,
    k: nat,
    st: State,
)
    requires
        agree(a, b, k),
        st.pos <= a.len(),
    ensures
        local(occurrences_exact(g, t, count, length, a, st), occurrences_exact(g, t, count, length, b, st), k),
    decreases t, 5nat, 0nat,
{
    lemma_local_repeat_exact(g, t, count, length, a, b, k, repeat_opened(opened("$value"@, st)));
}

/// What the kind of a node asks for depends on no byte beyond those that
/// are read.
#[verifier::rlimit(50)]
pub proof fn lemma_local_inner_unbounded<F: Fn(&[u8]) -> Option<usize>>(
    g: Seq<Node<F>>,
    i: int,
    a: Seq<u8>,
    b: Seq<u8>,
    k: nat,
    st: State,
)
    requires
        agree(a, b, k),
        st.pos <= a.len(),
    ensures
        local(inner_unbounded(g, i, a, st), inner_unbounded(g, i, b, st), k),
    decreases i, 1nat, 0nat,
{
    if 0 <= i < g.len() {
        match g[i].inner {
            Inner::Regex(re) => lemma_local_match(re, 0, a, b, k, st),
            Inner::CalcRegex(c) => if 0 <= c@ < i {
                lemma_local_parse_unbounded(g, c@, a, b, k, st);
            },
            Inner::Concat(l, r) => if 0 <= l@ < i && 0 <= r@ < i {
                lemma_parse_unbounded(g, l@, a, st);
                lemma_local_parse_unbounded(g, l@, a, b, k, st);
                match parse_unbounded(g, l@, a, st) {
                    Ok(st1) => {
                        lemma_parse_unbounded(g, r@, a, st1);
                        lemma_local_parse_unbounded(g, r@, a, b, k, st1);
                    },
                    Err(_) => {},
                }
            },
            Inner::Repeat(c, n) => if 0 <= c@ < i {
                lemma_local_repeat_unbounded(g, c@, n as nat, a, b, k, repeat_opened(st));
            },
            Inner::KleeneStar(_) => {},
            Inner::LengthCount { r, s, t, f } => if 0 <= r@ < i && 0 <= t@ < i {
                lemma_count_unbounded(g, r@, f, a, st);
                lemma_local_count_unbounded(g, r@, f, a, b, k, st);
                match count_unbounded(g, r@, f, a, st) {
                    Ok((st1, count)) => {
                        lemma_separator_unbounded(g, i, s, a, st1);
                        lemma_local_separator_unbounded(g, i, s, a, b, k, st1);
                        match separator_unbounded(g, i, s, a, st1) {
                            Ok(st2) => {
                                lemma_value_exact(g, t@, count, a, st2);
                                lemma_local_value_exact(g, t@, count, a, b, k, st2);
                            },
                            Err(_) => {},
                        }
                    },
                    Err(_) => {},
                }
            },
            Inner::OccurrenceCount { r, s, t, f } => if 0 <= r@ < i && 0 <= t@ < i {
                lemma_count_unbounded(g, r@, f, a, st);
                lemma_local_count_unbounded(g, r@, f, a, b, k, st);
                match count_unbounded(g, r@, f, a, st) {
                    Ok((st1, count)) => {
                        lemma_separator_unbounded(g, i, s, a, st1);
                        lemma_local_separator_unbounded(g, i, s, a, b, k, st1);
                        match separator_unbounded(g, i, s, a, st1) {
                            Ok(st2) => {
                                lemma_occurrences_unbounded(g, t@, count, a, st2);
                                lemma_local_occurrences_unbounded(g, t@, count, a, b, k, st2);
                            },
                            Err(_) => {},
                        }
                    },
                    Err(_) => {},
                }
            },
        }
    }
}

/// What the kind of a node asks for depends on no byte beyond those that
/// are read.
#[verifier::rlimit(50)]
pub proof fn lemma_local_inner_bounded<F: Fn(&[u8]) -> Option<usize>>(
    g: Seq<Node<F>>,
    i: int,
    bound: nat,
    a: Seq<u8>,
    b: Seq<u8>,
    k: nat,
    st: State,
)
    requires
        agree(a, b, k),
        st.pos <= a.len(),
    ensures
        local(inner_bounded(g, i, bound, a, st), inner_bounded(g, i, bound, b, st), k),
    decreases i, 1nat, 0nat,
{
    if 0 <= i < g.len() {
        match g[i].inner {
            Inner::Regex(re) => lemma_local_match(re, bound, a, b, k, st),
            Inner::CalcRegex(c) => if 0 <= c@ < i {
                lemma_local_parse_bounded(g, c@, bound, a, b, k, st);
            },
            Inner::Concat(l, r) => if 0 <= l@ < i && 0 <= r@ < i {
                lemma_parse_bounded(g, l@, bound, a, st);
                lemma_local_parse_bounded(g, l@, bound, a, b, k, st);
                match parse_bounded(g, l@, bound, a, st) {
                    Ok(st1) => {
                        lemma_parse_bounded(g, r@, rest(bound, st, st1), a, st1);
                        lemma_local_parse_bounded(g, r@, rest(bound, st, st1), a, b, k, st1);
                    },
                    Err(_) => {},
                }
            },
            Inner::Repeat(c, n) => if 0 <= c@ < i {
                lemma_local_repeat_bounded(g, c@, n as nat, bound, a, b, k, repeat_opened(st));
            },
            Inner::KleeneStar(_) => {},
            Inner::LengthCount { r, s, t, f } => if 0 <= r@ < i && 0 <= t@ < i {
                lemma_count_bounded(g, r@, f, bound, a, st);
                lemma_local_count_bounded(g, r@, f, bound, a, b, k, st);
                match count_bounded(g, r@, f, bound, a, st) {
                    Ok((st1, count)) => {
                        lemma_separator_bounded(g, i, s, rest(bound, st, st1), a, st1);
                        lemma_local_separator_bounded(g, i, s, rest(bound, st, st1), a, b, k, st1);
                        match separator_bounded(g, i, s, rest(bound, st, st1), a, st1) {
                            Ok(st2) => {
                                lemma_value_exact(g, t@, count, a, st2);
                                lemma_local_value_exact(g, t@, count, a, b, k, st2);
                            },
                            Err(_) => {},
                        }
                    },
                    Err(_) => {},
                }
            },
            Inner::OccurrenceCount { r, s, t, f } => if 0 <= r@ < i && 0 <= t@ < i {
                lemma_count_bounded(g, r@, f, bound, a, st);
                lemma_local_count_bounded(g, r@, f, bound, a, b, k, st);
                match count_bounded(g, r@, f, bound, a, st) {
                    Ok((st1, count)) => {
                        lemma_separator_bounded(g, i, s, rest(bound, st, st1), a, st1);
                        lemma_local_separator_bounded(g, i, s, rest(bound, st, st1), a, b, k, st1);
                        match separator_bounded(g, i, s, rest(bound, st, st1), a, st1) {
                            Ok(st2) => {
                                lemma_occurrences_bounded(g, t@, count, rest(bound, st, st2), a, st2);
                                lemma_local_occurrences_bounded(g, t@, count, rest(bound, st, st2), a, b, k, st2);
                            },
                            Err(_) => {},
                        }
                    },
                    Err(_) => {},
                }
            },
        }
    }
}

/// What the kind of a node asks for depends on no byte beyond those that
/// are read.
#[verifier::rlimit(50)]
pub proof fn lemma_local_inner_exact<F: Fn(&[u8]) -> Option<usize>>(
    g: Seq<Node<F>>,
    i: int,
    length: nat,
    a: Seq<u8>,
    b: Seq<u8>,
    k: nat,
    st: State,
)
    requires
        agree(a, b, k),
        st.pos <= a.len(),
    ensures
        local(inner_exact(g, i, length, a, st), inner_exact(g, i, length, b, st), k),
    decreases i, 1nat, 0nat,
{
    if 0 <= i < g.len() {
        match g[i].inner {
            Inner::Regex(re) => lemma_local_match(re, length, a, b, k, st),
            Inner::CalcRegex(c) => if 0 <= c@ < i {
                lemma_local_parse_exact(g, c@, length, a, b, k, st);
            },
            Inner::Concat(l, r) => if 0 <= l@ < i && 0 <= r@ < i {
                lemma_parse_bounded(g, l@, length, a, st);
                lemma_local_parse_bounded(g, l@, length, a, b, k, st);
                match parse_bounded(g, l@, length, a, st) {
                    Ok(st1) => {
                        lemma_parse_exact(g, r@, rest(length, st, st1), a, st1);
                        lemma_local_parse_exact(g, r@, rest(length, st, st1), a, b, k, st1);
                    },
                    Err(_) => {},
                }
            },
            Inner::Repeat(c, n) => if 0 <= c@ < i {
                lemma_local_repeat_exact(g, c@, n as nat, length, a, b, k, repeat_opened(st));
            },
            Inner::KleeneStar(c) => if 0 <= c@ < i {
                lemma_local_star(g, c@, length, a, b, k, repeat_opened(st));
            },
            Inner::LengthCount { r, s, t, f } => if 0 <= r@ < i && 0 <= t@ < i {
                lemma_count_bounded(g, r@, f, length, a, st);
                lemma_local_count_bounded(g, r@, f, length, a, b, k, st);
                match count_bounded(g, r@, f, length, a, st) {
                    Ok((st1, count)) => {
                        lemma_separator_exact(g, i, s, rest(length, st, st1), count, a, st1);
                        lemma_local_separator_exact(g, i, s, rest(length, st, st1), count, a, b, k, st1);
                        match separator_exact(g, i, s, rest(length, st, st1), count, a, st1) {
                            Ok(st2) => {
                                lemma_value_exact(g, t@, count, a, st2);
                                lemma_local_value_exact(g, t@, count, a, b, k, st2);
                            },
                            Err(_) => {},
                        }
                    },
                    Err(_) => {},
                }
            },
            Inner::OccurrenceCount { r, s, t, f } => if 0 <= r@ < i && 0 <= t@ < i {
                lemma_count_bounded(g, r@, f, length, a, st);
                lemma_local_count_bounded(g, r@, f, length, a, b, k, st);
                match count_bounded(g, r@, f, length, a, st) {
                    Ok((st1, count)) => {
                        lemma_separator_bounded(g, i, s, rest(length, st, st1), a, st1);
                        lemma_local_separator_bounded(g, i, s, rest(length, st, st1), a, b, k, st1);
                        match separator_bounded(g, i, s, rest(length, st, st1), a, st1) {
                            Ok(st2) => {
                                lemma_occurrences_exact(g, t@, count, rest(length, st, st2), a, st2);
                                lemma_local_occurrences_exact(g, t@, count, rest(length, st, st2), a, b, k, st2);
                            },
                            Err(_) => {},
                        }
                    },
                    Err(_) => {},
                }
            },
        }
    }
}

/// A record depends on no byte behind it: it is parsed in the same way
/// from each input that holds the same bytes up to its end.
pub proof fn lemma_local_record<F: Fn(&[u8]) -> Option<usize>>(
    g: Seq<Node<F>>,
    root: int,
    a: Seq<u8>,
    b: Seq<u8>,
    from: nat,
)
    requires
        from <= a.len(),
        parse_record(g, root, a, from) matches Ok(scope) && agree(a, b, scope.end),
    ensures
        parse_record(g, root, b, from) == parse_record(g, root, a, from),
{
    let k = parse_record(g, root, a, from)->Ok_0.end;
    let st = State { pos: from, stack: root_stack(g[root].name.unwrap()@, from) };
    match g[root].length_bound {
        Some(bound) => lemma_local_inner_bounded(g, root, bound as nat, a, b, k, st),
        None => lemma_local_inner_unbounded(g, root, a, b, k, st),
    }
}

/// The bytes of a record, parsed by themselves, give the record again:
/// where a record is parsed from the beginning of an input, the bytes up
/// to its end are an input that holds this record and nothing else.
pub proof fn lemma_record_alone<F: Fn(&[u8]) -> Option<usize>>(
    g: Seq<Node<F>>,
    root: int,
    input: Seq<u8>,
)
    requires
        parse_record(g, root, input, 0) is Ok,
    ensures
        ({
            let scope = parse_record(g, root, input, 0)->Ok_0;
            &&& scope.end <= input.len()
            &&& parse_all(g, root, input.take(scope.end as int), 0) == Ok::<Scope, Failure>(scope)
        }),
{
    let scope = parse_record(g, root, input, 0)->Ok_0;
    let st = State { pos: 0, stack: root_stack(g[root].name.unwrap()@, 0) };
    match g[root].length_bound {
        Some(bound) => lemma_inner_bounded(g, root, bound as nat, input, st),
        None => lemma_inner_unbounded(g, root, input, st),
    }
    let alone = input.take(scope.end as int);
    assert(alone.take(scope.end as int) =~= alone);
    lemma_local_record(g, root, input, alone, 0);
}

} // verus!
