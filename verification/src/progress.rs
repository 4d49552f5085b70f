//! Which nodes read at least one byte whenever they are parsed, so that a
//! Kleene star over them comes to an end.

use vstd::prelude::*;
use crate::calc_regex::{CalcRegex, Inner, Node, NodeIndex, progresses};
use crate::matcher::{State, first_match, lemma_first_match, regex_matches};
use crate::semantics::{
    count_bounded,
    inner_bounded,
    opened,
    parse_bounded,
    repeat_opened,
    rest,
    separator_bounded,
};
use crate::shape::{
    lemma_count_bounded,
    lemma_occurrences_bounded,
    lemma_parse_bounded,
    lemma_repeat_bounded,
    lemma_separator_bounded,
    lemma_value_exact,
};

verus! {

/// Whether a node is seen to read at least one byte whenever it is parsed
/// within a bound: a regex that does not match the empty input, or a node
/// with a part that is parsed in any case and is seen to read a byte.
/// What is counted is no such part, for the count may be zero.
pub open spec fn consuming<F>(g: Seq<Node<F>>, i: int) -> bool
    decreases i,
{
    if 0 <= i < g.len() {
        match g[i].inner {
            Inner::Regex(re) => !regex_matches(re, Seq::empty()),
            Inner::CalcRegex(c) => 0 <= c@ < i && consuming(g, c@),
            Inner::Concat(l, r) => 0 <= l@ < i && 0 <= r@ < i && (consuming(g, l@) || consuming(
                g,
                r@,
            )),
            Inner::Repeat(c, n) => 0 <= c@ < i && n > 0 && consuming(g, c@),
            Inner::KleeneStar(_) => false,
            Inner::LengthCount { r, s, t, .. } => counting(g, i, r, s, t),
            Inner::OccurrenceCount { r, s, t, .. } => counting(g, i, r, s, t),
        }
    } else {
        false
    }
}

/// Whether the count or the separator of a counted production is seen to
/// read at least one byte.
pub open spec fn counting<F>(
    g: Seq<Node<F>>,
    i: int,
    r: NodeIndex,
    s: Option<NodeIndex>,
    t: NodeIndex,
) -> bool
    decreases i, 0nat,
{
    &&& 0 <= r@ < i
    &&& 0 <= t@ < i
    &&& consuming(g, r@) || (s matches Some(c) && 0 <= c@ < i && consuming(g, c@))
}

/// A node that is seen to read a byte does so: each parse of it within a
/// bound that succeeds ends behind where it began.
pub proof fn lemma_consuming_parse<F: Fn(&[u8]) -> Option<usize>>(
    g: Seq<Node<F>>,
    i: int,
    bound: nat,
    input: Seq<u8>,
    st: State,
)
    requires
        consuming(g, i),
        st.pos <= input.len(),
    ensures
        parse_bounded(g, i, bound, input, st) matches Ok(st1) ==> st1.pos > st.pos,
    decreases i, 2nat,
{
    let tight = match g[i].length_bound {
        Some(b) if b < bound => b as nat,
        _ => bound,
    };
    lemma_consuming_inner(g, i, tight, input, crate::semantics::entered(g[i], st));
}

/// What the kind of a node that is seen to read a byte asks for reads a
/// byte.
#[verifier::rlimit(50)]
pub proof fn lemma_consuming_inner<F: Fn(&[u8]) -> Option<usize>>(
    g: Seq<Node<F>>,
    i: int,
    bound: nat,
    input: Seq<u8>,
    st: State,
)
    requires
        consuming(g, i),
        st.pos <= input.len(),
    ensures
        inner_bounded(g, i, bound, input, st) matches Ok(st1) ==> st1.pos > st.pos,
    decreases i, 1nat,
{
    match g[i].inner {
        Inner::Regex(re) => {
            assert(input.subrange(st.pos as int, (st.pos + 0) as int) =~= Seq::<u8>::empty());
            assert(first_match(re, input, st.pos, 0) == first_match(re, input, st.pos, 1));
            lemma_first_match(re, input, st.pos, 1);
        },
        Inner::CalcRegex(c) => {
            lemma_consuming_parse(g, c@, bound, input, st);
        },
        Inner::Concat(l, r) => {
            lemma_parse_bounded(g, l@, bound, input, st);
            if consuming(g, l@) {
                lemma_consuming_parse(g, l@, bound, input, st);
            }
            match parse_bounded(g, l@, bound, input, st) {
                Ok(st1) => {
                    lemma_parse_bounded(g, r@, rest(bound, st, st1), input, st1);
                    if consuming(g, r@) {
                        lemma_consuming_parse(g, r@, rest(bound, st, st1), input, st1);
                    }
                },
                Err(_) => {},
            }
        },
        Inner::Repeat(c, n) => {
            let st0 = repeat_opened(st);
            lemma_consuming_parse(g, c@, bound, input, st0);
            lemma_parse_bounded(g, c@, bound, input, st0);
            match parse_bounded(g, c@, bound, input, st0) {
                Ok(st1) => {
                    lemma_repeat_bounded(
                        g,
                        c@,
                        (n - 1) as nat,
                        rest(bound, st0, st1),
                        input,
                        st1,
                    );
                },
                Err(_) => {},
            }
        },
        Inner::KleeneStar(_) => {},
        Inner::LengthCount { r, s, t, f } => {
            assert(counting(g, i, r, s, t));
            lemma_consuming_count(g, i, r, s, f, bound, input, st);
            match count_bounded(g, r@, f, bound, input, st) {
                Ok((st1, count)) => {
                    match separator_bounded(g, i, s, rest(bound, st, st1), input, st1) {
                        Ok(st2) => lemma_value_exact(g, t@, count, input, st2),
                        Err(_) => {},
                    }
                },
                Err(_) => {},
            }
        },
        Inner::OccurrenceCount { r, s, t, f } => {
            assert(counting(g, i, r, s, t));
            lemma_consuming_count(g, i, r, s, f, bound, input, st);
            match count_bounded(g, r@, f, bound, input, st) {
                Ok((st1, count)) => {
                    match separator_bounded(g, i, s, rest(bound, st, st1), input, st1) {
                        Ok(st2) => lemma_occurrences_bounded(
                            g,
                            t@,
                            count,
                            rest(bound, st, st2),
                            input,
                            st2,
                        ),
                        Err(_) => {},
                    }
                },
                Err(_) => {},
            }
        },
    }
}

/// Where the count or the separator of a counted production is seen to
/// read a byte, the parse has read a byte when both are parsed.
pub proof fn lemma_consuming_count<F: Fn(&[u8]) -> Option<usize>>(
    g: Seq<Node<F>>,
    i: int,
    r: NodeIndex,
    s: Option<NodeIndex>,
    f: F,
    bound: nat,
    input: Seq<u8>,
    st: State,
)
    requires
        0 <= r@ < i,
        consuming(g, r@) || (s matches Some(c) && 0 <= c@ < i && consuming(g, c@)),
        st.pos <= input.len(),
    ensures
        count_bounded(g, r@, f, bound, input, st) matches Ok((st1, _)) ==> {
            &&& st.pos <= st1.pos <= input.len()
            &&& separator_bounded(g, i, s, rest(bound, st, st1), input, st1) matches Ok(st2)
                ==> st.pos < st2.pos <= input.len()
        },
    decreases i, 0nat,
{
    lemma_count_bounded(g, r@, f, bound, input, st);
    if consuming(g, r@) {
        lemma_consuming_parse(g, r@, bound, input, opened("$count"@, st));
    }
    match count_bounded(g, r@, f, bound, input, st) {
        Ok((st1, _)) => {
            let left = rest(bound, st, st1);
            lemma_separator_bounded(g, i, s, left, input, st1);
            match s {
                Some(c) => if 0 <= c@ < i && consuming(g, c@) {
                    lemma_consuming_parse(g, c@, left, input, st1);
                },
                None => {},
            }
        },
        Err(_) => {},
    }
}

/// A node that is seen to read a byte can stand under a Kleene star.
pub proof fn lemma_consuming_progresses<F: Fn(&[u8]) -> Option<usize>>(g: Seq<Node<F>>, c: int)
    requires
        consuming(g, c),
    ensures
        progresses(g, c),
{
    assert forall|bound: nat, input: Seq<u8>, st: State| st.pos <= input.len() implies ((
    #[trigger] parse_bounded(g, c, bound, input, st)) matches Ok(st1) ==> st1.pos > st.pos) by {
        lemma_consuming_parse(g, c, bound, input, st);
    }
}

/// Setting a length bound changes nothing about which nodes are seen to
/// read a byte.
pub proof fn lemma_bounded_consuming<F>(g: Seq<Node<F>>, i: int, bound: usize, c: int)
    requires
        0 <= i < g.len(),
    ensures
        consuming(g.update(i, g[i].bounded(bound)), c) == consuming(g, c),
    decreases c,
{
    let h = g.update(i, g[i].bounded(bound));
    if 0 <= c < g.len() {
        assert(h[c].inner == g[c].inner);
        match g[c].inner {
            Inner::CalcRegex(x) => {
                if 0 <= x@ < c {
                    lemma_bounded_consuming(g, i, bound, x@);
                }
            },
            Inner::Concat(l, r) => {
                if 0 <= l@ < c && 0 <= r@ < c {
                    lemma_bounded_consuming(g, i, bound, l@);
                    lemma_bounded_consuming(g, i, bound, r@);
                }
            },
            Inner::Repeat(x, _) => {
                if 0 <= x@ < c {
                    lemma_bounded_consuming(g, i, bound, x@);
                }
            },
            Inner::LengthCount { r, s, t, .. } => {
                lemma_bounded_counting(g, i, bound, c, r, s, t);
            },
            Inner::OccurrenceCount { r, s, t, .. } => {
                lemma_bounded_counting(g, i, bound, c, r, s, t);
            },
            _ => {},
        }
    }
}

/// Setting a length bound changes nothing about which counts are seen to
/// read a byte.
pub proof fn lemma_bounded_counting<F>(
    g: Seq<Node<F>>,
    i: int,
    bound: usize,
    c: int,
    r: NodeIndex,
    s: Option<NodeIndex>,
    t: NodeIndex,
)
    requires
        0 <= i < g.len(),
    ensures
        counting(g.update(i, g[i].bounded(bound)), c, r, s, t) == counting(g, c, r, s, t),
    decreases c, 0nat,
{
    if 0 <= r@ < c {
        lemma_bounded_consuming(g, i, bound, r@);
    }
    match s {
        Some(x) => if 0 <= x@ < c {
            lemma_bounded_consuming(g, i, bound, x@);
        },
        None => {},
    }
}

/// Setting a length bound leaves a steady expression steady.
pub proof fn lemma_bounded_steady<F: Fn(&[u8]) -> Option<usize>>(
    before: CalcRegex<F>,
    after: CalcRegex<F>,
    i: int,
    bound: usize,
)
    requires
        0 <= i < before.nodes().len(),
        after.nodes() == before.nodes().update(i, before.nodes()[i].bounded(bound)),
    ensures
        after.steady() == before.steady(),
{
    let g = before.nodes();
    let h = after.nodes();
    assert forall|j: int| 0 <= j < g.len() implies h[j].inner == g[j].inner by {}
    if before.steady() {
        assert forall|j: int| 0 <= j < h.len() implies ((#[trigger] h[j].inner) matches Inner::KleeneStar(
            c,
        ) ==> 0 <= c@ < j && consuming(h, c@)) by {
            assert(h[j].inner == g[j].inner);
            match g[j].inner {
                Inner::KleeneStar(c) => lemma_bounded_consuming(g, i, bound, c@),
                _ => {},
            }
        }
    }
    if after.steady() {
        assert forall|j: int| 0 <= j < g.len() implies ((#[trigger] g[j].inner) matches Inner::KleeneStar(
            c,
        ) ==> 0 <= c@ < j && consuming(g, c@)) by {
            assert(h[j].inner == g[j].inner);
            match h[j].inner {
                Inner::KleeneStar(c) => lemma_bounded_consuming(g, i, bound, c@),
                _ => {},
            }
        }
    }
}

impl<F: Fn(&[u8]) -> Option<usize>> CalcRegex<F> {
    /// Whether each node under a Kleene star stands before the star and
    /// is seen to read at least one byte whenever it is parsed.
    pub open spec fn steady(&self) -> bool {
        forall|i: int|
            0 <= i < self.nodes().len() ==> ((#[trigger] self.nodes()[i].inner) matches Inner::KleeneStar(
                c,
            ) ==> 0 <= c@ < i && consuming(self.nodes(), c@))
    }

    /// An expression whose Kleene stars stand over nodes that are seen to
    /// read a byte is progressive.
    pub proof fn lemma_steady(&self)
        requires
            self.steady(),
        ensures
            self.progressive(),
    {
        assert forall|i: int| 0 <= i < self.nodes().len() implies ((
        #[trigger] self.nodes()[i].inner) matches Inner::KleeneStar(c) ==> progresses(
            self.nodes(),
            c@,
        )) by {
            match self.nodes()[i].inner {
                Inner::KleeneStar(c) => lemma_consuming_progresses(self.nodes(), c@),
                _ => {},
            }
        }
    }

    /// Tells whether a node is seen to read at least one byte whenever it
    /// is parsed within a bound.
    pub fn is_consuming(&self, node_index: NodeIndex) -> (r: bool)
        requires
            0 <= node_index@ < self.nodes().len(),
        ensures
            r == consuming(self.nodes(), node_index@),
        decreases node_index@,
    {
        let i = node_index.position();
        match &self.get_node(node_index).inner {
            Inner::Regex(re) => {
                let nothing: Vec<u8> = Vec::new();
                assert(nothing@ =~= Seq::<u8>::empty());
                !re.is_match(nothing.as_slice())
            },
            Inner::CalcRegex(c) => c.position() < i && self.is_consuming(*c),
            Inner::Concat(l, r) => l.position() < i && r.position() < i && (self.is_consuming(*l)
                || self.is_consuming(*r)),
            Inner::Repeat(c, n) => c.position() < i && *n > 0 && self.is_consuming(*c),
            Inner::KleeneStar(_) => false,
            Inner::LengthCount { r, s, t, .. } => self.is_counting(node_index, *r, s, *t),
            Inner::OccurrenceCount { r, s, t, .. } => self.is_counting(node_index, *r, s, *t),
        }
    }

    /// Tells whether the count or the separator of a counted production
    /// is seen to read at least one byte.
    fn is_counting(
        &self,
        node_index: NodeIndex,
        r: NodeIndex,
        s: &Option<NodeIndex>,
        t: NodeIndex,
    ) -> (b: bool)
        requires
            0 <= node_index@ < self.nodes().len(),
        ensures
            b == counting(self.nodes(), node_index@, r, *s, t),
        decreases node_index@, 0nat,
    {
        let i = node_index.position();
        if !(r.position() < i && t.position() < i) {
            return false;
        }
        if self.is_consuming(r) {
            return true;
        }
        match s {
            Some(c) => c.position() < i && self.is_consuming(*c),
            None => false,
        }
    }

    /// Tells whether each node under a Kleene star is seen to read at
    /// least one byte whenever it is parsed. An expression of which this
    /// holds is progressive.
    pub fn is_steady(&self) -> (r: bool)
        ensures
            r == self.steady(),
            r ==> self.progressive(),
    {
        let mut i: usize = 0;
        while i < self.len()
            invariant
                i <= self.nodes().len(),
                forall|j: int|
                    0 <= j < i ==> ((#[trigger] self.nodes()[j].inner) matches Inner::KleeneStar(
                        c,
                    ) ==> 0 <= c@ < j && consuming(self.nodes(), c@)),
            decreases self.nodes().len() - i,
        {
            let node_index = NodeIndex::at(i);
            let fine = match &self.get_node(node_index).inner {
                Inner::KleeneStar(c) => c.position() < i && self.is_consuming(*c),
                _ => true,
            };
            if !fine {
                return false;
            }
            i = i + 1;
        }
        proof {
            self.lemma_steady();
        }
        true
    }
}

} // verus!
