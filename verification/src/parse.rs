//! Parsing the nodes of an expression by their kind.

use vstd::prelude::*;
use vstd::slice::slice_to_vec;
use crate::calc_regex::{
    CalcRegex,
    Inner,
    NodeIndex,
    node_wf,
    plain_child,
    progresses,
    loose_kind,
    repeatable,
};
use crate::capture::{
    Named,
    is_real,
    lemma_same_shape_last_real,
    lemma_same_shape_pop,
    lemma_same_shape_refl,
    lemma_same_shape_trans,
    ready,
    same_shape,
};
use crate::error::{Failure, ParserError, ParserResult};
use crate::input::Input;
use crate::matcher::State;
use crate::reader::{Reader, steps};
use crate::semantics::{
    count_bounded,
    count_of,
    count_unbounded,
    decoded,
    inner_bounded,
    inner_exact,
    inner_unbounded,
    may_yield,
    occurrences_bounded,
    occurrences_exact,
    occurrences_unbounded,
    pure,
    repeat_bounded,
    repeat_exact,
    repeat_unbounded,
    separator_bounded,
    separator_exact,
    separator_unbounded,
    star,
    value_exact,
};

verus! {

/// The names of the captures of a count and of what is counted start with
/// `$`.
pub proof fn lemma_special_names()
    ensures
        !is_real("$count"@),
        !is_real("$value"@),
{
    reveal_strlit("$count");
    reveal_strlit("$value");
}

/// Whether reading a count went as it should: as `steps`, and the count is
/// the expected one.
pub open spec fn counts<I: Input>(
    before: Reader<I>,
    after: Reader<I>,
    expected: Result<(State, nat), Failure>,
    r: ParserResult<usize>,
) -> bool {
    ||| (r matches Err(e) && e@ is IoError && before.input().fallible())
    ||| match expected {
        Ok((st, n)) => {
            &&& r matches Ok(c) && c == n
            &&& after.state() == st
            &&& after.inv()
            &&& after.source() == before.source()
            &&& after.input().fallible() == before.input().fallible()
            &&& same_shape(before.stack(), after.stack())
            &&& st.pos >= before.state().pos
        },
        Err(f) => r matches Err(e) && e@ == f,
    }
}

impl<F: Fn(&[u8]) -> Option<usize>> CalcRegex<F> {
    /// Parses a node `n` times in a row with no bound.
    #[verifier::loop_isolation(false)]
    fn repeat_unbounded<I: Input>(&self, reader: &mut Reader<I>, c: NodeIndex, n: usize) -> (r:
        ParserResult<()>)
        requires
            self.wf(),
            self.progressive(),
            old(reader).inv(),
            plain_child(self.nodes(), self.nodes().len() as int, c),
            repeatable(self.nodes(), c@),
        ensures
            steps(
                *old(reader),
                *final(reader),
                repeat_unbounded(
                    self.nodes(),
                    c@,
                    n as nat,
                    old(reader).source(),
                    old(reader).state(),
                ),
                r,
            ),
        decreases c@, 3nat, n,
    {
        let ghost src = reader.source();
        let ghost st0 = reader.state();
        let mut k: usize = 0;
        proof {
            lemma_same_shape_refl(reader.stack());
        }
        while k < n
            invariant
                k <= n,
                reader.inv(),
                reader.source() == src,
                reader.input().fallible() == old(reader).input().fallible(),
                same_shape(old(reader).stack(), reader.stack()),
                reader.state().pos >= st0.pos,
                repeat_unbounded(self.nodes(), c@, n as nat, src, st0) == repeat_unbounded(
                    self.nodes(),
                    c@,
                    (n - k) as nat,
                    src,
                    reader.state(),
                ),
            decreases n - k,
        {
            let ghost mid = reader.stack();
            match reader.parse_unbounded(self, c) {
                Ok(_) => {},
                Err(e) => {
                    return Err(e);
                },
            }
            k = k + 1;
            proof {
                lemma_same_shape_trans(old(reader).stack(), mid, reader.stack());
            }
        }
        Ok(())
    }

    /// Parses a node `n` times in a row within a bound on all of them.
    #[verifier::loop_isolation(false)]
    fn repeat_bounded<I: Input>(
        &self,
        reader: &mut Reader<I>,
        c: NodeIndex,
        n: usize,
        bound: usize,
    ) -> (r: ParserResult<()>)
        requires
            self.wf(),
            self.progressive(),
            old(reader).inv(),
            plain_child(self.nodes(), self.nodes().len() as int, c),
            repeatable(self.nodes(), c@),
        ensures
            steps(
                *old(reader),
                *final(reader),
                repeat_bounded(
                    self.nodes(),
                    c@,
                    n as nat,
                    bound as nat,
                    old(reader).source(),
                    old(reader).state(),
                ),
                r,
            ),
            r is Ok ==> final(reader).input().position() <= old(reader).input().position()
                + bound,
        decreases c@, 3nat, n,
    {
        let ghost src = reader.source();
        let ghost st0 = reader.state();
        let mut k: usize = 0;
        let mut left: usize = bound;
        proof {
            lemma_same_shape_refl(reader.stack());
        }
        while k < n
            invariant
                k <= n,
                reader.inv(),
                reader.source() == src,
                reader.input().fallible() == old(reader).input().fallible(),
                same_shape(old(reader).stack(), reader.stack()),
                reader.state().pos >= st0.pos,
                reader.state().pos + left == st0.pos + bound,
                repeat_bounded(self.nodes(), c@, n as nat, bound as nat, src, st0)
                    == repeat_bounded(
                    self.nodes(),
                    c@,
                    (n - k) as nat,
                    left as nat,
                    src,
                    reader.state(),
                ),
            decreases n - k,
        {
            let ghost mid = reader.stack();
            match reader.parse_bounded(self, c, left) {
                Ok(used) => {
                    left = left - used;
                },
                Err(e) => {
                    return Err(e);
                },
            }
            k = k + 1;
            proof {
                lemma_same_shape_trans(old(reader).stack(), mid, reader.stack());
            }
        }
        Ok(())
    }

    /// Parses a node `n` times in a row to an exact length of all of them.
    fn repeat_exact<I: Input>(
        &self,
        reader: &mut Reader<I>,
        c: NodeIndex,
        n: usize,
        length: usize,
    ) -> (r: ParserResult<()>)
        requires
            self.wf(),
            self.progressive(),
            old(reader).inv(),
            plain_child(self.nodes(), self.nodes().len() as int, c),
            repeatable(self.nodes(), c@),
        ensures
            steps(
                *old(reader),
                *final(reader),
                repeat_exact(
                    self.nodes(),
                    c@,
                    n as nat,
                    length as nat,
                    old(reader).source(),
                    old(reader).state(),
                ),
                r,
            ),
            r is Ok ==> final(reader).input().position() == old(reader).input().position()
                + length,
        decreases c@, 4nat, 0nat,
    {
        if n == 0 {
            proof {
                lemma_same_shape_refl(reader.stack());
            }
            if length == 0 {
                Ok(())
            } else {
                Err(ParserError::ConflictingBounds { old: length, new: 0 })
            }
        } else {
            let start_pos = reader.pos();
            match self.repeat_bounded(reader, c, n - 1, length) {
                Ok(_) => {},
                Err(e) => {
                    return Err(e);
                },
            }
            let ghost mid = reader.stack();
            let used = reader.pos() - start_pos;
            let r = reader.parse_exact(self, c, length - used);
            proof {
                if r is Ok {
                    lemma_same_shape_trans(old(reader).stack(), mid, reader.stack());
                }
            }
            r
        }
    }

    /// Parses a node again and again until an exact length is used up.
    #[verifier::loop_isolation(false)]
    fn star<I: Input>(&self, reader: &mut Reader<I>, c: NodeIndex, length: usize) -> (r:
        ParserResult<()>)
        requires
            self.wf(),
            self.progressive(),
            old(reader).inv(),
            plain_child(self.nodes(), self.nodes().len() as int, c),
            repeatable(self.nodes(), c@),
            progresses(self.nodes(), c@),
        ensures
            steps(
                *old(reader),
                *final(reader),
                star(self.nodes(), c@, length as nat, old(reader).source(), old(reader).state()),
                r,
            ),
            r is Ok ==> final(reader).input().position() == old(reader).input().position()
                + length,
        decreases c@, 3nat, length,
    {
        let ghost src = reader.source();
        let ghost st0 = reader.state();
        let mut left: usize = length;
        proof {
            lemma_same_shape_refl(reader.stack());
        }
        while left > 0
            invariant
                reader.inv(),
                reader.source() == src,
                reader.input().fallible() == old(reader).input().fallible(),
                same_shape(old(reader).stack(), reader.stack()),
                reader.state().pos + left == st0.pos + length,
                star(self.nodes(), c@, length as nat, src, st0) == star(
                    self.nodes(),
                    c@,
                    left as nat,
                    src,
                    reader.state(),
                ),
            decreases left,
        {
            let ghost mid = reader.stack();
            match reader.parse_bounded(self, c, left) {
                Ok(used) => {
                    left = left - used;
                },
                Err(e) => {
                    return Err(e);
                },
            }
            proof {
                lemma_same_shape_trans(old(reader).stack(), mid, reader.stack());
            }
        }
        Ok(())
    }

    /// Reads the count from the bytes that the counting sub-expression
    /// matched, after its capture was finished.
    fn read_count<I: Input>(
        reader: &mut Reader<I>,
        f: &F,
        start_pos: usize,
        Ghost(before): Ghost<Seq<Named>>,
    ) -> (r: ParserResult<usize>)
        requires
            old(reader).inv(),
            pure(*f),
            start_pos <= old(reader).input().position(),
            old(reader).stack().len() >= 2,
            same_shape(before, old(reader).stack().drop_last()),
            old(reader).stack().last().entry is Single,
            ready(before),
        ensures
            final(reader).input() == old(reader).input(),
            match count_of(
                *f,
                old(reader).source(),
                State { pos: start_pos as nat, stack: before },
                old(reader).state(),
            ) {
                Ok((st, n)) => {
                    &&& r matches Ok(c) && c == n
                    &&& final(reader).state() == st
                    &&& final(reader).inv()
                    &&& same_shape(before, final(reader).stack())
                },
                Err(fl) => r matches Err(e) && e@ == fl,
            },
    {
        reader.close_capture("$count", Ghost(before));
        let end_pos = reader.pos();
        let raw = reader.get_range((start_pos, end_pos));
        let count = f(raw);
        proof {
            assert(call_ensures(*f, (raw,), count));
            assert(may_yield(*f, raw@, count));
            let d = decoded(*f, raw@);
            assert(may_yield(*f, raw@, d));
            let b = choose|b: &[u8]| b@ == raw@ && #[trigger] call_ensures(*f, (b,), d);
            assert(b@ =~= raw@);
            assert(b == raw);
        }
        match count {
            Some(c) => Ok(c),
            None => Err(ParserError::CannotReadCount { raw_count: slice_to_vec(raw) }),
        }
    }

    /// Reads a count with no bound: parses the counting sub-expression
    /// inside a capture named `$count` and hands what it matched to the
    /// count function.
    fn count_unbounded<I: Input>(&self, reader: &mut Reader<I>, c: NodeIndex, f: &F) -> (r:
        ParserResult<usize>)
        requires
            self.wf(),
            self.progressive(),
            old(reader).inv(),
            plain_child(self.nodes(), self.nodes().len() as int, c),
            ready(old(reader).stack()),
            pure(*f),
        ensures
            counts(
                *old(reader),
                *final(reader),
                count_unbounded(
                    self.nodes(),
                    c@,
                    *f,
                    old(reader).source(),
                    old(reader).state(),
                ),
                r,
            ),
        decreases c@, 3nat, 0nat,
    {
        proof {
            lemma_special_names();
        }
        reader.open_capture("$count");
        let ghost mid = reader.stack();
        let start_pos = reader.pos();
        match reader.parse_unbounded(self, c) {
            Ok(_) => {},
            Err(e) => {
                return Err(e);
            },
        }
        proof {
            lemma_same_shape_pop(mid, reader.stack());
        }
        Self::read_count(reader, f, start_pos, Ghost(old(reader).stack()))
    }

    /// Reads a count within a bound.
    fn count_bounded<I: Input>(
        &self,
        reader: &mut Reader<I>,
        c: NodeIndex,
        f: &F,
        bound: usize,
    ) -> (r: ParserResult<usize>)
        requires
            self.wf(),
            self.progressive(),
            old(reader).inv(),
            plain_child(self.nodes(), self.nodes().len() as int, c),
            ready(old(reader).stack()),
            pure(*f),
        ensures
            counts(
                *old(reader),
                *final(reader),
                count_bounded(
                    self.nodes(),
                    c@,
                    *f,
                    bound as nat,
                    old(reader).source(),
                    old(reader).state(),
                ),
                r,
            ),
            r is Ok ==> final(reader).input().position() <= old(reader).input().position()
                + bound,
        decreases c@, 3nat, 0nat,
    {
        proof {
            lemma_special_names();
        }
        reader.open_capture("$count");
        let ghost mid = reader.stack();
        let start_pos = reader.pos();
        match reader.parse_bounded(self, c, bound) {
            Ok(_) => {},
            Err(e) => {
                return Err(e);
            },
        }
        proof {
            lemma_same_shape_pop(mid, reader.stack());
        }
        Self::read_count(reader, f, start_pos, Ghost(old(reader).stack()))
    }

    /// Parses the separator of a counted production, if it has one, with
    /// no bound.
    fn separator_unbounded<I: Input>(
        &self,
        reader: &mut Reader<I>,
        node_index: NodeIndex,
        s: &Option<NodeIndex>,
    ) -> (r: ParserResult<()>)
        requires
            self.wf(),
            self.progressive(),
            old(reader).inv(),
            0 <= node_index@ < self.nodes().len(),
            *s matches Some(c) ==> plain_child(self.nodes(), node_index@, c),
            ready(old(reader).stack()),
        ensures
            steps(
                *old(reader),
                *final(reader),
                separator_unbounded(
                    self.nodes(),
                    node_index@,
                    *s,
                    old(reader).source(),
                    old(reader).state(),
                ),
                r,
            ),
        decreases node_index@, 0nat, 0nat,
    {
        match s {
            Some(c) => match reader.parse_unbounded(self, *c) {
                Ok(_) => Ok(()),
                Err(e) => Err(e),
            },
            None => {
                proof {
                    lemma_same_shape_refl(reader.stack());
                }
                Ok(())
            },
        }
    }

    /// Parses the separator of a counted production, if it has one, within
    /// a bound.
    fn separator_bounded<I: Input>(
        &self,
        reader: &mut Reader<I>,
        node_index: NodeIndex,
        s: &Option<NodeIndex>,
        bound: usize,
    ) -> (r: ParserResult<()>)
        requires
            self.wf(),
            self.progressive(),
            old(reader).inv(),
            0 <= node_index@ < self.nodes().len(),
            *s matches Some(c) ==> plain_child(self.nodes(), node_index@, c),
            ready(old(reader).stack()),
        ensures
            steps(
                *old(reader),
                *final(reader),
                separator_bounded(
                    self.nodes(),
                    node_index@,
                    *s,
                    bound as nat,
                    old(reader).source(),
                    old(reader).state(),
                ),
                r,
            ),
            r is Ok ==> final(reader).input().position() <= old(reader).input().position()
                + bound,
        decreases node_index@, 0nat, 0nat,
    {
        match s {
            Some(c) => match reader.parse_bounded(self, *c, bound) {
                Ok(_) => Ok(()),
                Err(e) => Err(e),
            },
            None => {
                proof {
                    lemma_same_shape_refl(reader.stack());
                }
                Ok(())
            },
        }
    }

    /// Parses the separator of a length count that is parsed to an exact
    /// length, of which `left` is left after the count was read, and
    /// checks the count against that length.
    fn separator_exact<I: Input>(
        &self,
        reader: &mut Reader<I>,
        node_index: NodeIndex,
        s: &Option<NodeIndex>,
        left: usize,
        count: usize,
    ) -> (r: ParserResult<()>)
        requires
            self.wf(),
            self.progressive(),
            old(reader).inv(),
            0 <= node_index@ < self.nodes().len(),
            *s matches Some(c) ==> plain_child(self.nodes(), node_index@, c),
            ready(old(reader).stack()),
        ensures
            steps(
                *old(reader),
                *final(reader),
                separator_exact(
                    self.nodes(),
                    node_index@,
                    *s,
                    left as nat,
                    count as nat,
                    old(reader).source(),
                    old(reader).state(),
                ),
                r,
            ),
            r is Ok ==> final(reader).input().position() + count == old(
                reader,
            ).input().position() + left,
        decreases node_index@, 0nat, 0nat,
    {
        match s {
            Some(c) => {
                if left < count {
                    Err(ParserError::ConflictingBounds { old: left, new: count })
                } else {
                    reader.parse_exact(self, *c, left - count)
                }
            },
            None => {
                if left != count {
                    Err(ParserError::ConflictingBounds { old: left, new: count })
                } else {
                    proof {
                        lemma_same_shape_refl(reader.stack());
                    }
                    Ok(())
                }
            },
        }
    }

    /// Parses the target of a length count to exactly the count, inside a
    /// capture named `$value`.
    fn value_exact<I: Input>(&self, reader: &mut Reader<I>, t: NodeIndex, count: usize) -> (r:
        ParserResult<()>)
        requires
            self.wf(),
            self.progressive(),
            old(reader).inv(),
            0 <= t@ < self.nodes().len(),
            ready(old(reader).stack()),
        ensures
            steps(
                *old(reader),
                *final(reader),
                value_exact(
                    self.nodes(),
                    t@,
                    count as nat,
                    old(reader).source(),
                    old(reader).state(),
                ),
                r,
            ),
            r is Ok ==> final(reader).input().position() == old(reader).input().position()
                + count,
        decreases t@, 3nat, 0nat,
    {
        proof {
            lemma_special_names();
        }
        reader.open_capture("$value");
        let ghost mid = reader.stack();
        match reader.parse_exact(self, t, count) {
            Ok(_) => {},
            Err(e) => {
                return Err(e);
            },
        }
        proof {
            lemma_same_shape_pop(mid, reader.stack());
        }
        reader.close_capture("$value", Ghost(old(reader).stack()));
        Ok(())
    }

    /// Parses the target of an occurrence count with no bound: as often as
    /// the count says, as a repeat inside a capture named `$value`.
    fn occurrences_unbounded<I: Input>(
        &self,
        reader: &mut Reader<I>,
        t: NodeIndex,
        count: usize,
    ) -> (r: ParserResult<()>)
        requires
            self.wf(),
            self.progressive(),
            old(reader).inv(),
            plain_child(self.nodes(), self.nodes().len() as int, t),
            repeatable(self.nodes(), t@),
            ready(old(reader).stack()),
        ensures
            steps(
                *old(reader),
                *final(reader),
                occurrences_unbounded(
                    self.nodes(),
                    t@,
                    count as nat,
                    old(reader).source(),
                    old(reader).state(),
                ),
                r,
            ),
        decreases t@, 4nat, 0nat,
    {
        proof {
            lemma_special_names();
        }
        reader.open_capture("$value");
        let ghost outer = reader.stack();
        reader.open_repeat();
        let ghost mid = reader.stack();
        match self.repeat_unbounded(reader, t, count) {
            Ok(_) => {},
            Err(e) => {
                return Err(e);
            },
        }
        proof {
            lemma_same_shape_pop(mid, reader.stack());
        }
        reader.close_repeat(Ghost(outer));
        proof {
            lemma_same_shape_pop(outer, reader.stack());
        }
        reader.close_capture("$value", Ghost(old(reader).stack()));
        Ok(())
    }

    /// Parses the target of an occurrence count within a bound.
    fn occurrences_bounded<I: Input>(
        &self,
        reader: &mut Reader<I>,
        t: NodeIndex,
        count: usize,
        bound: usize,
    ) -> (r: ParserResult<()>)
        requires
            self.wf(),
            self.progressive(),
            old(reader).inv(),
            plain_child(self.nodes(), self.nodes().len() as int, t),
            repeatable(self.nodes(), t@),
            ready(old(reader).stack()),
        ensures
            steps(
                *old(reader),
                *final(reader),
                occurrences_bounded(
                    self.nodes(),
                    t@,
                    count as nat,
                    bound as nat,
                    old(reader).source(),
                    old(reader).state(),
                ),
                r,
            ),
            r is Ok ==> final(reader).input().position() <= old(reader).input().position()
                + bound,
        decreases t@, 4nat, 0nat,
    {
        proof {
            lemma_special_names();
        }
        reader.open_capture("$value");
        let ghost outer = reader.stack();
        reader.open_repeat();
        let ghost mid = reader.stack();
        match self.repeat_bounded(reader, t, count, bound) {
            Ok(_) => {},
            Err(e) => {
                return Err(e);
            },
        }
        proof {
            lemma_same_shape_pop(mid, reader.stack());
        }
        reader.close_repeat(Ghost(outer));
        proof {
            lemma_same_shape_pop(outer, reader.stack());
        }
        reader.close_capture("$value", Ghost(old(reader).stack()));
        Ok(())
    }

    /// Parses the target of an occurrence count to an exact length.
    fn occurrences_exact<I: Input>(
        &self,
        reader: &mut Reader<I>,
        t: NodeIndex,
        count: usize,
        length: usize,
    ) -> (r: ParserResult<()>)
        requires
            self.wf(),
            self.progressive(),
            old(reader).inv(),
            plain_child(self.nodes(), self.nodes().len() as int, t),
            repeatable(self.nodes(), t@),
            ready(old(reader).stack()),
        ensures
            steps(
                *old(reader),
                *final(reader),
                occurrences_exact(
                    self.nodes(),
                    t@,
                    count as nat,
                    length as nat,
                    old(reader).source(),
                    old(reader).state(),
                ),
                r,
            ),
            r is Ok ==> final(reader).input().position() == old(reader).input().position()
                + length,
        decreases t@, 5nat, 0nat,
    {
        proof {
            lemma_special_names();
        }
        reader.open_capture("$value");
        let ghost outer = reader.stack();
        reader.open_repeat();
        let ghost mid = reader.stack();
        match self.repeat_exact(reader, t, count, length) {
            Ok(_) => {},
            Err(e) => {
                return Err(e);
            },
        }
        proof {
            lemma_same_shape_pop(mid, reader.stack());
        }
        reader.close_repeat(Ghost(outer));
        proof {
            lemma_same_shape_pop(outer, reader.stack());
        }
        reader.close_capture("$value", Ghost(old(reader).stack()));
        Ok(())
    }

    /// Parses an unlimited number of bytes from the given `Reader` against
    /// the sub-expression represented by the given node.
    ///
    /// This is called from the parsing routines of `Reader`. It takes the
    /// node apart, either matching its regex, or using the `Reader` again
    /// to parse its sub-expressions.
    #[verifier::rlimit(50)]
    pub fn parse_unbounded<I: Input>(&self, reader: &mut Reader<I>, node_index: NodeIndex) -> (r:
        ParserResult<()>)
        requires
            self.wf(),
            self.progressive(),
            old(reader).inv(),
            plain_child(self.nodes(), self.nodes().len() as int, node_index),
            loose_kind(self.nodes(), node_index@) || ready(old(reader).stack()),
        ensures
            steps(
                *old(reader),
                *final(reader),
                inner_unbounded(
                    self.nodes(),
                    node_index@,
                    old(reader).source(),
                    old(reader).state(),
                ),
                r,
            ),
        decreases node_index@, 1nat, 0nat,
    {
        assert(node_wf(self.nodes(), node_index@));
        let ghost before = reader.stack();
        let node = self.get_node(node_index);
        match &node.inner {
            Inner::Regex(regex) => reader.match_regex_unbounded(regex),
            Inner::CalcRegex(c) => {
                match reader.parse_unbounded(self, *c) {
                    Ok(_) => Ok(()),
                    Err(e) => Err(e),
                }
            },
            Inner::Concat(lhs, rhs) => {
                match reader.parse_unbounded(self, *lhs) {
                    Ok(_) => {},
                    Err(e) => {
                        return Err(e);
                    },
                }
                let ghost mid = reader.stack();
                proof {
                    lemma_same_shape_last_real(before, mid);
                }
                match reader.parse_unbounded(self, *rhs) {
                    Ok(_) => {},
                    Err(e) => {
                        return Err(e);
                    },
                }
                proof {
                    lemma_same_shape_trans(before, mid, reader.stack());
                }
                Ok(())
            },
            Inner::Repeat(c, n) => {
                reader.open_repeat();
                let ghost mid = reader.stack();
                match self.repeat_unbounded(reader, *c, *n) {
                    Ok(_) => {},
                    Err(e) => {
                        return Err(e);
                    },
                }
                proof {
                    lemma_same_shape_pop(mid, reader.stack());
                }
                reader.close_repeat(Ghost(before));
                Ok(())
            },
            Inner::KleeneStar(_) => {
                proof {
                    assert(false);
                }
                Ok(())
            },
            Inner::LengthCount { r, s, t, f } => {
                let count = match self.count_unbounded(reader, *r, f) {
                    Ok(count) => count,
                    Err(e) => {
                        return Err(e);
                    },
                };
                let ghost mid1 = reader.stack();
                proof {
                    lemma_same_shape_last_real(before, mid1);
                }
                match self.separator_unbounded(reader, node_index, s) {
                    Ok(_) => {},
                    Err(e) => {
                        return Err(e);
                    },
                }
                let ghost mid2 = reader.stack();
                proof {
                    lemma_same_shape_trans(before, mid1, mid2);
                    lemma_same_shape_last_real(before, mid2);
                }
                match self.value_exact(reader, *t, count) {
                    Ok(_) => {},
                    Err(e) => {
                        return Err(e);
                    },
                }
                proof {
                    lemma_same_shape_trans(before, mid2, reader.stack());
                }
                Ok(())
            },
            Inner::OccurrenceCount { r, s, t, f } => {
                let count = match self.count_unbounded(reader, *r, f) {
                    Ok(count) => count,
                    Err(e) => {
                        return Err(e);
                    },
                };
                let ghost mid1 = reader.stack();
                proof {
                    lemma_same_shape_last_real(before, mid1);
                }
                match self.separator_unbounded(reader, node_index, s) {
                    Ok(_) => {},
                    Err(e) => {
                        return Err(e);
                    },
                }
                let ghost mid2 = reader.stack();
                proof {
                    lemma_same_shape_trans(before, mid1, mid2);
                    lemma_same_shape_last_real(before, mid2);
                }
                match self.occurrences_unbounded(reader, *t, count) {
                    Ok(_) => {},
                    Err(e) => {
                        return Err(e);
                    },
                }
                proof {
                    lemma_same_shape_trans(before, mid2, reader.stack());
                }
                Ok(())
            },
        }
    }

    /// Parses a bounded number of bytes from the given `Reader` against
    /// the sub-expression represented by the given node.
    ///
    /// If the given number of bytes is or would be exceeded, an error is
    /// returned.
    #[verifier::rlimit(50)]
    pub fn parse_bounded<I: Input>(
        &self,
        reader: &mut Reader<I>,
        node_index: NodeIndex,
        bound: usize,
    ) -> (r: ParserResult<()>)
        requires
            self.wf(),
            self.progressive(),
            old(reader).inv(),
            plain_child(self.nodes(), self.nodes().len() as int, node_index),
            loose_kind(self.nodes(), node_index@) || ready(old(reader).stack()),
        ensures
            steps(
                *old(reader),
                *final(reader),
                inner_bounded(
                    self.nodes(),
                    node_index@,
                    bound as nat,
                    old(reader).source(),
                    old(reader).state(),
                ),
                r,
            ),
            r is Ok ==> final(reader).input().position() <= old(reader).input().position()
                + bound,
        decreases node_index@, 1nat, 0nat,
    {
        assert(node_wf(self.nodes(), node_index@));
        let ghost before = reader.stack();
        let start_pos = reader.pos();
        let node = self.get_node(node_index);
        match &node.inner {
            Inner::Regex(regex) => reader.match_regex_bounded(regex, bound),
            Inner::CalcRegex(c) => {
                match reader.parse_bounded(self, *c, bound) {
                    Ok(_) => Ok(()),
                    Err(e) => Err(e),
                }
            },
            Inner::Concat(lhs, rhs) => {
                let length_r = match reader.parse_bounded(self, *lhs, bound) {
                    Ok(n) => n,
                    Err(e) => {
                        return Err(e);
                    },
                };
                let ghost mid = reader.stack();
                proof {
                    lemma_same_shape_last_real(before, mid);
                }
                let bound_s = bound - length_r;
                match reader.parse_bounded(self, *rhs, bound_s) {
                    Ok(_) => {},
                    Err(e) => {
                        return Err(e);
                    },
                }
                proof {
                    lemma_same_shape_trans(before, mid, reader.stack());
                }
                Ok(())
            },
            Inner::Repeat(c, n) => {
                reader.open_repeat();
                let ghost mid = reader.stack();
                match self.repeat_bounded(reader, *c, *n, bound) {
                    Ok(_) => {},
                    Err(e) => {
                        return Err(e);
                    },
                }
                proof {
                    lemma_same_shape_pop(mid, reader.stack());
                }
                reader.close_repeat(Ghost(before));
                Ok(())
            },
            Inner::KleeneStar(_) => {
                proof {
                    assert(false);
                }
                Ok(())
            },
            Inner::LengthCount { r, s, t, f } => {
                let count = match self.count_bounded(reader, *r, f, bound) {
                    Ok(count) => count,
                    Err(e) => {
                        return Err(e);
                    },
                };
                let ghost mid1 = reader.stack();
                proof {
                    lemma_same_shape_last_real(before, mid1);
                }
                let left1 = bound - (reader.pos() - start_pos);
                match self.separator_bounded(reader, node_index, s, left1) {
                    Ok(_) => {},
                    Err(e) => {
                        return Err(e);
                    },
                }
                let ghost mid2 = reader.stack();
                let left2 = bound - (reader.pos() - start_pos);
                if left2 < count {
                    return Err(ParserError::ConflictingBounds { old: left2, new: count });
                }
                proof {
                    lemma_same_shape_trans(before, mid1, mid2);
                    lemma_same_shape_last_real(before, mid2);
                }
                match self.value_exact(reader, *t, count) {
                    Ok(_) => {},
                    Err(e) => {
                        return Err(e);
                    },
                }
                proof {
                    lemma_same_shape_trans(before, mid2, reader.stack());
                }
                Ok(())
            },
            Inner::OccurrenceCount { r, s, t, f } => {
                let count = match self.count_bounded(reader, *r, f, bound) {
                    Ok(count) => count,
                    Err(e) => {
                        return Err(e);
                    },
                };
                let ghost mid1 = reader.stack();
                proof {
                    lemma_same_shape_last_real(before, mid1);
                }
                let left1 = bound - (reader.pos() - start_pos);
                match self.separator_bounded(reader, node_index, s, left1) {
                    Ok(_) => {},
                    Err(e) => {
                        return Err(e);
                    },
                }
                let ghost mid2 = reader.stack();
                let left2 = bound - (reader.pos() - start_pos);
                proof {
                    lemma_same_shape_trans(before, mid1, mid2);
                    lemma_same_shape_last_real(before, mid2);
                }
                match self.occurrences_bounded(reader, *t, count, left2) {
                    Ok(_) => {},
                    Err(e) => {
                        return Err(e);
                    },
                }
                proof {
                    lemma_same_shape_trans(before, mid2, reader.stack());
                }
                Ok(())
            },
        }
    }

    /// Parses exactly a given number of bytes from the given `Reader`
    /// against the sub-expression represented by the given node.
    ///
    /// If the given number of bytes cannot be parsed exactly, an error is
    /// returned.
    #[verifier::rlimit(50)]
    pub fn parse_exact<I: Input>(
        &self,
        reader: &mut Reader<I>,
        node_index: NodeIndex,
        length: usize,
    ) -> (r: ParserResult<()>)
        requires
            self.wf(),
            self.progressive(),
            old(reader).inv(),
            0 <= node_index@ < self.nodes().len(),
            loose_kind(self.nodes(), node_index@) || ready(old(reader).stack()),
        ensures
            steps(
                *old(reader),
                *final(reader),
                inner_exact(
                    self.nodes(),
                    node_index@,
                    length as nat,
                    old(reader).source(),
                    old(reader).state(),
                ),
                r,
            ),
            r is Ok ==> final(reader).input().position() == old(reader).input().position()
                + length,
        decreases node_index@, 1nat, 0nat,
    {
        assert(node_wf(self.nodes(), node_index@));
        let ghost before = reader.stack();
        let start_pos = reader.pos();
        let node = self.get_node(node_index);
        match &node.inner {
            Inner::Regex(regex) => reader.match_regex_exact(regex, length),
            Inner::CalcRegex(c) => reader.parse_exact(self, *c, length),
            Inner::Concat(lhs, rhs) => {
                let length_r = match reader.parse_bounded(self, *lhs, length) {
                    Ok(n) => n,
                    Err(e) => {
                        return Err(e);
                    },
                };
                let ghost mid = reader.stack();
                proof {
                    lemma_same_shape_last_real(before, mid);
                }
                let length_s = length - length_r;
                match reader.parse_exact(self, *rhs, length_s) {
                    Ok(_) => {},
                    Err(e) => {
                        return Err(e);
                    },
                }
                proof {
                    lemma_same_shape_trans(before, mid, reader.stack());
                }
                Ok(())
            },
            Inner::Repeat(c, n) => {
                reader.open_repeat();
                let ghost mid = reader.stack();
                match self.repeat_exact(reader, *c, *n, length) {
                    Ok(_) => {},
                    Err(e) => {
                        return Err(e);
                    },
                }
                proof {
                    lemma_same_shape_pop(mid, reader.stack());
                }
                reader.close_repeat(Ghost(before));
                Ok(())
            },
            Inner::KleeneStar(c) => {
                reader.open_repeat();
                let ghost mid = reader.stack();
                match self.star(reader, *c, length) {
                    Ok(_) => {},
                    Err(e) => {
                        return Err(e);
                    },
                }
                proof {
                    lemma_same_shape_pop(mid, reader.stack());
                }
                reader.close_repeat(Ghost(before));
                Ok(())
            },
            Inner::LengthCount { r, s, t, f } => {
                let count = match self.count_bounded(reader, *r, f, length) {
                    Ok(count) => count,
                    Err(e) => {
                        return Err(e);
                    },
                };
                let ghost mid1 = reader.stack();
                proof {
                    lemma_same_shape_last_real(before, mid1);
                }
                let left = length - (reader.pos() - start_pos);
                match self.separator_exact(reader, node_index, s, left, count) {
                    Ok(_) => {},
                    Err(e) => {
                        return Err(e);
                    },
                }
                let ghost mid2 = reader.stack();
                proof {
                    lemma_same_shape_trans(before, mid1, mid2);
                    lemma_same_shape_last_real(before, mid2);
                }
                match self.value_exact(reader, *t, count) {
                    Ok(_) => {},
                    Err(e) => {
                        return Err(e);
                    },
                }
                proof {
                    lemma_same_shape_trans(before, mid2, reader.stack());
                }
                Ok(())
            },
            Inner::OccurrenceCount { r, s, t, f } => {
                let count = match self.count_bounded(reader, *r, f, length) {
                    Ok(count) => count,
                    Err(e) => {
                        return Err(e);
                    },
                };
                let ghost mid1 = reader.stack();
                proof {
                    lemma_same_shape_last_real(before, mid1);
                }
                let left1 = length - (reader.pos() - start_pos);
                match self.separator_bounded(reader, node_index, s, left1) {
                    Ok(_) => {},
                    Err(e) => {
                        return Err(e);
                    },
                }
                let ghost mid2 = reader.stack();
                let left2 = length - (reader.pos() - start_pos);
                proof {
                    lemma_same_shape_trans(before, mid1, mid2);
                    lemma_same_shape_last_real(before, mid2);
                }
                match self.occurrences_exact(reader, *t, count, left2) {
                    Ok(_) => {},
                    Err(e) => {
                        return Err(e);
                    },
                }
                proof {
                    lemma_same_shape_trans(before, mid2, reader.stack());
                }
                Ok(())
            },
        }
    }
}

} // verus!
