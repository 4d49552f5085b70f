//! Types that allow to parse different kinds of input against calc-regular
//! expressions and to retrieve captured values.

use vstd::prelude::*;
use vstd::slice::{slice_subrange, slice_to_vec};
use vstd::string::{StrSliceExecFns, StringExecFns};
use regex::bytes::Regex;
use crate::semantics;
use crate::calc_regex::{CalcRegex, NodeIndex, plain_child, loose_kind, repeatable};
use crate::capture::{
    Capture,
    Entry,
    Named,
    NamedCapture,
    Scope,
    SingleCapture,
    attach,
    attach_repeat,
    find,
    finish_capture,
    finish_repeat,
    floor,
    frame_ok,
    is_real,
    is_special,
    last_real,
    last_single,
    lemma_entry_within_wider,
    lemma_floor,
    lemma_floor_same,
    lemma_last_real,
    lemma_models_push,
    lemma_put_within,
    lemma_ready_push,
    lemma_repeat_model,
    lemma_repeat_within,
    lemma_same_shape_last_real,
    lemma_same_shape_pop,
    lemma_same_shape_trans,
    lemma_single_model,
    lemma_stack_inv_grows,
    lemma_ticked_real,
    models,
    put_child,
    ready,
    same_shape,
    scope_closed,
    scope_within,
    scopes,
    stack_inv,
    start_capture,
    start_repeat,
    tick_count,
    ticked,
    unique_name,
};
use crate::error::{Failure, ParserError, ParserResult};
use crate::matcher::{
    Outcome,
    State,
    first_match,
    lemma_first_match,
    match_bounded,
    match_exact,
    match_unbounded,
};
use crate::semantics::{
    closed,
    entered,
    finishing,
    opened,
    parse_all,
    parse_record,
    repeat_closed,
    repeat_opened,
    root_stack,
};

pub use crate::input::{ArrayInput, Data, Input};
pub use crate::record::{CaptureIter, Record, SubRecord, SubRecordIter};

verus! {

/// An abstract reader to parse input against a calc-regular expressions.
///
/// Different kinds of input are represented by the `Input` trait.
#[derive(Debug)]
pub struct Reader<I: Input> {
    input: I,
    /// A stack to keep track of the capturing process.
    ///
    /// For each level of the capture hierarchy, an entry is added to the
    /// stack when the capture is started and removed from the stack when
    /// the capture hits its end point. At that point, the finished capture
    /// is added to its parent in the hierarchy.
    captures: Vec<NamedCapture>,
}

/// Whether a step of a parse went as it should: unless reading failed for
/// a reason of the input's own, it ended in the expected state, with the
/// source untouched, or with the expected error.
pub open spec fn steps<I: Input, T>(
    before: Reader<I>,
    after: Reader<I>,
    expected: Outcome,
    r: ParserResult<T>,
) -> bool {
    ||| (r matches Err(e) && e@ is IoError && before.input().fallible())
    ||| match expected {
        Ok(st) => {
            &&& r is Ok
            &&& after.state() == st
            &&& after.inv()
            &&& after.source() == before.source()
            &&& after.input().fallible() == before.input().fallible()
            &&& same_shape(before.stack(), after.stack())
            &&& st.pos >= before.state().pos
        },
        Err(f) => r matches Err(e) && e@ == f,
    }
}

impl<I: Input> Reader<I> {
    /// The input that the reader reads from.
    pub closed spec fn input(&self) -> I {
        self.input
    }

    /// The stack of captures that are open.
    pub closed spec fn stack(&self) -> Seq<Named> {
        models(self.captures@)
    }

    /// The bytes that the input holds from the last record on.
    pub open spec fn source(&self) -> Seq<u8> {
        self.input().source()
    }

    /// The state of the parse.
    pub open spec fn state(&self) -> State {
        State { pos: self.input().position(), stack: self.stack() }
    }

    /// The invariant of a reader in the middle of a parse.
    pub open spec fn inv(&self) -> bool {
        &&& self.input().valid()
        &&& self.input().position() <= self.source().len()
        &&& stack_inv(self.stack(), self.input().position())
    }

    /// Whether the reader is between two parses: no capture is open.
    pub open spec fn idle(&self) -> bool {
        &&& self.input().valid()
        &&& self.input().position() <= self.source().len()
        &&& self.stack().len() == 0
    }

    /// Creates a new `Reader` on the given `Input`.
    pub fn new(input: I::Source) -> (r: Self)
        ensures
            r.idle(),
            r.input().position() == 0,
    {
        let r = Reader { input: I::new(input), captures: Vec::new() };
        assert(r.stack() =~= Seq::empty());
        r
    }

    /// Tells whether no capture is open.
    pub fn is_idle(&self) -> (r: bool)
        ensures
            r == (self.stack().len() == 0),
    {
        self.captures.len() == 0
    }

    /// Gets the `Reader`'s current cursor position.
    pub fn pos(&self) -> (p: usize)
        requires
            self.input().valid(),
        ensures
            p == self.input().position(),
    {
        self.input.pos()
    }

    /// Gets a slice of the input.
    pub fn get_range(&self, range: (usize, usize)) -> (r: &[u8])
        requires
            self.input().valid(),
            self.input().position() <= self.source().len(),
            range.0 <= range.1 <= self.input().position(),
        ensures
            r@ == self.source().subrange(range.0 as int, range.1 as int),
    {
        let (start, end) = range;
        let all = self.input.bytes();
        let r = slice_subrange(all, start, end);
        assert(r@ =~= self.source().subrange(start as int, end as int));
        r
    }

    ///////////////////////////////////////////////////////////////////////
    //      Match Regex
    ///////////////////////////////////////////////////////////////////////
    /// Reads indefinitely many bytes from input until a given regex
    /// matches.
    pub fn match_regex_unbounded(&mut self, re: &Regex) -> (r: ParserResult<()>)
        requires
            old(self).inv(),
        ensures
            steps(
                *old(self),
                *final(self),
                match_unbounded(*re, old(self).source(), old(self).state()),
                r,
            ),
            final(self).stack() == old(self).stack(),
    {
        let start_pos = self.input.pos();
        let ghost src = self.source();
        let ghost start = start_pos as nat;
        let ghost n: nat = 0;
        loop
            invariant
                self.input().valid(),
                self.input().position() <= src.len(),
                self.source() == src,
                src == old(self).source(),
                start == old(self).input().position(),
                start == start_pos,
                self.input().fallible() == old(self).input().fallible(),
                self.stack() == old(self).stack(),
                self.input().position() == start + n,
                stack_inv(old(self).stack(), start),
                first_match(*re, src, start, 0) == first_match(*re, src, start, n),
            decreases src.len() - start - n,
        {
            let pos = self.input.pos();
            let seen = slice_subrange(self.input.bytes(), start_pos, pos);
            assert(seen@ =~= src.subrange(start as int, (start + n) as int));
            if re.is_match(seen) {
                proof {
                    lemma_stack_inv_grows(old(self).stack(), start, start + n);
                    assert(same_shape(old(self).stack(), self.stack()));
                    assert(first_match(*re, src, start, n) == Some(n));
                }
                return Ok(());
            }
            match self.input.read_next() {
                Ok(_) => {},
                Err(e) => {
                    assert(e@ is UnexpectedEof ==> first_match(*re, src, start, n + 1) is None);
                    return Err(e);
                },
            }
            proof {
                n = n + 1;
            }
        }
    }

    /// Reads up to `bound` bytes from input until a given regex matches.
    pub fn match_regex_bounded(&mut self, re: &Regex, bound: usize) -> (r: ParserResult<()>)
        requires
            old(self).inv(),
        ensures
            steps(
                *old(self),
                *final(self),
                match_bounded(*re, bound as nat, old(self).source(), old(self).state()),
                r,
            ),
            final(self).stack() == old(self).stack(),
            r is Ok ==> final(self).input().position() <= old(self).input().position() + bound,
    {
        let start_pos = self.input.pos();
        let ghost src = self.source();
        let ghost start = start_pos as nat;
        proof {
            assert(same_shape(old(self).stack(), self.stack()));
        }
        let nothing = slice_subrange(self.input.bytes(), start_pos, start_pos);
        assert(nothing@ =~= src.subrange(start as int, (start + 0) as int));
        if re.is_match(nothing) {
            return Ok(());
        }
        let mut k: usize = 0;
        while k < bound
            invariant
                k <= bound,
                self.input().valid(),
                self.input().position() <= src.len(),
                self.source() == src,
                src == old(self).source(),
                start == old(self).input().position(),
                start == start_pos,
                self.input().fallible() == old(self).input().fallible(),
                self.stack() == old(self).stack(),
                self.input().position() == start + k,
                stack_inv(old(self).stack(), start),
                first_match(*re, src, start, 0) == first_match(*re, src, start, (k + 1) as nat),
            decreases bound - k,
        {
            proof {
                lemma_first_match(*re, src, start, (k + 1) as nat);
            }
            match self.input.read_next() {
                Ok(_) => {},
                Err(e) => {
                    return Err(e);
                },
            }
            k = k + 1;
            let pos = self.input.pos();
            let seen = slice_subrange(self.input.bytes(), start_pos, pos);
            assert(seen@ =~= src.subrange(start as int, (start + k) as int));
            if re.is_match(seen) {
                proof {
                    lemma_stack_inv_grows(old(self).stack(), start, (start + k) as nat);
                }
                return Ok(());
            }
        }
        proof {
            lemma_first_match(*re, src, start, (k + 1) as nat);
        }
        let pos = self.input.pos();
        let seen = slice_subrange(self.input.bytes(), start_pos, pos);
        assert(seen@ =~= src.subrange(start as int, (start + bound) as int));
        Err(ParserError::Regex { regex: re.as_str().to_owned(), value: slice_to_vec(seen) })
    }

    /// Reads exactly `length` bytes from input and try to match given
    /// regex.
    pub fn match_regex_exact(&mut self, re: &Regex, length: usize) -> (r: ParserResult<()>)
        requires
            old(self).inv(),
        ensures
            steps(
                *old(self),
                *final(self),
                match_exact(*re, length as nat, old(self).source(), old(self).state()),
                r,
            ),
            final(self).stack() == old(self).stack(),
            r is Ok ==> final(self).input().position() == old(self).input().position() + length,
    {
        let start_pos = self.input.pos();
        let ghost src = self.source();
        let ghost start = start_pos as nat;
        match self.input.read_n(length) {
            Ok(_) => {},
            Err(e) => {
                return Err(e);
            },
        }
        let pos = self.input.pos();
        let value = slice_subrange(self.input.bytes(), start_pos, pos);
        proof {
            assert(value@ =~= src.subrange(start as int, (start + length) as int));
            lemma_stack_inv_grows(old(self).stack(), start, (start + length) as nat);
            assert(same_shape(old(self).stack(), self.stack()));
        }
        if re.is_match(value) {
            Ok(())
        } else {
            Err(ParserError::Regex { regex: re.as_str().to_owned(), value: slice_to_vec(value) })
        }
    }

    ///////////////////////////////////////////////////////////////////////
    //      Capture
    ///////////////////////////////////////////////////////////////////////
    /// Initializes capturing system for a new parse: the scope of the root
    /// is opened.
    pub fn init_capture(&mut self, name: &str)
        requires
            old(self).idle(),
        ensures
            final(self).input() == old(self).input(),
            final(self).stack() == semantics::root_stack(name@, old(self).input().position()),
            is_real(name@) ==> final(self).inv(),
    {
        let capture = SingleCapture {
            start_pos: self.input.pos(),
            end_pos: 0,
            children: Vec::new(),
        };
        let frame = NamedCapture { name: name.to_owned(), capture: Capture::Single(capture) };
        proof {
            lemma_single_model(&capture);
            lemma_models_push(self.captures@, frame);
            assert(frame.model().entry->Single_0.entries =~= Seq::empty());
        }
        self.captures.push(frame);
        proof {
            let after = self.stack();
            assert(after =~= semantics::root_stack(name@, old(self).input().position()));
            assert(frame_ok(after, 0, self.input().position()));
        }
    }

    /// Finalizes capturing system after expression has been read: the
    /// scope of the root ends at the current position. It is left on the
    /// stack for `get_record` to take.
    pub fn finalize_capture(&mut self, name: &str)
        requires
            old(self).inv(),
            old(self).stack().len() == 1,
        ensures
            final(self).input() == old(self).input(),
            final(self).stack() == seq![
                Named {
                    name: old(self).stack()[0].name,
                    entry: Entry::Single(
                        Scope {
                            end: old(self).input().position(),
                            ..old(self).stack()[0].entry->Single_0
                        },
                    ),
                },
            ],
            scope_closed(
                final(self).stack()[0].entry->Single_0,
                old(self).input().position(),
            ),
            final(self).stack()[0].entry is Single,
    {
        let pos = self.input.pos();
        let ghost before = self.captures@;
        assert(frame_ok(self.stack(), 0, pos as nat));
        let top = self.captures.pop().unwrap();
        assert(top == before[0]);
        let NamedCapture { name: saved_name, capture } = top;
        match capture {
            Capture::Single(single) => {
                let mut single = single;
                proof {
                    lemma_single_model(&single);
                }
                single.end_pos = pos;
                proof {
                    lemma_single_model(&single);
                }
                let frame = NamedCapture { name: saved_name, capture: Capture::Single(single) };
                self.captures.push(frame);
                proof {
                    assert(self.captures@ =~= seq![frame]);
                    assert(self.stack() =~= seq![frame.model()]);
                }
            },
            Capture::Repeat(_) => {
                assert(false);
            },
        }
    }

    /// Starts a repeat capture. Its name is not known at this point: it is
    /// set when the first entry of the repeat is finished.
    pub fn start_repeat(&mut self)
        requires
            old(self).inv(),
        ensures
            final(self).input() == old(self).input(),
            final(self).stack() == start_repeat(old(self).stack()),
            final(self).inv(),
    {
        let frame = NamedCapture { name: String::new(), capture: Capture::Repeat(Vec::new()) };
        proof {
            let v: Vec<SingleCapture> = frame.capture->Repeat_0;
            lemma_repeat_model(&v);
            assert(scopes(v@) =~= Seq::empty());
            lemma_models_push(self.captures@, frame);
        }
        self.captures.push(frame);
        proof {
            let pos = self.input().position();
            let before = old(self).stack();
            let after = self.stack();
            assert(after =~= start_repeat(before));
            assert forall|j: int| 0 <= j < after.len() implies #[trigger] frame_ok(after, j, pos) by {
                lemma_floor_same(after, before, if j < before.len() {
                    j
                } else {
                    before.len() as int
                });
                if j < before.len() {
                    assert(frame_ok(before, j, pos));
                }
            }
        }
    }

    /// Finishes the innermost repeat capture and puts it among the
    /// captures of the scope that it belongs to. Directly nested repeat
    /// captures are not supported: that scope is a single capture.
    #[verifier::rlimit(50)]
    pub fn finish_repeat(&mut self)
        requires
            old(self).inv(),
            old(self).stack().len() >= 2,
            old(self).stack().last().entry is Repeat,
            ready(old(self).stack().drop_last()),
        ensures
            final(self).input() == old(self).input(),
            final(self).stack() == finish_repeat(old(self).stack()),
            final(self).inv(),
            same_shape(old(self).stack().drop_last(), final(self).stack()),
    {
        let ghost pos = self.input().position();
        let ghost stack0 = self.stack();
        let ghost rest = stack0.drop_last();
        let ghost before = self.captures@;
        let top = self.captures.pop().unwrap();
        assert(top == before.last());
        assert(self.stack() =~= rest);
        let NamedCapture { name, capture } = top;
        proof {
            lemma_last_real(rest);
            assert(frame_ok(stack0, stack0.len() - 1, pos));
        }
        let idx = self.last_real_index();
        let ghost below = self.captures@;
        let parent = self.captures.remove(idx);
        assert(parent == below[idx as int]);
        assert(rest[idx as int] == parent.model());
        assert(frame_ok(stack0, idx as int, pos));
        let NamedCapture { name: parent_name, capture: parent_capture } = parent;
        match parent_capture {
            Capture::Single(scope) => {
                let mut scope = scope;
                proof {
                    lemma_single_model(&scope);
                }
                let ghost entries = models(scope.children@);
                put_child(&mut scope.children, name, capture);
                proof {
                    lemma_single_model(&scope);
                    lemma_floor(stack0, pos, idx as int, stack0.len() - 1);
                    lemma_entry_within_wider(
                        capture.model(),
                        floor(stack0, stack0.len() - 1),
                        pos,
                        scope.start_pos as nat,
                        pos,
                    );
                    lemma_put_within(entries, name@, capture.model(), scope.start_pos as nat, pos);
                }
                let frame = NamedCapture { name: parent_name, capture: Capture::Single(scope) };
                self.captures.insert(idx, frame);
                proof {
                    assert(self.captures@ =~= below.update(idx as int, frame));
                    let after = self.stack();
                    assert(frame.model() == attach_repeat(
                        rest[idx as int],
                        name@,
                        capture.model()->Repeat_0,
                    ));
                    assert(after =~= rest.update(idx as int, frame.model()));
                    assert forall|j: int| 0 <= j < after.len() implies #[trigger] frame_ok(
                        after,
                        j,
                        pos,
                    ) by {
                        lemma_floor_same(after, stack0, j);
                        assert(frame_ok(stack0, j, pos));
                        if j != idx {
                            assert(after[j] == stack0[j]);
                        }
                    }
                    assert(same_shape(rest, after)) by {
                        assert forall|i: int| 0 <= i < rest.len() implies (#[trigger] rest[i].entry
                            is Single) == (after[i].entry is Single) by {}
                        assert forall|i: int| 0 <= i < rest.len() implies is_real(
                            #[trigger] rest[i].name,
                        ) == is_real(after[i].name) by {}
                    }
                }
            },
            Capture::Repeat(_) => {
                assert(false);
            },
        }
    }

    /// Sets current cursor position as starting point of new named capture.
    ///
    /// If a capture with the given name was made already, a tick is added
    /// to it.
    pub fn start_capture(&mut self, name: &str)
        requires
            old(self).inv(),
        ensures
            final(self).input() == old(self).input(),
            final(self).stack() == start_capture(
                old(self).stack(),
                name@,
                old(self).input().position(),
            ),
            final(self).inv(),
            is_real(final(self).stack().last().name) == is_real(name@),
    {
        let capture = SingleCapture {
            start_pos: self.input.pos(),
            end_pos: 0,
            children: Vec::new(),
        };
        let unique = self.get_unique_name(name);
        let frame = NamedCapture { name: unique, capture: Capture::Single(capture) };
        proof {
            lemma_single_model(&capture);
            lemma_models_push(self.captures@, frame);
            assert(frame.model().entry->Single_0.entries =~= Seq::empty());
        }
        self.captures.push(frame);
        proof {
            let pos = self.input().position();
            let before = old(self).stack();
            let after = self.stack();
            assert(after =~= start_capture(before, name@, pos));
            assert forall|j: int| 0 <= j < after.len() implies #[trigger] frame_ok(after, j, pos) by {
                if j < before.len() {
                    lemma_floor_same(after, before, j);
                    assert(frame_ok(before, j, pos));
                } else {
                    lemma_floor_same(after, before, before.len() as int);
                    lemma_floor(before, pos, before.len() as int, before.len() as int);
                }
            }
        }
    }

    /// Sets current cursor position as ending point of most recent
    /// capture, and attaches the capture to the scope it belongs to: the
    /// innermost one whose name does not start with `$`.
    #[verifier::rlimit(50)]
    pub fn finish_capture(&mut self, name: &str)
        requires
            old(self).inv(),
            old(self).stack().len() >= 2,
            old(self).stack().last().entry is Single,
            is_real(old(self).stack().last().name) || ready(old(self).stack().drop_last()),
        ensures
            final(self).input() == old(self).input(),
            final(self).stack() == finish_capture(
                old(self).stack(),
                old(self).input().position(),
            ),
            final(self).inv(),
            same_shape(old(self).stack().drop_last(), final(self).stack()),
    {
        let pos = self.input.pos();
        let ghost stack0 = self.stack();
        let ghost rest = stack0.drop_last();
        let ghost before = self.captures@;
        let top = self.captures.pop().unwrap();
        assert(top == before.last());
        assert(self.stack() =~= rest);
        let NamedCapture { name: saved_name, capture } = top;
        proof {
            lemma_last_real(rest);
            assert(rest[0] == stack0[0]);
            assert(is_real(rest[0].name));
            assert(frame_ok(stack0, stack0.len() - 1, pos as nat));
        }
        match capture {
            Capture::Single(single) => {
                let mut single = single;
                proof {
                    lemma_single_model(&single);
                }
                single.end_pos = pos;
                proof {
                    lemma_single_model(&single);
                }
                let idx = self.last_real_index();
                let ghost below = self.captures@;
                let parent = self.captures.remove(idx);
                assert(parent == below[idx as int]);
                assert(rest[idx as int] == parent.model());
                proof {
                    assert(frame_ok(stack0, idx as int, pos as nat));
                    lemma_floor(stack0, pos as nat, idx as int, stack0.len() - 1);
                    assert(scope_within(single.model(), floor(stack0, idx as int), pos as nat));
                }
                let NamedCapture { name: parent_name, capture: parent_capture } = parent;
                let frame = match parent_capture {
                    Capture::Repeat(repeat) => {
                        let mut repeat = repeat;
                        proof {
                            lemma_repeat_model(&repeat);
                        }
                        let ghost elements = scopes(repeat@);
                        let first = repeat.len() == 0;
                        repeat.push(single);
                        proof {
                            lemma_repeat_model(&repeat);
                            assert(scopes(repeat@) =~= elements.push(single.model()));
                            let lo = floor(stack0, idx as int);
                            assert forall|i: int| 0 <= i < scopes(repeat@).len() implies scope_within(
                                #[trigger] scopes(repeat@)[i],
                                lo,
                                pos as nat,
                            ) by {
                                if i < elements.len() {
                                    lemma_repeat_within(elements, lo, pos as nat, i);
                                }
                            }
                        }
                        NamedCapture {
                            name: if first {
                                saved_name
                            } else {
                                parent_name
                            },
                            capture: Capture::Repeat(repeat),
                        }
                    },
                    Capture::Single(scope) => {
                        let mut scope = scope;
                        proof {
                            lemma_single_model(&scope);
                        }
                        let ghost entries = models(scope.children@);
                        put_child(&mut scope.children, saved_name, Capture::Single(single));
                        proof {
                            lemma_single_model(&scope);
                            assert(scope_within(
                                single.model(),
                                scope.start_pos as nat,
                                pos as nat,
                            ));
                            lemma_put_within(
                                entries,
                                saved_name@,
                                Entry::Single(single.model()),
                                scope.start_pos as nat,
                                pos as nat,
                            );
                        }
                        NamedCapture { name: parent_name, capture: Capture::Single(scope) }
                    },
                };
                assert(frame.model() == attach(rest[idx as int], saved_name@, single.model()));
                self.captures.insert(idx, frame);
                proof {
                    assert(self.captures@ =~= below.update(idx as int, frame));
                    let after = self.stack();
                    assert(after =~= rest.update(idx as int, frame.model()));
                    assert forall|j: int| 0 <= j < after.len() implies #[trigger] frame_ok(
                        after,
                        j,
                        pos as nat,
                    ) by {
                        lemma_floor_same(after, stack0, j);
                        assert(frame_ok(stack0, j, pos as nat));
                        if j != idx {
                            assert(after[j] == stack0[j]);
                        }
                    }
                    assert(same_shape(rest, after)) by {
                        assert forall|i: int| 0 <= i < rest.len() implies (#[trigger] rest[i].entry
                            is Single) == (after[i].entry is Single) by {}
                        assert forall|i: int| 0 <= i < rest.len() implies is_real(
                            #[trigger] rest[i].name,
                        ) == is_real(after[i].name) by {}
                    }
                }
            },
            Capture::Repeat(_) => {
                assert(false);
            },
        }
    }

    ///////////////////////////////////////////////////////////////////////
    //      Helper Functions
    ///////////////////////////////////////////////////////////////////////
    /// The position on the stack of the innermost scope whose name does
    /// not start with `$`.
    fn last_real_index(&self) -> (r: usize)
        requires
            last_real(self.stack()) is Some,
        ensures
            last_real(self.stack()) == Some(r as int),
            r < self.captures@.len(),
    {
        let ghost all = self.stack();
        let mut i: usize = self.captures.len();
        assert(all.take(i as int) =~= all);
        while i > 0
            invariant
                i <= self.captures@.len(),
                all == models(self.captures@),
                last_real(all) == last_real(all.take(i as int)),
            decreases i,
        {
            i = i - 1;
            proof {
                assert(all.take(i + 1).drop_last() =~= all.take(i as int));
                assert(all.take(i + 1).last() == self.captures@[i as int].model());
            }
            if !is_special(&self.captures[i].name) {
                return i;
            }
        }
        assert(false);
        0
    }

    /// The position on the stack of the innermost scope that is a single
    /// capture.
    fn last_single_index(&self) -> (r: Option<usize>)
        ensures
            match r {
                Some(i) => last_single(self.stack()) == Some(i as int) && i < self.captures@.len()
                    && self.captures@[i as int].capture is Single,
                None => last_single(self.stack()) is None,
            },
    {
        let ghost all = self.stack();
        let mut i: usize = self.captures.len();
        assert(all.take(i as int) =~= all);
        while i > 0
            invariant
                i <= self.captures@.len(),
                all == models(self.captures@),
                last_single(all) == last_single(all.take(i as int)),
            decreases i,
        {
            i = i - 1;
            proof {
                assert(all.take(i + 1).drop_last() =~= all.take(i as int));
                assert(all.take(i + 1).last() == self.captures@[i as int].model());
            }
            let single = match &self.captures[i].capture {
                Capture::Single(_) => true,
                Capture::Repeat(_) => false,
            };
            if single {
                return Some(i);
            }
        }
        None
    }

    /// Adds ticks (`'`) to the name until it is unique in its scope: the
    /// innermost scope that is a single capture.
    fn get_unique_name(&self, name: &str) -> (r: String)
        ensures
            r@ == unique_name(self.stack(), name@),
            is_real(r@) == is_real(name@),
    {
        let mut unique = name.to_owned();
        let ghost mut ticks: nat = 0;
        match self.last_single_index() {
            Some(i) => {
                match &self.captures[i].capture {
                    Capture::Single(scope) => {
                        proof {
                            lemma_single_model(scope);
                        }
                        let ghost entries = models(scope.children@);
                        let n: usize = scope.children.len();
                        let mut k: usize = 0;
                        while k < n && find(&scope.children, &unique).is_some()
                            invariant
                                k <= n,
                                n == scope.children@.len(),
                                entries == models(scope.children@),
                                unique@ == ticked(name@, k as nat),
                                tick_count(entries, name@, 0) == tick_count(
                                    entries,
                                    name@,
                                    k as nat,
                                ),
                            decreases n - k,
                        {
                            proof {
                                reveal_strlit("'");
                            }
                            unique.append("'");
                            k = k + 1;
                            proof {
                                assert("'"@ =~= seq!['\'']);
                                assert(unique@ =~= ticked(name@, k as nat));
                            }
                        }
                        proof {
                            ticks = k as nat;
                        }
                    },
                    Capture::Repeat(_) => {
                        assert(false);
                    },
                }
            },
            None => {},
        }
        proof {
            lemma_ticked_real(name@, ticks);
        }
        unique
    }
}

/// Lower-level methods used by `Reader` itself and by `CalcRegex`.
impl<I: Input> Reader<I> {
    ///////////////////////////////////////////////////////////////////////
    //      Parse Calc Regex
    ///////////////////////////////////////////////////////////////////////
    /// Opens a capture where one can be opened: its name is an ordinary
    /// one, or the scope it will be attached to is a single capture.
    pub(crate) fn open_capture(&mut self, name: &str)
        requires
            old(self).inv(),
        ensures
            final(self).input() == old(self).input(),
            final(self).state() == opened(name@, old(self).state()),
            final(self).inv(),
            final(self).stack().len() == old(self).stack().len() + 1,
            final(self).stack().drop_last() == old(self).stack(),
            final(self).stack().last().entry is Single,
            is_real(final(self).stack().last().name) == is_real(name@),
            ready(final(self).stack()) == (is_real(name@) || ready(old(self).stack())),
    {
        self.start_capture(name);
        proof {
            lemma_ready_push(old(self).stack(), self.stack().last());
            assert(self.stack() =~= old(self).stack().push(self.stack().last()));
        }
    }

    /// Finishes the innermost capture, which was opened on a stack of the
    /// shape of `before`.
    pub(crate) fn close_capture(&mut self, name: &str, Ghost(before): Ghost<Seq<Named>>)
        requires
            old(self).inv(),
            old(self).stack().len() >= 2,
            same_shape(before, old(self).stack().drop_last()),
            old(self).stack().last().entry is Single,
            is_real(old(self).stack().last().name) || ready(before),
        ensures
            final(self).input() == old(self).input(),
            final(self).state() == closed(old(self).state()),
            final(self).inv(),
            same_shape(before, final(self).stack()),
    {
        proof {
            lemma_same_shape_last_real(before, old(self).stack().drop_last());
        }
        self.finish_capture(name);
        proof {
            lemma_same_shape_trans(before, old(self).stack().drop_last(), self.stack());
        }
    }

    /// Opens a repeat on a stack that is ready for one.
    pub(crate) fn open_repeat(&mut self)
        requires
            old(self).inv(),
        ensures
            final(self).input() == old(self).input(),
            final(self).state() == repeat_opened(old(self).state()),
            final(self).inv(),
            final(self).stack().len() == old(self).stack().len() + 1,
            final(self).stack().drop_last() == old(self).stack(),
            final(self).stack().last().entry is Repeat,
    {
        self.start_repeat();
        assert(self.stack().drop_last() =~= old(self).stack());
    }

    /// Finishes the innermost repeat, which was opened on a stack of the
    /// shape of `before`.
    pub(crate) fn close_repeat(&mut self, Ghost(before): Ghost<Seq<Named>>)
        requires
            old(self).inv(),
            old(self).stack().len() >= 2,
            same_shape(before, old(self).stack().drop_last()),
            old(self).stack().last().entry is Repeat,
            ready(before),
        ensures
            final(self).input() == old(self).input(),
            final(self).state() == repeat_closed(old(self).state()),
            final(self).inv(),
            same_shape(before, final(self).stack()),
    {
        proof {
            lemma_same_shape_last_real(before, old(self).stack().drop_last());
        }
        self.finish_repeat();
        proof {
            lemma_same_shape_trans(before, old(self).stack().drop_last(), self.stack());
        }
    }

    /// Opens the capture of a node, if the node has a name.
    fn enter<F: Fn(&[u8]) -> Option<usize>>(
        &mut self,
        calc_regex: &CalcRegex<F>,
        node_index: NodeIndex,
    )
        requires
            old(self).inv(),
            0 <= node_index@ < calc_regex.nodes().len(),
            ready(old(self).stack()) || repeatable(calc_regex.nodes(), node_index@),
        ensures
            final(self).input() == old(self).input(),
            final(self).state() == entered(calc_regex.nodes()[node_index@], old(self).state()),
            final(self).inv(),
            loose_kind(calc_regex.nodes(), node_index@) || ready(final(self).stack()),
            calc_regex.nodes()[node_index@].name is None ==> final(self).stack() == old(
                self,
            ).stack(),
            calc_regex.nodes()[node_index@].name is Some ==> {
                &&& final(self).stack().len() == old(self).stack().len() + 1
                &&& final(self).stack().drop_last() == old(self).stack()
                &&& final(self).stack().last().entry is Single
                &&& is_real(final(self).stack().last().name) || ready(old(self).stack())
            },
    {
        let node = calc_regex.get_node(node_index);
        match &node.name {
            Some(name) => {
                self.open_capture(name.as_str());
            },
            None => {},
        }
    }

    /// Finishes the capture of a node, if the node has a name.
    fn leave<F: Fn(&[u8]) -> Option<usize>>(
        &mut self,
        calc_regex: &CalcRegex<F>,
        node_index: NodeIndex,
        Ghost(before): Ghost<Seq<Named>>,
    )
        requires
            old(self).inv(),
            0 <= node_index@ < calc_regex.nodes().len(),
            calc_regex.nodes()[node_index@].name is None ==> same_shape(
                before,
                old(self).stack(),
            ),
            calc_regex.nodes()[node_index@].name is Some ==> {
                &&& old(self).stack().len() >= 2
                &&& same_shape(before, old(self).stack().drop_last())
                &&& old(self).stack().last().entry is Single
                &&& is_real(old(self).stack().last().name) || ready(before)
            },
        ensures
            final(self).input() == old(self).input(),
            Ok::<State, Failure>(final(self).state()) == finishing(
                Ok(old(self).state()),
                calc_regex.nodes()[node_index@].name is Some,
            ),
            final(self).inv(),
            same_shape(before, final(self).stack()),
    {
        let node = calc_regex.get_node(node_index);
        match &node.name {
            Some(name) => {
                self.close_capture(name.as_str(), Ghost(before));
            },
            None => {},
        }
    }

    /// Parses an unlimited number of bytes from input against the given
    /// node of `calc_regex`.
    ///
    /// This wraps `CalcRegex::parse_unbounded`, enforcing length bounds
    /// defined with the node and doing captures.
    pub fn parse_unbounded<F: Fn(&[u8]) -> Option<usize>>(
        &mut self,
        calc_regex: &CalcRegex<F>,
        node_index: NodeIndex,
    ) -> (r: ParserResult<usize>)
        requires
            calc_regex.wf(),
            calc_regex.progressive(),
            old(self).inv(),
            plain_child(calc_regex.nodes(), calc_regex.nodes().len() as int, node_index),
            ready(old(self).stack()) || repeatable(calc_regex.nodes(), node_index@),
        ensures
            steps(
                *old(self),
                *final(self),
                semantics::parse_unbounded(
                    calc_regex.nodes(),
                    node_index@,
                    old(self).source(),
                    old(self).state(),
                ),
                r,
            ),
            r matches Ok(n) ==> n == final(self).input().position() - old(
                self,
            ).input().position(),
        decreases node_index@, 2nat, 0nat,
    {
        let node = calc_regex.get_node(node_index);
        let start_pos = self.pos();
        self.enter(calc_regex, node_index);
        let ghost mid = *self;
        let inner = match node.length_bound {
            Some(bound) => calc_regex.parse_bounded(self, node_index, bound),
            None => calc_regex.parse_unbounded(self, node_index),
        };
        match inner {
            Ok(_) => {},
            Err(e) => {
                return Err(e);
            },
        }
        proof {
            if node.name is Some {
                lemma_same_shape_pop(mid.stack(), self.stack());
            }
        }
        self.leave(calc_regex, node_index, Ghost(old(self).stack()));
        Ok(self.pos() - start_pos)
    }

    /// Parses a bounded number of bytes from input against the given node
    /// of `calc_regex`.
    ///
    /// This wraps `CalcRegex::parse_bounded`, enforcing additional length
    /// bounds defined with the node and doing captures.
    pub fn parse_bounded<F: Fn(&[u8]) -> Option<usize>>(
        &mut self,
        calc_regex: &CalcRegex<F>,
        node_index: NodeIndex,
        bound: usize,
    ) -> (r: ParserResult<usize>)
        requires
            calc_regex.wf(),
            calc_regex.progressive(),
            old(self).inv(),
            plain_child(calc_regex.nodes(), calc_regex.nodes().len() as int, node_index),
            ready(old(self).stack()) || repeatable(calc_regex.nodes(), node_index@),
        ensures
            steps(
                *old(self),
                *final(self),
                semantics::parse_bounded(
                    calc_regex.nodes(),
                    node_index@,
                    bound as nat,
                    old(self).source(),
                    old(self).state(),
                ),
                r,
            ),
            r matches Ok(n) ==> n <= bound && n == final(self).input().position() - old(
                self,
            ).input().position(),
        decreases node_index@, 2nat, 0nat,
    {
        let node = calc_regex.get_node(node_index);
        let start_pos = self.pos();
        self.enter(calc_regex, node_index);
        let ghost mid = *self;
        let tight = match node.length_bound {
            Some(n) => if n < bound {
                n
            } else {
                bound
            },
            None => bound,
        };
        match calc_regex.parse_bounded(self, node_index, tight) {
            Ok(_) => {},
            Err(e) => {
                return Err(e);
            },
        }
        proof {
            if node.name is Some {
                lemma_same_shape_pop(mid.stack(), self.stack());
            }
        }
        self.leave(calc_regex, node_index, Ghost(old(self).stack()));
        Ok(self.pos() - start_pos)
    }

    /// Parses an exact number of bytes from input against the given node
    /// of `calc_regex`.
    ///
    /// This wraps `CalcRegex::parse_exact`, enforcing length bounds
    /// defined with the node and doing captures.
    pub fn parse_exact<F: Fn(&[u8]) -> Option<usize>>(
        &mut self,
        calc_regex: &CalcRegex<F>,
        node_index: NodeIndex,
        length: usize,
    ) -> (r: ParserResult<()>)
        requires
            calc_regex.wf(),
            calc_regex.progressive(),
            old(self).inv(),
            0 <= node_index@ < calc_regex.nodes().len(),
            ready(old(self).stack()) || repeatable(calc_regex.nodes(), node_index@),
        ensures
            steps(
                *old(self),
                *final(self),
                semantics::parse_exact(
                    calc_regex.nodes(),
                    node_index@,
                    length as nat,
                    old(self).source(),
                    old(self).state(),
                ),
                r,
            ),
            r is Ok ==> final(self).input().position() == old(self).input().position() + length,
        decreases node_index@, 2nat, 0nat,
    {
        let node = calc_regex.get_node(node_index);
        match node.length_bound {
            Some(length_bound) => {
                if length_bound < length {
                    return Err(ParserError::ConflictingBounds { old: length, new: length_bound });
                }
            },
            None => {},
        }
        self.enter(calc_regex, node_index);
        let ghost mid = *self;
        match calc_regex.parse_exact(self, node_index, length) {
            Ok(_) => {},
            Err(e) => {
                return Err(e);
            },
        }
        proof {
            if node.name is Some {
                lemma_same_shape_pop(mid.stack(), self.stack());
            }
        }
        self.leave(calc_regex, node_index, Ghost(old(self).stack()));
        Ok(())
    }
}

/// Whether a parse of a record went as it should: unless reading failed
/// for a reason of the input's own, it gave the expected captures on the
/// bytes that it read, and left the reader ready for the bytes behind
/// them, or it failed with the expected error.
pub open spec fn recorded<I: Input>(
    before: Reader<I>,
    after: Reader<I>,
    expected: Result<Scope, Failure>,
    r: ParserResult<Record<I::Data>>,
) -> bool {
    ||| (r matches Err(e) && e@ is IoError && before.input().fallible())
    ||| match expected {
        Ok(scope) => {
            &&& r matches Ok(record) && record.scope() == scope && record.content()
                == before.source().take(scope.end as int)
            &&& scope.end <= before.source().len()
            &&& scope_closed(scope, scope.end)
            &&& after.idle()
            &&& after.input().position() == 0
            &&& after.source() == before.source().skip(scope.end as int)
            &&& after.input().fallible() == before.input().fallible()
        },
        Err(f) => r matches Err(e) && e@ == f,
    }
}

impl<'a> Reader<ArrayInput<'a>> {
    /// Creates a `Reader` from a byte array reference.
    pub fn from_array(input: &'a [u8]) -> (r: Self)
        ensures
            r.idle(),
            r.input().position() == 0,
            r.source() == input@,
            !r.input().fallible(),
    {
        let r = Reader { input: ArrayInput::new(input), captures: Vec::new() };
        assert(r.stack() =~= Seq::empty());
        r
    }
}

/// High-level methods for parsing `CalcRegex`es.
impl<I: Input> Reader<I> {
    /// Extracts the parsed bytes to a `Record`.
    ///
    /// Captures can be obtained from the `Record`. The `Reader` is ready
    /// again for parsing after this.
    pub fn get_record(&mut self) -> (r: Record<I::Data>)
        requires
            old(self).input().valid(),
            old(self).input().position() <= old(self).source().len(),
            old(self).stack().len() == 1,
            old(self).stack()[0].entry is Single,
            scope_closed(old(self).stack()[0].entry->Single_0, old(self).input().position()),
        ensures
            r.scope() == old(self).stack()[0].entry->Single_0,
            r.content() == old(self).source().take(old(self).input().position() as int),
            final(self).idle(),
            final(self).input().position() == 0,
            final(self).source() == old(self).source().skip(old(self).input().position() as int),
            final(self).input().fallible() == old(self).input().fallible(),
    {
        let ghost before = self.captures@;
        let top = self.captures.pop().unwrap();
        assert(top == before[0]);
        assert(self.stack() =~= Seq::empty());
        let NamedCapture { name, capture } = top;
        match capture {
            Capture::Single(capture) => Record::new(capture, self.input.split_here()),
            Capture::Repeat(_) => {
                proof {
                    assert(false);
                }
                vstd::pervasive::unreached()
            },
        }
    }

    /// Parses the root of an expression, from opening its scope to closing
    /// it.
    fn parse_root<F: Fn(&[u8]) -> Option<usize>>(&mut self, calc_regex: &CalcRegex<F>) -> (r:
        ParserResult<()>)
        requires
            calc_regex.wf(),
            calc_regex.progressive(),
            calc_regex.rooted(),
            old(self).idle(),
        ensures
            (r matches Err(e) && e@ is IoError && old(self).input().fallible()) || match parse_record(
                calc_regex.nodes(),
                calc_regex.root(),
                old(self).source(),
                old(self).input().position(),
            ) {
                Ok(scope) => {
                    &&& r is Ok
                    &&& final(self).input().valid()
                    &&& final(self).input().position() <= final(self).source().len()
                    &&& final(self).stack().len() == 1
                    &&& final(self).stack()[0].entry == Entry::Single(scope)
                    &&& scope_closed(scope, final(self).input().position())
                    &&& scope.end == final(self).input().position()
                    &&& final(self).source() == old(self).source()
                    &&& final(self).input().fallible() == old(self).input().fallible()
                },
                Err(f) => r matches Err(e) && e@ == f,
            },
    {
        let root_index = calc_regex.get_root_index();
        let root = calc_regex.get_root();
        let name = match &root.name {
            Some(name) => name.as_str(),
            None => {
                proof {
                    assert(false);
                }
                ""
            },
        };
        self.init_capture(name);
        proof {
            let stack = self.stack();
            assert(stack.drop_last() =~= Seq::empty());
            assert(last_real(stack) == Some(0int));
        }
        let ghost mid = *self;
        let inner = match root.length_bound {
            Some(bound) => calc_regex.parse_bounded(self, root_index, bound),
            None => calc_regex.parse_unbounded(self, root_index),
        };
        match inner {
            Ok(_) => {},
            Err(e) => {
                return Err(e);
            },
        }
        self.finalize_capture(name);
        Ok(())
    }

    /// Parses a single `CalcRegex` into a `Record`.
    ///
    /// Expects to parse the complete input. Otherwise a
    /// `TrailingCharacters` error is returned.
    pub fn parse<F: Fn(&[u8]) -> Option<usize>>(&mut self, calc_regex: &CalcRegex<F>) -> (r:
        ParserResult<Record<I::Data>>)
        requires
            calc_regex.wf(),
            calc_regex.progressive(),
            calc_regex.rooted(),
            old(self).idle(),
        ensures
            recorded(
                *old(self),
                *final(self),
                parse_all(
                    calc_regex.nodes(),
                    calc_regex.root(),
                    old(self).source(),
                    old(self).input().position(),
                ),
                r,
            ),
            r matches Ok(record) ==> record.content() == old(self).source(),
    {
        match self.parse_root(calc_regex) {
            Ok(_) => {},
            Err(e) => {
                return Err(e);
            },
        }
        match self.input.is_empty() {
            Ok(true) => {
                assert(old(self).source().take(old(self).source().len() as int) =~= old(
                    self,
                ).source());
                Ok(self.get_record())
            },
            Ok(false) => Err(ParserError::TrailingCharacters),
            Err(e) => Err(e),
        }
    }

    /// Parses concatenated words of a given `CalcRegex`.
    ///
    /// The records are handed out one after the other by `next`.
    pub fn parse_many<'a, F: Fn(&[u8]) -> Option<usize>>(
        &'a mut self,
        calc_regex: &'a CalcRegex<F>,
    ) -> (r: RecordIter<'a, I, F>)
        ensures
            r.calc_regex() == *calc_regex,
            r.reader() == *old(self),
    {
        RecordIter { calc_regex, reader: self }
    }

    /// Parse a single record when iterating `Record`s.
    ///
    /// Same as `parse`, but doesn't expect the input to be empty when
    /// done.
    pub fn parse_record<F: Fn(&[u8]) -> Option<usize>>(&mut self, calc_regex: &CalcRegex<F>) -> (r:
        ParserResult<Record<I::Data>>)
        requires
            calc_regex.wf(),
            calc_regex.progressive(),
            calc_regex.rooted(),
            old(self).idle(),
        ensures
            recorded(
                *old(self),
                *final(self),
                parse_record(
                    calc_regex.nodes(),
                    calc_regex.root(),
                    old(self).source(),
                    old(self).input().position(),
                ),
                r,
            ),
    {
        match self.parse_root(calc_regex) {
            Ok(_) => {},
            Err(e) => {
                return Err(e);
            },
        }
        Ok(self.get_record())
    }
}

/// The records of the words that an input holds one after the other, to
/// be obtained by calling `parse_many` on a `Reader`.
#[derive(Debug)]
pub struct RecordIter<'a, I: Input, F> {
    calc_regex: &'a CalcRegex<F>,
    reader: &'a mut Reader<I>,
}

impl<'a, I: Input, F: Fn(&[u8]) -> Option<usize>> RecordIter<'a, I, F> {
    /// The expression that the words are parsed against.
    pub closed spec fn calc_regex(&self) -> CalcRegex<F> {
        *self.calc_regex
    }

    /// The reader as it stands.
    pub closed spec fn reader(&self) -> Reader<I> {
        *self.reader
    }

    /// The record of the next word, if the input holds one more byte.
    pub fn next(&mut self) -> (r: Option<ParserResult<Record<I::Data>>>)
        requires
            old(self).calc_regex().wf(),
            old(self).calc_regex().progressive(),
            old(self).calc_regex().rooted(),
            old(self).reader().idle(),
        ensures
            final(self).calc_regex() == old(self).calc_regex(),
            (r matches Some(Err(e)) && e@ is IoError && old(self).reader().input().fallible()) || (
            if old(self).reader().input().position() == old(self).reader().source().len() {
                r is None && final(self).reader().idle() && final(self).reader().source() == old(
                    self,
                ).reader().source()
            } else {
                r matches Some(record) && recorded(
                    old(self).reader(),
                    final(self).reader(),
                    parse_record(
                        old(self).calc_regex().nodes(),
                        old(self).calc_regex().root(),
                        old(self).reader().source(),
                        old(self).reader().input().position(),
                    ),
                    record,
                )
            }),
    {
        match self.reader.input.is_empty() {
            Ok(false) => Some(self.reader.parse_record(self.calc_regex)),
            Ok(true) => None,
            Err(err) => Some(Err(err)),
        }
    }
}

} // verus!
