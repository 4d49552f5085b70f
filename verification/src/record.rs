//! Records of captured names, and how captures are found by name.

use vstd::prelude::*;
use vstd::slice::slice_subrange;
use vstd::string::{StrSliceExecFns, StringSliceAdditionalSpecFns};
use vstd::utf8::encode_utf8;
use crate::aux::{decimal, parse_number};
use crate::capture::{
    Capture,
    Entry,
    Scope,
    SingleCapture,
    entry_closed,
    entry_within,
    find,
    index_of,
    lemma_entry_within_wider,
    lemma_index_of,
    lemma_repeat_model,
    lemma_repeat_within,
    lemma_single_model,
    lookup,
    models,
    scope_closed,
    scope_within,
    scopes,
};
use crate::error::{NameError, NameFailure, NameResult};
use crate::input::Data;

verus! {

/// The position of the first `c` in `s` from `from` on.
pub open spec fn first_of(s: Seq<char>, c: char, from: int) -> Option<int>
    decreases s.len() - from,
{
    if from < 0 || from >= s.len() {
        None
    } else if s[from] == c {
        Some(from)
    } else {
        first_of(s, c, from + 1)
    }
}

/// The position of the last `c` in `s`.
pub open spec fn last_of(s: Seq<char>, c: char) -> Option<int>
    decreases s.len(),
{
    if s.len() == 0 {
        None
    } else if s.last() == c {
        Some(s.len() - 1)
    } else {
        last_of(s.drop_last(), c)
    }
}

/// What `first_of` finds lies between `from` and the end.
pub proof fn lemma_first_of(s: Seq<char>, c: char, from: int)
    requires
        0 <= from,
    ensures
        first_of(s, c, from) matches Some(i) ==> from <= i < s.len() && s[i] == c,
    decreases s.len() - from,
{
    if from < s.len() && s[from] != c {
        lemma_first_of(s, c, from + 1);
    }
}

/// What `last_of` finds lies before the end.
pub proof fn lemma_last_of(s: Seq<char>, c: char)
    ensures
        last_of(s, c) matches Some(i) ==> 0 <= i < s.len() && s[i] == c,
    decreases s.len(),
{
    if s.len() > 0 && s.last() != c {
        lemma_last_of(s.drop_last(), c);
    }
}

/// One part of a qualified name, taken apart: a name, and the index in
/// square brackets behind it, if there is one. The brackets must be
/// closed at the end of the part, and what stands in them must be a
/// decimal number.
pub open spec fn parse_fragment(fragment: Seq<char>) -> Result<
    (Seq<char>, Option<usize>),
    NameFailure,
> {
    match first_of(fragment, '[', 0) {
        None => Ok((fragment, None)),
        Some(pos) => if fragment.last() != ']' {
            Err(NameFailure::InvalidCaptureName { message: "missing closing ']'"@ })
        } else {
            match parse_number(encode_utf8(fragment.subrange(pos + 1, fragment.len() - 1)), 10) {
                Some(index) => Ok((fragment.take(pos), Some(index))),
                None => Err(NameFailure::InvalidCaptureName { message: "non-numeric index"@ }),
            }
        },
    }
}

/// One step down the hierarchy of captures: the capture of the given name
/// in a scope. A single capture is taken without an index, an element of
/// a repeat with one.
pub open spec fn step(scope: Scope, name: Seq<char>, index: Option<usize>) -> Result<
    Scope,
    NameFailure,
> {
    match lookup(scope.entries, name) {
        None => Err(NameFailure::NoSuchName { name }),
        Some(Entry::Single(s)) => if index is Some {
            Err(NameFailure::MisplacedRepeatAccess { name })
        } else {
            Ok(s)
        },
        Some(Entry::Repeat(v)) => match index {
            Some(i) => if v.len() <= i {
                Err(NameFailure::OutOfBounds { name, index: i as nat, len: v.len() })
            } else {
                Ok(v[i as int])
            },
            None => Err(NameFailure::MisplacedSingleAccess { name }),
        },
    }
}

/// One step down the hierarchy by a part of a qualified name.
pub open spec fn resolve_fragment(scope: Scope, fragment: Seq<char>) -> Result<
    Scope,
    NameFailure,
> {
    match parse_fragment(fragment) {
        Ok((name, index)) => step(scope, name, index),
        Err(e) => Err(e),
    }
}

/// The capture that the rest of a qualified name from `from` on leads to.
/// The parts of the name are separated by dots.
pub open spec fn resolve_from(scope: Scope, name: Seq<char>, from: int) -> Result<
    Scope,
    NameFailure,
>
    decreases name.len() - from,
{
    let end = match first_of(name, '.', from) {
        Some(dot) => dot,
        None => name.len() as int,
    };
    match resolve_fragment(scope, name.subrange(from, end)) {
        Ok(s) => if from <= end < name.len() {
            resolve_from(s, name, end + 1)
        } else {
            Ok(s)
        },
        Err(e) => Err(e),
    }
}

/// The single capture that a qualified name leads to from a scope.
pub open spec fn resolve(scope: Scope, name: Seq<char>) -> Result<Scope, NameFailure> {
    resolve_from(scope, name, 0)
}

/// The repeat that a qualified name leads to from a scope: all but the
/// last part of the name lead to a single capture, and the last part,
/// taken as it stands, is the name of a repeat in it.
pub open spec fn resolve_repeat(scope: Scope, name: Seq<char>) -> Result<
    Seq<Scope>,
    NameFailure,
> {
    let (parent, last) = match last_of(name, '.') {
        Some(dot) => (resolve(scope, name.take(dot)), name.skip(dot + 1)),
        None => (Ok(scope), name),
    };
    match parent {
        Ok(p) => match lookup(p.entries, last) {
            Some(Entry::Repeat(v)) => Ok(v),
            Some(Entry::Single(_)) => Err(NameFailure::MisplacedRepeatAccess { name: last }),
            None => Err(NameFailure::NoSuchName { name: last }),
        },
        Err(e) => Err(e),
    }
}

/// The elements of a repeat are found under the indices from zero up to
/// their number, in their order, and under no other index.
pub proof fn lemma_repeat_indices(scope: Scope, name: Seq<char>, index: usize)
    requires
        lookup(scope.entries, name) matches Some(Entry::Repeat(_)),
    ensures
        ({
            let v = lookup(scope.entries, name).unwrap()->Repeat_0;
            step(scope, name, Some(index)) == if index < v.len() {
                Ok::<Scope, NameFailure>(v[index as int])
            } else {
                Err(NameFailure::OutOfBounds { name, index: index as nat, len: v.len() })
            }
        }),
{
}

/// One step down the hierarchy leads to a capture that lies within the
/// one it was taken from.
pub proof fn lemma_step_within(
    scope: Scope,
    name: Seq<char>,
    index: Option<usize>,
    lo: nat,
    hi: nat,
)
    requires
        scope_within(scope, lo, hi),
        step(scope, name, index) is Ok,
    ensures
        scope_within(step(scope, name, index)->Ok_0, scope.start, scope.end),
{
    lemma_index_of(scope.entries, name);
    let i = index_of(scope.entries, name)->Some_0;
    let child = scope.entries[i];
    assert(entry_within(child.entry, scope.start, scope.end));
    match child.entry {
        Entry::Single(_) => {},
        Entry::Repeat(v) => lemma_repeat_within(v, scope.start, scope.end, index->Some_0 as int),
    }
}

/// A capture that is found by a qualified name lies within the capture
/// that the name was resolved from: captures lie within their parents.
pub proof fn lemma_resolve_within(scope: Scope, name: Seq<char>, from: int, lo: nat, hi: nat)
    requires
        scope_within(scope, lo, hi),
        resolve_from(scope, name, from) is Ok,
    ensures
        scope_within(resolve_from(scope, name, from)->Ok_0, scope.start, scope.end),
    decreases name.len() - from,
{
    let end = match first_of(name, '.', from) {
        Some(dot) => dot,
        None => name.len() as int,
    };
    let (part, index) = parse_fragment(name.subrange(from, end))->Ok_0;
    lemma_step_within(scope, part, index, lo, hi);
    let next = step(scope, part, index)->Ok_0;
    if from <= end < name.len() {
        lemma_resolve_within(next, name, end + 1, scope.start, scope.end);
    }
}

/// The elements of a repeat that is found by a qualified name lie within
/// the capture that the name was resolved from.
pub proof fn lemma_resolve_repeat_within(scope: Scope, name: Seq<char>, lo: nat, hi: nat)
    requires
        scope_within(scope, lo, hi),
        resolve_repeat(scope, name) is Ok,
    ensures
        entry_within(Entry::Repeat(resolve_repeat(scope, name)->Ok_0), scope.start, scope.end),
{
    let (parent, last) = match last_of(name, '.') {
        Some(dot) => (resolve(scope, name.take(dot)), name.skip(dot + 1)),
        None => (Ok(scope), name),
    };
    let p = parent->Ok_0;
    if last_of(name, '.') is Some {
        lemma_resolve_within(scope, name.take(last_of(name, '.')->Some_0), 0, lo, hi);
    }
    lemma_index_of(p.entries, last);
    let i = index_of(p.entries, last)->Some_0;
    assert(entry_within(p.entries[i].entry, p.start, p.end));
    lemma_entry_within_wider(p.entries[i].entry, p.start, p.end, scope.start, scope.end);
}

/// The bytes of a capture.
pub open spec fn span(content: Seq<u8>, scope: Scope) -> Seq<u8> {
    content.subrange(scope.start as int, scope.end as int)
}

/// Whether what was found by name is what was to be found.
pub open spec fn found(
    expected: Result<Scope, NameFailure>,
    r: NameResult<&SingleCapture>,
    limit: nat,
) -> bool {
    match expected {
        Ok(scope) => r matches Ok(c) && c.model() == scope && scope_closed(scope, limit),
        Err(f) => r matches Err(e) && e@ == f,
    }
}

/// Takes one part of a qualified name apart.
fn read_fragment<'a>(fragment: &'a str) -> (r: NameResult<(&'a str, Option<usize>)>)
    ensures
        match parse_fragment(fragment@) {
            Ok((name, index)) => r matches Ok(p) && p.0@ == name && p.1 == index,
            Err(f) => r matches Err(e) && e@ == f,
        },
{
    let len: usize = fragment.unicode_len();
    let mut pos: usize = 0;
    while pos < len && fragment.get_char(pos) != '['
        invariant
            pos <= len,
            len == fragment@.len(),
            first_of(fragment@, '[', 0) == first_of(fragment@, '[', pos as int),
        decreases len - pos,
    {
        pos = pos + 1;
    }
    if pos == len {
        assert(fragment@.subrange(0, len as int) =~= fragment@);
        return Ok((fragment.substring_char(0, len), None));
    }
    if fragment.get_char(len - 1) != ']' {
        return Err(NameError::InvalidCaptureName { message: "missing closing ']'" });
    }
    let index_str = fragment.substring_char(pos + 1, len - 1);
    match decimal(index_str.as_bytes()) {
        Some(index) => Ok((fragment.substring_char(0, pos), Some(index))),
        None => Err(NameError::InvalidCaptureName { message: "non-numeric index" }),
    }
}

/// Takes one step down the hierarchy of captures.
fn descend<'a>(
    current: &'a SingleCapture,
    name: &str,
    index: Option<usize>,
    Ghost(limit): Ghost<nat>,
) -> (r: NameResult<&'a SingleCapture>)
    requires
        scope_closed(current.model(), limit),
    ensures
        found(step(current.model(), name@, index), r, limit),
{
    let key = name.to_owned();
    proof {
        lemma_single_model(current);
        lemma_index_of(models(current.children@), name@);
    }
    match find(&current.children, &key) {
        Some(i) => {
            proof {
                let scope = current.model();
                let child = scope.entries[i as int];
                lemma_entry_within_wider(child.entry, scope.start, scope.end, 0, limit);
            }
            match &current.children[i].capture {
                Capture::Single(capture) => {
                    if index.is_some() {
                        Err(NameError::MisplacedRepeatAccess { name: key })
                    } else {
                        Ok(capture)
                    }
                },
                Capture::Repeat(captures) => {
                    proof {
                        lemma_repeat_model(captures);
                    }
                    match index {
                        Some(repeat_index) => {
                            if captures.len() <= repeat_index {
                                Err(
                                    NameError::OutOfBounds {
                                        name: key,
                                        index: repeat_index,
                                        len: captures.len(),
                                    },
                                )
                            } else {
                                Ok(&captures[repeat_index])
                            }
                        },
                        None => Err(NameError::MisplacedSingleAccess { name: key }),
                    }
                },
            }
        },
        None => Err(NameError::NoSuchName { name: key }),
    }
}

/// Returns capture by a qualified name.
///
/// If the given name or a fragment of it belongs to a repeat capture, it
/// must be indexed with square brackets.
///
/// Uses `root` as starting point.
pub(crate) fn get_single_capture<'a>(root: &'a SingleCapture, name: &str, Ghost(limit): Ghost<nat>) -> (r:
    NameResult<&'a SingleCapture>)
    requires
        scope_closed(root.model(), limit),
    ensures
        found(resolve(root.model(), name@), r, limit),
{
    let total: usize = name.unicode_len();
    let mut current: &'a SingleCapture = root;
    let mut start: usize = 0;
    loop
        invariant
            start <= total,
            total == name@.len(),
            scope_closed(current.model(), limit),
            resolve(root.model(), name@) == resolve_from(current.model(), name@, start as int),
        decreases total - start,
    {
        let mut end: usize = start;
        while end < total && name.get_char(end) != '.'
            invariant
                start <= end <= total,
                total == name@.len(),
                first_of(name@, '.', start as int) == first_of(name@, '.', end as int),
            decreases total - end,
        {
            end = end + 1;
        }
        let fragment = name.substring_char(start, end);
        let (base, index) = match read_fragment(fragment) {
            Ok(parts) => parts,
            Err(e) => {
                return Err(e);
            },
        };
        match descend(current, base, index, Ghost(limit)) {
            Ok(capture) => {
                current = capture;
            },
            Err(e) => {
                return Err(e);
            },
        }
        if end == total {
            return Ok(current);
        }
        start = end + 1;
    }
}

/// Returns repeat captures by a qualified name.
///
/// The given name must belong to a repeat capture without giving an index
/// in brackets (repeat captures in the qualification chain must still be
/// indexed).
///
/// Uses `root` as starting point.
pub(crate) fn get_repeat_captures<'a>(root: &'a SingleCapture, name: &str, Ghost(limit): Ghost<nat>) -> (r:
    NameResult<&'a Vec<SingleCapture>>)
    requires
        scope_closed(root.model(), limit),
    ensures
        match resolve_repeat(root.model(), name@) {
            Ok(v) => r matches Ok(c) && scopes(c@) == v && entry_closed(Entry::Repeat(v), limit),
            Err(f) => r matches Err(e) && e@ == f,
        },
{
    let total: usize = name.unicode_len();
    let mut dot: usize = total;
    assert(name@.take(total as int) =~= name@);
    while dot > 0 && name.get_char(dot - 1) != '.'
        invariant
            dot <= total,
            total == name@.len(),
            last_of(name@, '.') == last_of(name@.take(dot as int), '.'),
        decreases dot,
    {
        proof {
            assert(name@.take(dot as int).drop_last() =~= name@.take(dot - 1));
        }
        dot = dot - 1;
    }
    let capture = if dot > 0 {
        assert(name@.subrange(0, dot - 1) =~= name@.take(dot - 1));
        match get_single_capture(root, name.substring_char(0, dot - 1), Ghost(limit)) {
            Ok(capture) => capture,
            Err(e) => {
                return Err(e);
            },
        }
    } else {
        root
    };
    let last = name.substring_char(dot, total);
    assert(name@.subrange(dot as int, total as int) =~= name@.skip(dot as int));
    assert(name@.skip(0) =~= name@);
    let key = last.to_owned();
    proof {
        lemma_single_model(capture);
        lemma_index_of(models(capture.children@), key@);
    }
    match find(&capture.children, &key) {
        Some(i) => {
            proof {
                let scope = capture.model();
                let child = scope.entries[i as int];
                lemma_entry_within_wider(child.entry, scope.start, scope.end, 0, limit);
            }
            match &capture.children[i].capture {
                Capture::Repeat(captures) => {
                    proof {
                        lemma_repeat_model(captures);
                    }
                    Ok(captures)
                },
                Capture::Single(_) => Err(NameError::MisplacedRepeatAccess { name: key }),
            }
        },
        None => Err(NameError::NoSuchName { name: key }),
    }
}

/// A record of captured names, to be obtained by calling `parse` on a
/// `Reader`.
///
/// Provides several methods to retrieve captured values.
#[derive(Debug)]
pub struct Record<D: Data> {
    capture: SingleCapture,
    data: D,
}

impl<D: Data> Record<D> {
    /// All captures lie within the bytes of the record.
    #[verifier::type_invariant]
    closed spec fn well_formed(&self) -> bool {
        scope_closed(self.capture.model(), self.data.content().len())
    }

    /// The hierarchy of captures.
    pub closed spec fn scope(&self) -> Scope {
        self.capture.model()
    }

    /// All bytes that were read and parsed.
    pub closed spec fn content(&self) -> Seq<u8> {
        self.data.content()
    }

    /// A record of the given captures in the given data.
    pub(crate) fn new(capture: SingleCapture, data: D) -> (r: Record<D>)
        requires
            scope_closed(capture.model(), data.content().len()),
        ensures
            r.scope() == capture.model(),
            r.content() == data.content(),
    {
        Record { capture, data }
    }

    /// Gets part of the parsed bytes by name.
    ///
    /// Names are qualified with a hierarchy: the value of `bar` that was
    /// part of `foo` is `foo.bar`. Top-level names are excluded from this.
    /// In case of repetitions, an index is added to the name: `foo[0]`,
    /// `foo[1]` and so on. If a named expression occurs more than once in
    /// the same production, a tick (`'`) is added for each existing
    /// expression of that name in that production. For counted
    /// productions there are the special names `$count` and `$value`.
    pub fn get_capture(&self, name: &str) -> (r: NameResult<&[u8]>)
        ensures
            match resolve(self.scope(), name@) {
                Ok(scope) => {
                    &&& r matches Ok(bytes) && bytes@ == span(self.content(), scope)
                    &&& scope.start <= scope.end <= self.content().len()
                },
                Err(f) => r matches Err(e) && e@ == f,
            },
    {
        proof {
            use_type_invariant(self);
        }
        match get_single_capture(&self.capture, name, Ghost(self.data.content().len())) {
            Ok(capture) => {
                proof {
                    lemma_single_model(capture);
                }
                Ok(slice_subrange(self.data.bytes(), capture.start_pos, capture.end_pos))
            },
            Err(e) => Err(e),
        }
    }

    /// Like `get_capture()` but on repeated captures.
    ///
    /// The values of the elements of the repeat are handed out one after
    /// the other.
    pub fn get_captures<'a>(&'a self, name: &str) -> (r: NameResult<CaptureIter<'a, D>>)
        ensures
            match resolve_repeat(self.scope(), name@) {
                Ok(v) => {
                    &&& r matches Ok(iter) && iter.content() == self.content() && iter.rest()
                        == v
                    &&& entry_closed(Entry::Repeat(v), self.content().len())
                },
                Err(f) => r matches Err(e) && e@ == f,
            },
    {
        proof {
            use_type_invariant(self);
        }
        match get_repeat_captures(&self.capture, name, Ghost(self.data.content().len())) {
            Ok(captures) => {
                assert(scopes(captures@).skip(0) =~= scopes(captures@));
                Ok(CaptureIter { record: self, captures, index: 0 })
            },
            Err(e) => Err(e),
        }
    }

    /// Gets all bytes that were read and parsed.
    pub fn get_all(&self) -> (r: &[u8])
        ensures
            r@ == self.content(),
            scope_closed(self.scope(), self.content().len()),
    {
        proof {
            use_type_invariant(self);
        }
        self.data.bytes()
    }

    /// Gets a sub record that represents the record at the given
    /// namespace.
    pub fn get_sub_record<'a>(&'a self, name: &str) -> (r: NameResult<SubRecord<'a, D>>)
        ensures
            match resolve(self.scope(), name@) {
                Ok(scope) => {
                    &&& r matches Ok(sub) && sub.content() == self.content() && sub.scope()
                        == scope
                    &&& scope_closed(scope, self.content().len())
                },
                Err(f) => r matches Err(e) && e@ == f,
            },
    {
        proof {
            use_type_invariant(self);
        }
        match get_single_capture(&self.capture, name, Ghost(self.data.content().len())) {
            Ok(capture) => Ok(SubRecord { record: self, capture }),
            Err(e) => Err(e),
        }
    }

    /// Like `get_sub_record()` but on repeated captures.
    ///
    /// The sub records of the elements of the repeat are handed out one
    /// after the other.
    pub fn get_sub_records<'a>(&'a self, name: &str) -> (r: NameResult<SubRecordIter<'a, D>>)
        ensures
            match resolve_repeat(self.scope(), name@) {
                Ok(v) => {
                    &&& r matches Ok(iter) && iter.content() == self.content() && iter.rest()
                        == v
                    &&& entry_closed(Entry::Repeat(v), self.content().len())
                },
                Err(f) => r matches Err(e) && e@ == f,
            },
    {
        proof {
            use_type_invariant(self);
        }
        match get_repeat_captures(&self.capture, name, Ghost(self.data.content().len())) {
            Ok(captures) => {
                assert(scopes(captures@).skip(0) =~= scopes(captures@));
                Ok(SubRecordIter { record: self, captures, index: 0 })
            },
            Err(e) => Err(e),
        }
    }

    /// Returns `true` if there are no captures at all.
    pub fn capture_is_empty(&self) -> (r: bool)
        ensures
            r == (self.scope().entries.len() == 0),
    {
        proof {
            lemma_single_model(&self.capture);
        }
        self.capture.children.len() == 0
    }
}

/// A sub record represents a part of a record with a given namespace for
/// captures.
///
/// The public interface of `SubRecord` equals that of `Record`. The only
/// difference is, that `SubRecord` holds a reference to its `Record`,
/// while `Record` owns its data. No data is copied when creating a
/// `SubRecord`.
#[derive(Debug)]
pub struct SubRecord<'a, D: Data> {
    record: &'a Record<D>,
    capture: &'a SingleCapture,
}

impl<'a, D: Data> SubRecord<'a, D> {
    /// The captures of the sub record lie within the bytes of the record.
    #[verifier::type_invariant]
    closed spec fn well_formed(&self) -> bool {
        scope_closed(self.capture.model(), self.record.data.content().len())
    }

    /// The hierarchy of captures below the sub record.
    pub closed spec fn scope(&self) -> Scope {
        self.capture.model()
    }

    /// All bytes of the record that the sub record belongs to.
    pub closed spec fn content(&self) -> Seq<u8> {
        self.record.data.content()
    }

    /// Gets part of the parsed bytes by name.
    pub fn get_capture(&self, name: &str) -> (r: NameResult<&[u8]>)
        ensures
            match resolve(self.scope(), name@) {
                Ok(scope) => {
                    &&& r matches Ok(bytes) && bytes@ == span(self.content(), scope)
                    &&& scope.start <= scope.end <= self.content().len()
                },
                Err(f) => r matches Err(e) && e@ == f,
            },
    {
        proof {
            use_type_invariant(self);
        }
        match get_single_capture(self.capture, name, Ghost(self.record.data.content().len())) {
            Ok(capture) => {
                proof {
                    lemma_single_model(capture);
                }
                Ok(slice_subrange(self.record.data.bytes(), capture.start_pos, capture.end_pos))
            },
            Err(e) => Err(e),
        }
    }

    /// Like `get_capture()` but on repeated captures.
    pub fn get_captures(&self, name: &str) -> (r: NameResult<CaptureIter<'a, D>>)
        ensures
            match resolve_repeat(self.scope(), name@) {
                Ok(v) => {
                    &&& r matches Ok(iter) && iter.content() == self.content() && iter.rest()
                        == v
                    &&& entry_closed(Entry::Repeat(v), self.content().len())
                },
                Err(f) => r matches Err(e) && e@ == f,
            },
    {
        proof {
            use_type_invariant(self);
        }
        match get_repeat_captures(self.capture, name, Ghost(self.record.data.content().len())) {
            Ok(captures) => {
                assert(scopes(captures@).skip(0) =~= scopes(captures@));
                Ok(CaptureIter { record: self.record, captures, index: 0 })
            },
            Err(e) => Err(e),
        }
    }

    /// Gets all bytes that were read and parsed for the sub record.
    pub fn get_all(&self) -> (r: &[u8])
        ensures
            r@ == span(self.content(), self.scope()),
            scope_closed(self.scope(), self.content().len()),
    {
        proof {
            use_type_invariant(self);
            lemma_single_model(self.capture);
        }
        slice_subrange(self.record.data.bytes(), self.capture.start_pos, self.capture.end_pos)
    }

    /// Gets a sub record that represents the record at the given
    /// namespace.
    pub fn get_sub_record(&self, name: &str) -> (r: NameResult<SubRecord<'a, D>>)
        ensures
            match resolve(self.scope(), name@) {
                Ok(scope) => {
                    &&& r matches Ok(sub) && sub.content() == self.content() && sub.scope()
                        == scope
                    &&& scope_closed(scope, self.content().len())
                },
                Err(f) => r matches Err(e) && e@ == f,
            },
    {
        proof {
            use_type_invariant(self);
        }
        match get_single_capture(self.capture, name, Ghost(self.record.data.content().len())) {
            Ok(capture) => Ok(SubRecord { record: self.record, capture }),
            Err(e) => Err(e),
        }
    }

    /// Like `get_sub_record()` but on repeated captures.
    pub fn get_sub_records(&self, name: &str) -> (r: NameResult<SubRecordIter<'a, D>>)
        ensures
            match resolve_repeat(self.scope(), name@) {
                Ok(v) => {
                    &&& r matches Ok(iter) && iter.content() == self.content() && iter.rest()
                        == v
                    &&& entry_closed(Entry::Repeat(v), self.content().len())
                },
                Err(f) => r matches Err(e) && e@ == f,
            },
    {
        proof {
            use_type_invariant(self);
        }
        match get_repeat_captures(self.capture, name, Ghost(self.record.data.content().len())) {
            Ok(captures) => {
                assert(scopes(captures@).skip(0) =~= scopes(captures@));
                Ok(SubRecordIter { record: self.record, captures, index: 0 })
            },
            Err(e) => Err(e),
        }
    }
}

/// The sub records of the elements of a repeat, one after the other.
#[derive(Debug)]
pub struct SubRecordIter<'a, D: Data> {
    record: &'a Record<D>,
    captures: &'a Vec<SingleCapture>,
    index: usize,
}

impl<'a, D: Data> SubRecordIter<'a, D> {
    /// The elements lie within the bytes of the record.
    #[verifier::type_invariant]
    closed spec fn well_formed(&self) -> bool {
        &&& self.index <= self.captures@.len()
        &&& entry_closed(Entry::Repeat(scopes(self.captures@)), self.record.data.content().len())
    }

    /// The elements that are still to come.
    pub closed spec fn rest(&self) -> Seq<Scope> {
        scopes(self.captures@).skip(self.index as int)
    }

    /// All bytes of the record that the elements belong to.
    pub closed spec fn content(&self) -> Seq<u8> {
        self.record.data.content()
    }

    /// The number of elements that are still to come.
    pub fn len(&self) -> (r: usize)
        ensures
            r == self.rest().len(),
    {
        proof {
            use_type_invariant(self);
        }
        self.captures.len() - self.index
    }

    /// The sub record of the next element, if there is one.
    pub fn next(&mut self) -> (r: Option<SubRecord<'a, D>>)
        ensures
            final(self).content() == old(self).content(),
            match r {
                Some(sub) => {
                    &&& old(self).rest().len() > 0
                    &&& scope_closed(old(self).rest()[0], old(self).content().len())
                    &&& sub.scope() == old(self).rest()[0]
                    &&& sub.content() == old(self).content()
                    &&& final(self).rest() == old(self).rest().skip(1)
                },
                None => old(self).rest().len() == 0 && final(self).rest() == old(self).rest(),
            },
    {
        proof {
            use_type_invariant(&*self);
        }
        if self.index < self.captures.len() {
            let capture = &self.captures[self.index];
            proof {
                let v = scopes(self.captures@);
                lemma_repeat_within(v, 0, self.record.data.content().len(), self.index as int);
                assert(v[self.index as int] == capture.model());
                assert(scope_closed(v[self.index as int], self.record.data.content().len()));
            }
            let ghost before = self.rest();
            self.index = self.index + 1;
            assert(self.rest() =~= before.skip(1));
            Some(SubRecord { record: self.record, capture })
        } else {
            None
        }
    }
}

/// The values of the elements of a repeat, one after the other.
#[derive(Debug)]
pub struct CaptureIter<'a, D: Data> {
    record: &'a Record<D>,
    captures: &'a Vec<SingleCapture>,
    index: usize,
}

impl<'a, D: Data> CaptureIter<'a, D> {
    /// The elements lie within the bytes of the record.
    #[verifier::type_invariant]
    closed spec fn well_formed(&self) -> bool {
        &&& self.index <= self.captures@.len()
        &&& entry_closed(Entry::Repeat(scopes(self.captures@)), self.record.data.content().len())
    }

    /// The elements that are still to come.
    pub closed spec fn rest(&self) -> Seq<Scope> {
        scopes(self.captures@).skip(self.index as int)
    }

    /// All bytes of the record that the elements belong to.
    pub closed spec fn content(&self) -> Seq<u8> {
        self.record.data.content()
    }

    /// The number of elements that are still to come.
    pub fn len(&self) -> (r: usize)
        ensures
            r == self.rest().len(),
    {
        proof {
            use_type_invariant(self);
        }
        self.captures.len() - self.index
    }

    /// The bytes of the next element, if there is one.
    pub fn next(&mut self) -> (r: Option<&'a [u8]>)
        ensures
            final(self).content() == old(self).content(),
            match r {
                Some(bytes) => {
                    &&& old(self).rest().len() > 0
                    &&& scope_closed(old(self).rest()[0], old(self).content().len())
                    &&& bytes@ == span(old(self).content(), old(self).rest()[0])
                    &&& final(self).rest() == old(self).rest().skip(1)
                },
                None => old(self).rest().len() == 0 && final(self).rest() == old(self).rest(),
            },
    {
        proof {
            use_type_invariant(&*self);
        }
        if self.index < self.captures.len() {
            let capture = &self.captures[self.index];
            proof {
                lemma_single_model(capture);
                let v = scopes(self.captures@);
                lemma_repeat_within(v, 0, self.record.data.content().len(), self.index as int);
                assert(v[self.index as int] == capture.model());
                assert(scope_closed(v[self.index as int], self.record.data.content().len()));
            }
            let ghost before = self.rest();
            self.index = self.index + 1;
            assert(self.rest() =~= before.skip(1));
            Some(slice_subrange(self.record.data.bytes(), capture.start_pos, capture.end_pos))
        } else {
            None
        }
    }
}

} // verus!
