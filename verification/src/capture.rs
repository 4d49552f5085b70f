//! The hierarchy of captures that a parse builds up, and its model.

use vstd::prelude::*;
use vstd::string::StrSliceExecFns;

verus! {

/// A single capture: a range of bytes and the captures made inside it.
#[derive(Debug)]
pub struct SingleCapture {
    /// The starting position of the capture within the data.
    pub start_pos: usize,
    /// The ending position of the capture within the data.
    pub end_pos: usize,
    /// Captures that are further down in the hierarchy of capture names. No
    /// two of them have the same name.
    pub children: Vec<NamedCapture>,
}

/// A capture together with the name it goes by in its scope.
#[derive(Debug)]
pub struct NamedCapture {
    pub name: String,
    pub capture: Capture,
}

/// Either a single named capture or a vector of captures sharing the same
/// name.
#[derive(Debug)]
pub enum Capture {
    Single(SingleCapture),
    Repeat(Vec<SingleCapture>),
}

/// The model of a single capture.
pub struct Scope {
    pub start: nat,
    pub end: nat,
    pub entries: Seq<Named>,
}

/// The model of a named capture.
pub struct Named {
    pub name: Seq<char>,
    pub entry: Entry,
}

/// The model of a capture.
pub enum Entry {
    Single(Scope),
    Repeat(Seq<Scope>),
}

impl SingleCapture {
    pub open spec fn model(&self) -> Scope
        decreases self,
    {
        Scope {
            start: self.start_pos as nat,
            end: self.end_pos as nat,
            entries: Seq::new(
                self.children@.len(),
                |i: int|
                    if 0 <= i < self.children.len() {
                        self.children[i].model()
                    } else {
                        arbitrary()
                    },
            ),
        }
    }
}

impl NamedCapture {
    pub open spec fn model(&self) -> Named
        decreases self,
    {
        Named { name: self.name@, entry: self.capture.model() }
    }
}

impl Capture {
    pub open spec fn model(&self) -> Entry
        decreases self,
    {
        match self {
            Capture::Single(s) => Entry::Single(s.model()),
            Capture::Repeat(v) => Entry::Repeat(
                Seq::new(
                    v@.len(),
                    |i: int|
                        if 0 <= i < v.len() {
                            v[i].model()
                        } else {
                            arbitrary()
                        },
                ),
            ),
        }
    }
}

/// The models of a sequence of named captures.
pub open spec fn models(v: Seq<NamedCapture>) -> Seq<Named> {
    Seq::new(v.len(), |i: int| v[i].model())
}

/// The models of a sequence of single captures.
pub open spec fn scopes(v: Seq<SingleCapture>) -> Seq<Scope> {
    Seq::new(v.len(), |i: int| v[i].model())
}

pub proof fn lemma_single_model(s: &SingleCapture)
    ensures
        s.model().entries == models(s.children@),
        s.model().start == s.start_pos,
        s.model().end == s.end_pos,
{
    assert(s.model().entries =~= models(s.children@));
}

pub proof fn lemma_repeat_model(v: &Vec<SingleCapture>)
    ensures
        Capture::Repeat(*v).model() == Entry::Repeat(scopes(v@)),
{
    assert(Capture::Repeat(*v).model()->Repeat_0 =~= scopes(v@));
}

/// The name followed by `k` ticks.
pub open spec fn ticked(name: Seq<char>, k: nat) -> Seq<char>
    decreases k,
{
    if k == 0 {
        name
    } else {
        ticked(name, (k - 1) as nat).push('\'')
    }
}

/// Whether a scope name is an ordinary one. Names that start with `$` are
/// special: captures are never attached to a scope with such a name.
pub open spec fn is_real(name: Seq<char>) -> bool {
    !(name.len() > 0 && name[0] == '$')
}

/// Whether the name starts with `$`.
pub fn is_special(name: &String) -> (r: bool)
    ensures
        r == !is_real(name@),
{
    let s = name.as_str();
    s.unicode_len() > 0 && s.get_char(0) == '$'
}

/// The position of the entry with the given name, if there is one.
pub open spec fn index_of(entries: Seq<Named>, name: Seq<char>) -> Option<int>
    decreases entries.len(),
{
    if entries.len() == 0 {
        None
    } else if entries.last().name == name {
        Some(entries.len() - 1)
    } else {
        index_of(entries.drop_last(), name)
    }
}

/// The entry with the given name, if there is one.
pub open spec fn lookup(entries: Seq<Named>, name: Seq<char>) -> Option<Entry> {
    match index_of(entries, name) {
        Some(i) => Some(entries[i].entry),
        None => None,
    }
}

/// The entries with the given one put under its name, in place of the
/// entry that had the name before, if there was one.
pub open spec fn put(entries: Seq<Named>, name: Seq<char>, entry: Entry) -> Seq<Named> {
    match index_of(entries, name) {
        Some(i) => entries.update(i, Named { name, entry }),
        None => entries.push(Named { name, entry }),
    }
}

/// The number of ticks that a name gets to tell it from the given entries:
/// the least number from `k` on with which the name is not taken. There
/// are no more names taken than entries, so the search ends with as many
/// ticks as there are entries at the latest.
pub open spec fn tick_count(entries: Seq<Named>, name: Seq<char>, k: nat) -> nat
    decreases entries.len() - k,
{
    if k < entries.len() && index_of(entries, ticked(name, k)) is Some {
        tick_count(entries, name, k + 1)
    } else {
        k
    }
}

/// The position of the innermost scope on the stack that is a single
/// capture.
pub open spec fn last_single(stack: Seq<Named>) -> Option<int>
    decreases stack.len(),
{
    if stack.len() == 0 {
        None
    } else if stack.last().entry is Single {
        Some(stack.len() - 1)
    } else {
        last_single(stack.drop_last())
    }
}

/// The position of the innermost scope on the stack with an ordinary name.
pub open spec fn last_real(stack: Seq<Named>) -> Option<int>
    decreases stack.len(),
{
    if stack.len() == 0 {
        None
    } else if is_real(stack.last().name) {
        Some(stack.len() - 1)
    } else {
        last_real(stack.drop_last())
    }
}

/// The name under which a new capture is opened: the given one, with as
/// many ticks as it takes to tell it from the captures already made in the
/// innermost single scope.
pub open spec fn unique_name(stack: Seq<Named>, name: Seq<char>) -> Seq<char> {
    match last_single(stack) {
        Some(i) => ticked(name, tick_count(stack[i].entry->Single_0.entries, name, 0)),
        None => name,
    }
}

/// An empty single capture that starts at `pos`.
pub open spec fn fresh(pos: nat) -> Entry {
    Entry::Single(Scope { start: pos, end: 0, entries: Seq::empty() })
}

/// The stack after a capture of the given name was opened at `pos`.
pub open spec fn start_capture(stack: Seq<Named>, name: Seq<char>, pos: nat) -> Seq<Named> {
    stack.push(Named { name: unique_name(stack, name), entry: fresh(pos) })
}

/// The stack after a repeat was opened. Its name is not known yet.
pub open spec fn start_repeat(stack: Seq<Named>) -> Seq<Named> {
    stack.push(Named { name: Seq::empty(), entry: Entry::Repeat(Seq::empty()) })
}

/// A scope with a finished single capture attached to it. A repeat takes
/// it as its next element, and takes its name too if it is the first.
pub open spec fn attach(parent: Named, name: Seq<char>, scope: Scope) -> Named {
    match parent.entry {
        Entry::Repeat(v) => Named {
            name: if v.len() == 0 {
                name
            } else {
                parent.name
            },
            entry: Entry::Repeat(v.push(scope)),
        },
        Entry::Single(p) => Named {
            name: parent.name,
            entry: Entry::Single(
                Scope { entries: put(p.entries, name, Entry::Single(scope)), ..p },
            ),
        },
    }
}

/// A single scope with a finished repeat put among its captures.
pub open spec fn attach_repeat(parent: Named, name: Seq<char>, v: Seq<Scope>) -> Named {
    Named {
        name: parent.name,
        entry: Entry::Single(
            Scope {
                entries: put(parent.entry->Single_0.entries, name, Entry::Repeat(v)),
                ..parent.entry->Single_0
            },
        ),
    }
}

/// The stack after the innermost capture was finished at `pos`: it ends
/// there, and is attached to the innermost scope with an ordinary name.
pub open spec fn finish_capture(stack: Seq<Named>, pos: nat) -> Seq<Named> {
    let top = stack.last();
    let rest = stack.drop_last();
    let i = last_real(rest).unwrap();
    rest.update(i, attach(rest[i], top.name, Scope { end: pos, ..top.entry->Single_0 }))
}

/// The stack after the innermost repeat was finished: it is put among the
/// captures of the innermost scope with an ordinary name.
pub open spec fn finish_repeat(stack: Seq<Named>) -> Seq<Named> {
    let top = stack.last();
    let rest = stack.drop_last();
    let i = last_real(rest).unwrap();
    rest.update(i, attach_repeat(rest[i], top.name, top.entry->Repeat_0))
}

/// Whether a finished capture lies in order between `lo` and `hi`, and
/// each capture inside it lies within it in turn.
pub open spec fn scope_within(s: Scope, lo: nat, hi: nat) -> bool
    decreases s,
{
    &&& lo <= s.start <= s.end <= hi
    &&& forall|i: int|
        0 <= i < s.entries.len() ==> entry_within((#[trigger] s.entries[i]).entry, s.start, s.end)
}

/// Whether all single captures of an entry lie between `lo` and `hi`.
pub open spec fn entry_within(e: Entry, lo: nat, hi: nat) -> bool
    decreases e,
{
    match e {
        Entry::Single(s) => scope_within(s, lo, hi),
        Entry::Repeat(v) => forall|i: int|
            0 <= i < v.len() ==> scope_within(#[trigger] v[i], lo, hi),
    }
}

/// Whether all of the entries lie between `lo` and `hi`.
pub open spec fn entries_within(entries: Seq<Named>, lo: nat, hi: nat) -> bool {
    forall|i: int| 0 <= i < entries.len() ==> entry_within((#[trigger] entries[i]).entry, lo, hi)
}

/// Whether a finished capture and all captures inside it lie in order
/// within the first `limit` bytes.
pub open spec fn scope_closed(s: Scope, limit: nat) -> bool {
    scope_within(s, 0, limit)
}

/// Whether all single captures of an entry are closed within `limit`.
pub open spec fn entry_closed(e: Entry, limit: nat) -> bool {
    entry_within(e, 0, limit)
}

/// Each element of a repeat that lies between two bounds does.
pub proof fn lemma_repeat_within(v: Seq<Scope>, lo: nat, hi: nat, i: int)
    requires
        entry_within(Entry::Repeat(v), lo, hi),
        0 <= i < v.len(),
    ensures
        scope_within(v[i], lo, hi),
{
    let e = Entry::Repeat(v);
    assert(e->Repeat_0 == v);
    assert(forall|j: int| 0 <= j < v.len() ==> scope_within(#[trigger] v[j], lo, hi));
}

/// What lies between two bounds lies between wider ones.
pub proof fn lemma_entry_within_wider(e: Entry, lo: nat, hi: nat, lower: nat, higher: nat)
    requires
        entry_within(e, lo, hi),
        lower <= lo,
        hi <= higher,
    ensures
        entry_within(e, lower, higher),
{
    match e {
        Entry::Single(s) => {},
        Entry::Repeat(v) => {
            assert forall|i: int| 0 <= i < v.len() implies scope_within(
                #[trigger] v[i],
                lower,
                higher,
            ) by {
                assert(scope_within(v[i], lo, hi));
            }
        },
    }
}

/// What lies between two bounds lies between wider ones.
pub proof fn lemma_entries_within_wider(
    entries: Seq<Named>,
    lo: nat,
    hi: nat,
    lower: nat,
    higher: nat,
)
    requires
        entries_within(entries, lo, hi),
        lower <= lo,
        hi <= higher,
    ensures
        entries_within(entries, lower, higher),
{
    assert forall|i: int| 0 <= i < entries.len() implies entry_within(
        (#[trigger] entries[i]).entry,
        lower,
        higher,
    ) by {
        lemma_entry_within_wider(entries[i].entry, lo, hi, lower, higher);
    }
}

/// The start of the innermost single capture below the scope at `j` on
/// the stack. Without such a capture it is zero.
pub open spec fn floor(stack: Seq<Named>, j: int) -> nat
    decreases j,
{
    if j <= 0 || j > stack.len() {
        0
    } else {
        match stack[j - 1].entry {
            Entry::Single(s) => s.start,
            Entry::Repeat(_) => floor(stack, j - 1),
        }
    }
}

/// Whether the scope at `j` on the stack is in order while the parse
/// stands at `pos`: an open single capture started no earlier than the
/// one it lies in and no later than `pos`, and what was captured in it
/// lies within it; the elements of a repeat lie within the single capture
/// that it lies in, and a repeat has an ordinary name.
pub open spec fn frame_ok(stack: Seq<Named>, j: int, pos: nat) -> bool {
    match stack[j].entry {
        Entry::Single(s) => floor(stack, j) <= s.start <= pos && entries_within(
            s.entries,
            s.start,
            pos,
        ),
        Entry::Repeat(v) => is_real(stack[j].name) && entry_within(
            stack[j].entry,
            floor(stack, j),
            pos,
        ),
    }
}

/// The invariant of the stack of captures while the parse stands at `pos`:
/// the outermost scope is a single capture with an ordinary name, and each
/// scope is in order.
pub open spec fn stack_inv(stack: Seq<Named>, pos: nat) -> bool {
    &&& stack.len() >= 1
    &&& stack[0].entry is Single
    &&& is_real(stack[0].name)
    &&& forall|j: int| 0 <= j < stack.len() ==> #[trigger] frame_ok(stack, j, pos)
}

/// Whether two stacks have the same single captures with the same starts
/// below the scope at `j`.
pub open spec fn same_starts(a: Seq<Named>, b: Seq<Named>, j: int) -> bool {
    &&& j <= a.len()
    &&& j <= b.len()
    &&& forall|k: int|
        0 <= k < j ==> ((#[trigger] a[k]).entry is Single) == (b[k].entry is Single) && (
        a[k].entry is Single ==> a[k].entry->Single_0.start == b[k].entry->Single_0.start)
}

/// Stacks with the same single captures below a scope have the same
/// floor there.
pub proof fn lemma_floor_same(a: Seq<Named>, b: Seq<Named>, j: int)
    requires
        same_starts(a, b, j),
    ensures
        floor(a, j) == floor(b, j),
    decreases j,
{
    if j > 0 {
        assert(a[j - 1].entry is Single == b[j - 1].entry is Single);
        if !(a[j - 1].entry is Single) {
            lemma_floor_same(a, b, j - 1);
        }
    }
}

/// The floor rises along a stack that satisfies its invariant, and lies
/// no later than where the parse stands.
pub proof fn lemma_floor(stack: Seq<Named>, pos: nat, i: int, j: int)
    requires
        stack_inv(stack, pos),
        0 <= i <= j <= stack.len(),
    ensures
        floor(stack, i) <= floor(stack, j) <= pos,
        i < j && stack[i].entry is Single ==> stack[i].entry->Single_0.start <= floor(stack, j),
    decreases j,
{
    if j > 0 {
        assert(frame_ok(stack, j - 1, pos));
        if i < j {
            lemma_floor(stack, pos, i, j - 1);
        } else {
            lemma_floor(stack, pos, j - 1, j - 1);
        }
    }
}

/// The invariant of the stack keeps holding while the parse moves on.
pub proof fn lemma_stack_inv_grows(stack: Seq<Named>, a: nat, b: nat)
    requires
        stack_inv(stack, a),
        a <= b,
    ensures
        stack_inv(stack, b),
{
    assert forall|j: int| 0 <= j < stack.len() implies #[trigger] frame_ok(stack, j, b) by {
        assert(frame_ok(stack, j, a));
        match stack[j].entry {
            Entry::Single(s) => lemma_entries_within_wider(s.entries, s.start, a, s.start, b),
            Entry::Repeat(v) => lemma_entry_within_wider(
                stack[j].entry,
                floor(stack, j),
                a,
                floor(stack, j),
                b,
            ),
        }
    }
}

/// Whether two stacks have the same scopes as far as their kind goes and
/// whether their names are ordinary.
pub open spec fn same_shape(a: Seq<Named>, b: Seq<Named>) -> bool {
    &&& a.len() == b.len()
    &&& forall|i: int|
        0 <= i < a.len() ==> (#[trigger] a[i].entry is Single) == (b[i].entry is Single)
    &&& forall|i: int| 0 <= i < a.len() ==> is_real(#[trigger] a[i].name) == is_real(b[i].name)
}

/// Whether the innermost scope with an ordinary name is a single capture,
/// so that a repeat can be attached to it.
pub open spec fn ready(stack: Seq<Named>) -> bool {
    last_real(stack) matches Some(i) && stack[i].entry is Single
}

/// What `index_of` finds is an entry of the given name.
pub proof fn lemma_index_of(entries: Seq<Named>, name: Seq<char>)
    ensures
        index_of(entries, name) matches Some(i) ==> 0 <= i < entries.len() && entries[i].name
            == name,
    decreases entries.len(),
{
    if entries.len() > 0 && entries.last().name != name {
        lemma_index_of(entries.drop_last(), name);
    }
}

/// What `last_real` finds is the innermost scope with an ordinary name.
pub proof fn lemma_last_real(stack: Seq<Named>)
    ensures
        match last_real(stack) {
            Some(i) => {
                &&& 0 <= i < stack.len()
                &&& is_real(stack[i].name)
                &&& forall|j: int| i < j < stack.len() ==> !is_real(#[trigger] stack[j].name)
            },
            None => forall|j: int| 0 <= j < stack.len() ==> !is_real(#[trigger] stack[j].name),
        },
    decreases stack.len(),
{
    if stack.len() > 0 && !is_real(stack.last().name) {
        let below = stack.drop_last();
        lemma_last_real(below);
        assert forall|j: int| 0 <= j < below.len() implies #[trigger] stack[j].name
            == below[j].name by {}
        match last_real(below) {
            Some(i) => {
                assert forall|j: int| i < j < stack.len() implies !is_real(
                    #[trigger] stack[j].name,
                ) by {
                    if j < below.len() {
                        assert(!is_real(below[j].name));
                    }
                }
            },
            None => {
                assert forall|j: int| 0 <= j < stack.len() implies !is_real(
                    #[trigger] stack[j].name,
                ) by {
                    if j < below.len() {
                        assert(!is_real(below[j].name));
                    }
                }
            },
        }
    }
}

/// The innermost scope with an ordinary name is the one above which no
/// scope has an ordinary name.
pub proof fn lemma_last_real_is(stack: Seq<Named>, i: int)
    requires
        0 <= i < stack.len(),
        is_real(stack[i].name),
        forall|j: int| i < j < stack.len() ==> !is_real(#[trigger] stack[j].name),
    ensures
        last_real(stack) == Some(i),
    decreases stack.len(),
{
    if i < stack.len() - 1 {
        assert(!is_real(stack[stack.len() - 1].name));
        lemma_last_real_is(stack.drop_last(), i);
    }
}

/// Stacks of the same shape have their innermost scope with an ordinary
/// name at the same place.
pub proof fn lemma_same_shape_last_real(a: Seq<Named>, b: Seq<Named>)
    requires
        same_shape(a, b),
    ensures
        last_real(a) == last_real(b),
        ready(a) == ready(b),
{
    lemma_last_real(a);
    lemma_last_real(b);
    match last_real(a) {
        Some(i) => {
            assert(is_real(a[i].name) == is_real(b[i].name));
            assert forall|j: int| i < j < b.len() implies !is_real(#[trigger] b[j].name) by {
                assert(is_real(a[j].name) == is_real(b[j].name));
            }
            lemma_last_real_is(b, i);
            assert(a[i].entry is Single == b[i].entry is Single);
        },
        None => {
            match last_real(b) {
                Some(k) => {
                    assert(is_real(a[k].name) == is_real(b[k].name));
                },
                None => {},
            }
        },
    }
}

/// Each stack has the shape of itself.
pub proof fn lemma_same_shape_refl(a: Seq<Named>)
    ensures
        same_shape(a, a),
{
}

/// Having the same shape carries over from one pair of stacks to the next.
pub proof fn lemma_same_shape_trans(a: Seq<Named>, b: Seq<Named>, c: Seq<Named>)
    requires
        same_shape(a, b),
        same_shape(b, c),
    ensures
        same_shape(a, c),
{
    assert forall|i: int| 0 <= i < a.len() implies (#[trigger] a[i].entry is Single) == (
    c[i].entry is Single) by {
        assert((b[i].entry is Single) == (c[i].entry is Single));
    }
    assert forall|i: int| 0 <= i < a.len() implies is_real(#[trigger] a[i].name) == is_real(
        c[i].name,
    ) by {
        assert(is_real(b[i].name) == is_real(c[i].name));
    }
}

/// Stacks of the same shape have the same shape below their innermost
/// scopes, and these are of one kind.
pub proof fn lemma_same_shape_pop(a: Seq<Named>, b: Seq<Named>)
    requires
        same_shape(a, b),
        a.len() >= 1,
    ensures
        same_shape(a.drop_last(), b.drop_last()),
        (a.last().entry is Single) == (b.last().entry is Single),
        is_real(a.last().name) == is_real(b.last().name),
{
    let x = a.drop_last();
    let y = b.drop_last();
    assert forall|i: int| 0 <= i < x.len() implies (#[trigger] x[i].entry is Single) == (
    y[i].entry is Single) by {
        assert((a[i].entry is Single) == (b[i].entry is Single));
    }
    assert forall|i: int| 0 <= i < x.len() implies is_real(#[trigger] x[i].name) == is_real(
        y[i].name,
    ) by {
        assert(is_real(a[i].name) == is_real(b[i].name));
    }
    assert((a[a.len() - 1].entry is Single) == (b[a.len() - 1].entry is Single));
    assert(is_real(a[a.len() - 1].name) == is_real(b[a.len() - 1].name));
}

/// Whether a stack is ready for a repeat after a scope was opened on it:
/// a scope with an ordinary name decides by its kind, another changes
/// nothing.
pub proof fn lemma_ready_push(stack: Seq<Named>, top: Named)
    ensures
        is_real(top.name) ==> ready(stack.push(top)) == (top.entry is Single),
        !is_real(top.name) ==> ready(stack.push(top)) == ready(stack),
        stack.push(top).drop_last() == stack,
{
    let s = stack.push(top);
    assert(s.drop_last() =~= stack);
    if !is_real(top.name) {
        lemma_last_real(stack);
    }
}

/// Ticks do not change whether a name is an ordinary one.
pub proof fn lemma_ticked_real(name: Seq<char>, k: nat)
    ensures
        is_real(ticked(name, k)) == is_real(name),
        ticked(name, k).len() == name.len() + k,
        name.len() > 0 ==> ticked(name, k)[0] == name[0],
    decreases k,
{
    if k > 0 {
        lemma_ticked_real(name, (k - 1) as nat);
    }
}

/// Putting an entry that lies between two bounds among entries that do
/// leaves them between the bounds.
pub proof fn lemma_put_within(
    entries: Seq<Named>,
    name: Seq<char>,
    entry: Entry,
    lo: nat,
    hi: nat,
)
    requires
        entries_within(entries, lo, hi),
        entry_within(entry, lo, hi),
    ensures
        entries_within(put(entries, name, entry), lo, hi),
{
    lemma_index_of(entries, name);
    let after = put(entries, name, entry);
    assert forall|i: int| 0 <= i < after.len() implies entry_within(
        (#[trigger] after[i]).entry,
        lo,
        hi,
    ) by {
        match index_of(entries, name) {
            Some(k) => {
                if i != k {
                    assert(after[i] == entries[i]);
                }
            },
            None => {
                if i < entries.len() {
                    assert(after[i] == entries[i]);
                }
            },
        }
    }
}

/// The models of a vector with one more capture.
pub proof fn lemma_models_push(v: Seq<NamedCapture>, x: NamedCapture)
    ensures
        models(v.push(x)) == models(v).push(x.model()),
{
    assert(models(v.push(x)) =~= models(v).push(x.model()));
}

/// The models of a vector with one capture replaced.
pub proof fn lemma_models_update(v: Seq<NamedCapture>, i: int, x: NamedCapture)
    requires
        0 <= i < v.len(),
    ensures
        models(v.update(i, x)) == models(v).update(i, x.model()),
{
    assert(models(v.update(i, x)) =~= models(v).update(i, x.model()));
}

/// The position of the capture with the given name among the children, if
/// there is one.
pub fn find(children: &Vec<NamedCapture>, name: &String) -> (r: Option<usize>)
    ensures
        match r {
            Some(i) => index_of(models(children@), name@) == Some(i as int) && i < children.len(),
            None => index_of(models(children@), name@) is None,
        },
{
    let ghost all = models(children@);
    let mut i: usize = children.len();
    assert(all.take(i as int) =~= all);
    while i > 0
        invariant
            i <= children.len(),
            all == models(children@),
            index_of(all, name@) == index_of(all.take(i as int), name@),
        decreases i,
    {
        i = i - 1;
        proof {
            assert(all.take(i + 1).drop_last() =~= all.take(i as int));
            assert(all.take(i + 1).last() == children@[i as int].model());
        }
        if children[i].name == *name {
            return Some(i);
        }
    }
    None
}

/// Puts a capture among the children under the given name, in place of the
/// one that had the name before, if there was one.
pub fn put_child(children: &mut Vec<NamedCapture>, name: String, capture: Capture)
    ensures
        models(final(children)@) == put(models(old(children)@), name@, capture.model()),
{
    let ghost before = children@;
    let found = find(children, &name);
    let child = NamedCapture { name, capture };
    match found {
        Some(i) => {
            children.set(i, child);
            proof {
                lemma_models_update(before, i as int, child);
            }
        },
        None => {
            children.push(child);
            proof {
                lemma_models_push(before, child);
            }
        },
    }
}

/// An entry that is put under a name is found under it, and the entries
/// of other names are found as before.
pub proof fn lemma_lookup_put(entries: Seq<Named>, name: Seq<char>, entry: Entry, other: Seq<char>)
    ensures
        lookup(put(entries, name, entry), name) == Some(entry),
        other != name ==> lookup(put(entries, name, entry), other) == lookup(entries, other),
{
    lemma_index_of(entries, name);
    lemma_index_of(entries, other);
    let after = put(entries, name, entry);
    match index_of(entries, name) {
        Some(i) => {
            lemma_index_of_update(entries, i, Named { name, entry }, name);
            if other != name {
                lemma_index_of_update(entries, i, Named { name, entry }, other);
                match index_of(entries, other) {
                    Some(j) => {
                        assert(j != i);
                        assert(after[j] == entries[j]);
                    },
                    None => {},
                }
            }
        },
        None => {
            assert(after.drop_last() =~= entries);
            if other != name {
                assert(index_of(after, other) == index_of(entries, other));
                match index_of(entries, other) {
                    Some(j) => {
                        assert(after[j] == entries[j]);
                    },
                    None => {},
                }
            }
        },
    }
}

/// Replacing an entry by one of the same name changes no place at which a
/// name is found.
pub proof fn lemma_index_of_update(entries: Seq<Named>, i: int, x: Named, name: Seq<char>)
    requires
        0 <= i < entries.len(),
        entries[i].name == x.name,
    ensures
        index_of(entries.update(i, x), name) == index_of(entries, name),
    decreases entries.len(),
{
    let after = entries.update(i, x);
    if after.last().name != name {
        if i < entries.len() - 1 {
            assert(after.drop_last() =~= entries.drop_last().update(i, x));
            lemma_index_of_update(entries.drop_last(), i, x, name);
        } else {
            assert(after.drop_last() =~= entries.drop_last());
        }
    }
}

/// A node that is parsed twice in a row in the same scope is captured
/// twice: the first capture goes by the node's name, the second by the
/// name with a tick, and each can be asked for by itself. Here the scope
/// is the innermost on the stack, it has an ordinary name, and it holds
/// no capture of either name yet; the first capture spans `a` to `b`, the
/// second `c` to `d`.
pub proof fn lemma_ticks_tell_apart(
    stack: Seq<Named>,
    name: Seq<char>,
    a: nat,
    b: nat,
    c: nat,
    d: nat,
)
    requires
        stack.len() >= 1,
        stack.last().entry is Single,
        is_real(stack.last().name),
        lookup(stack.last().entry->Single_0.entries, name) is None,
        lookup(stack.last().entry->Single_0.entries, ticked(name, 1)) is None,
    ensures
        ({
            let once = finish_capture(start_capture(stack, name, a), b);
            let twice = finish_capture(start_capture(once, name, c), d);
            let entries = twice.last().entry->Single_0.entries;
            &&& twice.len() == stack.len()
            &&& twice.last().entry is Single
            &&& lookup(entries, name) == Some(
                Entry::Single(Scope { start: a, end: b, entries: Seq::empty() }),
            )
            &&& lookup(entries, ticked(name, 1)) == Some(
                Entry::Single(Scope { start: c, end: d, entries: Seq::empty() }),
            )
        }),
{
    let top = stack.last();
    let entries0 = top.entry->Single_0.entries;
    let n = stack.len() as int;
    // The first capture.
    let opened1 = start_capture(stack, name, a);
    assert(opened1.drop_last() =~= stack);
    assert(last_single(stack) == Some(n - 1));
    assert(tick_count(entries0, name, 0) == 0);
    assert(ticked(name, 0) == name);
    assert(opened1.last().name == name);
    assert(last_real(stack) == Some(n - 1));
    let first = Scope { start: a, end: b, entries: Seq::empty() };
    let once = finish_capture(opened1, b);
    assert(once == stack.update(n - 1, attach(top, name, first)));
    let entries1 = put(entries0, name, Entry::Single(first));
    assert(once.last().entry->Single_0.entries == entries1);
    lemma_lookup_put(entries0, name, Entry::Single(first), ticked(name, 1));
    lemma_ticked_real(name, 1);
    assert(ticked(name, 1) != name);
    // The second capture.
    let opened2 = start_capture(once, name, c);
    assert(opened2.drop_last() =~= once);
    assert(last_single(once) == Some(n - 1));
    assert(entries1.len() >= 1) by {
        lemma_index_of(entries1, name);
    }
    assert(tick_count(entries1, name, 1) == 1) by {
        assert(index_of(entries1, ticked(name, 1)) is None);
    }
    assert(tick_count(entries1, name, 0) == 1) by {
        assert(index_of(entries1, ticked(name, 0)) is Some);
    }
    assert(opened2.last().name == ticked(name, 1));
    assert(is_real(once.last().name));
    assert(last_real(once) == Some(n - 1));
    let second = Scope { start: c, end: d, entries: Seq::empty() };
    let twice = finish_capture(opened2, d);
    assert(twice == once.update(n - 1, attach(once.last(), ticked(name, 1), second)));
    let entries2 = put(entries1, ticked(name, 1), Entry::Single(second));
    assert(twice.last().entry->Single_0.entries == entries2);
    lemma_lookup_put(entries1, ticked(name, 1), Entry::Single(second), name);
}

} // verus!
