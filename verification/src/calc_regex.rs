//! The representation of a calc-regular expression.

use vstd::prelude::*;
use regex::bytes::Regex;
use crate::capture::is_real;
use crate::error::{NameError, NameFailure, NameResult};
use crate::matcher::State;
use crate::progress::lemma_bounded_steady;
use crate::semantics::{parse_bounded, pure};

verus! {

/// An index referring to the position of a `Node` within the nodes of a
/// `CalcRegex`.
#[derive(Clone, Copy, Debug, PartialEq)]
pub struct NodeIndex(usize);

impl View for NodeIndex {
    type V = int;

    closed spec fn view(&self) -> int {
        self.0 as int
    }
}

impl NodeIndex {
    /// The index that refers to the given position.
    pub(crate) fn at(position: usize) -> (r: NodeIndex)
        ensures
            r@ == position,
    {
        NodeIndex(position)
    }

    /// The position that the index refers to.
    pub(crate) fn position(self) -> (r: usize)
        ensures
            r == self@,
    {
        self.0
    }
}

/// Possible sub-expressions in a `CalcRegex`.
///
/// The variants represent the valid production rules of calc-regular
/// expressions. `F` is the type of the functions that read a count from
/// the bytes that the counting sub-expression matched.
#[derive(Clone, Debug)]
pub enum Inner<F> {
    Regex(Regex),
    CalcRegex(NodeIndex),
    Concat(NodeIndex, NodeIndex),
    Repeat(NodeIndex, usize),
    KleeneStar(NodeIndex),
    /// `(r.f)s(t#f)`
    LengthCount { r: NodeIndex, s: Option<NodeIndex>, t: NodeIndex, f: F },
    /// `(r.f)s(t^f)`
    OccurrenceCount { r: NodeIndex, s: Option<NodeIndex>, t: NodeIndex, f: F },
}

/// A node of a `CalcRegex`.
///
/// Each `Node` represents a sub-expression, that can in turn contain other
/// sub-expressions, represented by other `Node`s.
#[derive(Clone, Debug)]
pub struct Node<F> {
    /// Name of this sub-expression, unique in a `CalcRegex`.
    pub name: Option<String>,
    /// The maximal number of bytes, that should be parsed from input when
    /// trying to match this sub-expression.
    pub length_bound: Option<usize>,
    /// The actual sub-expression.
    pub inner: Inner<F>,
}

/// The type `CalcRegex` represents a calc-regular expression.
///
/// All nodes are kept in one vector, and a node refers to its
/// sub-expressions by their positions in it. A node is added after its
/// sub-expressions, so that no node reaches itself.
#[derive(Clone, Debug)]
pub struct CalcRegex<F> {
    /// A vector of all `Node`s used in the `CalcRegex`.
    nodes: Vec<Node<F>>,
    /// Index of the root `Node`, on which parsing is started.
    root: NodeIndex,
}

impl<F> Node<F> {
    /// Whether the node has a name, and an ordinary one.
    pub open spec fn real_named(self) -> bool {
        self.name matches Some(n) && is_real(n@)
    }

    /// Whether the node has the given name.
    pub open spec fn named(self, name: Seq<char>) -> bool {
        self.name matches Some(n) && n@ == name
    }

    /// The node with its length bound set.
    pub open spec fn bounded(self, bound: usize) -> Node<F> {
        Node { length_bound: Some(bound), ..self }
    }
}

/// Whether `c` refers to a node before `i` that is no Kleene star.
pub open spec fn plain_child<F>(g: Seq<Node<F>>, i: int, c: NodeIndex) -> bool {
    0 <= c@ < i && !(g[c@].inner is KleeneStar)
}

/// Whether a node can be parsed where captures are attached to a repeat:
/// it has an ordinary name, or it has no name and what its kind asks for
/// can be parsed there.
pub open spec fn loose<F>(g: Seq<Node<F>>, c: int) -> bool
    decreases c, 1nat,
{
    0 <= c < g.len() && (g[c].real_named() || (g[c].name is None && loose_kind(g, c)))
}

/// Whether what the kind of a node asks for can be parsed where captures
/// are attached to a repeat: a regex, which captures nothing, or a
/// concatenation of nodes that can be parsed there, or a node that stands
/// for one. A repeat or a counted production cannot, for a repeat is not
/// attached to a repeat, and the captures of a count have no ordinary
/// name.
pub open spec fn loose_kind<F>(g: Seq<Node<F>>, c: int) -> bool
    decreases c, 0nat,
{
    0 <= c < g.len() && match g[c].inner {
        Inner::Regex(_) => true,
        Inner::CalcRegex(x) => 0 <= x@ < c && loose(g, x@),
        Inner::Concat(l, r) => 0 <= l@ < c && 0 <= r@ < c && loose(g, l@) && loose(g, r@),
        _ => false,
    }
}

/// Whether a node can be what a repeat repeats: the captures that it
/// makes become the elements of the repeat.
pub open spec fn repeatable<F>(g: Seq<Node<F>>, c: int) -> bool {
    loose(g, c)
}

/// Whether each parse of a node within a bound that succeeds reads at
/// least one byte.
pub open spec fn progresses<F: Fn(&[u8]) -> Option<usize>>(g: Seq<Node<F>>, c: int) -> bool {
    forall|bound: nat, input: Seq<u8>, st: State|
        st.pos <= input.len() ==> ((#[trigger] parse_bounded(g, c, bound, input, st)) matches Ok(
            st1,
        ) ==> st1.pos > st.pos)
}

/// Whether the node at `i` is in order as far as its place among the
/// nodes goes: it refers to nodes before it, Kleene stars stand nowhere
/// but as the target of a length count, what is repeated can be, and the
/// target of an occurrence count has a name.
pub open spec fn node_shaped<F>(g: Seq<Node<F>>, i: int) -> bool {
    match g[i].inner {
        Inner::Regex(_) => true,
        Inner::CalcRegex(c) => plain_child(g, i, c),
        Inner::Concat(l, r) => plain_child(g, i, l) && plain_child(g, i, r),
        Inner::Repeat(c, _) => plain_child(g, i, c) && repeatable(g, c@),
        Inner::KleeneStar(c) => plain_child(g, i, c) && repeatable(g, c@),
        Inner::LengthCount { r, s, t, .. } => {
            &&& plain_child(g, i, r)
            &&& s matches Some(c) ==> plain_child(g, i, c)
            &&& 0 <= t@ < i
        },
        Inner::OccurrenceCount { r, s, t, .. } => {
            &&& plain_child(g, i, r)
            &&& s matches Some(c) ==> plain_child(g, i, c)
            &&& plain_child(g, i, t)
            &&& g[t@].real_named()
        },
    }
}

/// Whether the count function of a node, if it has one, is pure.
pub open spec fn node_pure<F: Fn(&[u8]) -> Option<usize>>(node: Node<F>) -> bool {
    match node.inner {
        Inner::LengthCount { f, .. } => pure(f),
        Inner::OccurrenceCount { f, .. } => pure(f),
        _ => true,
    }
}

/// Whether the node at `i` is in order: it has its place among the nodes,
/// and its count function is pure.
pub open spec fn node_wf<F: Fn(&[u8]) -> Option<usize>>(g: Seq<Node<F>>, i: int) -> bool {
    node_shaped(g, i) && node_pure(g[i])
}

/// Whether no two nodes have the same name.
pub open spec fn names_unique<F>(g: Seq<Node<F>>) -> bool {
    forall|i: int, j: int|
        0 <= i < j < g.len() && (#[trigger] g[i].name) is Some && (#[trigger] g[j].name) is Some
            ==> g[i].name.unwrap()@ != g[j].name.unwrap()@
}

/// The position of the first node from `from` on that has the given name.
pub open spec fn find_name<F>(g: Seq<Node<F>>, name: Seq<char>, from: int) -> Option<int>
    decreases g.len() - from,
{
    if from < 0 || from >= g.len() {
        None
    } else if g[from].named(name) {
        Some(from)
    } else {
        find_name(g, name, from + 1)
    }
}

/// What `find_name` finds is a node of the given name.
pub proof fn lemma_find_name<F>(g: Seq<Node<F>>, name: Seq<char>, from: int)
    requires
        0 <= from,
    ensures
        find_name(g, name, from) matches Some(i) ==> from <= i < g.len() && g[i].named(name),
        find_name(g, name, from) is None ==> forall|i: int|
            from <= i < g.len() ==> !(#[trigger] g[i]).named(name),
    decreases g.len() - from,
{
    if from < g.len() && !g[from].named(name) {
        lemma_find_name(g, name, from + 1);
    }
}

/// Where no node has the given name, `find_name` finds none.
pub proof fn lemma_find_name_none<F>(g: Seq<Node<F>>, name: Seq<char>, from: int)
    requires
        0 <= from,
        forall|i: int| from <= i < g.len() ==> !(#[trigger] g[i]).named(name),
    ensures
        find_name(g, name, from) is None,
    decreases g.len() - from,
{
    if from < g.len() {
        assert(!g[from].named(name));
        lemma_find_name_none(g, name, from + 1);
    }
}

/// A name that is new to an expression is still new after a node of
/// another name or of none was added.
pub proof fn lemma_find_name_push<F>(g: Seq<Node<F>>, node: Node<F>, name: Seq<char>)
    requires
        find_name(g, name, 0) is None,
        !node.named(name),
    ensures
        find_name(g.push(node), name, 0) is None,
{
    lemma_find_name(g, name, 0);
    let h = g.push(node);
    assert forall|i: int| 0 <= i < h.len() implies !(#[trigger] h[i]).named(name) by {
        if i < g.len() {
            assert(h[i] == g[i]);
        }
    }
    lemma_find_name_none(h, name, 0);
}

/// The nodes after the length bound of the node of the given name was
/// set. Without a node of that name, nothing is changed.
pub open spec fn bound_set<F>(g: Seq<Node<F>>, name: Seq<char>, bound: usize) -> Seq<Node<F>> {
    match find_name(g, name, 0) {
        Some(i) => g.update(i, g[i].bounded(bound)),
        None => g,
    }
}

/// Setting a length bound changes no name, so that each name is found
/// where it was.
pub proof fn lemma_find_name_bounded<F>(
    g: Seq<Node<F>>,
    i: int,
    bound: usize,
    name: Seq<char>,
    from: int,
)
    requires
        0 <= i < g.len(),
        0 <= from,
    ensures
        find_name(g.update(i, g[i].bounded(bound)), name, from) == find_name(g, name, from),
    decreases g.len() - from,
{
    let h = g.update(i, g[i].bounded(bound));
    if from < g.len() {
        assert(h[from].name == g[from].name);
        if !g[from].named(name) {
            lemma_find_name_bounded(g, i, bound, name, from + 1);
        }
    }
}

/// Setting a length bound changes nothing about which nodes can be
/// parsed where captures are attached to a repeat.
pub proof fn lemma_bounded_loose<F>(g: Seq<Node<F>>, i: int, bound: usize, c: int)
    requires
        0 <= i < g.len(),
    ensures
        loose(g.update(i, g[i].bounded(bound)), c) == loose(g, c),
        loose_kind(g.update(i, g[i].bounded(bound)), c) == loose_kind(g, c),
    decreases c,
{
    let h = g.update(i, g[i].bounded(bound));
    if 0 <= c < g.len() {
        assert(h[c].name == g[c].name && h[c].inner == g[c].inner);
        match g[c].inner {
            Inner::CalcRegex(x) => {
                if 0 <= x@ < c {
                    lemma_bounded_loose(g, i, bound, x@);
                }
            },
            Inner::Concat(l, r) => {
                if 0 <= l@ < c && 0 <= r@ < c {
                    lemma_bounded_loose(g, i, bound, l@);
                    lemma_bounded_loose(g, i, bound, r@);
                }
            },
            _ => {},
        }
    }
}

/// Setting a length bound leaves each node in its place and each name as
/// it was.
pub proof fn lemma_bounded_shaped<F: Fn(&[u8]) -> Option<usize>>(
    g: Seq<Node<F>>,
    i: int,
    bound: usize,
)
    requires
        0 <= i < g.len(),
    ensures
        forall|j: int|
            0 <= j < g.len() ==> #[trigger] node_wf(g.update(i, g[i].bounded(bound)), j)
                == node_wf(g, j),
        forall|j: int|
            0 <= j < g.len() ==> #[trigger] node_shaped(g.update(i, g[i].bounded(bound)), j)
                == node_shaped(g, j),
        names_unique(g.update(i, g[i].bounded(bound))) == names_unique(g),
{
    let h = g.update(i, g[i].bounded(bound));
    assert forall|j: int| 0 <= j < g.len() implies h[j].name == g[j].name && h[j].inner
        == g[j].inner by {}
    assert forall|j: int| 0 <= j < g.len() implies #[trigger] node_shaped(h, j) == node_shaped(
        g,
        j,
    ) by {
        assert(h[j].inner == g[j].inner);
        match g[j].inner {
            Inner::Regex(_) => {},
            Inner::CalcRegex(c) => {
                if 0 <= c@ < j {
                    assert(h[c@].inner == g[c@].inner);
                }
            },
            Inner::Concat(l, r) => {
                if 0 <= l@ < j {
                    assert(h[l@].inner == g[l@].inner);
                }
                if 0 <= r@ < j {
                    assert(h[r@].inner == g[r@].inner);
                }
            },
            Inner::Repeat(c, _) => {
                if 0 <= c@ < j {
                    assert(h[c@].inner == g[c@].inner && h[c@].name == g[c@].name);
                    lemma_bounded_loose(g, i, bound, c@);
                }
            },
            Inner::KleeneStar(c) => {
                if 0 <= c@ < j {
                    assert(h[c@].inner == g[c@].inner && h[c@].name == g[c@].name);
                    lemma_bounded_loose(g, i, bound, c@);
                }
            },
            Inner::LengthCount { r, s, t, .. } => {
                if 0 <= r@ < j {
                    assert(h[r@].inner == g[r@].inner);
                }
                match s {
                    Some(c) => if 0 <= c@ < j {
                        assert(h[c@].inner == g[c@].inner);
                    },
                    None => {},
                }
            },
            Inner::OccurrenceCount { r, s, t, .. } => {
                if 0 <= r@ < j {
                    assert(h[r@].inner == g[r@].inner);
                }
                if 0 <= t@ < j {
                    assert(h[t@].inner == g[t@].inner && h[t@].name == g[t@].name);
                }
                match s {
                    Some(c) => if 0 <= c@ < j {
                        assert(h[c@].inner == g[c@].inner);
                    },
                    None => {},
                }
            },
        }
    }
    assert forall|j: int| 0 <= j < g.len() implies #[trigger] node_wf(h, j) == node_wf(g, j) by {
        assert(node_shaped(h, j) == node_shaped(g, j));
        assert(h[j].inner == g[j].inner);
    }
    if names_unique(g) {
        assert forall|a: int, b: int|
            0 <= a < b < h.len() && (#[trigger] h[a].name) is Some && (#[trigger] h[b].name)
                is Some implies h[a].name.unwrap()@ != h[b].name.unwrap()@ by {
            assert(h[a].name == g[a].name && h[b].name == g[b].name);
        }
    }
    if names_unique(h) {
        assert forall|a: int, b: int|
            0 <= a < b < g.len() && (#[trigger] g[a].name) is Some && (#[trigger] g[b].name)
                is Some implies g[a].name.unwrap()@ != g[b].name.unwrap()@ by {
            assert(h[a].name == g[a].name && h[b].name == g[b].name);
        }
    }
}

/// Setting the same length bound twice yields the same expression as
/// setting it once.
pub proof fn lemma_set_length_bound_idempotent<F>(g: Seq<Node<F>>, name: Seq<char>, bound: usize)
    ensures
        bound_set(bound_set(g, name, bound), name, bound) == bound_set(g, name, bound),
{
    lemma_find_name(g, name, 0);
    match find_name(g, name, 0) {
        Some(i) => {
            lemma_find_name_bounded(g, i, bound, name, 0);
            let h = bound_set(g, name, bound);
            assert(h.update(i, h[i].bounded(bound)) =~= h);
        },
        None => {},
    }
}

/// Public functions.
///
/// `name` in this context refers to the name given to a sub-expression.
/// `bound` refers to a number of bytes.
impl<F: Fn(&[u8]) -> Option<usize>> CalcRegex<F> {
    /// The nodes of the expression.
    pub closed spec fn nodes(&self) -> Seq<Node<F>> {
        self.nodes@
    }

    /// The position of the root node.
    pub closed spec fn root(&self) -> int {
        self.root@
    }

    /// Whether the expression is built in order: see `node_wf` for what
    /// is asked of each node.
    pub open spec fn wf(&self) -> bool {
        &&& forall|i: int| 0 <= i < self.nodes().len() ==> #[trigger] node_wf(self.nodes(), i)
        &&& names_unique(self.nodes())
    }

    /// Whether each node has its place among the nodes, and no two nodes
    /// have the same name: what is asked of a well-formed expression but
    /// for the count functions.
    pub open spec fn shaped(&self) -> bool {
        &&& forall|i: int| 0 <= i < self.nodes().len() ==> #[trigger] node_shaped(self.nodes(), i)
        &&& names_unique(self.nodes())
    }

    /// Whether all count functions are pure.
    pub open spec fn pure_counts(&self) -> bool {
        forall|i: int| 0 <= i < self.nodes().len() ==> node_pure(#[trigger] self.nodes()[i])
    }

    /// An expression is well-formed if its nodes have their places and
    /// its count functions are pure.
    pub proof fn lemma_shaped_wf(&self)
        requires
            self.shaped(),
            self.pure_counts(),
        ensures
            self.wf(),
    {
        assert forall|i: int| 0 <= i < self.nodes().len() implies #[trigger] node_wf(
            self.nodes(),
            i,
        ) by {
            assert(node_shaped(self.nodes(), i));
            assert(node_pure(self.nodes()[i]));
        }
    }

    /// Whether what a Kleene star repeats reads at least one byte each
    /// time. A star over an expression that matches nothing would be
    /// parsed without end.
    pub open spec fn progressive(&self) -> bool {
        forall|i: int|
            0 <= i < self.nodes().len() ==> ((#[trigger] self.nodes()[i].inner) matches Inner::KleeneStar(
                c,
            ) ==> progresses(self.nodes(), c@))
    }

    /// Whether the expression has a root to parse against: a node that is
    /// no Kleene star and has an ordinary name.
    pub open spec fn rooted(&self) -> bool {
        &&& 0 <= self.root() < self.nodes().len()
        &&& !(self.nodes()[self.root()].inner is KleeneStar)
        &&& self.nodes()[self.root()].real_named()
    }

    /// Sets the subexpression with the given name to be the root expression.
    ///
    /// The root expression is the one that input is parsed against.
    pub fn set_root_by_name(&mut self, name: &str) -> (r: NameResult<()>)
        ensures
            final(self).nodes() == old(self).nodes(),
            match find_name(old(self).nodes(), name@, 0) {
                Some(i) => r is Ok && final(self).root() == i,
                None => {
                    &&& final(self).root() == old(self).root()
                    &&& r matches Err(e) && e@ == (NameFailure::NoSuchName { name: name@ })
                },
            },
    {
        match self.get_position_by_name(name) {
            Some(pos) => {
                self.set_root(pos);
                Ok(())
            },
            None => Err(NameError::NoSuchName { name: name.to_owned() }),
        }
    }

    /// Adds a length bound to the root expression.
    ///
    /// Parsing will be aborted as soon as the bound is exceeded or a
    /// length-counted expression is encountered that would exceed it when
    /// parsed.
    pub fn set_root_length_bound(&mut self, bound: usize)
        requires
            0 <= old(self).root() < old(self).nodes().len(),
        ensures
            final(self).root() == old(self).root(),
            final(self).nodes() == old(self).nodes().update(
                old(self).root(),
                old(self).nodes()[old(self).root()].bounded(bound),
            ),
            final(self).wf() == old(self).wf(),
            final(self).rooted() == old(self).rooted(),
            final(self).steady() == old(self).steady(),
    {
        let i = self.root.position();
        self.set_bound_at(i, bound);
    }

    /// Adds a length bound to the subexpression with the given name.
    ///
    /// Parsing will be aborted as soon as the bound is exceeded or a
    /// length-counted expression is encountered that would exceed it when
    /// parsed.
    pub fn set_length_bound(&mut self, name: &str, bound: usize) -> (r: NameResult<()>)
        ensures
            final(self).root() == old(self).root(),
            final(self).nodes() == bound_set(old(self).nodes(), name@, bound),
            final(self).wf() == old(self).wf(),
            final(self).rooted() == old(self).rooted(),
            final(self).steady() == old(self).steady(),
            match find_name(old(self).nodes(), name@, 0) {
                Some(_) => r is Ok,
                None => r matches Err(e) && e@ == (NameFailure::NoSuchName { name: name@ }),
            },
    {
        match self.get_position_by_name(name) {
            Some(pos) => {
                self.set_bound_at(pos.position(), bound);
                Ok(())
            },
            None => Err(NameError::NoSuchName { name: name.to_owned() }),
        }
    }

    /// Creates a new, empty `CalcRegex`.
    pub fn new() -> (r: Self)
        ensures
            r.nodes() == Seq::<Node<F>>::empty(),
            r.root() == 0,
            r.wf(),
            r.progressive(),
    {
        CalcRegex { nodes: Vec::new(), root: NodeIndex::at(0) }
    }

    /// Returns a reference to the current root node of the `CalcRegex`.
    pub fn get_root(&self) -> (r: &Node<F>)
        requires
            0 <= self.root() < self.nodes().len(),
        ensures
            *r == self.nodes()[self.root()],
    {
        &self.nodes[self.root.position()]
    }

    /// Returns a mutable reference to the current root node of the
    /// `CalcRegex`.
    pub fn get_root_mut(&mut self) -> (r: &mut Node<F>)
        requires
            0 <= old(self).root() < old(self).nodes().len(),
        ensures
            *r == old(self).nodes()[old(self).root()],
            final(self).root() == old(self).root(),
            final(self).nodes() == old(self).nodes().update(old(self).root(), *final(r)),
    {
        let i = self.root.position();
        &mut self.nodes[i]
    }

    /// Returns the index of the current root node of the `CalcRegex`.
    pub fn get_root_index(&self) -> (r: NodeIndex)
        ensures
            r@ == self.root(),
    {
        self.root
    }

    /// Changes the current root of the `CalcRegex` by a given index.
    pub fn set_root(&mut self, node_index: NodeIndex)
        ensures
            final(self).nodes() == old(self).nodes(),
            final(self).root() == node_index@,
    {
        self.root = node_index;
    }

    /// Gets a reference to a node of the `CalcRegex` by index.
    pub fn get_node(&self, node_index: NodeIndex) -> (r: &Node<F>)
        requires
            0 <= node_index@ < self.nodes().len(),
        ensures
            *r == self.nodes()[node_index@],
    {
        &self.nodes[node_index.position()]
    }

    /// Tells whether the index refers to a node of this expression.
    pub fn contains(&self, node_index: NodeIndex) -> (r: bool)
        ensures
            r == (0 <= node_index@ < self.nodes().len()),
    {
        node_index.position() < self.nodes.len()
    }

    /// The number of nodes.
    pub fn len(&self) -> (r: usize)
        ensures
            r == self.nodes().len(),
    {
        self.nodes.len()
    }

    /// Gets the index of a node by name.
    ///
    /// Returns `None`, if the given name doesn't exist.
    pub fn get_position_by_name(&self, name: &str) -> (r: Option<NodeIndex>)
        ensures
            match find_name(self.nodes(), name@, 0) {
                Some(i) => r matches Some(p) && p@ == i && 0 <= i < self.nodes().len(),
                None => r is None,
            },
    {
        let wanted = name.to_owned();
        let mut i: usize = 0;
        while i < self.nodes.len()
            invariant
                i <= self.nodes.len(),
                wanted@ == name@,
                find_name(self.nodes(), name@, 0) == find_name(self.nodes(), name@, i as int),
            decreases self.nodes.len() - i,
        {
            let found = match &self.nodes[i].name {
                Some(node_name) => *node_name == wanted,
                None => false,
            };
            if found {
                return Some(NodeIndex::at(i));
            }
            i = i + 1;
        }
        None
    }

    /// Sets the length bound of the node at the given position.
    fn set_bound_at(&mut self, i: usize, bound: usize)
        requires
            i < old(self).nodes().len(),
        ensures
            final(self).root() == old(self).root(),
            final(self).nodes() == old(self).nodes().update(
                i as int,
                old(self).nodes()[i as int].bounded(bound),
            ),
            final(self).wf() == old(self).wf(),
            final(self).shaped() == old(self).shaped(),
            final(self).rooted() == old(self).rooted(),
            final(self).steady() == old(self).steady(),
    {
        proof {
            lemma_bounded_shaped(self.nodes@, i as int, bound);
        }
        let ghost before = self.nodes@;
        let node = &mut self.nodes[i];
        node.length_bound = Some(bound);
        proof {
            let after = self.nodes@;
            assert(after =~= before.update(i as int, before[i as int].bounded(bound)));
            if old(self).wf() {
                assert forall|j: int| 0 <= j < after.len() implies #[trigger] node_wf(after, j) by {
                    assert(node_wf(before, j));
                }
            }
            if self.wf() {
                assert forall|j: int| 0 <= j < before.len() implies #[trigger] node_wf(
                    before,
                    j,
                ) by {
                    assert(node_wf(after, j));
                }
            }
            if old(self).shaped() {
                assert forall|j: int| 0 <= j < after.len() implies #[trigger] node_shaped(
                    after,
                    j,
                ) by {
                    assert(node_shaped(before, j));
                }
            }
            if self.shaped() {
                assert forall|j: int| 0 <= j < before.len() implies #[trigger] node_shaped(
                    before,
                    j,
                ) by {
                    assert(node_shaped(after, j));
                }
            }
            lemma_bounded_steady(*old(self), *self, i as int, bound);
        }
    }

    /// Appends the given node to saved nodes and returns its index.
    ///
    /// Names must be unique: a node whose name is taken is not accepted.
    pub fn push_node(&mut self, node: Node<F>) -> (r: NodeIndex)
        requires
            old(self).nodes().len() < usize::MAX,
            node.name matches Some(n) ==> find_name(old(self).nodes(), n@, 0) is None,
        ensures
            r@ == old(self).nodes().len(),
            final(self).nodes() == old(self).nodes().push(node),
            final(self).root() == old(self).root(),
            old(self).wf() && node_wf(final(self).nodes(), r@) ==> final(self).wf(),
    {
        let node_index = NodeIndex::at(self.nodes.len());
        let ghost before = self.nodes@;
        self.nodes.push(node);
        proof {
            if old(self).wf() && node_wf(self.nodes@, node_index@) {
                lemma_push_wf(before, node);
            }
        }
        node_index
    }
}

/// Adding a node changes nothing about which of the nodes before it can
/// be parsed where captures are attached to a repeat.
pub proof fn lemma_push_loose<F>(g: Seq<Node<F>>, node: Node<F>, c: int)
    requires
        c < g.len(),
    ensures
        loose(g.push(node), c) == loose(g, c),
        loose_kind(g.push(node), c) == loose_kind(g, c),
    decreases c,
{
    let h = g.push(node);
    if 0 <= c {
        assert(h[c] == g[c]);
        match g[c].inner {
            Inner::CalcRegex(x) => {
                if 0 <= x@ < c {
                    lemma_push_loose(g, node, x@);
                }
            },
            Inner::Concat(l, r) => {
                if 0 <= l@ < c && 0 <= r@ < c {
                    lemma_push_loose(g, node, l@);
                    lemma_push_loose(g, node, r@);
                }
            },
            _ => {},
        }
    }
}

/// A well-formed expression stays so when a node is added that is in
/// order and whose name is new.
pub proof fn lemma_push_wf<F: Fn(&[u8]) -> Option<usize>>(g: Seq<Node<F>>, node: Node<F>)
    requires
        forall|i: int| 0 <= i < g.len() ==> #[trigger] node_wf(g, i),
        names_unique(g),
        node_wf(g.push(node), g.len() as int),
        node.name matches Some(n) ==> find_name(g, n@, 0) is None,
    ensures
        forall|i: int| 0 <= i < g.len() + 1 ==> #[trigger] node_wf(g.push(node), i),
        names_unique(g.push(node)),
{
    let h = g.push(node);
    assert forall|i: int| 0 <= i < g.len() + 1 implies #[trigger] node_wf(h, i) by {
        if i < g.len() {
            assert(node_wf(g, i));
            assert(h[i] == g[i]);
            assert forall|c: int| 0 <= c < i implies h[c] == g[c] by {}
            match g[i].inner {
                Inner::Repeat(c, _) => lemma_push_loose(g, node, c@),
                Inner::KleeneStar(c) => lemma_push_loose(g, node, c@),
                _ => {},
            }
        }
    }
    if node.name is Some {
        lemma_find_name(g, node.name.unwrap()@, 0);
    }
    assert forall|i: int, j: int|
        0 <= i < j < h.len() && (#[trigger] h[i].name) is Some && (#[trigger] h[j].name)
            is Some implies h[i].name.unwrap()@ != h[j].name.unwrap()@ by {
        if j < g.len() {
            assert(h[i] == g[i] && h[j] == g[j]);
        } else {
            assert(h[i] == g[i]);
            assert(!g[i].named(node.name.unwrap()@));
        }
    }
}

} // verus!
