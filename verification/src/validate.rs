//! Telling whether an expression is in order before it is parsed against.

use vstd::prelude::*;
use crate::calc_regex::{
    CalcRegex,
    Inner,
    NodeIndex,
    names_unique,
    node_shaped,
    plain_child,
    loose,
    repeatable,
};
use crate::capture::is_special;

verus! {

impl<F: Fn(&[u8]) -> Option<usize>> CalcRegex<F> {
    /// Tells whether the index refers to a node before `i` that is no
    /// Kleene star.
    fn is_plain_child(&self, i: usize, c: NodeIndex) -> (r: bool)
        requires
            i <= self.nodes().len(),
        ensures
            r == plain_child(self.nodes(), i as int, c),
    {
        if c.position() >= i {
            return false;
        }
        match &self.get_node(c).inner {
            Inner::KleeneStar(_) => false,
            _ => true,
        }
    }

    /// Tells whether the node has a name that does not start with `$`.
    fn is_real_named(&self, c: NodeIndex) -> (r: bool)
        requires
            0 <= c@ < self.nodes().len(),
        ensures
            r == self.nodes()[c@].real_named(),
    {
        match &self.get_node(c).name {
            Some(name) => !is_special(name),
            None => false,
        }
    }

    /// Tells whether the node can be parsed where captures are attached
    /// to a repeat.
    fn is_loose(&self, c: NodeIndex) -> (r: bool)
        requires
            0 <= c@ < self.nodes().len(),
        ensures
            r == loose(self.nodes(), c@),
        decreases c@,
    {
        let i = c.position();
        if self.is_real_named(c) {
            return true;
        }
        let node = self.get_node(c);
        if node.name.is_some() {
            return false;
        }
        match &node.inner {
            Inner::Regex(_) => true,
            Inner::CalcRegex(x) => x.position() < i && self.is_loose(*x),
            Inner::Concat(l, r) => l.position() < i && r.position() < i && self.is_loose(*l)
                && self.is_loose(*r),
            _ => false,
        }
    }

    /// Tells whether the node can be what a repeat repeats.
    fn is_repeatable(&self, c: NodeIndex) -> (r: bool)
        requires
            0 <= c@ < self.nodes().len(),
        ensures
            r == repeatable(self.nodes(), c@),
    {
        self.is_loose(c)
    }

    /// Tells whether the node at `i` has its place among the nodes.
    fn is_node_shaped(&self, i: usize) -> (r: bool)
        requires
            i < self.nodes().len(),
        ensures
            r == node_shaped(self.nodes(), i as int),
    {
        match &self.get_node(NodeIndex::at(i)).inner {
            Inner::Regex(_) => true,
            Inner::CalcRegex(c) => self.is_plain_child(i, *c),
            Inner::Concat(l, r) => self.is_plain_child(i, *l) && self.is_plain_child(i, *r),
            Inner::Repeat(c, _) => self.is_plain_child(i, *c) && self.is_repeatable(*c),
            Inner::KleeneStar(c) => self.is_plain_child(i, *c) && self.is_repeatable(*c),
            Inner::LengthCount { r, s, t, .. } => {
                let separated = match s {
                    Some(c) => self.is_plain_child(i, *c),
                    None => true,
                };
                self.is_plain_child(i, *r) && separated && t.position() < i
            },
            Inner::OccurrenceCount { r, s, t, .. } => {
                let separated = match s {
                    Some(c) => self.is_plain_child(i, *c),
                    None => true,
                };
                self.is_plain_child(i, *r) && separated && self.is_plain_child(i, *t)
                    && self.is_real_named(*t)
            },
        }
    }

    /// Tells whether the name of the node at `j` is that of no node
    /// before it.
    fn is_name_new(&self, j: usize) -> (r: bool)
        requires
            j < self.nodes().len(),
        ensures
            r == forall|i: int|
                0 <= i < j && (#[trigger] self.nodes()[i].name) is Some && self.nodes()[j as int].name
                    is Some ==> self.nodes()[i].name.unwrap()@ != self.nodes()[j as int].name.unwrap()@,
    {
        let name = match &self.get_node(NodeIndex::at(j)).name {
            Some(name) => name,
            None => {
                return true;
            },
        };
        let mut i: usize = 0;
        while i < j
            invariant
                i <= j,
                j < self.nodes().len(),
                self.nodes()[j as int].name == Some(*name),
                forall|k: int|
                    0 <= k < i && (#[trigger] self.nodes()[k].name) is Some
                        ==> self.nodes()[k].name.unwrap()@ != name@,
            decreases j - i,
        {
            let same = match &self.get_node(NodeIndex::at(i)).name {
                Some(other) => *other == *name,
                None => false,
            };
            if same {
                assert(self.nodes()[i as int].name is Some);
                return false;
            }
            i = i + 1;
        }
        true
    }

    /// Tells whether each node has its place among the nodes, and no two
    /// nodes have the same name.
    pub fn is_shaped(&self) -> (r: bool)
        ensures
            r == self.shaped(),
    {
        let mut j: usize = 0;
        while j < self.len()
            invariant
                j <= self.nodes().len(),
                forall|i: int| 0 <= i < j ==> #[trigger] node_shaped(self.nodes(), i),
                forall|i: int, k: int|
                    0 <= i < k < j && (#[trigger] self.nodes()[i].name) is Some && (
                    #[trigger] self.nodes()[k].name) is Some ==> self.nodes()[i].name.unwrap()@
                        != self.nodes()[k].name.unwrap()@,
            decreases self.nodes().len() - j,
        {
            if !self.is_node_shaped(j) {
                return false;
            }
            if !self.is_name_new(j) {
                proof {
                    let g = self.nodes();
                    let i = choose|i: int|
                        0 <= i < j && (#[trigger] g[i].name) is Some && g[j as int].name is Some && !(
                        g[i].name.unwrap()@ != g[j as int].name.unwrap()@);
                    assert(g[i].name is Some && g[j as int].name is Some);
                    assert(!names_unique(g));
                }
                return false;
            }
            j = j + 1;
        }
        true
    }

    /// Tells whether the expression has a root to parse against.
    pub fn is_rooted(&self) -> (r: bool)
        ensures
            r == self.rooted(),
    {
        let root = self.get_root_index();
        if !self.contains(root) {
            return false;
        }
        match &self.get_node(root).inner {
            Inner::KleeneStar(_) => false,
            _ => self.is_real_named(root),
        }
    }
}

} // verus!
