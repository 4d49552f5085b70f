#![allow(dead_code, unused_variables, unused_imports)]

use calc_regex::calc_regex::{Inner, NodeIndex};
use calc_regex::generate::{CalcRegexProduction, Interim, InterimRegex, RegexProduction};
use calc_regex::{CalcRegex, NameError, ParserError, Reader};

/// The type of the functions that read a count.
type Count = fn(&[u8]) -> Option<usize>;

/// An empty regex, to which productions are applied one after the other.
fn blank() -> InterimRegex {
    InterimRegex::new()
}

/// The productions for regexes, written as a chain.
trait Chain: Sized {
    fn lit(self, s: &str) -> Self;
    fn byte(self, v: &str) -> Self;
    fn id(self, interim: &Interim) -> Self;
    fn group(self, el: InterimRegex) -> Self;
    fn choice(self) -> Self;
    fn star(self, el: InterimRegex) -> Self;
    fn plus(self, el: InterimRegex) -> Self;
    fn repeat(self, el: InterimRegex, n: usize) -> Self;
    fn range(self, min: &str, max: &str) -> Self;
    fn hex_range(self, min: &str, max: &str) -> Self;
}

impl Chain for InterimRegex {
    fn lit(self, s: &str) -> Self {
        RegexProduction::Literal(s).apply(self)
    }

    fn byte(self, v: &str) -> Self {
        RegexProduction::ByteLiteral(v).apply(self)
    }

    fn id(self, interim: &Interim) -> Self {
        RegexProduction::Identifier(interim).apply(self)
    }

    fn group(self, el: InterimRegex) -> Self {
        RegexProduction::Parentheses(&el).apply(self)
    }

    fn choice(self) -> Self {
        RegexProduction::Choice.apply(self)
    }

    fn star(self, el: InterimRegex) -> Self {
        RegexProduction::KleeneStar(&el).apply(self)
    }

    fn plus(self, el: InterimRegex) -> Self {
        RegexProduction::KleenePlus(&el).apply(self)
    }

    fn repeat(self, el: InterimRegex, n: usize) -> Self {
        RegexProduction::Repeat(&el, n).apply(self)
    }

    fn range(self, min: &str, max: &str) -> Self {
        RegexProduction::CharRange(min, max).apply(self)
    }

    fn hex_range(self, min: &str, max: &str) -> Self {
        RegexProduction::HexRange(min, max).apply(self)
    }
}

fn owned(name: Option<&str>) -> Option<String> {
    name.map(|n| n.to_owned())
}

fn add_leaf(graph: &mut CalcRegex<Count>, re: InterimRegex, name: Option<&str>) -> NodeIndex {
    CalcRegexProduction::Regex(&re).apply(graph, owned(name))
}

fn add_ident(
    graph: &mut CalcRegex<Count>,
    interim: &Interim,
    identifier: &str,
    name: Option<&str>,
) -> NodeIndex {
    CalcRegexProduction::Identifier(interim, identifier.to_owned()).apply(graph, owned(name))
}

fn add_concat(
    graph: &mut CalcRegex<Count>,
    lhs: NodeIndex,
    rhs: NodeIndex,
    name: Option<&str>,
) -> NodeIndex {
    CalcRegexProduction::Concat(lhs, rhs).apply(graph, owned(name))
}

fn add_repeat(graph: &mut CalcRegex<Count>, c: NodeIndex, n: usize, name: Option<&str>) -> NodeIndex {
    CalcRegexProduction::Repeat(c, n).apply(graph, owned(name))
}

fn add_kleene(graph: &mut CalcRegex<Count>, c: NodeIndex, name: Option<&str>) -> NodeIndex {
    CalcRegexProduction::KleeneStar(c).apply(graph, owned(name))
}

fn add_length_count(
    graph: &mut CalcRegex<Count>,
    r: NodeIndex,
    s: Option<NodeIndex>,
    t: NodeIndex,
    f: Count,
    name: Option<&str>,
) -> NodeIndex {
    CalcRegexProduction::LengthCount { r, s, t, f }.apply(graph, owned(name))
}

fn add_occurrence_count(
    graph: &mut CalcRegex<Count>,
    r: NodeIndex,
    s: Option<NodeIndex>,
    t: NodeIndex,
    f: Count,
    name: Option<&str>,
) -> NodeIndex {
    CalcRegexProduction::OccurrenceCount { r, s, t, f }.apply(graph, owned(name))
}

///////////////////////////////////////////////////////////////////////////////
//      Set Root
///////////////////////////////////////////////////////////////////////////////

#[test]
fn set_root() {
    let mut calc_regex = {
        let mut graph: CalcRegex<Count> = CalcRegex::new();
        let n1 = add_leaf(&mut graph, blank().lit("foo!"), Some("foo"));
        let foo = Interim::CalcRegex(n1);
        let n2 = add_leaf(&mut graph, blank().lit("bar"), Some("bar"));
        let root = n2;
        graph.set_root(root);
        graph
    };
    calc_regex.set_root_by_name("foo").unwrap();
    let root = calc_regex.get_root();
    assert_eq!(root.name, Some("foo".to_owned()));
    assert_eq!(root.length_bound, Some(4));
    if let Inner::Regex(ref regex) = root.inner {
        assert_eq!(regex.as_str(), "^(?-u:foo!)$");
    } else {
        panic!("Unexpected Inner: {:?}", root.inner);
    }
}

#[test]
fn set_root_invalid_name() {
    let mut calc_regex = {
        let mut graph: CalcRegex<Count> = CalcRegex::new();
        let n1 = add_leaf(&mut graph, blank().lit("foo!"), Some("foo"));
        let foo = Interim::CalcRegex(n1);
        let n2 = add_leaf(&mut graph, blank().lit("bar"), Some("bar"));
        let root = n2;
        graph.set_root(root);
        graph
    };
    let err = calc_regex.set_root_by_name("baz").unwrap_err();
    if let NameError::NoSuchName { ref name } = err {
        assert_eq!(name, "baz");
    } else {
        panic!("Unexpected error: {:?}", err);
    }
}

///////////////////////////////////////////////////////////////////////////////
//      Set Length Bounds
///////////////////////////////////////////////////////////////////////////////

#[test]
fn set_root_length_bound() {
    let mut calc_regex = {
        let mut graph: CalcRegex<Count> = CalcRegex::new();
        let root = add_leaf(&mut graph, blank().lit("f").star(blank().lit("o")).lit("!"), Some("foo"));
        graph.set_root(root);
        graph
    };
    calc_regex.set_root_length_bound(7);
    let root = calc_regex.get_root();
    assert_eq!(root.name, Some("foo".to_owned()));
    assert_eq!(root.length_bound, Some(7));
    if let Inner::Regex(ref regex) = root.inner {
        assert_eq!(regex.as_str(), "^(?-u:fo*!)$");
    } else {
        panic!("Unexpected Inner: {:?}", root.inner);
    }
}

#[test]
fn set_length_bound() {
    let mut calc_regex = {
        let mut graph: CalcRegex<Count> = CalcRegex::new();
        let root = add_leaf(&mut graph, blank().lit("f").star(blank().lit("o")).lit("!"), Some("foo"));
        graph.set_root(root);
        graph
    };
    calc_regex.set_length_bound("foo", 7).unwrap();
    let root = calc_regex.get_root();
    assert_eq!(root.name, Some("foo".to_owned()));
    assert_eq!(root.length_bound, Some(7));
    if let Inner::Regex(ref regex) = root.inner {
        assert_eq!(regex.as_str(), "^(?-u:fo*!)$");
    } else {
        panic!("Unexpected Inner: {:?}", root.inner);
    }
}

#[test]
fn set_length_bound_invalid() {
    let mut calc_regex = {
        let mut graph: CalcRegex<Count> = CalcRegex::new();
        let root = add_leaf(&mut graph, blank().lit("f").star(blank().lit("o")).lit("!"), Some("foo"));
        graph.set_root(root);
        graph
    };
    let err = calc_regex.set_length_bound("bar", 7).unwrap_err();
    if let NameError::NoSuchName { ref name } = err {
        assert_eq!(name, "bar");
    } else {
        panic!("Unexpected error: {:?}", err);
    }
}

#[test]
fn set_length_bound_various() {
    let mut calc_regex = {
        let mut graph: CalcRegex<Count> = CalcRegex::new();
        let foo = Interim::Regex(blank().lit("f").star(blank().lit("o")).lit("!"));
        let bar = Interim::Regex(blank().lit("b").star(blank().lit("a")).lit("r!"));
        let n1 = add_ident(&mut graph, &foo, "foo", None);
        let n2 = add_ident(&mut graph, &bar, "bar", None);
        let n3 = add_concat(&mut graph, n1, n2, Some("foobar"));
        let foobar = Interim::CalcRegex(n3);
        let n4 = add_ident(&mut graph, &foobar, "foobar", None);
        let n5 = add_ident(&mut graph, &bar, "bar", None);
        let n6 = add_concat(&mut graph, n4, n5, Some("baz"));
        let root = n6;
        graph.set_root(root);
        graph
    };
    calc_regex.set_root_length_bound(23);
    calc_regex.set_length_bound("foo", 7).unwrap();
    calc_regex.set_length_bound("bar", 8).unwrap();
    let root = calc_regex.get_root();
    assert_eq!(root.name, Some("baz".to_owned()));
    assert_eq!(root.length_bound, Some(23));
    if let Inner::Concat(lhs, rhs) = root.inner {
        let lhs = calc_regex.get_node(lhs);
        assert_eq!(lhs.name, Some("foobar".to_owned()));
        assert_eq!(lhs.length_bound, None);
        if let Inner::Concat(lhs, rhs) = lhs.inner {
            let lhs = calc_regex.get_node(lhs);
            assert_eq!(lhs.name, Some("foo".to_owned()));
            assert_eq!(lhs.length_bound, Some(7));
            if let Inner::Regex(ref regex) = lhs.inner {
                assert_eq!(regex.as_str(), "^(?-u:fo*!)$");
            } else {
                panic!("Unexpected Inner: {:?}", lhs.inner);
            }
            let rhs = calc_regex.get_node(rhs);
            assert_eq!(rhs.name, Some("bar".to_owned()));
            assert_eq!(rhs.length_bound, Some(8));
            if let Inner::Regex(ref regex) = rhs.inner {
                assert_eq!(regex.as_str(), "^(?-u:ba*r!)$");
            } else {
                panic!("Unexpected Inner: {:?}", rhs.inner);
            }
        } else {
            panic!("Unexpected Inner: {:?}", lhs.inner);
        }
        let rhs = calc_regex.get_node(rhs);
        assert_eq!(rhs.name, Some("bar".to_owned()));
        assert_eq!(rhs.length_bound, Some(8));
        if let Inner::Regex(ref regex) = rhs.inner {
            assert_eq!(regex.as_str(), "^(?-u:ba*r!)$");
        } else {
            panic!("Unexpected Inner: {:?}", rhs.inner);
        }
    } else {
        panic!("Unexpected Inner: {:?}", root.inner);
    }

}

///////////////////////////////////////////////////////////////////////////////
//      Clone
///////////////////////////////////////////////////////////////////////////////

#[test]
fn clone() {
    let calc_regex = {
        let mut graph: CalcRegex<Count> = CalcRegex::new();
        let n1 = add_leaf(&mut graph, blank().lit("foo"), Some("foo"));
        let root = n1;
        graph.set_root(root);
        graph
    };
    let clone = calc_regex.clone();
    let root = clone.get_root();
    assert_eq!(root.name, Some("foo".to_owned()));
    assert_eq!(root.length_bound, Some(3));
    if let Inner::Regex(ref regex) = root.inner {
        assert_eq!(regex.as_str(), "^(?-u:foo)$");
    } else {
        panic!("Unexpected Inner: {:?}", root.inner);
    }
}

#[test]
fn clone_and_set_root() {
    let mut calc_regex = {
        let mut graph: CalcRegex<Count> = CalcRegex::new();
        let n1 = add_leaf(&mut graph, blank().lit("foo"), Some("foo"));
        let foo = Interim::CalcRegex(n1);
        let n2 = add_leaf(&mut graph, blank().lit("bar!"), Some("bar"));
        let root = n2;
        graph.set_root(root);
        graph
    };
    let clone = calc_regex.clone();
    calc_regex.set_root_by_name("foo").unwrap();
    let root = clone.get_root();
    assert_eq!(root.name, Some("bar".to_owned()));
    assert_eq!(root.length_bound, Some(4));
    if let Inner::Regex(ref regex) = root.inner {
        assert_eq!(regex.as_str(), "^(?-u:bar!)$");
    } else {
        panic!("Unexpected Inner: {:?}", root.inner);
    }
}

#[test]
fn clone_and_set_length_bound() {
    let mut calc_regex = {
        let mut graph: CalcRegex<Count> = CalcRegex::new();
        let root = add_leaf(&mut graph, blank().lit("f").star(blank().lit("o")).lit("!"), Some("foo"));
        graph.set_root(root);
        graph
    };
    let clone = calc_regex.clone();
    calc_regex.set_root_length_bound(9);
    let root = clone.get_root();
    assert_eq!(root.name, Some("foo".to_owned()));
    assert_eq!(root.length_bound, None);
    if let Inner::Regex(ref regex) = root.inner {
        assert_eq!(regex.as_str(), "^(?-u:fo*!)$");
    } else {
        panic!("Unexpected Inner: {:?}", root.inner);
    }
}
