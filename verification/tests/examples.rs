#![allow(dead_code, unused_variables, unused_imports)]

use calc_regex::calc_regex::{Inner, NodeIndex};
use calc_regex::generate::{CalcRegexProduction, Interim, InterimRegex, RegexProduction};
use calc_regex::{CalcRegex, NameError, ParserError, Reader};

/// The type of the functions that read a count.
type Count = fn(&[u8]) -> Option<usize>;

/// An empty regex, to which productions are applied one after the other.
fn blank() -> InterimRegex {
    InterimRegex::new()
}

/// The productions for regexes, written as a chain.
trait Chain: Sized {
    fn lit(self, s: &str) -> Self;
    fn byte(self, v: &str) -> Self;
    fn id(self, interim: &Interim) -> Self;
    fn group(self, el: InterimRegex) -> Self;
    fn choice(self) -> Self;
    fn star(self, el: InterimRegex) -> Self;
    fn plus(self, el: InterimRegex) -> Self;
    fn repeat(self, el: InterimRegex, n: usize) -> Self;
    fn range(self, min: &str, max: &str) -> Self;
    fn hex_range(self, min: &str, max: &str) -> Self;
}

impl Chain for InterimRegex {
    fn lit(self, s: &str) -> Self {
        RegexProduction::Literal(s).apply(self)
    }

    fn byte(self, v: &str) -> Self {
        RegexProduction::ByteLiteral(v).apply(self)
    }

    fn id(self, interim: &Interim) -> Self {
        RegexProduction::Identifier(interim).apply(self)
    }

    fn group(self, el: InterimRegex) -> Self {
        RegexProduction::Parentheses(&el).apply(self)
    }

    fn choice(self) -> Self {
        RegexProduction::Choice.apply(self)
    }

    fn star(self, el: InterimRegex) -> Self {
        RegexProduction::KleeneStar(&el).apply(self)
    }

    fn plus(self, el: InterimRegex) -> Self {
        RegexProduction::KleenePlus(&el).apply(self)
    }

    fn repeat(self, el: InterimRegex, n: usize) -> Self {
        RegexProduction::Repeat(&el, n).apply(self)
    }

    fn range(self, min: &str, max: &str) -> Self {
        RegexProduction::CharRange(min, max).apply(self)
    }

    fn hex_range(self, min: &str, max: &str) -> Self {
        RegexProduction::HexRange(min, max).apply(self)
    }
}

fn owned(name: Option<&str>) -> Option<String> {
    name.map(|n| n.to_owned())
}

fn add_leaf(graph: &mut CalcRegex<Count>, re: InterimRegex, name: Option<&str>) -> NodeIndex {
    CalcRegexProduction::Regex(&re).apply(graph, owned(name))
}

fn add_ident(
    graph: &mut CalcRegex<Count>,
    interim: &Interim,
    identifier: &str,
    name: Option<&str>,
) -> NodeIndex {
    CalcRegexProduction::Identifier(interim, identifier.to_owned()).apply(graph, owned(name))
}

fn add_concat(
    graph: &mut CalcRegex<Count>,
    lhs: NodeIndex,
    rhs: NodeIndex,
    name: Option<&str>,
) -> NodeIndex {
    CalcRegexProduction::Concat(lhs, rhs).apply(graph, owned(name))
}

fn add_repeat(graph: &mut CalcRegex<Count>, c: NodeIndex, n: usize, name: Option<&str>) -> NodeIndex {
    CalcRegexProduction::Repeat(c, n).apply(graph, owned(name))
}

fn add_kleene(graph: &mut CalcRegex<Count>, c: NodeIndex, name: Option<&str>) -> NodeIndex {
    CalcRegexProduction::KleeneStar(c).apply(graph, owned(name))
}

fn add_length_count(
    graph: &mut CalcRegex<Count>,
    r: NodeIndex,
    s: Option<NodeIndex>,
    t: NodeIndex,
    f: Count,
    name: Option<&str>,
) -> NodeIndex {
    CalcRegexProduction::LengthCount { r, s, t, f }.apply(graph, owned(name))
}

fn add_occurrence_count(
    graph: &mut CalcRegex<Count>,
    r: NodeIndex,
    s: Option<NodeIndex>,
    t: NodeIndex,
    f: Count,
    name: Option<&str>,
) -> NodeIndex {
    CalcRegexProduction::OccurrenceCount { r, s, t, f }.apply(graph, owned(name))
}

fn g(l1: &[u8]) -> Option<usize> {
    if l1.len() != 1 {
        None
    } else if l1[0] < 128 {
        Some(0)
    } else {
        Some((l1[0] - 128) as usize)
    }
}

fn f(l2: &[u8]) -> Option<usize> {
    if l2.len() == 1 && l2[0] < 128 {
        Some(l2[0] as usize)
    } else if l2.len() > 1 &&
        l2.len() == l2[0] as usize - 127 &&
        l2.len() <= 9
    {
        calc_regex::aux::big_endian(&l2[1..])
    } else {
        None
    }
}

#[test]
fn nested_number() {
    let re = {
        let mut graph: CalcRegex<Count> = CalcRegex::new();
        let l1 = Interim::Regex(blank().hex_range("0", "FF"));
        let l2 = Interim::Regex(blank().star(blank().group(blank().hex_range("0", "FF"))));
        let n1 = add_ident(&mut graph, &l1, "l1", None);
        let n2 = add_ident(&mut graph, &l2, "l2", None);
        let n3 = add_length_count(&mut graph, n1, None, n2, g, Some("l"));
        let l = Interim::CalcRegex(n3);
        let n4 = add_ident(&mut graph, &l, "l", None);
        let n5 = add_leaf(&mut graph, blank().hex_range("0", "FF"), None);
        let n6 = add_kleene(&mut graph, n5, None);
        let n7 = add_length_count(&mut graph, n4, None, n6, f, Some("lv"));
        let root = n7;
        graph.set_root(root);
        graph
    };
    let mut reader = calc_regex::Reader::from_array(b"\x03foo");
    let record = reader.parse(&re).unwrap();
    let v = record.get_capture("$value").unwrap();
    assert_eq!(v, b"foo");
    assert_eq!(record.get_capture("l.l1").unwrap(), b"\x03");
    assert_eq!(record.get_capture("l.l2").unwrap(), b"");

    let mut reader = calc_regex::Reader::from_array(b"\x81\x03bar");
    let record = reader.parse(&re).unwrap();
    let v = record.get_capture("$value").unwrap();
    assert_eq!(v, b"bar");

    let mut reader = calc_regex::Reader::from_array(b"\x82\x00\x03baz");
    let record = reader.parse(&re).unwrap();
    let v = record.get_capture("$value").unwrap();
    assert_eq!(v, b"baz");
}
