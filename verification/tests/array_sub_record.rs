#![allow(dead_code, unused_variables, unused_imports)]

use calc_regex::calc_regex::{Inner, NodeIndex};
use calc_regex::generate::{CalcRegexProduction, Interim, InterimRegex, RegexProduction};
use calc_regex::{CalcRegex, NameError, ParserError, Reader};

/// The type of the functions that read a count.
type Count = fn(&[u8]) -> Option<usize>;

/// An empty regex, to which productions are applied one after the other.
fn blank() -> InterimRegex {
    InterimRegex::new()
}

/// The productions for regexes, written as a chain.
trait Chain: Sized {
    fn lit(self, s: &str) -> Self;
    fn byte(self, v: &str) -> Self;
    fn id(self, interim: &Interim) -> Self;
    fn group(self, el: InterimRegex) -> Self;
    fn choice(self) -> Self;
    fn star(self, el: InterimRegex) -> Self;
    fn plus(self, el: InterimRegex) -> Self;
    fn repeat(self, el: InterimRegex, n: usize) -> Self;
    fn range(self, min: &str, max: &str) -> Self;
    fn hex_range(self, min: &str, max: &str) -> Self;
}

impl Chain for InterimRegex {
    fn lit(self, s: &str) -> Self {
        RegexProduction::Literal(s).apply(self)
    }

    fn byte(self, v: &str) -> Self {
        RegexProduction::ByteLiteral(v).apply(self)
    }

    fn id(self, interim: &Interim) -> Self {
        RegexProduction::Identifier(interim).apply(self)
    }

    fn group(self, el: InterimRegex) -> Self {
        RegexProduction::Parentheses(&el).apply(self)
    }

    fn choice(self) -> Self {
        RegexProduction::Choice.apply(self)
    }

    fn star(self, el: InterimRegex) -> Self {
        RegexProduction::KleeneStar(&el).apply(self)
    }

    fn plus(self, el: InterimRegex) -> Self {
        RegexProduction::KleenePlus(&el).apply(self)
    }

    fn repeat(self, el: InterimRegex, n: usize) -> Self {
        RegexProduction::Repeat(&el, n).apply(self)
    }

    fn range(self, min: &str, max: &str) -> Self {
        RegexProduction::CharRange(min, max).apply(self)
    }

    fn hex_range(self, min: &str, max: &str) -> Self {
        RegexProduction::HexRange(min, max).apply(self)
    }
}

fn owned(name: Option<&str>) -> Option<String> {
    name.map(|n| n.to_owned())
}

fn add_leaf(graph: &mut CalcRegex<Count>, re: InterimRegex, name: Option<&str>) -> NodeIndex {
    CalcRegexProduction::Regex(&re).apply(graph, owned(name))
}

fn add_ident(
    graph: &mut CalcRegex<Count>,
    interim: &Interim,
    identifier: &str,
    name: Option<&str>,
) -> NodeIndex {
    CalcRegexProduction::Identifier(interim, identifier.to_owned()).apply(graph, owned(name))
}

fn add_concat(
    graph: &mut CalcRegex<Count>,
    lhs: NodeIndex,
    rhs: NodeIndex,
    name: Option<&str>,
) -> NodeIndex {
    CalcRegexProduction::Concat(lhs, rhs).apply(graph, owned(name))
}

fn add_repeat(graph: &mut CalcRegex<Count>, c: NodeIndex, n: usize, name: Option<&str>) -> NodeIndex {
    CalcRegexProduction::Repeat(c, n).apply(graph, owned(name))
}

fn add_kleene(graph: &mut CalcRegex<Count>, c: NodeIndex, name: Option<&str>) -> NodeIndex {
    CalcRegexProduction::KleeneStar(c).apply(graph, owned(name))
}

fn add_length_count(
    graph: &mut CalcRegex<Count>,
    r: NodeIndex,
    s: Option<NodeIndex>,
    t: NodeIndex,
    f: Count,
    name: Option<&str>,
) -> NodeIndex {
    CalcRegexProduction::LengthCount { r, s, t, f }.apply(graph, owned(name))
}

fn add_occurrence_count(
    graph: &mut CalcRegex<Count>,
    r: NodeIndex,
    s: Option<NodeIndex>,
    t: NodeIndex,
    f: Count,
    name: Option<&str>,
) -> NodeIndex {
    CalcRegexProduction::OccurrenceCount { r, s, t, f }.apply(graph, owned(name))
}


#[test]
fn sub_record_simple_regex() {
    let calc_regex = {
        let mut graph: CalcRegex<Count> = CalcRegex::new();
        let n1 = add_leaf(&mut graph, blank().lit("foo"), Some("foo"));
        let foo = Interim::CalcRegex(n1);
        let n2 = add_ident(&mut graph, &foo, "foo", Some("bar"));
        let root = n2;
        graph.set_root(root);
        graph
    };
    let mut reader = Reader::from_array("foo".as_bytes());
    let record = reader.parse(&calc_regex).unwrap();
    let sub_record = record.get_sub_record("foo").unwrap();
    assert_eq!(sub_record.get_all(), b"foo");
}

#[test]
fn sub_record_regex_nested() {
    let calc_regex = {
        let mut graph: CalcRegex<Count> = CalcRegex::new();
        let n1 = add_leaf(&mut graph, blank().lit("foo"), Some("foo"));
        let foo = Interim::CalcRegex(n1);
        let n2 = add_ident(&mut graph, &foo, "foo", Some("bar"));
        let bar = Interim::CalcRegex(n2);
        let n3 = add_ident(&mut graph, &bar, "bar", Some("baz"));
        let root = n3;
        graph.set_root(root);
        graph
    };
    let mut reader = Reader::from_array("foo".as_bytes());
    let record = reader.parse(&calc_regex).unwrap();
    let sub_record = record.get_sub_record("bar").unwrap();
    assert_eq!(sub_record.get_capture("foo").unwrap(), b"foo");
}

#[test]
fn sub_record_regex_nested_twice() {
    let calc_regex = {
        let mut graph: CalcRegex<Count> = CalcRegex::new();
        let n1 = add_leaf(&mut graph, blank().lit("foo"), Some("foo"));
        let foo = Interim::CalcRegex(n1);
        let n2 = add_ident(&mut graph, &foo, "foo", Some("bar"));
        let bar = Interim::CalcRegex(n2);
        let n3 = add_ident(&mut graph, &bar, "bar", Some("baz"));
        let baz = Interim::CalcRegex(n3);
        let n4 = add_ident(&mut graph, &baz, "baz", Some("bazz"));
        let root = n4;
        graph.set_root(root);
        graph
    };
    let mut reader = Reader::from_array("foo".as_bytes());
    let record = reader.parse(&calc_regex).unwrap();
    let sub_record = record.get_sub_record("baz").unwrap();
    let sub_record = sub_record.get_sub_record("bar").unwrap();
    assert_eq!(sub_record.get_capture("foo").unwrap(), b"foo");
}

#[test]
fn sub_record_repeat() {
    let calc_regex = {
        let mut graph: CalcRegex<Count> = CalcRegex::new();
        let letter = Interim::Regex(blank().range("a", "z"));
        let n1 = add_ident(&mut graph, &letter, "letter", None);
        let n2 = add_repeat(&mut graph, n1, 3, Some("foo"));
        let root = n2;
        graph.set_root(root);
        graph
    };
    let mut reader = Reader::from_array("abc".as_bytes());
    let record = reader.parse(&calc_regex).unwrap();
    let mut sub_records_iter = record.get_sub_records("letter").unwrap();
    assert_eq!(sub_records_iter.next().unwrap().get_all(), b"a");
    assert_eq!(sub_records_iter.next().unwrap().get_all(), b"b");
    assert_eq!(sub_records_iter.next().unwrap().get_all(), b"c");
    assert!(sub_records_iter.next().is_none());
}

#[test]
fn sub_record_repeat_concat() {
    let calc_regex = {
        let mut graph: CalcRegex<Count> = CalcRegex::new();
        let lhs = Interim::Regex(blank().repeat(blank().group(blank().range("a", "z")), 3));
        let rhs = Interim::Regex(blank().range("A", "Z").repeat(blank().group(blank().range("a", "z")), 2));
        let n1 = add_ident(&mut graph, &lhs, "lhs", None);
        let n2 = add_ident(&mut graph, &rhs, "rhs", None);
        let n3 = add_concat(&mut graph, n1, n2, Some("foo"));
        let foo = Interim::CalcRegex(n3);
        let n4 = add_ident(&mut graph, &foo, "foo", None);
        let n5 = add_repeat(&mut graph, n4, 2, Some("bar"));
        let root = n5;
        graph.set_root(root);
        graph
    };
    let mut reader = Reader::from_array("fooBarbarFoo".as_bytes());
    let record = reader.parse(&calc_regex).unwrap();
    let mut sub_records_iter = record.get_sub_records("foo").unwrap();
    let sub_record = sub_records_iter.next().unwrap();
    assert_eq!(sub_record.get_capture("lhs").unwrap(), b"foo");
    assert_eq!(sub_record.get_capture("rhs").unwrap(), b"Bar");
    let sub_record = sub_records_iter.next().unwrap();
    assert_eq!(sub_record.get_capture("lhs").unwrap(), b"bar");
    assert_eq!(sub_record.get_capture("rhs").unwrap(), b"Foo");
    assert!(sub_records_iter.next().is_none());
}

#[test]
fn sub_record_repeat_concat_nested() {
    let calc_regex = {
        let mut graph: CalcRegex<Count> = CalcRegex::new();
        let lhs = Interim::Regex(blank().repeat(blank().group(blank().range("a", "z")), 3));
        let rhs = Interim::Regex(blank().range("A", "Z").repeat(blank().group(blank().range("a", "z")), 2));
        let n1 = add_ident(&mut graph, &lhs, "lhs", None);
        let n2 = add_ident(&mut graph, &rhs, "rhs", None);
        let n3 = add_concat(&mut graph, n1, n2, Some("foo"));
        let foo = Interim::CalcRegex(n3);
        let n4 = add_ident(&mut graph, &foo, "foo", None);
        let n5 = add_repeat(&mut graph, n4, 2, Some("bar"));
        let bar = Interim::CalcRegex(n5);
        let n6 = add_ident(&mut graph, &bar, "bar", Some("baz"));
        let root = n6;
        graph.set_root(root);
        graph
    };
    let mut reader = Reader::from_array("fooBarbarFoo".as_bytes());
    let record = reader.parse(&calc_regex).unwrap();
    let mut sub_records_iter = record.get_sub_records("bar.foo").unwrap();
    let sub_record = sub_records_iter.next().unwrap();
    assert_eq!(sub_record.get_capture("lhs").unwrap(), b"foo");
    assert_eq!(sub_record.get_capture("rhs").unwrap(), b"Bar");
    let sub_record = sub_records_iter.next().unwrap();
    assert_eq!(sub_record.get_capture("lhs").unwrap(), b"bar");
    assert_eq!(sub_record.get_capture("rhs").unwrap(), b"Foo");
    assert!(sub_records_iter.next().is_none());
}

#[test]
fn sub_record_repeat_nested() {
    let calc_regex = {
        let mut graph: CalcRegex<Count> = CalcRegex::new();
        let lower = Interim::Regex(blank().range("a", "z"));
        let n1 = add_ident(&mut graph, &lower, "lower", None);
        let n2 = add_repeat(&mut graph, n1, 3, Some("inner"));
        let inner = Interim::CalcRegex(n2);
        let n3 = add_ident(&mut graph, &inner, "inner", None);
        let n4 = add_repeat(&mut graph, n3, 2, Some("outer"));
        let root = n4;
        graph.set_root(root);
        graph
    };
    let mut reader = Reader::from_array("foobar".as_bytes());
    let record = reader.parse(&calc_regex).unwrap();
    let mut sub_records_iter = record.get_sub_records("inner").unwrap();
    let sub_record = sub_records_iter.next().unwrap();
    let mut capture_iter = sub_record.get_captures("lower").unwrap();
    assert_eq!(capture_iter.next().unwrap(), b"f");
    assert_eq!(capture_iter.next().unwrap(), b"o");
    assert_eq!(capture_iter.next().unwrap(), b"o");
    assert!(capture_iter.next().is_none());
    let sub_record = sub_records_iter.next().unwrap();
    let mut capture_iter = sub_record.get_captures("lower").unwrap();
    assert_eq!(capture_iter.next().unwrap(), b"b");
    assert_eq!(capture_iter.next().unwrap(), b"a");
    assert_eq!(capture_iter.next().unwrap(), b"r");
    assert!(capture_iter.next().is_none());
    assert!(sub_records_iter.next().is_none());
}

#[test]
fn sub_record_repeat_nested_twice() {
    let calc_regex = {
        let mut graph: CalcRegex<Count> = CalcRegex::new();
        let lower = Interim::Regex(blank().range("a", "z"));
        let n1 = add_ident(&mut graph, &lower, "lower", None);
        let n2 = add_repeat(&mut graph, n1, 3, Some("inner"));
        let inner = Interim::CalcRegex(n2);
        let n3 = add_ident(&mut graph, &inner, "inner", None);
        let n4 = add_repeat(&mut graph, n3, 2, Some("outer"));
        let root = n4;
        graph.set_root(root);
        graph
    };
    let mut reader = Reader::from_array("foobar".as_bytes());
    let record = reader.parse(&calc_regex).unwrap();
    let mut sub_records_iter = record.get_sub_records("inner").unwrap();
    let sub_record = sub_records_iter.next().unwrap();
    let mut sub_sub_records_iter =
        sub_record.get_sub_records("lower").unwrap();
    assert_eq!(sub_sub_records_iter.next().unwrap().get_all(), b"f");
    assert_eq!(sub_sub_records_iter.next().unwrap().get_all(), b"o");
    assert_eq!(sub_sub_records_iter.next().unwrap().get_all(), b"o");
    assert!(sub_sub_records_iter.next().is_none());
    let sub_record = sub_records_iter.next().unwrap();
    let mut sub_sub_records_iter =
        sub_record.get_sub_records("lower").unwrap();
    assert_eq!(sub_sub_records_iter.next().unwrap().get_all(), b"b");
    assert_eq!(sub_sub_records_iter.next().unwrap().get_all(), b"a");
    assert_eq!(sub_sub_records_iter.next().unwrap().get_all(), b"r");
    assert!(sub_sub_records_iter.next().is_none());
    assert!(sub_records_iter.next().is_none());
}

///////////////////////////////////////////////////////////////////////////////
//      Erroneous Capture Access
///////////////////////////////////////////////////////////////////////////////

#[test]
fn sub_record_non_existent_single_capture() {
    let calc_regex = {
        let mut graph: CalcRegex<Count> = CalcRegex::new();
        let letter = Interim::Regex(blank().range("a", "z"));
        let n1 = add_ident(&mut graph, &letter, "letter", None);
        let n2 = add_repeat(&mut graph, n1, 3, Some("foo"));
        let root = n2;
        graph.set_root(root);
        graph
    };
    let mut reader = Reader::from_array("abc".as_bytes());
    let record = reader.parse(&calc_regex).unwrap();
    let err = record.get_sub_record("foo").unwrap_err();
    if let NameError::NoSuchName { name } = err {
        assert_eq!(name, "foo");
    } else {
        panic!("Unexpected error: {:?}", err);
    }
}

#[test]
fn sub_record_non_existent_repeat_capture() {
    let calc_regex = {
        let mut graph: CalcRegex<Count> = CalcRegex::new();
        let letter = Interim::Regex(blank().range("a", "z"));
        let n1 = add_ident(&mut graph, &letter, "letter", None);
        let n2 = add_repeat(&mut graph, n1, 3, Some("foo"));
        let root = n2;
        graph.set_root(root);
        graph
    };
    let mut reader = Reader::from_array("abc".as_bytes());
    let record = reader.parse(&calc_regex).unwrap();
    let err = record.get_sub_records("foo").unwrap_err();
    if let NameError::NoSuchName { name } = err {
        assert_eq!(name, "foo");
    } else {
        panic!("Unexpected error: {:?}", err);
    }
}

#[test]
fn sub_record_get_single_from_repeated() {
    let calc_regex = {
        let mut graph: CalcRegex<Count> = CalcRegex::new();
        let letter = Interim::Regex(blank().range("a", "z"));
        let n1 = add_ident(&mut graph, &letter, "letter", None);
        let n2 = add_repeat(&mut graph, n1, 3, Some("foo"));
        let root = n2;
        graph.set_root(root);
        graph
    };
    let mut reader = Reader::from_array("abc".as_bytes());
    let record = reader.parse(&calc_regex).unwrap();
    let err = record.get_sub_record("letter").unwrap_err();
    if let NameError::MisplacedSingleAccess { name } = err {
        assert_eq!(name, "letter");
    } else {
        panic!("Unexpected error: {:?}", err);
    }
}

#[test]
fn sub_record_get_repeated_from_single() {
    let calc_regex = {
        let mut graph: CalcRegex<Count> = CalcRegex::new();
        let letter = Interim::Regex(blank().range("a", "z"));
        let n1 = add_ident(&mut graph, &letter, "letter", Some("foo"));
        let root = n1;
        graph.set_root(root);
        graph
    };
    let mut reader = Reader::from_array("a".as_bytes());
    let record = reader.parse(&calc_regex).unwrap();
    let err = record.get_sub_records("letter").unwrap_err();
    if let NameError::MisplacedRepeatAccess { name } = err {
        assert_eq!(name, "letter");
    } else {
        panic!("Unexpected error: {:?}", err);
    }
}
