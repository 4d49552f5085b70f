#![allow(dead_code, unused_variables, unused_imports)]

use calc_regex::calc_regex::{Inner, NodeIndex};
use calc_regex::generate::{CalcRegexProduction, Interim, InterimRegex, RegexProduction};
use calc_regex::{CalcRegex, NameError, ParserError, Reader};

/// The type of the functions that read a count.
type Count = fn(&[u8]) -> Option<usize>;

/// An empty regex, to which productions are applied one after the other.
fn blank() -> InterimRegex {
    InterimRegex::new()
}

/// The productions for regexes, written as a chain.
trait Chain: Sized {
    fn lit(self, s: &str) -> Self;
    fn byte(self, v: &str) -> Self;
    fn id(self, interim: &Interim) -> Self;
    fn group(self, el: InterimRegex) -> Self;
    fn choice(self) -> Self;
    fn star(self, el: InterimRegex) -> Self;
    fn plus(self, el: InterimRegex) -> Self;
    fn repeat(self, el: InterimRegex, n: usize) -> Self;
    fn range(self, min: &str, max: &str) -> Self;
    fn hex_range(self, min: &str, max: &str) -> Self;
}

impl Chain for InterimRegex {
    fn lit(self, s: &str) -> Self {
        RegexProduction::Literal(s).apply(self)
    }

    fn byte(self, v: &str) -> Self {
        RegexProduction::ByteLiteral(v).apply(self)
    }

    fn id(self, interim: &Interim) -> Self {
        RegexProduction::Identifier(interim).apply(self)
    }

    fn group(self, el: InterimRegex) -> Self {
        RegexProduction::Parentheses(&el).apply(self)
    }

    fn choice(self) -> Self {
        RegexProduction::Choice.apply(self)
    }

    fn star(self, el: InterimRegex) -> Self {
        RegexProduction::KleeneStar(&el).apply(self)
    }

    fn plus(self, el: InterimRegex) -> Self {
        RegexProduction::KleenePlus(&el).apply(self)
    }

    fn repeat(self, el: InterimRegex, n: usize) -> Self {
        RegexProduction::Repeat(&el, n).apply(self)
    }

    fn range(self, min: &str, max: &str) -> Self {
        RegexProduction::CharRange(min, max).apply(self)
    }

    fn hex_range(self, min: &str, max: &str) -> Self {
        RegexProduction::HexRange(min, max).apply(self)
    }
}

fn owned(name: Option<&str>) -> Option<String> {
    name.map(|n| n.to_owned())
}

fn add_leaf(graph: &mut CalcRegex<Count>, re: InterimRegex, name: Option<&str>) -> NodeIndex {
    CalcRegexProduction::Regex(&re).apply(graph, owned(name))
}

fn add_ident(
    graph: &mut CalcRegex<Count>,
    interim: &Interim,
    identifier: &str,
    name: Option<&str>,
) -> NodeIndex {
    CalcRegexProduction::Identifier(interim, identifier.to_owned()).apply(graph, owned(name))
}

fn add_concat(
    graph: &mut CalcRegex<Count>,
    lhs: NodeIndex,
    rhs: NodeIndex,
    name: Option<&str>,
) -> NodeIndex {
    CalcRegexProduction::Concat(lhs, rhs).apply(graph, owned(name))
}

fn add_repeat(graph: &mut CalcRegex<Count>, c: NodeIndex, n: usize, name: Option<&str>) -> NodeIndex {
    CalcRegexProduction::Repeat(c, n).apply(graph, owned(name))
}

fn add_kleene(graph: &mut CalcRegex<Count>, c: NodeIndex, name: Option<&str>) -> NodeIndex {
    CalcRegexProduction::KleeneStar(c).apply(graph, owned(name))
}

fn add_length_count(
    graph: &mut CalcRegex<Count>,
    r: NodeIndex,
    s: Option<NodeIndex>,
    t: NodeIndex,
    f: Count,
    name: Option<&str>,
) -> NodeIndex {
    CalcRegexProduction::LengthCount { r, s, t, f }.apply(graph, owned(name))
}

fn add_occurrence_count(
    graph: &mut CalcRegex<Count>,
    r: NodeIndex,
    s: Option<NodeIndex>,
    t: NodeIndex,
    f: Count,
    name: Option<&str>,
) -> NodeIndex {
    CalcRegexProduction::OccurrenceCount { r, s, t, f }.apply(graph, owned(name))
}

use std::str;

/// Parses a bytestring containing a number and a trailing colon in ASCII
/// format to the respective number, discarding the colon.
fn decimal(pf_number: &[u8]) -> Option<usize> {
    let (number, colon) = pf_number.split_at(pf_number.len() - 1);
    if colon != [b':'] {
        return None;
    }
    let number = match str::from_utf8(number) {
        Ok(n) => n,
        Err(_) => return None,
    };
    number.parse::<usize>().ok()
}

#[test]
fn calc_regex_simple_regex() {
    let re: CalcRegex<Count> = {
        let mut graph: CalcRegex<Count> = CalcRegex::new();
        let n1 = add_leaf(&mut graph, blank().lit("foo"), Some("re"));
        let root = n1;
        graph.set_root(root);
        graph
    };
    let mut reader = calc_regex::Reader::from_array(b"foo");
    let record = reader.parse(&re).unwrap();
    let expected = b"foo";
    let actual = record.get_all();
    assert_eq!(expected, actual);
}

#[test]
fn repeat_foo() {
    let re = {
        let mut graph: CalcRegex<Count> = CalcRegex::new();
        let foo = Interim::Regex(blank().lit("foo"));
        let n1 = add_ident(&mut graph, &foo, "foo", None);
        let n2 = add_repeat(&mut graph, n1, 3, Some("re"));
        let root = n2;
        graph.set_root(root);
        graph
    };
    let mut reader = calc_regex::Reader::from_array(b"foofoofoo");
    let record = reader.parse(&re).unwrap();

    let expected = b"foofoofoo";
    let actual = record.get_all();
    assert_eq!(expected, actual);

    let expected = b"foo";
    let actual = record.get_capture("foo[0]").unwrap();
    assert_eq!(expected, actual);

    let expected = b"foo";
    let actual = record.get_capture("foo[1]").unwrap();
    assert_eq!(expected, actual);

    let expected = b"foo";
    let actual = record.get_capture("foo[2]").unwrap();
    assert_eq!(expected, actual);
}

#[test]
fn calc_regex_repeat_regex() {
    let re = {
        let mut graph: CalcRegex<Count> = CalcRegex::new();
        let character = Interim::Regex(blank().range("a", "z").choice().range("A", "Z"));
        let word = Interim::Regex(blank().repeat(blank().id(&character), 3));
        let n1 = add_ident(&mut graph, &word, "word", None);
        let n2 = add_repeat(&mut graph, n1, 2, Some("re"));
        let root = n2;
        graph.set_root(root);
        graph
    };
    let mut reader = calc_regex::Reader::from_array(b"FooBar");
    let record = reader.parse(&re).unwrap();

    let expected = b"FooBar";
    let actual = record.get_all();
    assert_eq!(expected, actual);

    let expected = b"Foo";
    let actual = record.get_capture("word[0]").unwrap();
    assert_eq!(expected, actual);

    let expected = b"Bar";
    let actual = record.get_capture("word[1]").unwrap();
    assert_eq!(expected, actual);
}

#[test]
fn repeat_repeat() {
    let re = {
        let mut graph: CalcRegex<Count> = CalcRegex::new();
        let character = Interim::Regex(blank().range("a", "z").choice().range("A", "Z"));
        let n1 = add_ident(&mut graph, &character, "character", None);
        let n2 = add_repeat(&mut graph, n1, 3, Some("word"));
        let word = Interim::CalcRegex(n2);
        let n3 = add_ident(&mut graph, &word, "word", None);
        let n4 = add_repeat(&mut graph, n3, 2, Some("re"));
        let root = n4;
        graph.set_root(root);
        graph
    };
    let mut reader = calc_regex::Reader::from_array(b"FooBar");
    let record = reader.parse(&re).unwrap();

    let expected = b"FooBar";
    let actual = record.get_all();
    assert_eq!(expected, actual);

    let expected = b"Foo";
    let actual = record.get_capture("word[0]").unwrap();
    assert_eq!(expected, actual);

    let expected = b"Bar";
    let actual = record.get_capture("word[1]").unwrap();
    assert_eq!(expected, actual);

    let expected = b"F";
    let actual = record.get_capture("word[0].character[0]").unwrap();
    assert_eq!(expected, actual);

    let expected = b"o";
    let actual = record.get_capture("word[0].character[1]").unwrap();
    assert_eq!(expected, actual);

    let expected = b"o";
    let actual = record.get_capture("word[0].character[2]").unwrap();
    assert_eq!(expected, actual);

    let expected = b"B";
    let actual = record.get_capture("word[1].character[0]").unwrap();
    assert_eq!(expected, actual);

    let expected = b"a";
    let actual = record.get_capture("word[1].character[1]").unwrap();
    assert_eq!(expected, actual);

    let expected = b"r";
    let actual = record.get_capture("word[1].character[2]").unwrap();
    assert_eq!(expected, actual);
}

#[test]
fn repeat_regex_oneline() {
    let re = {
        let mut graph: CalcRegex<Count> = CalcRegex::new();
        let n1 = add_leaf(&mut graph, blank().repeat(blank().group(blank().repeat(blank().group(blank().range("a", "z").choice().range("A", "Z")), 3)), 2), Some("re"));
        let root = n1;
        graph.set_root(root);
        graph
    };
    let mut reader = calc_regex::Reader::from_array(b"FooBar");
    let record = reader.parse(&re).unwrap();

    let expected = b"FooBar";
    let actual = record.get_all();
    assert_eq!(expected, actual);

    // let expected = b"Foo";
    // let actual = record.get_capture("0").unwrap();
    // assert_eq!(expected, actual);

    // let expected = b"Bar";
    // let actual = record.get_capture("1").unwrap();
    // assert_eq!(expected, actual);
}

#[test]
fn repeat_regex_bounded() {
    let re = {
        let mut graph: CalcRegex<Count> = CalcRegex::new();
        let byte = Interim::Regex(blank().hex_range("0", "FF"));
        let character = Interim::Regex(blank().range("a", "z").choice().range("A", "Z"));
        let number = Interim::Regex(blank().range("0", "9").lit(":"));
        let n1 = add_ident(&mut graph, &character, "character", None);
        let n2 = add_repeat(&mut graph, n1, 3, Some("value"));
        let value = Interim::CalcRegex(n2);
        let n3 = add_ident(&mut graph, &number, "number", None);
        let n4 = add_ident(&mut graph, &value, "value", None);
        let n5 = add_leaf(&mut graph, blank().star(blank().id(&byte)), None);
        let n6 = add_concat(&mut graph, n4, n5, None);
        let n7 = add_length_count(&mut graph, n3, None, n6, decimal, Some("re"));
        let root = n7;
        graph.set_root(root);
        graph
    };
    let mut reader = calc_regex::Reader::from_array(b"5:Fooxy");
    let record = reader.parse(&re).unwrap();

    let expected = b"5:Fooxy";
    let actual = record.get_all();
    assert_eq!(expected, actual);

    let expected = b"Foo";
    let actual = record.get_capture("value").unwrap();
    assert_eq!(expected, actual);

    let expected = b"F";
    let actual = record.get_capture("value.character[0]").unwrap();
    assert_eq!(expected, actual);

    let expected = b"o";
    let actual = record.get_capture("value.character[1]").unwrap();
    assert_eq!(expected, actual);

    let expected = b"o";
    let actual = record.get_capture("value.character[2]").unwrap();
    assert_eq!(expected, actual);
}

#[test]
fn repeat_regex_bounded_exeeded() {
    let re = {
        let mut graph: CalcRegex<Count> = CalcRegex::new();
        let byte = Interim::Regex(blank().hex_range("0", "FF"));
        let character = Interim::Regex(blank().range("a", "z").choice().range("A", "Z"));
        let number = Interim::Regex(blank().range("0", "9").lit(":"));
        let n1 = add_ident(&mut graph, &character, "character", None);
        let n2 = add_repeat(&mut graph, n1, 3, Some("value"));
        let value = Interim::CalcRegex(n2);
        let n3 = add_ident(&mut graph, &number, "number", None);
        let n4 = add_ident(&mut graph, &value, "value", None);
        let n5 = add_leaf(&mut graph, blank().star(blank().id(&byte)), None);
        let n6 = add_concat(&mut graph, n4, n5, None);
        let n7 = add_length_count(&mut graph, n3, None, n6, decimal, Some("re"));
        let root = n7;
        graph.set_root(root);
        graph
    };
    let mut reader = calc_regex::Reader::from_array(b"2:Fooxy");
    let err = reader.parse(&re).unwrap_err();
    if let calc_regex::ParserError::Regex { .. } = err {
    } else {
        panic!("Unexpected error: {:?}", err);
    }
}

#[test]
fn repeat_regex_exact() {
    let re = {
        let mut graph: CalcRegex<Count> = CalcRegex::new();
        let character = Interim::Regex(blank().range("a", "z").choice().range("A", "Z"));
        let number = Interim::Regex(blank().range("0", "9").lit(":"));
        let n1 = add_ident(&mut graph, &character, "character", None);
        let n2 = add_repeat(&mut graph, n1, 3, Some("value"));
        let value = Interim::CalcRegex(n2);
        let n3 = add_ident(&mut graph, &number, "number", None);
        let n4 = add_ident(&mut graph, &value, "value", None);
        let n5 = add_length_count(&mut graph, n3, None, n4, decimal, Some("re"));
        let root = n5;
        graph.set_root(root);
        graph
    };
    let mut reader = calc_regex::Reader::from_array(b"3:Foo");
    let record = reader.parse(&re).unwrap();

    let expected = b"3:Foo";
    let actual = record.get_all();
    assert_eq!(expected, actual);

    let expected = b"Foo";
    let actual = record.get_capture("value").unwrap();
    assert_eq!(expected, actual);
}

#[test]
fn repeat_regex_exact_exceeded() {
    let re = {
        let mut graph: CalcRegex<Count> = CalcRegex::new();
        let character = Interim::Regex(blank().range("a", "z").choice().range("A", "Z"));
        let number = Interim::Regex(blank().range("0", "9").lit(":"));
        let n1 = add_ident(&mut graph, &character, "character", None);
        let n2 = add_repeat(&mut graph, n1, 3, Some("value"));
        let value = Interim::CalcRegex(n2);
        let n3 = add_ident(&mut graph, &number, "number", None);
        let n4 = add_ident(&mut graph, &value, "value", None);
        let n5 = add_length_count(&mut graph, n3, None, n4, decimal, Some("re"));
        let root = n5;
        graph.set_root(root);
        graph
    };
    let mut reader = calc_regex::Reader::from_array(b"2:Foo");
    let err = reader.parse(&re).unwrap_err();
    if let calc_regex::ParserError::Regex { .. } = err {
    } else {
        panic!("Unexpected error: {:?}", err);
    }
}

#[test]
fn repeat_regex_exact_too_short() {
    let re = {
        let mut graph: CalcRegex<Count> = CalcRegex::new();
        let character = Interim::Regex(blank().range("a", "z").choice().range("A", "Z"));
        let number = Interim::Regex(blank().range("0", "9").lit(":"));
        let n1 = add_ident(&mut graph, &character, "character", None);
        let n2 = add_repeat(&mut graph, n1, 3, Some("value"));
        let value = Interim::CalcRegex(n2);
        let n3 = add_ident(&mut graph, &number, "number", None);
        let n4 = add_ident(&mut graph, &value, "value", None);
        let n5 = add_length_count(&mut graph, n3, None, n4, decimal, Some("re"));
        let root = n5;
        graph.set_root(root);
        graph
    };
    let mut reader = calc_regex::Reader::from_array(b"4:Foo");
    let err = reader.parse(&re).unwrap_err();
    if let calc_regex::ParserError::ConflictingBounds { old, new } = err {
        assert_eq!(old, 2);
        assert_eq!(new, 1);
    } else {
        panic!("Unexpected error: {:?}", err);
    }
}

#[test]
fn occurrence_count_bounded() {
    let re = {
        let mut graph: CalcRegex<Count> = CalcRegex::new();
        let byte = Interim::Regex(blank().hex_range("0", "FF"));
        let character = Interim::Regex(blank().range("a", "z").choice().range("A", "Z"));
        let number = Interim::Regex(blank().star(blank().group(blank().range("0", "9"))).lit(":"));
        let word = Interim::Regex(blank().repeat(blank().id(&character), 3));
        let n1 = add_ident(&mut graph, &number, "number", None);
        let n2 = add_ident(&mut graph, &word, "word", None);
        let n3 = add_occurrence_count(&mut graph, n1, None, n2, decimal, Some("value"));
        let value = Interim::CalcRegex(n3);
        let n4 = add_ident(&mut graph, &number, "number", None);
        let n5 = add_ident(&mut graph, &value, "value", None);
        let n6 = add_leaf(&mut graph, blank().star(blank().id(&byte)), None);
        let n7 = add_concat(&mut graph, n5, n6, None);
        let n8 = add_length_count(&mut graph, n4, None, n7, decimal, Some("re"));
        let root = n8;
        graph.set_root(root);
        graph
    };
    let mut reader = calc_regex::Reader::from_array(b"10:2:FooBarXY");
    let record = reader.parse(&re).unwrap();

    let expected = b"10:2:FooBarXY";
    let actual = record.get_all();
    assert_eq!(expected, actual);

    let expected = b"2:FooBar";
    let actual = record.get_capture("value").unwrap();
    assert_eq!(expected, actual);

    let expected = b"Foo";
    let actual = record.get_capture("value.word[0]").unwrap();
    assert_eq!(expected, actual);

    let expected = b"Bar";
    let actual = record.get_capture("value.word[1]").unwrap();
    assert_eq!(expected, actual);
}

#[test]
fn occurrence_count_bounded_too_long() {
    let re = {
        let mut graph: CalcRegex<Count> = CalcRegex::new();
        let byte = Interim::Regex(blank().hex_range("0", "FF"));
        let character = Interim::Regex(blank().range("a", "z").choice().range("A", "Z"));
        let number = Interim::Regex(blank().range("0", "9").lit(":"));
        let word = Interim::Regex(blank().repeat(blank().id(&character), 3));
        let n1 = add_ident(&mut graph, &number, "number", None);
        let n2 = add_ident(&mut graph, &word, "word", None);
        let n3 = add_occurrence_count(&mut graph, n1, None, n2, decimal, Some("value"));
        let value = Interim::CalcRegex(n3);
        let n4 = add_ident(&mut graph, &number, "number", None);
        let n5 = add_ident(&mut graph, &value, "value", None);
        let n6 = add_leaf(&mut graph, blank().star(blank().id(&byte)), None);
        let n7 = add_concat(&mut graph, n5, n6, None);
        let n8 = add_length_count(&mut graph, n4, None, n7, decimal, Some("re"));
        let root = n8;
        graph.set_root(root);
        graph
    };
    let mut reader = calc_regex::Reader::from_array(b"9:2:FooBar");
    let err = reader.parse(&re).unwrap_err();
    if let calc_regex::ParserError::UnexpectedEof = err {
    } else {
        panic!("Unexpected error: {:?}", err);
    }
}

#[test]
fn occurrence_count_bounded_exceeded() {
    let re = {
        let mut graph: CalcRegex<Count> = CalcRegex::new();
        let byte = Interim::Regex(blank().hex_range("0", "FF"));
        let character = Interim::Regex(blank().range("a", "z").choice().range("A", "Z"));
        let number = Interim::Regex(blank().range("0", "9").lit(":"));
        let word = Interim::Regex(blank().repeat(blank().id(&character), 3));
        let n1 = add_ident(&mut graph, &number, "number", None);
        let n2 = add_ident(&mut graph, &word, "word", None);
        let n3 = add_occurrence_count(&mut graph, n1, None, n2, decimal, Some("value"));
        let value = Interim::CalcRegex(n3);
        let n4 = add_ident(&mut graph, &number, "number", None);
        let n5 = add_ident(&mut graph, &value, "value", None);
        let n6 = add_leaf(&mut graph, blank().star(blank().id(&byte)), None);
        let n7 = add_concat(&mut graph, n5, n6, None);
        let n8 = add_length_count(&mut graph, n4, None, n7, decimal, Some("re"));
        let root = n8;
        graph.set_root(root);
        graph
    };
    let mut reader = calc_regex::Reader::from_array(b"7:2:FooBar");
    let err = reader.parse(&re).unwrap_err();
    if let calc_regex::ParserError::Regex { .. } = err {
    } else {
        panic!("Unexpected error: {:?}", err);
    }
}

#[test]
fn length_count_exact() {
    let re = {
        let mut graph: CalcRegex<Count> = CalcRegex::new();
        let character = Interim::Regex(blank().range("a", "z").choice().range("A", "Z"));
        let number = Interim::Regex(blank().range("0", "9").lit(":"));
        let n1 = add_ident(&mut graph, &number, "number", None);
        let n2 = add_ident(&mut graph, &character, "character", None);
        let n3 = add_kleene(&mut graph, n2, None);
        let n4 = add_length_count(&mut graph, n1, None, n3, decimal, Some("value"));
        let value = Interim::CalcRegex(n4);
        let n5 = add_ident(&mut graph, &number, "number", None);
        let n6 = add_ident(&mut graph, &value, "value", None);
        let n7 = add_length_count(&mut graph, n5, None, n6, decimal, Some("re"));
        let root = n7;
        graph.set_root(root);
        graph
    };
    let mut reader = calc_regex::Reader::from_array(b"5:3:Foo");
    let record = reader.parse(&re).unwrap();

    let expected = b"5:3:Foo";
    let actual = record.get_all();
    assert_eq!(expected, actual);

    let expected = b"3:Foo";
    let actual = record.get_capture("value").unwrap();
    assert_eq!(expected, actual);
}

#[test]
fn length_count_exact_exceeded() {
    let re = {
        let mut graph: CalcRegex<Count> = CalcRegex::new();
        let character = Interim::Regex(blank().range("a", "z").choice().range("A", "Z"));
        let number = Interim::Regex(blank().range("0", "9").lit(":"));
        let n1 = add_ident(&mut graph, &number, "number", None);
        let n2 = add_ident(&mut graph, &character, "character", None);
        let n3 = add_kleene(&mut graph, n2, None);
        let n4 = add_length_count(&mut graph, n1, None, n3, decimal, Some("value"));
        let value = Interim::CalcRegex(n4);
        let n5 = add_ident(&mut graph, &number, "number", None);
        let n6 = add_ident(&mut graph, &value, "value", None);
        let n7 = add_length_count(&mut graph, n5, None, n6, decimal, Some("re"));
        let root = n7;
        graph.set_root(root);
        graph
    };
    let mut reader = calc_regex::Reader::from_array(b"4:3:Foo");
    let err = reader.parse(&re).unwrap_err();
    if let calc_regex::ParserError::ConflictingBounds { old, new } = err {
        assert_eq!(old, 2);
        assert_eq!(new, 3);
    } else {
        panic!("Unexpected error: {:?}", err);
    }
}

#[test]
fn length_count_exact_too_short() {
    let re = {
        let mut graph: CalcRegex<Count> = CalcRegex::new();
        let character = Interim::Regex(blank().range("a", "z").choice().range("A", "Z"));
        let number = Interim::Regex(blank().range("0", "9").lit(":"));
        let n1 = add_ident(&mut graph, &number, "number", None);
        let n2 = add_ident(&mut graph, &character, "character", None);
        let n3 = add_kleene(&mut graph, n2, None);
        let n4 = add_length_count(&mut graph, n1, None, n3, decimal, Some("value"));
        let value = Interim::CalcRegex(n4);
        let n5 = add_ident(&mut graph, &number, "number", None);
        let n6 = add_ident(&mut graph, &value, "value", None);
        let n7 = add_length_count(&mut graph, n5, None, n6, decimal, Some("re"));
        let root = n7;
        graph.set_root(root);
        graph
    };
    let mut reader = calc_regex::Reader::from_array(b"6:3:Foo");
    let err = reader.parse(&re).unwrap_err();
    if let calc_regex::ParserError::ConflictingBounds { old, new } = err {
        assert_eq!(old, 4);
        assert_eq!(new, 3);
    } else {
        panic!("Unexpected error: {:?}", err);
    }
}

#[test]
fn occurrence_count_exact() {
    let re = {
        let mut graph: CalcRegex<Count> = CalcRegex::new();
        let character = Interim::Regex(blank().range("a", "z").choice().range("A", "Z"));
        let number = Interim::Regex(blank().range("0", "9").lit(":"));
        let n1 = add_ident(&mut graph, &number, "number", None);
        let n2 = add_ident(&mut graph, &character, "character", None);
        let n3 = add_occurrence_count(&mut graph, n1, None, n2, decimal, Some("value"));
        let value = Interim::CalcRegex(n3);
        let n4 = add_ident(&mut graph, &number, "number", None);
        let n5 = add_ident(&mut graph, &value, "value", None);
        let n6 = add_length_count(&mut graph, n4, None, n5, decimal, Some("re"));
        let root = n6;
        graph.set_root(root);
        graph
    };
    let mut reader = calc_regex::Reader::from_array(b"5:3:Foo");
    let record = reader.parse(&re).unwrap();

    let expected = b"5:3:Foo";
    let actual = record.get_all();
    assert_eq!(expected, actual);

    let expected = b"3:Foo";
    let actual = record.get_capture("value").unwrap();
    assert_eq!(expected, actual);
}

#[test]
fn occurrence_count_exact_exceeded() {
    let re = {
        let mut graph: CalcRegex<Count> = CalcRegex::new();
        let character = Interim::Regex(blank().range("a", "z").choice().range("A", "Z"));
        let number = Interim::Regex(blank().range("0", "9").lit(":"));
        let n1 = add_ident(&mut graph, &number, "number", None);
        let n2 = add_ident(&mut graph, &character, "character", None);
        let n3 = add_occurrence_count(&mut graph, n1, None, n2, decimal, Some("value"));
        let value = Interim::CalcRegex(n3);
        let n4 = add_ident(&mut graph, &number, "number", None);
        let n5 = add_ident(&mut graph, &value, "value", None);
        let n6 = add_length_count(&mut graph, n4, None, n5, decimal, Some("re"));
        let root = n6;
        graph.set_root(root);
        graph
    };
    let mut reader = calc_regex::Reader::from_array(b"4:3:Foo");
    let err = reader.parse(&re).unwrap_err();
    if let calc_regex::ParserError::Regex { .. } = err {
    } else {
        panic!("Unexpected error: {:?}", err);
    }
}

#[test]
fn occurence_count_exact_too_short() {
    let re = {
        let mut graph: CalcRegex<Count> = CalcRegex::new();
        let character = Interim::Regex(blank().range("a", "z").choice().range("A", "Z"));
        let number = Interim::Regex(blank().range("0", "9").lit(":"));
        let n1 = add_ident(&mut graph, &number, "number", None);
        let n2 = add_ident(&mut graph, &character, "character", None);
        let n3 = add_occurrence_count(&mut graph, n1, None, n2, decimal, Some("value"));
        let value = Interim::CalcRegex(n3);
        let n4 = add_ident(&mut graph, &number, "number", None);
        let n5 = add_ident(&mut graph, &value, "value", None);
        let n6 = add_length_count(&mut graph, n4, None, n5, decimal, Some("re"));
        let root = n6;
        graph.set_root(root);
        graph
    };
    let mut reader = calc_regex::Reader::from_array(b"6:3:Foo");
    let err = reader.parse(&re).unwrap_err();
    if let calc_regex::ParserError::ConflictingBounds { old, new } = err {
        assert_eq!(old, 2);
        assert_eq!(new, 1);
    } else {
        panic!("Unexpected error: {:?}", err);
    }
}

#[test]
fn concatenated_equal_names() {
    let re = {
        let mut graph: CalcRegex<Count> = CalcRegex::new();
        let foo = Interim::Regex(blank().repeat(blank().group(blank().range("a", "z")), 3));
        let n1 = add_ident(&mut graph, &foo, "foo", None);
        let n2 = add_ident(&mut graph, &foo, "foo", None);
        let n3 = add_ident(&mut graph, &foo, "foo", None);
        let n4 = add_concat(&mut graph, n2, n3, None);
        let n5 = add_concat(&mut graph, n1, n4, Some("re"));
        let root = n5;
        graph.set_root(root);
        graph
    };
    let mut reader = calc_regex::Reader::from_array(b"foobarbaz");
    let record = reader.parse(&re).unwrap();

    let expected = b"foo";
    let actual = record.get_capture("foo").unwrap();
    assert_eq!(expected, actual);

    let expected = b"bar";
    let actual = record.get_capture("foo'").unwrap();
    assert_eq!(expected, actual);

    let expected = b"baz";
    let actual = record.get_capture("foo''").unwrap();
    assert_eq!(expected, actual);
}

#[test]
fn anonymous_length_count() {
    let re = {
        let mut graph: CalcRegex<Count> = CalcRegex::new();
        let n1 = add_leaf(&mut graph, blank().range("0", "9"), None);
        let n2 = add_leaf(&mut graph, blank().lit(":"), None);
        let n3 = add_concat(&mut graph, n1, n2, None);
        let n4 = add_leaf(&mut graph, blank().range("a", "z"), None);
        let n5 = add_kleene(&mut graph, n4, None);
        let n6 = add_length_count(&mut graph, n3, None, n5, decimal, Some("re"));
        let root = n6;
        graph.set_root(root);
        graph
    };
    let mut reader = calc_regex::Reader::from_array(b"3:foo");
    let record = reader.parse(&re).unwrap();

    let expected = b"3:";
    let actual = record.get_capture("$count").unwrap();
    assert_eq!(expected, actual);

    let expected = b"foo";
    let actual = record.get_capture("$value").unwrap();
    assert_eq!(expected, actual);
}

#[test]
fn multiple_anonymous_length_count() {
    let re = {
        let mut graph: CalcRegex<Count> = CalcRegex::new();
        let n1 = add_leaf(&mut graph, blank().range("0", "9"), None);
        let n2 = add_leaf(&mut graph, blank().lit(":"), None);
        let n3 = add_concat(&mut graph, n1, n2, None);
        let n4 = add_leaf(&mut graph, blank().range("a", "z"), None);
        let n5 = add_kleene(&mut graph, n4, None);
        let n6 = add_length_count(&mut graph, n3, None, n5, decimal, None);
        let n7 = add_leaf(&mut graph, blank().range("0", "9"), None);
        let n8 = add_leaf(&mut graph, blank().lit(":"), None);
        let n9 = add_concat(&mut graph, n7, n8, None);
        let n10 = add_leaf(&mut graph, blank().range("a", "z"), None);
        let n11 = add_kleene(&mut graph, n10, None);
        let n12 = add_length_count(&mut graph, n9, None, n11, decimal, None);
        let n13 = add_concat(&mut graph, n6, n12, Some("re"));
        let root = n13;
        graph.set_root(root);
        graph
    };
    let mut reader = calc_regex::Reader::from_array(b"3:foo4:baar");
    let record = reader.parse(&re).unwrap();

    let expected = b"3:";
    let actual = record.get_capture("$count").unwrap();
    assert_eq!(expected, actual);

    let expected = b"foo";
    let actual = record.get_capture("$value").unwrap();
    assert_eq!(expected, actual);

    let expected = b"4:";
    let actual = record.get_capture("$count'").unwrap();
    assert_eq!(expected, actual);

    let expected = b"baar";
    let actual = record.get_capture("$value'").unwrap();
    assert_eq!(expected, actual);
}
