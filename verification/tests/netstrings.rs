#![allow(dead_code, unused_variables, unused_imports)]

use calc_regex::calc_regex::{Inner, NodeIndex};
use calc_regex::generate::{CalcRegexProduction, Interim, InterimRegex, RegexProduction};
use calc_regex::{CalcRegex, NameError, ParserError, Reader};

/// The type of the functions that read a count.
type Count = fn(&[u8]) -> Option<usize>;

/// An empty regex, to which productions are applied one after the other.
fn blank() -> InterimRegex {
    InterimRegex::new()
}

/// The productions for regexes, written as a chain.
trait Chain: Sized {
    fn lit(self, s: &str) -> Self;
    fn byte(self, v: &str) -> Self;
    fn id(self, interim: &Interim) -> Self;
    fn group(self, el: InterimRegex) -> Self;
    fn choice(self) -> Self;
    fn star(self, el: InterimRegex) -> Self;
    fn plus(self, el: InterimRegex) -> Self;
    fn repeat(self, el: InterimRegex, n: usize) -> Self;
    fn range(self, min: &str, max: &str) -> Self;
    fn hex_range(self, min: &str, max: &str) -> Self;
}

impl Chain for InterimRegex {
    fn lit(self, s: &str) -> Self {
        RegexProduction::Literal(s).apply(self)
    }

    fn byte(self, v: &str) -> Self {
        RegexProduction::ByteLiteral(v).apply(self)
    }

    fn id(self, interim: &Interim) -> Self {
        RegexProduction::Identifier(interim).apply(self)
    }

    fn group(self, el: InterimRegex) -> Self {
        RegexProduction::Parentheses(&el).apply(self)
    }

    fn choice(self) -> Self {
        RegexProduction::Choice.apply(self)
    }

    fn star(self, el: InterimRegex) -> Self {
        RegexProduction::KleeneStar(&el).apply(self)
    }

    fn plus(self, el: InterimRegex) -> Self {
        RegexProduction::KleenePlus(&el).apply(self)
    }

    fn repeat(self, el: InterimRegex, n: usize) -> Self {
        RegexProduction::Repeat(&el, n).apply(self)
    }

    fn range(self, min: &str, max: &str) -> Self {
        RegexProduction::CharRange(min, max).apply(self)
    }

    fn hex_range(self, min: &str, max: &str) -> Self {
        RegexProduction::HexRange(min, max).apply(self)
    }
}

fn owned(name: Option<&str>) -> Option<String> {
    name.map(|n| n.to_owned())
}

fn add_leaf(graph: &mut CalcRegex<Count>, re: InterimRegex, name: Option<&str>) -> NodeIndex {
    CalcRegexProduction::Regex(&re).apply(graph, owned(name))
}

fn add_ident(
    graph: &mut CalcRegex<Count>,
    interim: &Interim,
    identifier: &str,
    name: Option<&str>,
) -> NodeIndex {
    CalcRegexProduction::Identifier(interim, identifier.to_owned()).apply(graph, owned(name))
}

fn add_concat(
    graph: &mut CalcRegex<Count>,
    lhs: NodeIndex,
    rhs: NodeIndex,
    name: Option<&str>,
) -> NodeIndex {
    CalcRegexProduction::Concat(lhs, rhs).apply(graph, owned(name))
}

fn add_repeat(graph: &mut CalcRegex<Count>, c: NodeIndex, n: usize, name: Option<&str>) -> NodeIndex {
    CalcRegexProduction::Repeat(c, n).apply(graph, owned(name))
}

fn add_kleene(graph: &mut CalcRegex<Count>, c: NodeIndex, name: Option<&str>) -> NodeIndex {
    CalcRegexProduction::KleeneStar(c).apply(graph, owned(name))
}

fn add_length_count(
    graph: &mut CalcRegex<Count>,
    r: NodeIndex,
    s: Option<NodeIndex>,
    t: NodeIndex,
    f: Count,
    name: Option<&str>,
) -> NodeIndex {
    CalcRegexProduction::LengthCount { r, s, t, f }.apply(graph, owned(name))
}

fn add_occurrence_count(
    graph: &mut CalcRegex<Count>,
    r: NodeIndex,
    s: Option<NodeIndex>,
    t: NodeIndex,
    f: Count,
    name: Option<&str>,
) -> NodeIndex {
    CalcRegexProduction::OccurrenceCount { r, s, t, f }.apply(graph, owned(name))
}

use std::str;

/// Parses a bytestring containing a number and a trailing colon in ASCII
/// format to the respective number, discarding the colon.
fn decimal(pf_number: &[u8]) -> Option<usize> {
    let (number, colon) = pf_number.split_at(pf_number.len() - 1);
    if colon != [b':'] {
        return None;
    }
    let number = match str::from_utf8(number) {
        Ok(n) => n,
        Err(_) => return None,
    };
    number.parse::<usize>().ok()
}

#[test]
fn netstring() {
    let netstring = {
        let mut graph: CalcRegex<Count> = CalcRegex::new();
        let byte = Interim::Regex(blank().hex_range("0", "FF"));
        let nonzero_digit = Interim::Regex(blank().range("1", "9"));
        let digit = Interim::Regex(blank().lit("0").choice().id(&nonzero_digit));
        let number = Interim::Regex(blank().lit("0").choice().group(blank().id(&nonzero_digit).star(blank().id(&digit))));
        let pf_number = Interim::Regex(blank().id(&number).lit(":"));
        let n1 = add_ident(&mut graph, &pf_number, "pf_number", None);
        let n2 = add_ident(&mut graph, &byte, "byte", None);
        let n3 = add_kleene(&mut graph, n2, None);
        let n4 = add_length_count(&mut graph, n1, None, n3, decimal, None);
        let n5 = add_leaf(&mut graph, blank().lit(","), None);
        let n6 = add_concat(&mut graph, n4, n5, Some("netstring"));
        let root = n6;
        graph.set_root(root);
        graph
    };

    // assert!(!netstring.is_bounded());

    let mut reader = calc_regex::Reader::from_array(b"3:foo,");
    let record = reader.parse(&netstring).unwrap();

    let expected = b"3:";
    let actual = record.get_capture("pf_number").unwrap();
    assert_eq!(expected, actual);

    let expected = b"foo";
    let actual = record.get_capture("$value").unwrap();
    assert_eq!(expected, actual);

    let expected = b"3:foo,";
    let actual = record.get_all();
    assert_eq!(expected, actual);
}

#[test]
fn netstring_number_as_calc_regex() {
    let netstring = {
        let mut graph: CalcRegex<Count> = CalcRegex::new();
        let byte = Interim::Regex(blank().hex_range("0", "FF"));
        let nonzero_digit = Interim::Regex(blank().range("1", "9"));
        let digit = Interim::Regex(blank().lit("0").choice().id(&nonzero_digit));
        let n1 = add_leaf(&mut graph, blank().lit("0").choice().group(blank().id(&nonzero_digit).star(blank().id(&digit))), Some("number"));
        let number = Interim::CalcRegex(n1);
        let n2 = add_ident(&mut graph, &number, "number", None);
        let n3 = add_leaf(&mut graph, blank().lit(":"), None);
        let n4 = add_concat(&mut graph, n2, n3, Some("pf_number"));
        let pf_number = Interim::CalcRegex(n4);
        let n5 = add_ident(&mut graph, &pf_number, "pf_number", None);
        let n6 = add_ident(&mut graph, &byte, "byte", None);
        let n7 = add_kleene(&mut graph, n6, None);
        let n8 = add_length_count(&mut graph, n5, None, n7, decimal, None);
        let n9 = add_leaf(&mut graph, blank().lit(","), None);
        let n10 = add_concat(&mut graph, n8, n9, Some("netstring"));
        let root = n10;
        graph.set_root(root);
        graph
    };

    let mut reader = calc_regex::Reader::from_array(b"3:foo,");
    let record = reader.parse(&netstring).unwrap();

    let expected = b"3:";
    let actual = record.get_capture("pf_number").unwrap();
    assert_eq!(expected, actual);

    let expected = b"3";
    let actual = record.get_capture("pf_number.number").unwrap();
    assert_eq!(expected, actual);

    let expected = b"foo";
    let actual = record.get_capture("$value").unwrap();
    assert_eq!(expected, actual);

    let expected = b"3:foo,";
    let actual = record.get_all();
    assert_eq!(expected, actual);
}

#[test]
fn bounded_netstring() {
    let mut netstring = {
        let mut graph: CalcRegex<Count> = CalcRegex::new();
        let byte = Interim::Regex(blank().hex_range("0", "FF"));
        let nonzero_digit = Interim::Regex(blank().range("1", "9"));
        let digit = Interim::Regex(blank().lit("0").choice().id(&nonzero_digit));
        let number = Interim::Regex(blank().lit("0").choice().group(blank().id(&nonzero_digit).star(blank().id(&digit))));
        let pf_number = Interim::Regex(blank().id(&number).lit(":"));
        let value = Interim::Regex(blank().star(blank().id(&byte)));
        let n1 = add_ident(&mut graph, &pf_number, "pf_number", None);
        let n2 = add_ident(&mut graph, &value, "value", None);
        let n3 = add_length_count(&mut graph, n1, None, n2, decimal, None);
        let n4 = add_leaf(&mut graph, blank().lit(","), None);
        let n5 = add_concat(&mut graph, n3, n4, Some("netstring"));
        let root = n5;
        graph.set_root(root);
        graph
    };

    netstring.set_length_bound("pf_number", 2).unwrap();
    netstring.set_length_bound("value", 8).unwrap();
    // assert!(netstring.is_bounded());

    let mut reader = calc_regex::Reader::from_array(b"3:foo,");
    let record = reader.parse(&netstring).unwrap();

    let expected = b"3:";
    let actual = record.get_capture("pf_number").unwrap();
    assert_eq!(expected, actual);

    let expected = b"foo";
    let actual = record.get_capture("value").unwrap();
    assert_eq!(expected, actual);

    let expected = b"3:foo,";
    let actual = record.get_all();
    assert_eq!(expected, actual);

    let mut reader = calc_regex::Reader::from_array(b"9:foofoofoo,");
    let err = reader.parse(&netstring).unwrap_err();
    if let calc_regex::ParserError::ConflictingBounds { old, new } = err {
        assert_eq!(old, 9);
        assert_eq!(new, 8);
    } else {
        panic!("Unexpected error: {:?}", err);
    }

    let mut reader = calc_regex::Reader::from_array(b"12:foofoofoofoo,");
    let err = reader.parse(&netstring).unwrap_err();
    if let calc_regex::ParserError::Regex { value, .. } = err {
        assert_eq!(value, b"12");
    } else {
        panic!("Unexpected error: {:?}", err);
    }
}

#[test]
fn n_netstring() {
    let n_netstring = {
        let mut graph: CalcRegex<Count> = CalcRegex::new();
        let byte = Interim::Regex(blank().hex_range("0", "FF"));
        let nonzero_digit = Interim::Regex(blank().range("1", "9"));
        let digit = Interim::Regex(blank().lit("0").choice().id(&nonzero_digit));
        let number = Interim::Regex(blank().lit("0").choice().group(blank().id(&nonzero_digit).star(blank().id(&digit))));
        let pf_number = Interim::Regex(blank().id(&number).lit(":"));
        let n1 = add_ident(&mut graph, &pf_number, "pf_number", None);
        let n2 = add_ident(&mut graph, &byte, "byte", None);
        let n3 = add_kleene(&mut graph, n2, None);
        let n4 = add_length_count(&mut graph, n1, None, n3, decimal, None);
        let n5 = add_leaf(&mut graph, blank().lit(","), None);
        let n6 = add_concat(&mut graph, n4, n5, Some("netstring"));
        let netstring = Interim::CalcRegex(n6);
        let n7 = add_ident(&mut graph, &pf_number, "pf_number", None);
        let n8 = add_ident(&mut graph, &netstring, "netstring", None);
        let n9 = add_leaf(&mut graph, blank().star(blank().id(&byte)), None);
        let n10 = add_concat(&mut graph, n8, n9, None);
        let n11 = add_length_count(&mut graph, n7, None, n10, decimal, None);
        let n12 = add_leaf(&mut graph, blank().lit(","), None);
        let n13 = add_concat(&mut graph, n11, n12, Some("n_netstring"));
        let root = n13;
        graph.set_root(root);
        graph
    };

    let mut reader = calc_regex::Reader::from_array(b"8:3:abc,XY,");
    let record = reader.parse(&n_netstring).unwrap();

    let expected = b"3:abc,";
    let actual = record.get_capture("netstring").unwrap();
    assert_eq!(expected, actual);

    let expected = b"abc";
    let actual = record.get_capture("netstring.$value").unwrap();
    assert_eq!(expected, actual);

    let error = calc_regex::Reader::from_array(b"5:9999:")
        .parse(&n_netstring).unwrap_err();
    if let calc_regex::ParserError::ConflictingBounds { old, new } = error {
        assert_eq!(old, 0);
        assert_eq!(new, 9999);
    } else { panic!("Unexpected error: {:?}", error) }
}

#[test]
fn nested_netstrings_by_length() {
    let n_netstring = {
        let mut graph: CalcRegex<Count> = CalcRegex::new();
        let byte = Interim::Regex(blank().hex_range("0", "FF"));
        let nonzero_digit = Interim::Regex(blank().range("1", "9"));
        let digit = Interim::Regex(blank().lit("0").choice().id(&nonzero_digit));
        let number = Interim::Regex(blank().lit("0").choice().group(blank().id(&nonzero_digit).star(blank().id(&digit))));
        let pf_number = Interim::Regex(blank().id(&number).lit(":"));
        let n1 = add_ident(&mut graph, &pf_number, "pf_number", None);
        let n2 = add_ident(&mut graph, &byte, "byte", None);
        let n3 = add_kleene(&mut graph, n2, None);
        let n4 = add_length_count(&mut graph, n1, None, n3, decimal, None);
        let n5 = add_leaf(&mut graph, blank().lit(","), None);
        let n6 = add_concat(&mut graph, n4, n5, Some("netstring"));
        let netstring = Interim::CalcRegex(n6);
        let n7 = add_ident(&mut graph, &pf_number, "pf_number", None);
        let n8 = add_ident(&mut graph, &netstring, "netstring", None);
        let n9 = add_kleene(&mut graph, n8, None);
        let n10 = add_length_count(&mut graph, n7, None, n9, decimal, None);
        let n11 = add_leaf(&mut graph, blank().lit(","), None);
        let n12 = add_concat(&mut graph, n10, n11, Some("n_netstring"));
        let root = n12;
        graph.set_root(root);
        graph
    };

    let mut reader = calc_regex::Reader::from_array(b"11:3:abc,2:de,,");
    let record = reader.parse(&n_netstring).unwrap();

    let expected = b"3:abc,";
    let actual = record.get_capture("netstring[0]").unwrap();
    assert_eq!(expected, actual);

    let expected = b"abc";
    let actual = record.get_capture("netstring[0].$value").unwrap();
    assert_eq!(expected, actual);

    let expected = b"2:de,";
    let actual = record.get_capture("netstring[1]").unwrap();
    assert_eq!(expected, actual);

    let expected = b"de";
    let actual = record.get_capture("netstring[1].$value").unwrap();
    assert_eq!(expected, actual);
}

#[test]
fn netstring_sequence_single() {
    let netstring = {
        let mut graph: CalcRegex<Count> = CalcRegex::new();
        let byte = Interim::Regex(blank().hex_range("0", "FF"));
        let nonzero_digit = Interim::Regex(blank().range("1", "9"));
        let digit = Interim::Regex(blank().lit("0").choice().id(&nonzero_digit));
        let number = Interim::Regex(blank().lit("0").choice().group(blank().id(&nonzero_digit).star(blank().id(&digit))));
        let pf_number = Interim::Regex(blank().id(&number).lit(":"));
        let n1 = add_ident(&mut graph, &pf_number, "pf_number", None);
        let n2 = add_ident(&mut graph, &byte, "byte", None);
        let n3 = add_kleene(&mut graph, n2, None);
        let n4 = add_length_count(&mut graph, n1, None, n3, decimal, None);
        let n5 = add_leaf(&mut graph, blank().lit(","), None);
        let n6 = add_concat(&mut graph, n4, n5, Some("netstring"));
        let root = n6;
        graph.set_root(root);
        graph
    };

    let mut reader = calc_regex::Reader::from_array(b"3:foo,");
    let mut records = reader.parse_many(&netstring);
    while let Some(result) = records.next() {
        let record = result.unwrap();

        let expected = b"3:";
        let actual = record.get_capture("pf_number").unwrap();
        assert_eq!(expected, actual);

        let expected = b"foo";
        let actual = record.get_capture("$value").unwrap();
        assert_eq!(expected, actual);

        let expected = b"3:foo,";
        let actual = record.get_all();
        assert_eq!(expected, actual);
    }
}

#[test]
fn netstring_sequence_multiple() {
    let netstring = {
        let mut graph: CalcRegex<Count> = CalcRegex::new();
        let byte = Interim::Regex(blank().hex_range("0", "FF"));
        let nonzero_digit = Interim::Regex(blank().range("1", "9"));
        let digit = Interim::Regex(blank().lit("0").choice().id(&nonzero_digit));
        let number = Interim::Regex(blank().lit("0").choice().group(blank().id(&nonzero_digit).star(blank().id(&digit))));
        let pf_number = Interim::Regex(blank().id(&number).lit(":"));
        let n1 = add_ident(&mut graph, &pf_number, "pf_number", None);
        let n2 = add_ident(&mut graph, &byte, "byte", None);
        let n3 = add_kleene(&mut graph, n2, None);
        let n4 = add_length_count(&mut graph, n1, None, n3, decimal, None);
        let n5 = add_leaf(&mut graph, blank().lit(","), None);
        let n6 = add_concat(&mut graph, n4, n5, Some("netstring"));
        let root = n6;
        graph.set_root(root);
        graph
    };

    let mut reader = calc_regex::Reader::from_array(b"3:foo,4:baar,");
    let mut iter = reader.parse_many(&netstring);

    let record = iter.next().unwrap().unwrap();

    let expected = b"3:";
    let actual = record.get_capture("pf_number").unwrap();
    assert_eq!(expected, actual);

    let expected = b"foo";
    let actual = record.get_capture("$value").unwrap();
    assert_eq!(expected, actual);

    let expected = b"3:foo,";
    let actual = record.get_all();
    assert_eq!(expected, actual);

    let record = iter.next().unwrap().unwrap();

    let expected = b"4:";
    let actual = record.get_capture("pf_number").unwrap();
    assert_eq!(expected, actual);

    let expected = b"baar";
    let actual = record.get_capture("$value").unwrap();
    assert_eq!(expected, actual);

    let expected = b"4:baar,";
    let actual = record.get_all();
    assert_eq!(expected, actual);

    assert!(iter.next().is_none());
}

