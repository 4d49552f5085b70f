#![allow(dead_code, unused_variables, unused_imports)]

use calc_regex::calc_regex::{Inner, NodeIndex};
use calc_regex::generate::{CalcRegexProduction, Interim, InterimRegex, RegexProduction};
use calc_regex::{CalcRegex, NameError, ParserError, Reader};

/// The type of the functions that read a count.
type Count = fn(&[u8]) -> Option<usize>;

/// An empty regex, to which productions are applied one after the other.
fn blank() -> InterimRegex {
    InterimRegex::new()
}

/// The productions for regexes, written as a chain.
trait Chain: Sized {
    fn lit(self, s: &str) -> Self;
    fn byte(self, v: &str) -> Self;
    fn id(self, interim: &Interim) -> Self;
    fn group(self, el: InterimRegex) -> Self;
    fn choice(self) -> Self;
    fn star(self, el: InterimRegex) -> Self;
    fn plus(self, el: InterimRegex) -> Self;
    fn repeat(self, el: InterimRegex, n: usize) -> Self;
    fn range(self, min: &str, max: &str) -> Self;
    fn hex_range(self, min: &str, max: &str) -> Self;
}

impl Chain for InterimRegex {
    fn lit(self, s: &str) -> Self {
        RegexProduction::Literal(s).apply(self)
    }

    fn byte(self, v: &str) -> Self {
        RegexProduction::ByteLiteral(v).apply(self)
    }

    fn id(self, interim: &Interim) -> Self {
        RegexProduction::Identifier(interim).apply(self)
    }

    fn group(self, el: InterimRegex) -> Self {
        RegexProduction::Parentheses(&el).apply(self)
    }

    fn choice(self) -> Self {
        RegexProduction::Choice.apply(self)
    }

    fn star(self, el: InterimRegex) -> Self {
        RegexProduction::KleeneStar(&el).apply(self)
    }

    fn plus(self, el: InterimRegex) -> Self {
        RegexProduction::KleenePlus(&el).apply(self)
    }

    fn repeat(self, el: InterimRegex, n: usize) -> Self {
        RegexProduction::Repeat(&el, n).apply(self)
    }

    fn range(self, min: &str, max: &str) -> Self {
        RegexProduction::CharRange(min, max).apply(self)
    }

    fn hex_range(self, min: &str, max: &str) -> Self {
        RegexProduction::HexRange(min, max).apply(self)
    }
}

fn owned(name: Option<&str>) -> Option<String> {
    name.map(|n| n.to_owned())
}

fn add_leaf(graph: &mut CalcRegex<Count>, re: InterimRegex, name: Option<&str>) -> NodeIndex {
    CalcRegexProduction::Regex(&re).apply(graph, owned(name))
}

fn add_ident(
    graph: &mut CalcRegex<Count>,
    interim: &Interim,
    identifier: &str,
    name: Option<&str>,
) -> NodeIndex {
    CalcRegexProduction::Identifier(interim, identifier.to_owned()).apply(graph, owned(name))
}

fn add_concat(
    graph: &mut CalcRegex<Count>,
    lhs: NodeIndex,
    rhs: NodeIndex,
    name: Option<&str>,
) -> NodeIndex {
    CalcRegexProduction::Concat(lhs, rhs).apply(graph, owned(name))
}

fn add_repeat(graph: &mut CalcRegex<Count>, c: NodeIndex, n: usize, name: Option<&str>) -> NodeIndex {
    CalcRegexProduction::Repeat(c, n).apply(graph, owned(name))
}

fn add_kleene(graph: &mut CalcRegex<Count>, c: NodeIndex, name: Option<&str>) -> NodeIndex {
    CalcRegexProduction::KleeneStar(c).apply(graph, owned(name))
}

fn add_length_count(
    graph: &mut CalcRegex<Count>,
    r: NodeIndex,
    s: Option<NodeIndex>,
    t: NodeIndex,
    f: Count,
    name: Option<&str>,
) -> NodeIndex {
    CalcRegexProduction::LengthCount { r, s, t, f }.apply(graph, owned(name))
}

fn add_occurrence_count(
    graph: &mut CalcRegex<Count>,
    r: NodeIndex,
    s: Option<NodeIndex>,
    t: NodeIndex,
    f: Count,
    name: Option<&str>,
) -> NodeIndex {
    CalcRegexProduction::OccurrenceCount { r, s, t, f }.apply(graph, owned(name))
}

#[test]
fn pf_number() {
    let calc_regex = {
        let mut graph: CalcRegex<Count> = CalcRegex::new();
        let nonzero_digit = Interim::Regex(blank().range("1", "9"));
        let digit = Interim::Regex(blank().lit("0").choice().id(&nonzero_digit));
        let number = Interim::Regex(blank().lit("0").choice().group(blank().id(&nonzero_digit).star(blank().id(&digit))));
        let root = add_leaf(&mut graph, blank().id(&number).lit(":"), Some("pf_number"));
        graph.set_root(root);
        graph
    };
    let root = calc_regex.get_root();
    if let Inner::Regex(ref re) = root.inner {
        assert!(re.is_match(b"0:"));
        assert!(!re.is_match(b"0"));
        assert!(!re.is_match(b"0 "));
        assert!(!re.is_match(b"00:"));
        assert!(!re.is_match(b"01:"));
        assert!(re.is_match(b"3:"));
        assert!(re.is_match(b"30:"));
    } else {
        panic!("Unexpected Inner: {:?}", root.inner);
    }
}

#[test]
fn choice_beginning_end() {
    let calc_regex = {
        let mut graph: CalcRegex<Count> = CalcRegex::new();
        let root = add_leaf(&mut graph, blank().lit("foo").choice().lit("bar"), Some("foo"));
        graph.set_root(root);
        graph
    };
    let root = calc_regex.get_root();
    if let Inner::Regex(ref re) = root.inner {
        assert!(re.is_match(b"foo"));
        assert!(re.is_match(b"bar"));
        assert!(!re.is_match(b"foo "));
        assert!(!re.is_match(b" bar"));
        assert!(!re.is_match(b"foo|bar"));
    } else {
        panic!("Unexpected Inner: {:?}", root.inner);
    }
}

#[test]
fn regex_match_choice_concat() {
    let calc_regex = {
        let mut graph: CalcRegex<Count> = CalcRegex::new();
        let foo = Interim::Regex(blank().lit("foo").choice().lit("bar"));
        let root = add_leaf(&mut graph, blank().lit("a").id(&foo).lit("z"), Some("bar"));
        graph.set_root(root);
        graph
    };
    let root = calc_regex.get_root();
    if let Inner::Regex(ref re) = root.inner {
        assert!(re.is_match(b"afooz"));
        assert!(re.is_match(b"abarz"));
        assert!(!re.is_match(b"afoo"));
        assert!(!re.is_match(b"barz"));
    } else {
        panic!("Unexpected Inner: {:?}", root.inner);
    }
}

#[test]
fn byte() {
    let calc_regex = {
        let mut graph: CalcRegex<Count> = CalcRegex::new();
        let root = add_leaf(&mut graph, blank().hex_range("0", "FE"), Some("byte"));
        graph.set_root(root);
        graph
    };
    let root = calc_regex.get_root();
    if let Inner::Regex(ref re) = root.inner {
        assert!(re.is_match(&[42]));
        assert!(re.is_match(&[0]));
        assert!(re.is_match(&[254]));
        assert!(!re.is_match(&[255]));
    } else {
        panic!("Unexpected Inner: {:?}", root.inner);
    }
}

#[test]
fn regex_match_repeat() {
    let calc_regex = {
        let mut graph: CalcRegex<Count> = CalcRegex::new();
        let root = add_leaf(&mut graph, blank().repeat(blank().lit("foo"), 3), Some("foo"));
        graph.set_root(root);
        graph
    };
    let root = calc_regex.get_root();
    if let Inner::Regex(ref re) = root.inner {
        assert!(re.is_match(b"foofoofoo"));
        assert!(!re.is_match(b"foo"));
        assert!(!re.is_match(b""));
        assert!(!re.is_match(b"foofoofoofoo"));
    } else {
        panic!("Unexpected Inner: {:?}", root.inner);
    }
}
