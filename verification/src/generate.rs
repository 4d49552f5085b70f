//! The production rules by which a `CalcRegex` is built.
//!
//! Regular sub-expressions are put together as text and compiled when they
//! are used in a calc-regular expression. While the text grows, the maximal
//! length of what it can match is kept track of.

use vstd::prelude::*;
use vstd::string::{StrSliceExecFns, StringExecFns, StringSliceAdditionalSpecFns};
use vstd::utf8::encode_utf8;
use crate::aux::{parse_number, parse_radix};
use crate::calc_regex::{
    CalcRegex,
    Inner,
    Node,
    NodeIndex,
    find_name,
    lemma_find_name_push,
    node_wf,
};
use crate::matcher::{compile_pattern, regex_compiles, regex_pattern};
use crate::text::{decimal_text, hex_text, push_decimal, push_hex};

verus! {

/// Whether the character has a meaning of its own in a regular expression.
pub open spec fn is_meta_character(c: char) -> bool {
    c == '\\' || c == '.' || c == '+' || c == '*' || c == '?' || c == '(' || c == ')' || c == '|'
        || c == '[' || c == ']' || c == '{' || c == '}' || c == '^' || c == '$' || c == '#' || c
        == '&' || c == '-' || c == '~'
}

/// The text with a backslash put before each character that has a meaning
/// of its own in a regular expression.
pub open spec fn escaped(text: Seq<char>) -> Seq<char>
    decreases text.len(),
{
    if text.len() == 0 {
        Seq::empty()
    } else if is_meta_character(text.last()) {
        escaped(text.drop_last()).push('\\').push(text.last())
    } else {
        escaped(text.drop_last()).push(text.last())
    }
}

/// Escapes a text with `regex::escape`: each character that the crate
/// counts as a meta character gets a backslash before it, and nothing
/// else is changed.
#[verifier::external_body]
fn escape(text: &str) -> (r: String)
    ensures
        r@ == escaped(text@),
{
    regex::escape(text)
}

/// The byte that a text denotes as a hexadecimal number, if it does.
pub open spec fn hex_byte(text: Seq<u8>) -> Option<nat> {
    match parse_number(text, 16) {
        Some(v) if v <= 255 => Some(v as nat),
        _ => None,
    }
}

/// Reads a byte from two hexadecimal digits or less.
fn read_hex_byte(text: &str) -> (r: Option<usize>)
    ensures
        r matches Some(v) ==> hex_byte(text.spec_bytes()) == Some(v as nat) && v <= 255,
        r is None ==> hex_byte(text.spec_bytes()) is None,
{
    match parse_radix(text.as_bytes(), 16) {
        Some(v) => if v <= 255 {
            Some(v)
        } else {
            None
        },
        None => None,
    }
}

/// A type to keep track of the maximum length and other attributes of a
/// regex while it is being constructed.
pub struct RegexAttributes {
    /// Whether the current regex has a `|` operator on its highest level.
    pub is_choice: bool,
    /// The total maximum length a matching value could have.
    pub total_length: Option<usize>,
    /// If the regex is a choice, the length of the right-hand side of that
    /// choice, which can still be extended. It is some value iff
    /// `total_length` is and `is_choice` is `true`.
    pub current_choice_length: Option<usize>,
}

/// The larger of two lengths.
pub open spec fn longer(a: usize, b: usize) -> usize {
    if a < b {
        b
    } else {
        a
    }
}

impl RegexAttributes {
    /// The length of the right-hand side of a choice is known iff the
    /// regex is a choice and its total length is known.
    pub open spec fn inv(self) -> bool {
        self.current_choice_length is Some <==> (self.total_length is Some && self.is_choice)
    }

    /// Whether the lengths fit when an element of the given maximal length
    /// is joined.
    pub open spec fn can_join(self, el_len: Option<usize>) -> bool {
        match (self.total_length, self.current_choice_length, el_len) {
            (Some(_), Some(current), Some(el)) => el + current <= usize::MAX,
            (Some(total), None, Some(el)) => el + total <= usize::MAX,
            _ => true,
        }
    }

    /// The attributes after an element of the given maximal length was
    /// joined: it adds to the length of the alternative that is being
    /// written, and the total is the length of the longest alternative.
    /// Where a length is not known, the total is not known.
    pub open spec fn joined(self, el_len: Option<usize>) -> RegexAttributes {
        match (self.total_length, self.current_choice_length, el_len) {
            (Some(total), Some(current), Some(el)) => RegexAttributes {
                is_choice: self.is_choice,
                total_length: Some(longer(total, (el + current) as usize)),
                current_choice_length: Some((el + current) as usize),
            },
            (Some(total), None, Some(el)) => RegexAttributes {
                is_choice: self.is_choice,
                total_length: Some((el + total) as usize),
                current_choice_length: None,
            },
            _ => RegexAttributes {
                is_choice: self.is_choice,
                total_length: None,
                current_choice_length: None,
            },
        }
    }

    /// The attributes after a new alternative was begun.
    pub open spec fn alternated(self) -> RegexAttributes {
        RegexAttributes {
            is_choice: true,
            total_length: self.total_length,
            current_choice_length: if self.total_length is Some {
                Some(0)
            } else {
                None
            },
        }
    }

    /// The attributes after something was joined that can be repeated
    /// without end.
    pub open spec fn unbounded(self) -> RegexAttributes {
        RegexAttributes {
            is_choice: self.is_choice,
            total_length: None,
            current_choice_length: None,
        }
    }

    /// Joins the attributes of an existing partial regex with a new
    /// element.
    ///
    /// - `el_len` -- The maximum length of the new element, if any.
    pub fn join(&self, el_len: Option<usize>) -> (r: Self)
        requires
            self.inv(),
            self.can_join(el_len),
        ensures
            r == self.joined(el_len),
            r.inv(),
    {
        match (self.total_length, self.current_choice_length, self.is_choice, el_len) {
            // Both sides have length information. We can compute the total
            // maximum length.
            (Some(total_length), Some(current_choice_length), true, Some(el_len)) => {
                // Length of the new element is added to the choice
                // currently expanded. Afterwards, we check whether the
                // total maximum length needs to be updated.
                let current_choice_length = el_len + current_choice_length;
                RegexAttributes {
                    is_choice: true,
                    total_length: Some(
                        if total_length < current_choice_length {
                            current_choice_length
                        } else {
                            total_length
                        },
                    ),
                    current_choice_length: Some(current_choice_length),
                }
            },
            (Some(total_length), None, false, Some(el_len)) => {
                RegexAttributes {
                    is_choice: false,
                    total_length: Some(el_len + total_length),
                    current_choice_length: None,
                }
            },
            // At least one side doesn't have length information. We don't
            // have a total maximum length.
            (_, _, is_choice, _) => {
                RegexAttributes { is_choice, total_length: None, current_choice_length: None }
            },
        }
    }
}

/// One step in writing a regex, as far as lengths go: an element of some
/// maximal length, or of none that is known, is joined, or a new
/// alternative is begun.
pub enum Piece {
    Element(Option<usize>),
    Choice,
}

/// The attributes of the empty regex.
pub open spec fn blank() -> RegexAttributes {
    RegexAttributes { is_choice: false, total_length: Some(0), current_choice_length: None }
}

/// The attributes of the regex that was written in the given steps.
pub open spec fn written(pieces: Seq<Piece>) -> RegexAttributes
    decreases pieces.len(),
{
    if pieces.len() == 0 {
        blank()
    } else {
        match pieces.last() {
            Piece::Element(len) => written(pieces.drop_last()).joined(len),
            Piece::Choice => written(pieces.drop_last()).alternated(),
        }
    }
}

/// Whether the lengths fit at each of the given steps.
pub open spec fn fits(pieces: Seq<Piece>) -> bool
    decreases pieces.len(),
{
    pieces.len() > 0 ==> fits(pieces.drop_last()) && match pieces.last() {
        Piece::Element(len) => written(pieces.drop_last()).can_join(len),
        Piece::Choice => true,
    }
}

/// The sum of the lengths of the elements, if all of them are known.
pub open spec fn sum_of(pieces: Seq<Piece>) -> Option<nat>
    decreases pieces.len(),
{
    if pieces.len() == 0 {
        Some(0)
    } else {
        match (sum_of(pieces.drop_last()), pieces.last()) {
            (Some(sum), Piece::Element(Some(len))) => Some(sum + len as nat),
            (sum, Piece::Choice) => sum,
            _ => None,
        }
    }
}

/// Whether none of the steps begins a new alternative.
pub open spec fn plain(pieces: Seq<Piece>) -> bool {
    forall|i: int| 0 <= i < pieces.len() ==> (#[trigger] pieces[i]) is Element
}

/// The larger of two lengths, if both are known.
pub open spec fn longest(a: Option<usize>, b: Option<usize>) -> Option<usize> {
    match (a, b) {
        (Some(x), Some(y)) => Some(longer(x, y)),
        _ => None,
    }
}

/// The length of the alternative that is being written.
pub open spec fn tail_length(attributes: RegexAttributes) -> Option<usize> {
    if attributes.is_choice {
        attributes.current_choice_length
    } else {
        attributes.total_length
    }
}

/// Something that can be repeated without end counts as an element of no
/// known length.
pub proof fn lemma_unbounded_element(attributes: RegexAttributes)
    ensures
        attributes.unbounded() == attributes.joined(None),
{
}

/// The invariant of the attributes holds at each step.
pub proof fn lemma_written_inv(pieces: Seq<Piece>)
    ensures
        written(pieces).inv(),
    decreases pieces.len(),
{
    if pieces.len() > 0 {
        lemma_written_inv(pieces.drop_last());
    }
}

/// The maximal length of a regex without alternatives is the sum of the
/// maximal lengths of its elements. It is not known if one of them is
/// not.
pub proof fn lemma_concatenation_adds(pieces: Seq<Piece>)
    requires
        plain(pieces),
        fits(pieces),
    ensures
        !written(pieces).is_choice,
        match sum_of(pieces) {
            Some(sum) => written(pieces).total_length == Some(sum as usize) && sum <= usize::MAX,
            None => written(pieces).total_length is None,
        },
    decreases pieces.len(),
{
    if pieces.len() > 0 {
        let before = pieces.drop_last();
        assert forall|i: int| 0 <= i < before.len() implies (#[trigger] before[i]) is Element by {
            assert(before[i] == pieces[i]);
        }
        assert(pieces[pieces.len() - 1] is Element);
        lemma_concatenation_adds(before);
        lemma_written_inv(before);
    }
}

/// The maximal length of a regex of two alternatives is the larger of the
/// maximal lengths of the two. It is not known if one of them is not.
pub proof fn lemma_choice_takes_longest(a: Seq<Piece>, b: Seq<Piece>)
    requires
        fits(a.push(Piece::Choice) + b),
    ensures
        written(a.push(Piece::Choice) + b).total_length == longest(
            written(a).total_length,
            written(b).total_length,
        ),
        written(a.push(Piece::Choice) + b).is_choice,
        written(a.push(Piece::Choice) + b).total_length is Some ==> written(
            a.push(Piece::Choice) + b,
        ).current_choice_length == tail_length(written(b)),
    decreases b.len(),
{
    let head = a.push(Piece::Choice);
    let all = head + b;
    lemma_written_inv(a);
    lemma_written_inv(b);
    lemma_written_inv(all);
    if b.len() == 0 {
        assert(all =~= head);
        assert(head.drop_last() =~= a);
    } else {
        let b0 = b.drop_last();
        assert(all.drop_last() =~= head + b0);
        assert(all.last() == b.last());
        lemma_choice_takes_longest(a, b0);
        lemma_written_inv(b0);
        lemma_written_inv(head + b0);
        let x0 = written(head + b0);
        let y0 = written(b0);
        match b.last() {
            Piece::Element(len) => {
                assert(written(all) == x0.joined(len));
                assert(written(b) == y0.joined(len));
                assert(x0.can_join(len));
                lemma_join_alongside(written(a).total_length, x0, y0, len);
            },
            Piece::Choice => {
                assert(written(all) == x0.alternated());
                assert(written(b) == y0.alternated());
            },
        }
    }
}

/// Joining an element to a regex and to its last alternatives alone keeps
/// the two alongside: the total of the whole stays the larger of what
/// stands before the alternatives and of their total, and the lengths of
/// the alternative that is being written stay the same.
proof fn lemma_join_alongside(
    before: Option<usize>,
    x: RegexAttributes,
    y: RegexAttributes,
    len: Option<usize>,
)
    requires
        x.inv(),
        y.inv(),
        x.is_choice,
        x.total_length == longest(before, y.total_length),
        x.total_length is Some ==> x.current_choice_length == tail_length(y),
        x.can_join(len),
    ensures
        x.joined(len).total_length == longest(before, y.joined(len).total_length),
        x.joined(len).total_length is Some ==> x.joined(len).current_choice_length
            == tail_length(y.joined(len)),
{
    match (x.total_length, len) {
        (Some(total), Some(el)) => {
            let current = x.current_choice_length->Some_0;
            assert(tail_length(y) == Some(current));
            assert(el + current <= usize::MAX);
            if y.is_choice {
                assert(y.current_choice_length == Some(current));
            } else {
                assert(y.total_length == Some(current));
                assert(y.current_choice_length is None);
            }
        },
        _ => {},
    }
}

/// Interim regular expressions.
///
/// This type is used for regexes that are used as parts of other regexes
/// or calc-regexes. Combination with other regexes is done by string
/// manipulation. In order to use a regex in a calc-regex, the regex is
/// compiled and incorporated into a `CalcRegex`.
pub struct InterimRegex {
    /// The uncompiled regex.
    pub re: String,
    /// Some attributes that are needed for construction.
    pub attributes: RegexAttributes,
}

/// The text that an interim regex is compiled from: anchored at both ends,
/// and with Unicode support switched off, so that all bytes can be
/// matched.
pub open spec fn pattern_of(re: Seq<char>) -> Seq<char> {
    "^(?-u:"@ + re + ")$"@
}

/// Whether the text is one that strongly binding operators apply to as a
/// whole: a single byte, or something in parentheses or in square
/// brackets.
pub open spec fn atomic(re: Seq<char>) -> bool {
    ||| encode_utf8(re).len() as usize == 1
    ||| re.len() >= 2 && re[0] == '(' && re.last() == ')'
    ||| re.len() >= 2 && re[0] == '[' && re.last() == ']'
}

/// The text in parentheses, unless it is atomic.
pub open spec fn grouped(re: Seq<char>) -> Seq<char> {
    if atomic(re) {
        re
    } else {
        "("@ + re + ")"@
    }
}

impl Default for InterimRegex {
    /// The empty regex.
    fn default() -> (r: InterimRegex)
        ensures
            r.re@ == Seq::<char>::empty(),
            r.attributes == blank(),
            r.inv(),
    {
        InterimRegex::new()
    }
}

impl InterimRegex {
    /// The regex is well-formed when its attributes are.
    pub open spec fn inv(&self) -> bool {
        self.attributes.inv()
    }

    /// Instantiates an empty regex.
    pub fn new() -> (r: Self)
        ensures
            r.re@ == Seq::<char>::empty(),
            r.attributes == blank(),
            r.inv(),
    {
        InterimRegex {
            re: String::new(),
            attributes: RegexAttributes {
                is_choice: false,
                total_length: Some(0),
                current_choice_length: None,
            },
        }
    }

    /// The maximum length a matching value could have.
    pub fn max_length(&self) -> (r: Option<usize>)
        ensures
            r == self.attributes.total_length,
    {
        self.attributes.total_length
    }

    /// Whether the regex is immune to separation by strongly binding
    /// operators.
    pub fn is_atomic(&self) -> (r: bool)
        ensures
            r == atomic(self.re@),
    {
        let text = self.re.as_str();
        assert(text.spec_bytes() == encode_utf8(self.re@));
        // Single character is fine...
        if text.len() == 1 {
            return true;
        }
        let n: usize = text.unicode_len();
        if n < 2 {
            return false;
        }
        let first = text.get_char(0);
        let last = text.get_char(n - 1);
        // ...so is an expression wrapped in parentheses, and a range.
        (first == '(' && last == ')') || (first == '[' && last == ']')
    }

    /// The text that the regex is compiled from.
    pub fn pattern(&self) -> (r: String)
        ensures
            r@ == pattern_of(self.re@),
    {
        let mut pattern = String::from_str("^(?-u:");
        pattern.append(self.re.as_str());
        pattern.append(")$");
        pattern
    }
}

/// Whether a node is a compiled regex of the given pattern, name and
/// bound.
pub open spec fn is_leaf<F>(
    node: Node<F>,
    name: Option<Seq<char>>,
    bound: Option<usize>,
    pattern: Seq<char>,
) -> bool {
    &&& node.inner matches Inner::Regex(re) && regex_pattern(re) == pattern
    &&& node.length_bound == bound
    &&& match name {
        Some(n) => node.named(n),
        None => node.name is None,
    }
}

/// The name as a text, if there is one.
pub open spec fn name_text(name: Option<String>) -> Option<Seq<char>> {
    match name {
        Some(n) => Some(n@),
        None => None,
    }
}

impl InterimRegex {
    /// Whether the regex can be compiled into the expression under the
    /// given name: a node of that name, if there is one, is this regex
    /// compiled, and else the pattern compiles and there is room for one
    /// more node.
    pub open spec fn compilable<F>(&self, g: Seq<Node<F>>, name: Option<String>) -> bool {
        match self.compiled_at(g, name) {
            Some(i) => g[i].inner matches Inner::Regex(re) && regex_pattern(re) == pattern_of(
                self.re@,
            ),
            None => regex_compiles(pattern_of(self.re@)) && g.len() < usize::MAX,
        }
    }

    /// The node that holds the regex compiled under the given name, if
    /// there is one.
    pub open spec fn compiled_at<F>(&self, g: Seq<Node<F>>, name: Option<String>) -> Option<int> {
        match name {
            Some(n) => find_name(g, n@, 0),
            None => None,
        }
    }

    /// Whether `after` are the nodes of an expression after the regex was
    /// compiled into it under the given name, and `at` is where it stands:
    /// a node of that name that was there before is used again, and
    /// else a node was added.
    pub open spec fn compiled<F>(
        &self,
        name: Option<String>,
        before: Seq<Node<F>>,
        after: Seq<Node<F>>,
        at: int,
    ) -> bool {
        match self.compiled_at(before, name) {
            Some(i) => at == i && after == before,
            None => {
                &&& at == before.len()
                &&& after.len() == before.len() + 1
                &&& after.drop_last() == before
                &&& is_leaf(
                    after.last(),
                    name_text(name),
                    self.attributes.total_length,
                    pattern_of(self.re@),
                )
            },
        }
    }

    /// Tells whether the regex can be compiled into the expression under
    /// the given name.
    pub fn can_compile<F: Fn(&[u8]) -> Option<usize>>(
        &self,
        calc_regex: &CalcRegex<F>,
        name: &Option<String>,
    ) -> (r: bool)
        ensures
            r == self.compilable(calc_regex.nodes(), *name),
    {
        let pattern = self.pattern();
        let found = match name {
            Some(n) => calc_regex.get_position_by_name(n.as_str()),
            None => None,
        };
        match found {
            Some(node_index) => {
                match &calc_regex.get_node(node_index).inner {
                    Inner::Regex(re) => re.as_str().to_owned() == pattern,
                    _ => false,
                }
            },
            None => calc_regex.len() < usize::MAX && compile_pattern(pattern.as_str()).is_ok(),
        }
    }

    /// Compiles the regex using `regex::bytes` and adds it to the
    /// expression as a node of the given name.
    ///
    /// A regex is compiled once under a name: where the expression has a
    /// node of the name already, that node is used again.
    pub fn compile<F: Fn(&[u8]) -> Option<usize>>(
        &self,
        calc_regex: &mut CalcRegex<F>,
        name: Option<String>,
    ) -> (r: NodeIndex)
        requires
            self.compilable(old(calc_regex).nodes(), name),
        ensures
            final(calc_regex).root() == old(calc_regex).root(),
            self.compiled(name, old(calc_regex).nodes(), final(calc_regex).nodes(), r@),
            0 <= r@ < final(calc_regex).nodes().len(),
            old(calc_regex).wf() ==> final(calc_regex).wf(),
    {
        match &name {
            Some(n) => {
                match calc_regex.get_position_by_name(n.as_str()) {
                    Some(node_index) => {
                        return node_index;
                    },
                    None => {},
                }
            },
            None => {},
        }
        let pattern = self.pattern();
        let compiled = match compile_pattern(pattern.as_str()) {
            Ok(compiled) => compiled,
            Err(_) => {
                proof {
                    assert(false);
                }
                vstd::pervasive::unreached()
            },
        };
        let node = Node { name, length_bound: self.max_length(), inner: Inner::Regex(compiled) };
        let ghost before = calc_regex.nodes();
        let node_index = calc_regex.push_node(node);
        proof {
            assert(calc_regex.nodes().drop_last() =~= before);
            assert(node_wf(calc_regex.nodes(), node_index@));
        }
        node_index
    }

    /// Compiles the regex as `compile` does, if it can be compiled.
    pub fn try_compile<F: Fn(&[u8]) -> Option<usize>>(
        &self,
        calc_regex: &mut CalcRegex<F>,
        name: Option<String>,
    ) -> (r: Option<NodeIndex>)
        ensures
            r is Some <==> self.compilable(old(calc_regex).nodes(), name),
            r is None ==> *final(calc_regex) == *old(calc_regex),
            r matches Some(i) ==> {
                &&& final(calc_regex).root() == old(calc_regex).root()
                &&& self.compiled(name, old(calc_regex).nodes(), final(calc_regex).nodes(), i@)
                &&& old(calc_regex).wf() ==> final(calc_regex).wf()
            },
    {
        if self.can_compile(calc_regex, &name) {
            Some(self.compile(calc_regex, name))
        } else {
            None
        }
    }
}

/// Interim values for (calc-)regex productions.
///
/// Names in production definitions can either hold regexes or calc-regexes.
pub enum Interim {
    Regex(InterimRegex),
    CalcRegex(NodeIndex),
}

/// Non-restricted production rules for regexes.
pub enum RegexProduction<'a> {
    Identifier(&'a Interim),
    Literal(&'a str),
    ByteLiteral(&'a str),
    Parentheses(&'a InterimRegex),
    Choice,
    KleeneStar(&'a InterimRegex),
    KleenePlus(&'a InterimRegex),
    Repeat(&'a InterimRegex, usize),
    CharRange(&'a str, &'a str),
    HexRange(&'a str, &'a str),
}

/// The product of a maximal length and a number of repetitions.
pub open spec fn times(len: Option<usize>, n: usize) -> Option<usize> {
    match len {
        Some(l) => Some((l * n) as usize),
        None => None,
    }
}

impl<'a> RegexProduction<'a> {
    /// Whether the production can be applied: an identifier stands for a
    /// regex, byte literals are hexadecimal numbers of one byte, the ends
    /// of a range are single bytes in ascending order, and the lengths
    /// fit.
    pub open spec fn applicable(self, prev: InterimRegex) -> bool {
        &&& prev.inv()
        &&& match self {
            RegexProduction::Identifier(interim) => *interim matches Interim::Regex(el)
                && prev.attributes.can_join(el.attributes.total_length),
            RegexProduction::Literal(s) => s.spec_bytes().len() <= usize::MAX
                && prev.attributes.can_join(Some(s.spec_bytes().len() as usize)),
            RegexProduction::ByteLiteral(v) => hex_byte(v.spec_bytes()) is Some
                && prev.attributes.can_join(Some(1)),
            RegexProduction::Parentheses(el) => prev.attributes.can_join(
                el.attributes.total_length,
            ),
            RegexProduction::Choice => true,
            RegexProduction::KleeneStar(_) => true,
            RegexProduction::KleenePlus(_) => true,
            RegexProduction::Repeat(el, n) => {
                &&& el.attributes.total_length matches Some(l) ==> l * n <= usize::MAX
                &&& prev.attributes.can_join(times(el.attributes.total_length, n))
            },
            RegexProduction::CharRange(min, max) => {
                &&& min.spec_bytes().len() == 1
                &&& max.spec_bytes().len() == 1
                &&& min.spec_bytes()[0] <= max.spec_bytes()[0]
                &&& prev.attributes.can_join(Some(1))
            },
            RegexProduction::HexRange(min, max) => {
                &&& hex_byte(min.spec_bytes()) is Some
                &&& hex_byte(max.spec_bytes()) is Some
                &&& hex_byte(min.spec_bytes()).unwrap() <= hex_byte(max.spec_bytes()).unwrap()
                &&& prev.attributes.can_join(Some(1))
            },
        }
    }

    /// The text that the production adds to a regex.
    pub open spec fn text(self) -> Seq<char> {
        match self {
            RegexProduction::Identifier(interim) => {
                let el = interim->Regex_0;
                if el.attributes.is_choice {
                    "("@ + el.re@ + ")"@
                } else {
                    el.re@
                }
            },
            RegexProduction::Literal(s) => escaped(s@),
            RegexProduction::ByteLiteral(v) => "\\x"@ + hex_text(hex_byte(v.spec_bytes()).unwrap()),
            RegexProduction::Parentheses(el) => "("@ + el.re@ + ")"@,
            RegexProduction::Choice => "|"@,
            RegexProduction::KleeneStar(el) => grouped(el.re@) + "*"@,
            RegexProduction::KleenePlus(el) => grouped(el.re@) + "+"@,
            RegexProduction::Repeat(el, n) => grouped(el.re@) + "{"@ + decimal_text(
                n as nat,
            ) + "}"@,
            RegexProduction::CharRange(min, max) => "["@ + min@ + "-"@ + max@ + "]"@,
            RegexProduction::HexRange(min, max) => "[\\x"@ + hex_text(
                hex_byte(min.spec_bytes()).unwrap(),
            ) + "-\\x"@ + hex_text(hex_byte(max.spec_bytes()).unwrap()) + "]"@,
        }
    }

    /// The attributes of a regex after the production was applied to it.
    pub open spec fn attributes(self, prev: RegexAttributes) -> RegexAttributes {
        match self {
            RegexProduction::Identifier(interim) => prev.joined(
                interim->Regex_0.attributes.total_length,
            ),
            RegexProduction::Literal(s) => prev.joined(Some(s.spec_bytes().len() as usize)),
            RegexProduction::ByteLiteral(_) => prev.joined(Some(1)),
            RegexProduction::Parentheses(el) => prev.joined(el.attributes.total_length),
            RegexProduction::Choice => prev.alternated(),
            RegexProduction::KleeneStar(_) => prev.unbounded(),
            RegexProduction::KleenePlus(_) => prev.unbounded(),
            RegexProduction::Repeat(el, n) => prev.joined(times(el.attributes.total_length, n)),
            RegexProduction::CharRange(_, _) => prev.joined(Some(1)),
            RegexProduction::HexRange(_, _) => prev.joined(Some(1)),
        }
    }

    /// Generates a partial regex to be compiled by the `regex` crate.
    ///
    /// Processes a new part of the regex and joins it with the parts that
    /// are already processed.
    pub fn apply(self, prev: InterimRegex) -> (r: InterimRegex)
        requires
            self.applicable(prev),
        ensures
            r.re@ == prev.re@ + self.text(),
            r.attributes == self.attributes(prev.attributes),
            r.inv(),
    {
        let InterimRegex { re: prev_re, attributes: prev_attributes } = prev;
        let ghost before = prev_re@;
        let mut re = prev_re;
        match self {
            RegexProduction::Identifier(interim) => {
                match interim {
                    Interim::Regex(el) => {
                        // Conditionally wrap new element in parentheses.
                        // An identifier is expected to be implicitly
                        // encapsulated.
                        if el.attributes.is_choice {
                            re.append("(");
                            re.append(el.re.as_str());
                            re.append(")");
                            assert(re@ =~= before + ("("@ + el.re@ + ")"@));
                        } else {
                            re.append(el.re.as_str());
                        }
                        InterimRegex { re, attributes: prev_attributes.join(el.max_length()) }
                    },
                    Interim::CalcRegex(_) => {
                        proof {
                            assert(false);
                        }
                        vstd::pervasive::unreached()
                    },
                }
            },
            RegexProduction::Literal(s) => {
                let text = escape(s);
                re.append(text.as_str());
                InterimRegex { re, attributes: prev_attributes.join(Some(s.len())) }
            },
            RegexProduction::ByteLiteral(v) => {
                match read_hex_byte(v) {
                    Some(v) => {
                        // Format `v` to be exactly two upper-case hex
                        // characters.
                        re.append("\\x");
                        push_hex(&mut re, v);
                        assert(re@ =~= before + ("\\x"@ + hex_text(v as nat)));
                        InterimRegex { re, attributes: prev_attributes.join(Some(1)) }
                    },
                    None => {
                        proof {
                            assert(false);
                        }
                        vstd::pervasive::unreached()
                    },
                }
            },
            RegexProduction::Parentheses(el) => {
                re.append("(");
                re.append(el.re.as_str());
                re.append(")");
                assert(re@ =~= before + ("("@ + el.re@ + ")"@));
                InterimRegex { re, attributes: prev_attributes.join(el.max_length()) }
            },
            RegexProduction::Choice => {
                re.append("|");
                InterimRegex {
                    re,
                    attributes: RegexAttributes {
                        is_choice: true,
                        total_length: prev_attributes.total_length,
                        current_choice_length: match prev_attributes.total_length {
                            Some(_) => Some(0),
                            None => None,
                        },
                    },
                }
            },
            RegexProduction::KleeneStar(el) => {
                // Most of the time, the operand must be put into
                // parentheses as the Kleene star binds very strongly.
                push_grouped(&mut re, el);
                re.append("*");
                assert(re@ =~= before + (grouped(el.re@) + "*"@));
                InterimRegex {
                    re,
                    attributes: RegexAttributes {
                        is_choice: prev_attributes.is_choice,
                        // We cannot bound the length anymore.
                        total_length: None,
                        current_choice_length: None,
                    },
                }
            },
            RegexProduction::KleenePlus(el) => {
                push_grouped(&mut re, el);
                re.append("+");
                assert(re@ =~= before + (grouped(el.re@) + "+"@));
                InterimRegex {
                    re,
                    attributes: RegexAttributes {
                        is_choice: prev_attributes.is_choice,
                        total_length: None,
                        current_choice_length: None,
                    },
                }
            },
            RegexProduction::Repeat(el, n) => {
                // "[a-z]", 3 will become "[a-z]{3}", "foo", 3 will become
                // "(foo){3}".
                push_grouped(&mut re, el);
                re.append("{");
                push_decimal(&mut re, n);
                re.append("}");
                assert(re@ =~= before + (grouped(el.re@) + "{"@ + decimal_text(n as nat)
                    + "}"@));
                let length = match el.max_length() {
                    Some(l) => Some(l * n),
                    None => None,
                };
                InterimRegex { re, attributes: prev_attributes.join(length) }
            },
            RegexProduction::CharRange(min, max) => {
                re.append("[");
                re.append(min);
                re.append("-");
                re.append(max);
                re.append("]");
                assert(re@ =~= before + ("["@ + min@ + "-"@ + max@ + "]"@));
                InterimRegex { re, attributes: prev_attributes.join(Some(1)) }
            },
            RegexProduction::HexRange(min, max) => {
                match (read_hex_byte(min), read_hex_byte(max)) {
                    (Some(min), Some(max)) => {
                        // Format ranges to be exactly two upper-case hex
                        // characters.
                        re.append("[\\x");
                        push_hex(&mut re, min);
                        re.append("-\\x");
                        push_hex(&mut re, max);
                        re.append("]");
                        assert(re@ =~= before + ("[\\x"@ + hex_text(min as nat) + "-\\x"@
                            + hex_text(max as nat) + "]"@));
                        InterimRegex { re, attributes: prev_attributes.join(Some(1)) }
                    },
                    _ => {
                        proof {
                            assert(false);
                        }
                        vstd::pervasive::unreached()
                    },
                }
            },
        }
    }
}

/// Appends the text of a regex, in parentheses unless it is atomic.
fn push_grouped(text: &mut String, el: &InterimRegex)
    ensures
        final(text)@ == old(text)@ + grouped(el.re@),
{
    if el.is_atomic() {
        text.append(el.re.as_str());
    } else {
        text.append("(");
        text.append(el.re.as_str());
        text.append(")");
        assert(text@ =~= old(text)@ + ("("@ + el.re@ + ")"@));
    }
}

/// Restricted production rules for calc-regexes.
///
/// `F` is the type of the functions that read a count.
pub enum CalcRegexProduction<'a, F> {
    Identifier(&'a Interim, String),
    Regex(&'a InterimRegex),
    Concat(NodeIndex, NodeIndex),
    Repeat(NodeIndex, usize),
    KleeneStar(NodeIndex),
    LengthCount { r: NodeIndex, s: Option<NodeIndex>, t: NodeIndex, f: F },
    OccurrenceCount { r: NodeIndex, s: Option<NodeIndex>, t: NodeIndex, f: F },
}

/// Whether a node stands for another node under a name of its own.
pub open spec fn is_reference<F>(node: Node<F>, name: Seq<char>, target: int) -> bool {
    &&& node.named(name)
    &&& node.length_bound is None
    &&& node.inner matches Inner::CalcRegex(c) && c@ == target
}

/// Whether the name, if it is one, is new to the nodes.
pub open spec fn fresh_name<F>(g: Seq<Node<F>>, name: Option<String>) -> bool {
    name matches Some(n) ==> find_name(g, n@, 0) is None
}

impl<'a, F: Fn(&[u8]) -> Option<usize>> CalcRegexProduction<'a, F> {
    /// The node that a production other than a regex or an identifier adds
    /// to an expression.
    pub open spec fn node(self, name: Option<String>) -> Node<F> {
        Node {
            name,
            length_bound: None,
            inner: match self {
                CalcRegexProduction::Concat(lhs, rhs) => Inner::Concat(lhs, rhs),
                CalcRegexProduction::Repeat(c, n) => Inner::Repeat(c, n),
                CalcRegexProduction::KleeneStar(c) => Inner::KleeneStar(c),
                CalcRegexProduction::LengthCount { r, s, t, f } => Inner::LengthCount {
                    r,
                    s,
                    t,
                    f,
                },
                CalcRegexProduction::OccurrenceCount { r, s, t, f } => Inner::OccurrenceCount {
                    r,
                    s,
                    t,
                    f,
                },
                _ => arbitrary(),
            },
        }
    }

    /// Whether the production can be applied as far as names and room go:
    /// the name given to a new node is new, there is room for the nodes
    /// that are added, and what an occurrence count repeats has a name.
    pub open spec fn placeable(self, g: Seq<Node<F>>, name: Option<String>) -> bool {
        match self {
            CalcRegexProduction::Identifier(interim, identifier) => {
                &&& g.len() + 1 < usize::MAX
                &&& fresh_name(g, name)
                &&& name matches Some(n) ==> n@ != identifier@
                &&& *interim matches Interim::CalcRegex(c) ==> 0 <= c@ < g.len()
            },
            CalcRegexProduction::Regex(_) => true,
            CalcRegexProduction::OccurrenceCount { t, .. } => {
                &&& g.len() < usize::MAX
                &&& fresh_name(g, name)
                &&& 0 <= t@ < g.len()
                &&& g[t@].name is Some
            },
            _ => g.len() < usize::MAX && fresh_name(g, name),
        }
    }

    /// Whether the regex that the production holds, if it holds one, can
    /// be compiled.
    pub open spec fn compilable(self, g: Seq<Node<F>>, name: Option<String>) -> bool {
        match self {
            CalcRegexProduction::Identifier(interim, identifier) => *interim matches Interim::Regex(
                re,
            ) ==> re.compilable(g, Some(identifier)),
            CalcRegexProduction::Regex(re) => re.compilable(g, name),
            _ => true,
        }
    }

    /// Whether `after` are the nodes of an expression after the
    /// production was applied under the given name, and `at` is the node
    /// that stands for it. An identifier that holds a regex has the regex
    /// compiled under the identifier. An identifier that is given a name
    /// gets a node of that name that refers to what it holds; without a
    /// name it is used as it is. Any other production is added as a node.
    pub open spec fn applied(
        self,
        name: Option<String>,
        before: Seq<Node<F>>,
        after: Seq<Node<F>>,
        at: int,
    ) -> bool {
        match self {
            CalcRegexProduction::Identifier(interim, identifier) => match (*interim, name) {
                (Interim::Regex(re), None) => re.compiled(Some(identifier), before, after, at),
                (Interim::Regex(re), Some(n)) => {
                    &&& after.len() >= 1
                    &&& at == after.len() - 1
                    &&& after.last().inner matches Inner::CalcRegex(c) && re.compiled(
                        Some(identifier),
                        before,
                        after.drop_last(),
                        c@,
                    ) && is_reference(after.last(), n@, c@)
                },
                (Interim::CalcRegex(c), None) => at == c@ && after == before,
                (Interim::CalcRegex(c), Some(n)) => {
                    &&& at == before.len()
                    &&& after.len() == before.len() + 1
                    &&& after.drop_last() == before
                    &&& is_reference(after.last(), n@, c@)
                },
            },
            CalcRegexProduction::Regex(re) => re.compiled(name, before, after, at),
            _ => at == before.len() && after == before.push(self.node(name)),
        }
    }

    /// Generates `CalcRegex`es, that can be used directly or be compiled
    /// into other `CalcRegex`es.
    pub fn apply(self, calc_regex: &mut CalcRegex<F>, name: Option<String>) -> (r: NodeIndex)
        requires
            self.placeable(old(calc_regex).nodes(), name),
            self.compilable(old(calc_regex).nodes(), name),
        ensures
            final(calc_regex).root() == old(calc_regex).root(),
            self.applied(name, old(calc_regex).nodes(), final(calc_regex).nodes(), r@),
            0 <= r@ < final(calc_regex).nodes().len(),
            old(calc_regex).wf() && (forall|i: int|
                old(calc_regex).nodes().len() <= i < final(calc_regex).nodes().len()
                    ==> #[trigger] node_wf(final(calc_regex).nodes(), i))
                ==> final(calc_regex).wf(),
    {
        let ghost before = calc_regex.nodes();
        match self {
            CalcRegexProduction::Identifier(interim, identifier) => {
                let ghost id = identifier@;
                let node_index = match interim {
                    Interim::Regex(regex) => regex.compile(calc_regex, Some(identifier)),
                    Interim::CalcRegex(node_index) => *node_index,
                };
                let ghost mid = calc_regex.nodes();
                match name {
                    // We are assigning this identifier. Explicitly
                    // encapsulate its calc-regex.
                    Some(name) => {
                        proof {
                            if mid != before {
                                assert(mid =~= before.push(mid.last()));
                                lemma_find_name_push(before, mid.last(), name@);
                            }
                        }
                        let node = Node {
                            name: Some(name),
                            length_bound: None,
                            inner: Inner::CalcRegex(node_index),
                        };
                        let r = calc_regex.push_node(node);
                        proof {
                            let after = calc_regex.nodes();
                            assert(after.drop_last() =~= mid);
                            assert(is_reference(after.last(), name@, node_index@));
                        }
                        r
                    },
                    // The calc-regex is used anonymously. Use as is.
                    None => {
                        node_index
                    },
                }
            },
            CalcRegexProduction::Regex(regex) => regex.compile(calc_regex, name),
            CalcRegexProduction::Concat(lhs, rhs) => {
                let node = Node { name, length_bound: None, inner: Inner::Concat(lhs, rhs) };
                calc_regex.push_node(node)
            },
            CalcRegexProduction::Repeat(node_index, n) => {
                let node = Node { name, length_bound: None, inner: Inner::Repeat(node_index, n) };
                calc_regex.push_node(node)
            },
            CalcRegexProduction::KleeneStar(node_index) => {
                let node = Node { name, length_bound: None, inner: Inner::KleeneStar(node_index) };
                calc_regex.push_node(node)
            },
            CalcRegexProduction::LengthCount { r, s, t, f } => {
                let node = Node {
                    name,
                    length_bound: None,
                    inner: Inner::LengthCount { r, s, t, f },
                };
                calc_regex.push_node(node)
            },
            CalcRegexProduction::OccurrenceCount { r, s, t, f } => {
                let node = Node {
                    name,
                    length_bound: None,
                    inner: Inner::OccurrenceCount { r, s, t, f },
                };
                calc_regex.push_node(node)
            },
        }
    }

    /// Applies the production as `apply` does, if the regex that it
    /// holds, if it holds one, can be compiled.
    pub fn try_apply(self, calc_regex: &mut CalcRegex<F>, name: Option<String>) -> (r: Option<
        NodeIndex,
    >)
        requires
            self.placeable(old(calc_regex).nodes(), name),
        ensures
            r is Some <==> self.compilable(old(calc_regex).nodes(), name),
            r is None ==> *final(calc_regex) == *old(calc_regex),
            r matches Some(i) ==> {
                &&& final(calc_regex).root() == old(calc_regex).root()
                &&& self.applied(name, old(calc_regex).nodes(), final(calc_regex).nodes(), i@)
                &&& 0 <= i@ < final(calc_regex).nodes().len()
                &&& old(calc_regex).wf() && (forall|j: int|
                    old(calc_regex).nodes().len() <= j < final(calc_regex).nodes().len()
                        ==> #[trigger] node_wf(final(calc_regex).nodes(), j))
                    ==> final(calc_regex).wf()
            },
    {
        let ready = match &self {
            CalcRegexProduction::Identifier(interim, identifier) => match interim {
                Interim::Regex(regex) => regex.can_compile(calc_regex, &Some(identifier.clone())),
                Interim::CalcRegex(_) => true,
            },
            CalcRegexProduction::Regex(regex) => regex.can_compile(calc_regex, &name),
            _ => true,
        };
        if ready {
            Some(self.apply(calc_regex, name))
        } else {
            None
        }
    }
}

} // verus!
