//! Pattern parser.
//!
//! The grammar, lowest to highest precedence:
//!
//! ```text
//! expression     = sub_expression eof
//! sub_expression = sequence '|' sub_expression | sequence
//! sequence       = sub_sequence?                          (empty => Empty)
//! sub_sequence   = star sub_sequence | star
//! star           = factor '*'?
//! factor         = '(' sub_expression ')'
//!                | any character but '|' '*' '(' ')' '\'
//!                | '\' any character
//! ```
//!
//! Alternation is right-associative, as is implicit concatenation. The
//! whole input must be consumed; otherwise parsing fails with a
//! [`SyntaxError`].
//!
//! The grammar is deterministic, so its meaning is written down as a family
//! of total spec functions (`spec_factor` .. `spec_parse`), and each
//! executable parser function returns exactly what the corresponding spec
//! function denotes.

use vstd::prelude::*;
use vstd::string::StrSliceExecFns;

verus! {

/// A syntax tree for a pattern.
#[derive(Debug, PartialEq)]
pub enum Node {
    /// Matches the zero-length string.
    Empty,
    /// Matches exactly one code point.
    Char(char),
    /// Matches a match of the left followed by a match of the right.
    Concat(Box<Node>, Box<Node>),
    /// Matches a match of either side.
    Union(Box<Node>, Box<Node>),
    /// Matches zero or more matches of the inner node.
    Star(Box<Node>),
}

impl Node {
    /// Whether this node is a `Star`.
    pub fn is_star(&self) -> (r: bool)
        ensures
            r == (self is Star),
    {
        match self {
            Node::Star(_) => true,
            _ => false,
        }
    }
}

/// The number of `Node` constructors in a tree; used to bound the resources
/// the two compilers may draw.
pub open spec fn node_count(n: Node) -> nat
    decreases n,
{
    match n {
        Node::Empty => 1,
        Node::Char(_) => 1,
        Node::Concat(l, r) => 1 + node_count(*l) + node_count(*r),
        Node::Union(l, r) => 1 + node_count(*l) + node_count(*r),
        Node::Star(i) => 1 + node_count(*i),
    }
}

/// The single error of this library: the pattern is not in the grammar.
#[derive(Debug, Clone, PartialEq, Eq)]
pub struct SyntaxError;

/// The longest pattern the compilers accept: a tree holds at most three
/// nodes per code point, and either back end draws at most two fresh
/// states or addresses per node, so this keeps every counter within
/// `usize`.
pub const MAX_PATTERN_LENGTH: usize = 0x0100_0000;

/// The four reserved code points and the escape character.
pub open spec fn spec_is_reserved(c: char) -> bool {
    c == '|' || c == '*' || c == '(' || c == ')' || c == '\\'
}

/// What `factor` denotes at `pos`: the parsed node and the next position.
pub open spec fn spec_factor(s: Seq<char>, pos: int) -> Option<(Node, int)>
    decreases s.len() - pos, 0int
        when 0 <= pos <= s.len()
{
    if pos < s.len() && s[pos] == '(' {
        match spec_sub_expression(s, pos + 1) {
            Some((n, p)) => if pos + 1 <= p <= s.len() && p < s.len() && s[p] == ')' {
                Some((n, p + 1))
            } else {
                None
            },
            None => None,
        }
    } else if pos < s.len() && s[pos] == '\\' {
        if pos + 1 < s.len() {
            Some((Node::Char(s[pos + 1]), pos + 2))
        } else {
            None
        }
    } else if pos < s.len() && !spec_is_reserved(s[pos]) {
        Some((Node::Char(s[pos]), pos + 1))
    } else {
        None
    }
}

/// What `star` denotes at `pos`.
pub open spec fn spec_star(s: Seq<char>, pos: int) -> Option<(Node, int)>
    decreases s.len() - pos, 1int
        when 0 <= pos <= s.len()
{
    match spec_factor(s, pos) {
        Some((n, p)) => if 0 <= p && p < s.len() && s[p] == '*' {
            Some((Node::Star(Box::new(n)), p + 1))
        } else {
            Some((n, p))
        },
        None => None,
    }
}

/// What `sub_sequence` denotes at `pos`.
pub open spec fn spec_sub_sequence(s: Seq<char>, pos: int) -> Option<(Node, int)>
    decreases s.len() - pos, 2int
        when 0 <= pos <= s.len()
{
    match spec_star(s, pos) {
        Some((left, p)) => if pos < p <= s.len() {
            match spec_sub_sequence(s, p) {
                Some((right, q)) => Some((Node::Concat(Box::new(left), Box::new(right)), q)),
                None => Some((left, p)),
            }
        } else {
            Some((left, p))
        },
        None => None,
    }
}

/// What `sequence` denotes at `pos`; an empty sequence yields `Empty`.
pub open spec fn spec_sequence(s: Seq<char>, pos: int) -> Option<(Node, int)>
    decreases s.len() - pos, 3int
        when 0 <= pos <= s.len()
{
    match spec_sub_sequence(s, pos) {
        Some((n, p)) => Some((n, p)),
        None => Some((Node::Empty, pos)),
    }
}

/// What `sub_expression` denotes at `pos`.
pub open spec fn spec_sub_expression(s: Seq<char>, pos: int) -> Option<(Node, int)>
    decreases s.len() - pos, 4int
        when 0 <= pos <= s.len()
{
    match spec_sequence(s, pos) {
        Some((left, p)) => if pos <= p && p < s.len() && s[p] == '|' {
            match spec_sub_expression(s, p + 1) {
                Some((right, q)) => Some((Node::Union(Box::new(left), Box::new(right)), q)),
                None => None,
            }
        } else {
            Some((left, p))
        },
        None => None,
    }
}

/// What `parse` denotes: the tree, provided the grammar consumes the whole
/// input.
pub open spec fn spec_parse(s: Seq<char>) -> Option<Node> {
    match spec_sub_expression(s, 0) {
        Some((n, p)) => if p == s.len() {
            Some(n)
        } else {
            None
        },
        None => None,
    }
}

/// Positions move forward and stay in range, and the parsed tree is small:
/// a tree never holds more than three nodes per consumed code point, plus
/// one. (`factor`, `star` and `sub_sequence` always consume at least one
/// code point; `sequence` and `sub_expression` may consume none.)
pub proof fn lemma_factor_bounds(s: Seq<char>, pos: int)
    requires
        0 <= pos <= s.len(),
    ensures
        match spec_factor(s, pos) {
            Some((n, p)) => pos < p <= s.len() && node_count(n) + 1 <= 3 * (p - pos),
            None => true,
        },
    decreases s.len() - pos, 0int,
{
    if pos < s.len() && s[pos] == '(' {
        lemma_sub_expression_bounds(s, pos + 1);
    }
}

pub proof fn lemma_star_bounds(s: Seq<char>, pos: int)
    requires
        0 <= pos <= s.len(),
    ensures
        match spec_star(s, pos) {
            Some((n, p)) => pos < p <= s.len() && node_count(n) + 1 <= 3 * (p - pos),
            None => true,
        },
    decreases s.len() - pos, 1int,
{
    lemma_factor_bounds(s, pos);
}

pub proof fn lemma_sub_sequence_bounds(s: Seq<char>, pos: int)
    requires
        0 <= pos <= s.len(),
    ensures
        match spec_sub_sequence(s, pos) {
            Some((n, p)) => pos < p <= s.len() && node_count(n) + 1 <= 3 * (p - pos),
            None => true,
        },
    decreases s.len() - pos, 2int,
{
    lemma_star_bounds(s, pos);
    match spec_star(s, pos) {
        Some((left, p)) => {
            if pos < p <= s.len() {
                lemma_sub_sequence_bounds(s, p);
            }
        },
        None => {},
    }
}

pub proof fn lemma_sequence_bounds(s: Seq<char>, pos: int)
    requires
        0 <= pos <= s.len(),
    ensures
        match spec_sequence(s, pos) {
            Some((n, p)) => pos <= p <= s.len() && node_count(n) <= 3 * (p - pos) + 1,
            None => false,
        },
    decreases s.len() - pos, 3int,
{
    lemma_sub_sequence_bounds(s, pos);
}

pub proof fn lemma_sub_expression_bounds(s: Seq<char>, pos: int)
    requires
        0 <= pos <= s.len(),
    ensures
        match spec_sub_expression(s, pos) {
            Some((n, p)) => pos <= p <= s.len() && node_count(n) <= 3 * (p - pos) + 1,
            None => false,
        },
    decreases s.len() - pos, 4int,
{
    lemma_sequence_bounds(s, pos);
    match spec_sequence(s, pos) {
        Some((left, p)) => {
            if pos <= p && p < s.len() && s[p] == '|' {
                lemma_sub_expression_bounds(s, p + 1);
            }
        },
        None => {},
    }
}

/// A successfully parsed pattern yields a tree with at most `3 * len + 1`
/// nodes.
pub proof fn lemma_parse_size(s: Seq<char>)
    ensures
        match spec_parse(s) {
            Some(n) => node_count(n) <= 3 * s.len() + 1,
            None => true,
        },
{
    lemma_sub_expression_bounds(s, 0);
}

/// Whether the character is one of the four reserved code points or the
/// escape character.
fn is_reserved(c: char) -> (r: bool)
    ensures
        r == spec_is_reserved(c),
{
    c == '|' || c == '*' || c == '(' || c == ')' || c == '\\'
}

fn factor(s: &Vec<char>, pos: usize) -> (r: Option<(Node, usize)>)
    requires
        pos <= s@.len(),
    ensures
        match r {
            Some((n, p)) => pos < p <= s@.len() && spec_factor(s@, pos as int) == Some(
                (n, p as int),
            ),
            None => spec_factor(s@, pos as int) is None,
        },
    decreases s@.len() - pos, 0int,
{
    if pos < s.len() && s[pos] == '(' {
        match sub_expression(s, pos + 1) {
            Some((n, p)) => {
                if p < s.len() && s[p] == ')' {
                    Some((n, p + 1))
                } else {
                    None
                }
            },
            None => None,
        }
    } else if pos < s.len() && s[pos] == '\\' {
        if pos + 1 < s.len() {
            Some((Node::Char(s[pos + 1]), pos + 2))
        } else {
            None
        }
    } else if pos < s.len() && !is_reserved(s[pos]) {
        Some((Node::Char(s[pos]), pos + 1))
    } else {
        None
    }
}

fn star(s: &Vec<char>, pos: usize) -> (r: Option<(Node, usize)>)
    requires
        pos <= s@.len(),
    ensures
        match r {
            Some((n, p)) => pos < p <= s@.len() && spec_star(s@, pos as int) == Some(
                (n, p as int),
            ),
            None => spec_star(s@, pos as int) is None,
        },
    decreases s@.len() - pos, 1int,
{
    match factor(s, pos) {
        Some((n, p)) => {
            if p < s.len() && s[p] == '*' {
                Some((Node::Star(Box::new(n)), p + 1))
            } else {
                Some((n, p))
            }
        },
        None => None,
    }
}

fn sub_sequence(s: &Vec<char>, pos: usize) -> (r: Option<(Node, usize)>)
    requires
        pos <= s@.len(),
    ensures
        match r {
            Some((n, p)) => pos < p <= s@.len() && spec_sub_sequence(s@, pos as int) == Some(
                (n, p as int),
            ),
            None => spec_sub_sequence(s@, pos as int) is None,
        },
    decreases s@.len() - pos, 2int,
{
    match star(s, pos) {
        Some((left, p)) => {
            match sub_sequence(s, p) {
                Some((right, q)) => Some((Node::Concat(Box::new(left), Box::new(right)), q)),
                None => Some((left, p)),
            }
        },
        None => None,
    }
}

fn sequence(s: &Vec<char>, pos: usize) -> (r: Option<(Node, usize)>)
    requires
        pos <= s@.len(),
    ensures
        match r {
            Some((n, p)) => pos <= p <= s@.len() && spec_sequence(s@, pos as int) == Some(
                (n, p as int),
            ),
            None => false,
        },
    decreases s@.len() - pos, 3int,
{
    match sub_sequence(s, pos) {
        Some((n, p)) => Some((n, p)),
        None => Some((Node::Empty, pos)),
    }
}

fn sub_expression(s: &Vec<char>, pos: usize) -> (r: Option<(Node, usize)>)
    requires
        pos <= s@.len(),
    ensures
        match r {
            Some((n, p)) => pos <= p <= s@.len() && spec_sub_expression(s@, pos as int) == Some(
                (n, p as int),
            ),
            None => spec_sub_expression(s@, pos as int) is None,
        },
    decreases s@.len() - pos, 4int,
{
    match sequence(s, pos) {
        Some((left, p)) => {
            if p < s.len() && s[p] == '|' {
                match sub_expression(s, p + 1) {
                    Some((right, q)) => Some((Node::Union(Box::new(left), Box::new(right)), q)),
                    None => None,
                }
            } else {
                Some((left, p))
            }
        },
        None => {
            // `sequence` always succeeds
            assert(false);
            None
        },
    }
}

/// The code points of a pattern, in order.
pub fn chars_of(input: &str) -> (r: Vec<char>)
    ensures
        r@ == input@,
{
    let n = input.unicode_len();
    let mut r: Vec<char> = Vec::new();
    let mut i: usize = 0;
    while i < n
        invariant
            i <= n,
            n == input@.len(),
            r@ == input@.subrange(0, i as int),
        decreases n - i,
    {
        r.push(input.get_char(i));
        proof {
            assert(r@ =~= input@.subrange(0, i + 1));
        }
        i = i + 1;
    }
    proof {
        assert(r@ =~= input@);
    }
    r
}

/// Parse a whole pattern; fails exactly when the grammar cannot consume the
/// entire input.
pub fn parse(input: &str) -> (r: Result<Node, SyntaxError>)
    ensures
        match r {
            Ok(n) => spec_parse(input@) == Some(n),
            Err(_) => spec_parse(input@) is None,
        },
{
    let chars = chars_of(input);
    match sub_expression(&chars, 0) {
        Some((n, p)) => {
            if p == chars.len() {
                Ok(n)
            } else {
                Err(SyntaxError)
            }
        },
        None => Err(SyntaxError),
    }
}

} // verus!
