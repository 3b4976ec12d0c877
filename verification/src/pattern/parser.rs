//! Recursive-descent parser over the characters of a pattern.

use vstd::prelude::*;

use crate::error::{Failure, SearchError};
use crate::pattern::grammar;
use crate::pattern::grammar::{MAX_PATTERN_DEPTH, MAX_REPEAT_EXPANSION};
use crate::pattern::tree;
use crate::pattern::tree::{CharClass, Node, Re};
use crate::text;

verus! {

/// What a parse gave is what the grammar says: the same tree and the same
/// end, or the same message.
pub open spec fn parsed(
    got: Result<(Node, usize), SearchError>,
    want: Result<(Re, int), Seq<char>>,
) -> bool {
    match got {
        Ok((node, end)) => want == Ok::<(Re, int), Seq<char>>((node@, end as int)),
        Err(err) => want is Err && err@ == Failure::Pattern(want->Err_0),
    }
}

/// One character.
fn literal(ch: char) -> (out: Node)
    ensures
        out@ == Re::Literal(ch),
{
    Node::Literal(ch)
}

/// Three nodes, one after the other.
pub fn between(left: Node, body: Node, right: Node) -> (out: Node)
    ensures
        out@ == Re::Concat(seq![left@, body@, right@]),
{
    let ghost want = seq![left@, body@, right@];
    let items = vec![left, body, right];
    assert(tree::trees(items@) =~= want);
    Node::Concat(items)
}

/// The nodes as one node.
fn in_sequence(items: Vec<Node>) -> (out: Node)
    ensures
        out@ == grammar::in_sequence(tree::trees(items@)),
{
    let mut items = items;
    if items.len() == 0 {
        Node::Empty
    } else if items.len() == 1 {
        match items.pop() {
            Some(only) => only,
            None => Node::Empty,
        }
    } else {
        Node::Concat(items)
    }
}

proof fn lemma_trees_push(nodes: Seq<Node>, node: Node)
    ensures
        tree::trees(nodes.push(node)) == tree::trees(nodes).push(node@),
{
    assert(tree::trees(nodes.push(node)) =~= tree::trees(nodes).push(node@));
}

// ---------------------------------------------------------------------------
// Classes and escapes
// ---------------------------------------------------------------------------

/// Appends the ranges that an escape adds to a class.
fn push_class_escape(ranges: &mut Vec<(char, char)>, ch: char)
    ensures
        final(ranges)@ == old(ranges)@ + grammar::class_escape(ch),
{
    if ch == 'n' {
        ranges.push(('\n', '\n'));
    } else if ch == 't' {
        ranges.push(('\t', '\t'));
    } else if ch == 'r' {
        ranges.push(('\r', '\r'));
    } else if ch == 'd' {
        ranges.push(('0', '9'));
    } else if ch == 'w' {
        ranges.push(('a', 'z'));
        ranges.push(('A', 'Z'));
        ranges.push(('0', '9'));
        ranges.push(('_', '_'));
    } else if ch == 's' {
        ranges.push((' ', ' '));
        ranges.push(('\t', '\t'));
        ranges.push(('\r', '\r'));
        ranges.push(('\n', '\n'));
    } else {
        ranges.push((ch, ch));
    }
    assert(ranges@ =~= old(ranges)@ + grammar::class_escape(ch));
}

fn bad_range(lo: char, hi: char) -> (err: SearchError)
    ensures
        err@ == Failure::Pattern(grammar::bad_range(lo, hi)),
{
    let mut message = String::new();
    message.push_str("invalid character range '");
    message.push(lo);
    message.push_str("-");
    message.push(hi);
    message.push_str("'");
    assert(message@ =~= grammar::bad_range(lo, hi));
    SearchError::pattern(message.as_str())
}

/// Parse a `[...]` class; `pos` is behind the opening bracket.
fn parse_class(src: &[char], pos: usize) -> (out: Result<(Node, usize), SearchError>)
    requires
        pos <= src@.len(),
    ensures
        parsed(out, grammar::class(src@, pos as int)),
        out is Ok ==> pos < out->Ok_0.1 <= src@.len(),
{
    let ghost p = src@;
    let negated = pos < src.len() && src[pos] == '^';
    let from: usize = if negated {
        pos + 1
    } else {
        pos
    };
    let mut ranges: Vec<(char, char)> = Vec::new();
    let mut at: usize = from;
    let mut first = true;
    proof {
        let rest = grammar::members(p, from as int, true);
        if rest is Ok {
            assert(Seq::<(char, char)>::empty() + rest->Ok_0.0 =~= rest->Ok_0.0);
        }
    }
    while at < src.len()
        invariant
            p == src@,
            pos <= from <= at <= p.len(),
            negated == (0 <= pos < p.len() && p[pos as int] == '^'),
            from == (if negated {
                pos + 1
            } else {
                pos as int
            }),
            grammar::members(p, from as int, true) == grammar::prepend(
                ranges@,
                grammar::members(p, at as int, first),
            ),
        decreases p.len() - at,
    {
        let ch = src[at];
        if ch == ']' && !first {
            proof {
                assert(ranges@ + Seq::<(char, char)>::empty() =~= ranges@);
            }
            return Ok((Node::Class(CharClass { negated, ranges }), at + 1));
        }
        let ghost before = ranges@;
        if ch == '\\' {
            if at + 1 >= src.len() {
                return Err(SearchError::pattern("dangling escape in class"));
            }
            push_class_escape(&mut ranges, src[at + 1]);
            proof {
                grammar::lemma_prepend_all(
                    before,
                    grammar::class_escape(p[at + 1]),
                    grammar::members(p, at + 2, false),
                );
            }
            at += 2;
        } else if src.len() - at > 2 && src[at + 1] == '-' && src[at + 2] != ']' {
            let hi = src[at + 2];
            if hi < ch {
                return Err(bad_range(ch, hi));
            }
            ranges.push((ch, hi));
            proof {
                grammar::lemma_prepend(before, (ch, hi), grammar::members(p, at + 3, false));
            }
            at += 3;
        } else {
            ranges.push((ch, ch));
            proof {
                grammar::lemma_prepend(before, (ch, ch), grammar::members(p, at + 1, false));
            }
            at += 1;
        }
        first = false;
    }
    Err(SearchError::pattern("unclosed character class"))
}

/// What a backslash and `ch` stand for outside a class.
fn parse_escape(ch: char) -> (out: Node)
    ensures
        out@ == grammar::escape(ch),
{
    if ch == 'n' {
        Node::Literal('\n')
    } else if ch == 't' {
        Node::Literal('\t')
    } else if ch == 'r' {
        Node::Literal('\r')
    } else if ch == '0' {
        Node::Literal('\0')
    } else if ch == 'b' {
        Node::WordBoundary
    } else if ch == 'd' || ch == 'D' {
        let mut class = CharClass::digit();
        class.negated = ch == 'D';
        Node::Class(class)
    } else if ch == 'w' || ch == 'W' {
        let mut class = CharClass::word();
        class.negated = ch == 'W';
        Node::Class(class)
    } else if ch == 's' || ch == 'S' {
        let mut class = CharClass::space();
        class.negated = ch == 'S';
        Node::Class(class)
    } else {
        // Any other escaped character is that character literally, the
        // metacharacters among them.
        Node::Literal(ch)
    }
}

// ---------------------------------------------------------------------------
// Repetitions
// ---------------------------------------------------------------------------

/// The number spelled by the digits from `pos` on, where that is beyond the
/// limit one more than the limit, and where the digits end.
fn parse_digits(src: &[char], pos: usize) -> (out: (Option<usize>, usize))
    requires
        pos <= src@.len(),
    ensures
        out.1 == text::digits_end(src@, pos as int),
        pos <= out.1 <= src@.len(),
        match out.0 {
            Some(n) => match grammar::count_at(src@, pos as int) {
                Some(count) => {
                    &&& pos < out.1
                    &&& n <= MAX_REPEAT_EXPANSION ==> n == count
                    &&& n > MAX_REPEAT_EXPANSION ==> count > MAX_REPEAT_EXPANSION
                },
                None => false,
            },
            None => grammar::count_at(src@, pos as int) is None,
        },
{
    let end = text::scan_digits(src, pos);
    if end == pos {
        return (None, end);
    }
    proof {
        text::lemma_digits_end(src@, pos as int);
    }
    match text::read_digits(src, pos, end, MAX_REPEAT_EXPANSION as u64) {
        Some(n) => (Some(n as usize), end),
        None => (Some(MAX_REPEAT_EXPANSION + 1), end),
    }
}

/// The error about a repetition count above the limit, which stands at
/// `from..to`.
fn too_many(src: &[char], from: usize, to: usize) -> (err: SearchError)
    requires
        from < to <= src@.len(),
        text::all_digits(src@.subrange(from as int, to as int)),
    ensures
        err@ == Failure::Pattern(
            grammar::too_many(text::value_of(src@.subrange(from as int, to as int))),
        ),
{
    let ghost n = text::value_of(src@.subrange(from as int, to as int));
    let mut message = String::new();
    message.push_str("repetition count ");
    text::push_number(&mut message, src, from, to);
    message.push_str(" too large (max ");
    text::push_decimal(&mut message, MAX_REPEAT_EXPANSION as u128);
    message.push_str(")");
    assert(message@ =~= grammar::too_many(n));
    SearchError::pattern(message.as_str())
}

fn upside_down(min: usize, max: usize) -> (err: SearchError)
    ensures
        err@ == Failure::Pattern(grammar::upside_down(min as nat, max as nat)),
{
    let mut message = String::new();
    message.push_str("repetition maximum ");
    text::push_decimal(&mut message, max as u128);
    message.push_str(" smaller than minimum ");
    text::push_decimal(&mut message, min as u128);
    assert(message@ =~= grammar::upside_down(min as nat, max as nat));
    SearchError::pattern(message.as_str())
}

/// A bound as a number.
pub open spec fn bound(max: Option<usize>) -> Option<nat> {
    match max {
        Some(n) => Some(n as nat),
        None => None,
    }
}

/// Parse `{m}`, `{m,}` or `{m,n}`; `pos` is at the opening brace. `Ok(None)`
/// when the braces do not form a repetition.
fn parse_repetition(src: &[char], pos: usize) -> (out: Result<
    Option<(usize, Option<usize>, usize)>,
    SearchError,
>)
    requires
        pos < src@.len(),
    ensures
        match out {
            Ok(Some((min, max, end))) => {
                &&& grammar::repetition(src@, pos as int) == Ok::<
                    Option<(nat, Option<nat>, int)>,
                    Seq<char>,
                >(Some((min as nat, bound(max), end as int)))
                &&& pos < end <= src@.len()
                &&& min <= MAX_REPEAT_EXPANSION
                &&& max is Some ==> min <= max->0 <= MAX_REPEAT_EXPANSION
            },
            Ok(None) => grammar::repetition(src@, pos as int) == Ok::<
                Option<(nat, Option<nat>, int)>,
                Seq<char>,
            >(None),
            Err(err) => {
                &&& grammar::repetition(src@, pos as int) is Err
                &&& err@ == Failure::Pattern(grammar::repetition(src@, pos as int)->Err_0)
            },
        },
{
    let size: usize = src.len();
    let (least, comma) = parse_digits(src, pos + 1);
    let min: usize = match least {
        Some(n) => n,
        None => {
            return Ok(None);
        },
    };
    let open_ended = comma < size && src[comma] == ',';
    let (max, end): (Option<usize>, usize) = if open_ended {
        parse_digits(src, comma + 1)
    } else {
        (Some(min), comma)
    };
    if end >= size || src[end] != '}' {
        return Ok(None);
    }
    if min > MAX_REPEAT_EXPANSION {
        proof {
            text::lemma_digits_end(src@, pos + 1);
        }
        return Err(too_many(src, pos + 1, comma));
    }
    if let Some(most) = max {
        if most > MAX_REPEAT_EXPANSION {
            proof {
                text::lemma_digits_end(src@, comma + 1);
            }
            return Err(too_many(src, comma + 1, end));
        }
        if most < min {
            return Err(upside_down(min, most));
        }
    }
    Ok(Some((min, max, end + 1)))
}

/// Expand `{m,n}` repetitions into plain concatenation: `a{2,4}` becomes
/// `a a a? a?` and `a{2,}` becomes `a a a*`.
fn expand_repetition(atom: Node, min: usize, max: Option<usize>) -> (out: Node)
    requires
        max is Some ==> min <= max->0,
    ensures
        out@ == grammar::in_sequence(grammar::expansion(atom@, min as nat, bound(max))),
{
    let ghost re = atom@;
    let ghost want = grammar::expansion(re, min as nat, bound(max));
    let mut items: Vec<Node> = Vec::new();
    let mut i: usize = 0;
    while i < min
        invariant
            i <= min,
            re == atom@,
            items@.len() == i,
            tree::trees(items@) =~= Seq::new(i as nat, |k: int| re),
        decreases min - i,
    {
        let ghost before = items@;
        let copy = atom.clone();
        proof {
            lemma_trees_push(before, copy);
        }
        items.push(copy);
        i += 1;
    }
    match max {
        None => {
            let star = Node::Star(Box::new(atom));
            proof {
                lemma_trees_push(items@, star);
                assert(tree::trees(items@).push(star@) =~= want);
            }
            items.push(star);
        },
        Some(most) => {
            while i < most
                invariant
                    min <= i <= most,
                    re == atom@,
                    tree::trees(items@) =~= Seq::new(min as nat, |k: int| re) + Seq::new(
                        (i - min) as nat,
                        |k: int| Re::Optional(Box::new(re)),
                    ),
                decreases most - i,
            {
                let ghost before = items@;
                let optional = Node::Optional(Box::new(atom.clone()));
                proof {
                    lemma_trees_push(before, optional);
                }
                items.push(optional);
                i += 1;
            }
            assert(tree::trees(items@) =~= want);
        },
    }
    in_sequence(items)
}

/// Apply any run of postfix quantifiers to `atom`. A `{` that does not
/// introduce a valid repetition is left in the stream and becomes a literal
/// on the next atom cycle (grep-like leniency).
fn parse_quantifiers(src: &[char], pos: usize, atom: Node) -> (out: Result<
    (Node, usize),
    SearchError,
>)
    requires
        pos <= src@.len(),
    ensures
        parsed(out, grammar::quantifiers(src@, pos as int, atom@)),
        out is Ok ==> pos <= out->Ok_0.1 <= src@.len(),
{
    let ghost p = src@;
    let ghost want = grammar::quantifiers(p, pos as int, atom@);
    let mut node = atom;
    let mut at: usize = pos;
    while at < src.len()
        invariant
            p == src@,
            pos <= at <= p.len(),
            want == grammar::quantifiers(p, at as int, node@),
            want == grammar::quantifiers(p, pos as int, atom@),
        decreases p.len() - at,
    {
        let ch = src[at];
        if ch == '*' {
            node = Node::Star(Box::new(node));
            at += 1;
        } else if ch == '+' {
            node = Node::Plus(Box::new(node));
            at += 1;
        } else if ch == '?' {
            node = Node::Optional(Box::new(node));
            at += 1;
        } else if ch == '{' {
            match parse_repetition(src, at) {
                Ok(Some((min, max, end))) => {
                    node = expand_repetition(node, min, max);
                    at = end;
                },
                Ok(None) => {
                    return Ok((node, at));
                },
                Err(err) => {
                    return Err(err);
                },
            }
        } else {
            return Ok((node, at));
        }
    }
    Ok((node, at))
}

// ---------------------------------------------------------------------------
// Patterns
// ---------------------------------------------------------------------------

fn parse_atom(src: &[char], pos: usize, depth: usize) -> (out: Result<(Node, usize), SearchError>)
    requires
        pos < src@.len(),
        depth < MAX_PATTERN_DEPTH,
    ensures
        parsed(out, grammar::atom(src@, pos as int, depth as nat)),
        out is Ok ==> pos < out->Ok_0.1 <= src@.len(),
    decreases src@.len() - pos, 0nat,
{
    let ch = src[pos];
    if ch == '(' {
        if depth + 1 >= MAX_PATTERN_DEPTH {
            return Err(
                SearchError::pattern("pattern nesting too deep (possible catastrophic form)"),
            );
        }
        match parse_alternate(src, pos + 1, depth + 1) {
            Ok((inner, end)) => {
                if end < src.len() && src[end] == ')' {
                    Ok((inner, end + 1))
                } else {
                    Err(SearchError::pattern("missing closing ')'"))
                }
            },
            Err(err) => Err(err),
        }
    } else if ch == '[' {
        parse_class(src, pos + 1)
    } else if ch == '.' {
        Ok((Node::AnyChar, pos + 1))
    } else if ch == '^' {
        Ok((Node::StartAnchor, pos + 1))
    } else if ch == '$' {
        Ok((Node::EndAnchor, pos + 1))
    } else if ch == '\\' {
        if src.len() - pos > 1 {
            Ok((parse_escape(src[pos + 1]), pos + 2))
        } else {
            Err(SearchError::pattern("dangling escape at end of pattern"))
        }
    } else {
        Ok((literal(ch), pos + 1))
    }
}

fn parse_concat(src: &[char], pos: usize, depth: usize) -> (out: Result<
    (Node, usize),
    SearchError,
>)
    requires
        pos <= src@.len(),
        depth < MAX_PATTERN_DEPTH,
    ensures
        parsed(out, grammar::concatenation(src@, pos as int, depth as nat)),
        out is Ok ==> pos <= out->Ok_0.1 <= src@.len(),
    decreases src@.len() - pos, 1nat,
{
    let ghost p = src@;
    let ghost want = grammar::atoms(p, pos as int, depth as nat);
    let mut items: Vec<Node> = Vec::new();
    let mut at: usize = pos;
    proof {
        if want is Ok {
            assert(tree::trees(items@) + want->Ok_0.0 =~= want->Ok_0.0);
        }
    }
    while at < src.len() && src[at] != '|' && src[at] != ')'
        invariant
            p == src@,
            depth < MAX_PATTERN_DEPTH,
            pos <= at <= p.len(),
            want == grammar::atoms(p, pos as int, depth as nat),
            want == grammar::prepend(
                tree::trees(items@),
                grammar::atoms(p, at as int, depth as nat),
            ),
        decreases p.len() - at,
    {
        let ghost here = grammar::quantified(p, at as int, depth as nat);
        assert(grammar::atom(p, at as int, depth as nat) is Err ==> here is Err && here->Err_0
            == grammar::atom(p, at as int, depth as nat)->Err_0);
        let (atom, behind) = match parse_atom(src, at, depth) {
            Ok(found) => found,
            Err(err) => {
                return Err(err);
            },
        };
        let (node, end) = match parse_quantifiers(src, behind, atom) {
            Ok(found) => found,
            Err(err) => {
                return Err(err);
            },
        };
        proof {
            lemma_trees_push(items@, node);
            grammar::lemma_prepend(
                tree::trees(items@),
                node@,
                grammar::atoms(p, end as int, depth as nat),
            );
        }
        items.push(node);
        at = end;
    }
    proof {
        assert(tree::trees(items@) + Seq::<Re>::empty() =~= tree::trees(items@));
    }
    Ok((in_sequence(items), at))
}

/// Parse alternatives; `pos` is at the first character of the first of them.
pub fn parse_alternate(src: &[char], pos: usize, depth: usize) -> (out: Result<
    (Node, usize),
    SearchError,
>)
    requires
        pos <= src@.len(),
        depth < MAX_PATTERN_DEPTH,
    ensures
        parsed(out, grammar::alternation(src@, pos as int, depth as nat)),
        out is Ok ==> pos <= out->Ok_0.1 <= src@.len(),
    decreases src@.len() - pos, 2nat,
{
    let ghost p = src@;
    let ghost want = grammar::branches(p, pos as int, depth as nat);
    let mut list: Vec<Node> = Vec::new();
    let mut at: usize = pos;
    proof {
        if want is Ok {
            assert(tree::trees(list@) + want->Ok_0.0 =~= want->Ok_0.0);
        }
    }
    loop
        invariant
            p == src@,
            depth < MAX_PATTERN_DEPTH,
            pos <= at <= p.len(),
            want == grammar::branches(p, pos as int, depth as nat),
            want == grammar::prepend(
                tree::trees(list@),
                grammar::branches(p, at as int, depth as nat),
            ),
        decreases p.len() - at,
    {
        let (branch, end) = match parse_concat(src, at, depth) {
            Ok(found) => found,
            Err(err) => {
                return Err(err);
            },
        };
        proof {
            lemma_trees_push(list@, branch);
            assert(tree::trees(list@).push(branch@) =~= tree::trees(list@) + seq![branch@]);
        }
        if end < src.len() && src[end] == '|' {
            proof {
                grammar::lemma_prepend(
                    tree::trees(list@),
                    branch@,
                    grammar::branches(p, end + 1, depth as nat),
                );
            }
            list.push(branch);
            at = end + 1;
        } else if list.len() == 0 {
            return Ok((branch, end));
        } else {
            list.push(branch);
            return Ok((Node::Alternate(list), end));
        }
    }
}

/// Parse a whole pattern.
pub fn parse_pattern(src: &[char]) -> (out: Result<Node, SearchError>)
    ensures
        match out {
            Ok(node) => grammar::meaning(src@) == Ok::<Re, Seq<char>>(node@),
            Err(err) => grammar::meaning(src@) is Err && err@ == Failure::Pattern(
                grammar::meaning(src@)->Err_0,
            ),
        },
{
    match parse_alternate(src, 0, 0) {
        Ok((node, end)) => {
            if end < src.len() {
                let mut message = String::new();
                message.push_str("unexpected '");
                message.push(src[end]);
                message.push_str("' at position ");
                text::push_decimal(&mut message, end as u128);
                assert(message@ =~= grammar::left_over(src@, end as int));
                Err(SearchError::pattern(message.as_str()))
            } else {
                Ok(node)
            }
        },
        Err(err) => Err(err),
    }
}

// ---------------------------------------------------------------------------
// Globs
// ---------------------------------------------------------------------------

/// Parse a whole glob.
pub fn parse_glob(src: &[char]) -> (out: Result<Node, SearchError>)
    ensures
        match out {
            Ok(node) => grammar::glob_meaning(src@) == Ok::<Re, Seq<char>>(node@),
            Err(err) => grammar::glob_meaning(src@) is Err && err@ == Failure::Pattern(
                grammar::glob_meaning(src@)->Err_0,
            ),
        },
{
    let ghost g = src@;
    let ghost want = grammar::glob_items(g, 0);
    let mut items: Vec<Node> = Vec::new();
    let mut at: usize = 0;
    proof {
        if want is Ok {
            assert(tree::trees(items@) + want->Ok_0.0 =~= want->Ok_0.0);
        }
    }
    while at < src.len()
        invariant
            g == src@,
            at <= g.len(),
            want == grammar::glob_items(g, 0),
            want == grammar::prepend(tree::trees(items@), grammar::glob_items(g, at as int)),
        decreases g.len() - at,
    {
        let ch = src[at];
        if ch == '*' && src.len() - at > 1 && src[at + 1] == '*' {
            at += 1;
        } else {
            let (node, end): (Node, usize) = if ch == '*' || ch == '?' {
                let wild = Node::Class(CharClass::not_slash());
                assert(wild@ == Re::Class(tree::not_slash_set()));
                if ch == '*' {
                    (Node::Star(Box::new(wild)), at + 1)
                } else {
                    (wild, at + 1)
                }
            } else if ch == '[' {
                match parse_class(src, at + 1) {
                    Ok(found) => found,
                    Err(err) => {
                        return Err(err);
                    },
                }
            } else {
                (literal(ch), at + 1)
            };
            proof {
                lemma_trees_push(items@, node);
                grammar::lemma_prepend(
                    tree::trees(items@),
                    node@,
                    grammar::glob_items(g, end as int),
                );
                assert(grammar::glob_items(g, at as int) == grammar::prepend(
                    seq![node@],
                    grammar::glob_items(g, end as int),
                ));
            }
            items.push(node);
            at = end;
        }
    }
    proof {
        assert(tree::trees(items@) + Seq::<Re>::empty() =~= tree::trees(items@));
    }
    Ok(in_sequence(items))
}

} // verus!
