//! Parsing an authored markup string into a forest of token groups, and
//! whitespace normalization of that forest.
//!
//! The grammar, left to right and without backtracking:
//! - a *text run* is a maximal span of characters other than `[`, `{` and `}`;
//! - an *inline command* is `[args](name)`, where `args` is the text up to the
//!   next `]` and `name` selects the command kind (see
//!   [`DialogueBoxToken::parse_command`](super::DialogueBoxToken::parse_command));
//! - a *group* is `{` … `}` and parses its interior recursively; a group whose
//!   `}` is missing is an [`UnterminatedGroup`](super::ParseError) failure;
//! - a `}` outside any group makes the parser stop: it consumes that character
//!   and returns what has been parsed so far, abandoning the remainder (the
//!   documented truncation policy).

use super::{
    token_view, DialogueBoxToken, ParseError, ParseErrorView, SectionView, TextSection, TokenView,
};
use crate::strutil::{chars_to_string, push_char, str_to_chars};
use vstd::prelude::*;

verus! {

/// A node of the parsed forest: either a single token or a nested group of
/// further nodes.
#[derive(Debug, PartialEq, Eq)]
pub enum TokenGroup {
    Bare(DialogueBoxToken),
    Group(Vec<TokenGroup>),
}

/// The mathematical value of a [`TokenGroup`].
pub ghost enum NodeView {
    Bare(TokenView),
    Group(Seq<NodeView>),
}

pub open spec fn node_view(node: TokenGroup) -> NodeView
    decreases node,
{
    match node {
        TokenGroup::Bare(tok) => NodeView::Bare(token_view(tok)),
        TokenGroup::Group(children) => NodeView::Group(nodes_view(children@)),
    }
}

pub open spec fn nodes_view(nodes: Seq<TokenGroup>) -> Seq<NodeView>
    decreases nodes,
{
    if nodes.len() == 0 {
        Seq::empty()
    } else {
        seq![node_view(nodes[0])] + nodes_view(nodes.drop_first())
    }
}

impl View for TokenGroup {
    type V = NodeView;

    open spec fn view(&self) -> NodeView {
        node_view(*self)
    }
}

/// Whether `c` counts as whitespace for normalization: the ASCII whitespace
/// characters.
pub open spec fn is_space(c: char) -> bool {
    c == ' ' || c == '\t' || c == '\n' || c == '\r' || c == '\u{b}' || c == '\u{c}'
}

/// Whether `c` counts as whitespace for normalization.
pub fn is_space_char(c: char) -> (r: bool)
    ensures
        r == is_space(c),
{
    c == ' ' || c == '\t' || c == '\n' || c == '\r' || c == '\u{b}' || c == '\u{c}'
}

/// What collapsing whitespace runs in `s` yields, given whether the character
/// just before `s` was a space: the collapsed text and whether its last
/// character (or, if it is empty, the character before it) was a space.
pub open spec fn dedup_spaces(s: Seq<char>, prev: bool) -> (Seq<char>, bool)
    decreases s.len(),
{
    if s.len() == 0 {
        (Seq::empty(), prev)
    } else if is_space(s[0]) {
        let r = dedup_spaces(s.drop_first(), true);
        if prev {
            r
        } else {
            (seq![' '] + r.0, r.1)
        }
    } else {
        let r = dedup_spaces(s.drop_first(), false);
        (seq![s[0]] + r.0, r.1)
    }
}

/// Collapsing one more character at the end of the input extends the
/// collapsed text in the obvious way.
proof fn lemma_dedup_push(s: Seq<char>, prev: bool, c: char)
    ensures
        dedup_spaces(s.push(c), prev) == ({
            let r = dedup_spaces(s, prev);
            if is_space(c) {
                if r.1 {
                    (r.0, true)
                } else {
                    (r.0 + seq![' '], true)
                }
            } else {
                (r.0 + seq![c], false)
            }
        }),
    decreases s.len(),
{
    let t = s.push(c);
    if s.len() == 0 {
        reveal_with_fuel(dedup_spaces, 3);
        assert(t[0] == c);
        assert(t.drop_first() =~= Seq::<char>::empty());
        if is_space(c) {
            if !prev {
                assert(seq![' '] + Seq::<char>::empty() =~= Seq::<char>::empty() + seq![' ']);
            }
        } else {
            assert(seq![c] + Seq::<char>::empty() =~= Seq::<char>::empty() + seq![c]);
        }
    } else {
        assert(t[0] == s[0]);
        assert(t.drop_first() =~= s.drop_first().push(c));
        if is_space(s[0]) {
            lemma_dedup_push(s.drop_first(), true, c);
            let r = dedup_spaces(s.drop_first(), true);
            if !prev {
                if is_space(c) {
                    if !r.1 {
                        assert(seq![' '] + (r.0 + seq![' ']) =~= (seq![' '] + r.0) + seq![' ']);
                    }
                } else {
                    assert(seq![' '] + (r.0 + seq![c]) =~= (seq![' '] + r.0) + seq![c]);
                }
            }
        } else {
            lemma_dedup_push(s.drop_first(), false, c);
            let r = dedup_spaces(s.drop_first(), false);
            if is_space(c) {
                if !r.1 {
                    assert(seq![s[0]] + (r.0 + seq![' ']) =~= (seq![s[0]] + r.0) + seq![' ']);
                }
            } else {
                assert(seq![s[0]] + (r.0 + seq![c]) =~= (seq![s[0]] + r.0) + seq![c]);
            }
        }
    }
}

/// Collapsing whitespace twice is the same as collapsing it once.
proof fn lemma_dedup_idempotent(s: Seq<char>, prev: bool)
    ensures
        dedup_spaces(dedup_spaces(s, prev).0, prev) == dedup_spaces(s, prev),
    decreases s.len(),
{
    if s.len() == 0 {
    } else if is_space(s[0]) {
        lemma_dedup_idempotent(s.drop_first(), true);
        let r = dedup_spaces(s.drop_first(), true);
        if !prev {
            let out = seq![' '] + r.0;
            assert(out[0] == ' ');
            assert(out.drop_first() =~= r.0);
        }
    } else {
        lemma_dedup_idempotent(s.drop_first(), false);
        let r = dedup_spaces(s.drop_first(), false);
        let out = seq![s[0]] + r.0;
        assert(out[0] == s[0]);
        assert(out.drop_first() =~= r.0);
    }
}

/// Collapses every run of whitespace in `text` to a single space, threading
/// in whether the character just before `text` was already a space.  Returns
/// the collapsed text and the final state of that flag.
pub fn de_duplicate_spaces(text: &str, prev_was_space: bool) -> (r: (String, bool))
    ensures
        r.0@ == dedup_spaces(text@, prev_was_space).0,
        r.1 == dedup_spaces(text@, prev_was_space).1,
{
    let len = text.unicode_len();
    let mut result = String::new();
    let mut last_char_was_space = prev_was_space;
    let mut i: usize = 0;
    while i < len
        invariant
            0 <= i <= len,
            len == text@.len(),
            result@ == dedup_spaces(text@.take(i as int), prev_was_space).0,
            last_char_was_space == dedup_spaces(text@.take(i as int), prev_was_space).1,
        decreases len - i,
    {
        let c = text.get_char(i);
        proof {
            assert(text@.take(i + 1) =~= text@.take(i as int).push(text@[i as int]));
            lemma_dedup_push(text@.take(i as int), prev_was_space, text@[i as int]);
        }
        if is_space_char(c) {
            if !last_char_was_space {
                push_char(&mut result, ' ');
                last_char_was_space = true;
            }
        } else {
            push_char(&mut result, c);
            last_char_was_space = false;
        }
        i = i + 1;
    }
    proof {
        assert(text@.take(len as int) =~= text@);
    }
    (result, last_char_was_space)
}

/// What normalizing a single node yields: `None` if the node is removed,
/// otherwise the normalized node and the threaded whitespace flag after it.
pub open spec fn norm_node(node: NodeView, prev: bool) -> Option<(NodeView, bool)>
    decreases node,
{
    match node {
        NodeView::Bare(TokenView::Section(sv)) => {
            let r = dedup_spaces(sv.text, prev);
            if r.0.len() == 0 {
                None
            } else {
                Some(
                    (
                        NodeView::Bare(
                            TokenView::Section(
                                SectionView { text: r.0, color: sv.color, effects: sv.effects },
                            ),
                        ),
                        r.1,
                    ),
                )
            }
        },
        NodeView::Bare(tok) => Some((NodeView::Bare(tok), prev)),
        NodeView::Group(children) => {
            let r = norm_nodes(children, prev);
            if r.0.len() == 0 {
                None
            } else {
                Some((NodeView::Group(r.0), false))
            }
        },
    }
}

/// What normalizing a forest yields: the normalized forest and the threaded
/// whitespace flag after it.  The flag enters the first node, threads through
/// the siblings, and is reset to "not a space" after each kept group.
pub open spec fn norm_nodes(nodes: Seq<NodeView>, prev: bool) -> (Seq<NodeView>, bool)
    decreases nodes,
{
    if nodes.len() == 0 {
        (Seq::empty(), prev)
    } else {
        match norm_node(nodes[0], prev) {
            None => norm_nodes(nodes.drop_first(), prev),
            Some(r) => {
                let rest = norm_nodes(nodes.drop_first(), r.1);
                (seq![r.0] + rest.0, rest.1)
            },
        }
    }
}

/// Normalizing a node that came out of normalization changes nothing.
proof fn lemma_norm_node_idempotent(node: NodeView, prev: bool)
    ensures
        norm_node(node, prev) matches Some(r) ==> norm_node(r.0, prev) == Some(r),
    decreases node,
{
    match node {
        NodeView::Bare(TokenView::Section(sv)) => {
            lemma_dedup_idempotent(sv.text, prev);
        },
        NodeView::Bare(tok) => {},
        NodeView::Group(children) => {
            lemma_norm_nodes_idempotent(children, prev);
        },
    }
}

/// Normalization is idempotent: normalizing an already-normalized forest is
/// a no-op, including the threaded whitespace flag.
pub proof fn lemma_normalize_idempotent(nodes: Seq<NodeView>, prev_was_space: bool)
    ensures
        norm_nodes(norm_nodes(nodes, prev_was_space).0, prev_was_space) == norm_nodes(
            nodes,
            prev_was_space,
        ),
    decreases nodes,
{
    lemma_norm_nodes_idempotent(nodes, prev_was_space);
}

proof fn lemma_norm_nodes_idempotent(nodes: Seq<NodeView>, prev: bool)
    ensures
        norm_nodes(norm_nodes(nodes, prev).0, prev) == norm_nodes(nodes, prev),
    decreases nodes,
{
    if nodes.len() == 0 {
    } else {
        match norm_node(nodes[0], prev) {
            None => {
                lemma_norm_nodes_idempotent(nodes.drop_first(), prev);
            },
            Some(r) => {
                lemma_norm_node_idempotent(nodes[0], prev);
                lemma_norm_nodes_idempotent(nodes.drop_first(), r.1);
                let rest = norm_nodes(nodes.drop_first(), r.1);
                let out = seq![r.0] + rest.0;
                assert(out[0] == r.0);
                assert(out.drop_first() =~= rest.0);
            },
        }
    }
}

/// Normalizes a forest: collapses whitespace runs (also across adjacent text
/// sections), removes text sections that become empty, and removes groups
/// whose children are all removed.  Returns the normalized forest and the
/// threaded whitespace flag after it.
pub fn process_nodes(nodes: Vec<TokenGroup>, prev_was_space: bool) -> (r: (Vec<TokenGroup>, bool))
    ensures
        nodes_view(r.0@) == norm_nodes(nodes_view(nodes@), prev_was_space).0,
        r.1 == norm_nodes(nodes_view(nodes@), prev_was_space).1,
    decreases nodes@,
{
    let ghost orig = nodes@;
    let mut nodes = nodes;
    if nodes.len() == 0 {
        proof {
            assert(nodes_view(orig) =~= Seq::<NodeView>::empty());
        }
        return (nodes, prev_was_space);
    }
    let head = nodes.remove(0);
    proof {
        assert(nodes@ =~= orig.drop_first());
        assert(head == orig[0]);
        assert(nodes_view(orig) == seq![node_view(orig[0])] + nodes_view(orig.drop_first()));
        assert(nodes_view(orig)[0] == node_view(orig[0]));
        assert(nodes_view(orig).drop_first() =~= nodes_view(orig.drop_first()));
        assert(nodes_view(orig).len() == 1 + nodes_view(orig.drop_first()).len());
    }
    match head {
        TokenGroup::Bare(tok) => {
            match tok {
                DialogueBoxToken::Section(ts) => {
                    let (t, last) = de_duplicate_spaces(ts.text.as_str(), prev_was_space);
                    if t.unicode_len() == 0 {
                        process_nodes(nodes, prev_was_space)
                    } else {
                        let (rest, f) = process_nodes(nodes, last);
                        let mut rest = rest;
                        let mut out: Vec<TokenGroup> = Vec::new();
                        let section = TextSection { text: t, color: ts.color, effects: ts.effects };
                        out.push(TokenGroup::Bare(DialogueBoxToken::Section(section)));
                        let ghost kept = out@[0];
                        let ghost rest0 = rest@;
                        out.append(&mut rest);
                        proof {
                            assert(out@.drop_first() =~= rest0);
                            assert(nodes_view(out@) =~= seq![node_view(kept)] + nodes_view(rest0));
                        }
                        (out, f)
                    }
                },
                tok => {
                    proof {
                        assert(head == TokenGroup::Bare(tok));
                        assert(node_view(orig[0]) == NodeView::Bare(token_view(tok)));
                        assert(!(token_view(tok) is Section));
                        assert(norm_node(node_view(orig[0]), prev_was_space) == Some(
                            (NodeView::Bare(token_view(tok)), prev_was_space),
                        ));
                    }
                    let (rest, f) = process_nodes(nodes, prev_was_space);
                    let mut rest = rest;
                    let mut out: Vec<TokenGroup> = Vec::new();
                    out.push(TokenGroup::Bare(tok));
                    let ghost kept = out@[0];
                    let ghost rest0 = rest@;
                    out.append(&mut rest);
                    proof {
                        assert(node_view(kept) == NodeView::Bare(token_view(tok)));
                        assert(out@.drop_first() =~= rest0);
                        assert(nodes_view(out@) =~= seq![node_view(kept)] + nodes_view(rest0));
                        assert(norm_nodes(nodes_view(orig), prev_was_space).0 == seq![
                            NodeView::Bare(token_view(tok)),
                        ] + norm_nodes(nodes_view(orig.drop_first()), prev_was_space).0);
                    }
                    (out, f)
                },
            }
        },
        TokenGroup::Group(children) => {
            let (cs, _inner) = process_nodes(children, prev_was_space);
            if cs.len() == 0 {
                proof {
                    assert(nodes_view(cs@) =~= Seq::<NodeView>::empty());
                }
                process_nodes(nodes, prev_was_space)
            } else {
                proof {
                    assert(nodes_view(cs@).len() > 0);
                }
                let (rest, f) = process_nodes(nodes, false);
                let mut rest = rest;
                let mut out: Vec<TokenGroup> = Vec::new();
                out.push(TokenGroup::Group(cs));
                let ghost kept = out@[0];
                let ghost rest0 = rest@;
                out.append(&mut rest);
                proof {
                    assert(out@.drop_first() =~= rest0);
                    assert(nodes_view(out@) =~= seq![node_view(kept)] + nodes_view(rest0));
                }
                (out, f)
            }
        },
    }
}

/// Whether `c` introduces a command or delimits a group.
pub open spec fn is_control(c: char) -> bool {
    c == '[' || c == '{' || c == '}'
}

/// Whether `c` introduces a command or delimits a group.
pub fn is_control_char(c: char) -> (r: bool)
    ensures
        r == is_control(c),
{
    c == '[' || c == '{' || c == '}'
}

/// The index of the first control character in `s` at or after `p`, or
/// `s.len()` if there is none.
pub open spec fn scan_text(s: Seq<char>, p: int) -> int
    decreases s.len() - p,
{
    if p < 0 || p >= s.len() {
        s.len() as int
    } else if is_control(s[p]) {
        p
    } else {
        scan_text(s, p + 1)
    }
}

/// `q` forced into the interval `[lo, hi]`.  The parser's recursion uses this
/// only as termination bookkeeping; on every path actually taken the value is
/// already inside the interval.
pub open spec fn clamp_pos(q: int, lo: int, hi: int) -> int {
    if q < lo {
        lo
    } else if q > hi {
        hi
    } else {
        q
    }
}

/// What parsing an inline command starting at the `[` at position `p` yields:
/// the token and the position after the closing `)`, or the parse failure.
pub open spec fn spec_parse_command(s: Seq<char>, p: int) -> Result<
    (TokenView, int),
    ParseErrorView,
> {
    let args_end = super::find_char(s, ']', p + 1);
    if args_end >= s.len() {
        Err(
            ParseErrorView::InvalidArgument {
                command: Seq::empty(),
                raw_argument: s.subrange(p + 1, s.len() as int),
            },
        )
    } else {
        let args = s.subrange(p + 1, args_end);
        if args_end + 1 >= s.len() || s[args_end + 1] != '(' {
            Err(ParseErrorView::UnknownCommand { name: Seq::empty() })
        } else {
            let name_end = super::find_char(s, ')', args_end + 2);
            if name_end >= s.len() {
                Err(
                    ParseErrorView::UnknownCommand {
                        name: s.subrange(args_end + 2, s.len() as int),
                    },
                )
            } else {
                let name = s.subrange(args_end + 2, name_end);
                match super::parse_command_spec(Some(args), name) {
                    Ok(tok) => Ok((tok, name_end + 1)),
                    Err(e) => Err(e),
                }
            }
        }
    }
}

/// What parsing from position `p` yields: the forest of nodes up to the end
/// of the current level and the position just after what was consumed, or the
/// parse failure.  `opener` is the position of the `{` of the group being
/// parsed, or `None` at the top level.
pub open spec fn spec_parse_tokens(s: Seq<char>, p: int, opener: Option<int>) -> Result<
    (Seq<NodeView>, int),
    ParseErrorView,
>
    decreases s.len() - p,
{
    let q = clamp_pos(scan_text(s, p), p, s.len() as int);
    let text = s.subrange(p, q);
    let prefix: Seq<NodeView> = if text.len() > 0 {
        seq![
            NodeView::Bare(
                TokenView::Section(SectionView { text, color: None, effects: Seq::empty() }),
            ),
        ]
    } else {
        Seq::empty()
    };
    if q >= s.len() {
        match opener {
            Some(o) => Err(ParseErrorView::UnterminatedGroup { position: o }),
            None => Ok((prefix, q)),
        }
    } else if s[q] == '}' {
        Ok((prefix, q + 1))
    } else if s[q] == '{' {
        match spec_parse_tokens(s, q + 1, Some(q)) {
            Err(e) => Err(e),
            Ok(inner) => {
                let q2 = clamp_pos(inner.1, q + 1, s.len() as int);
                match spec_parse_tokens(s, q2, opener) {
                    Err(e) => Err(e),
                    Ok(rest) => Ok((prefix + seq![NodeView::Group(inner.0)] + rest.0, rest.1)),
                }
            },
        }
    } else {
        match spec_parse_command(s, q) {
            Err(e) => Err(e),
            Ok(cmd) => {
                let q2 = clamp_pos(cmd.1, q + 1, s.len() as int);
                match spec_parse_tokens(s, q2, opener) {
                    Err(e) => Err(e),
                    Ok(rest) => Ok((prefix + seq![NodeView::Bare(cmd.0)] + rest.0, rest.1)),
                }
            },
        }
    }
}

/// Prepending one node to a forest prepends its view.
proof fn lemma_nodes_view_cons(a: TokenGroup, rest: Seq<TokenGroup>)
    ensures
        nodes_view(seq![a] + rest) == seq![node_view(a)] + nodes_view(rest),
{
    let s = seq![a] + rest;
    assert(s[0] == a);
    assert(s.drop_first() =~= rest);
}

/// The index of the first occurrence of `c` at or after `from`, or the
/// length of `chars` if there is none.
fn find_char_from(chars: &Vec<char>, c: char, from: usize) -> (r: usize)
    requires
        from <= chars.len(),
    ensures
        r == super::find_char(chars@, c, from as int),
        from <= r <= chars@.len(),
        r < chars@.len() ==> chars@[r as int] == c,
    decreases chars@.len() - from,
{
    let mut i = from;
    while i < chars.len() && chars[i] != c
        invariant
            from <= i <= chars@.len(),
            super::find_char(chars@, c, from as int) == super::find_char(chars@, c, i as int),
        decreases chars@.len() - i,
    {
        i = i + 1;
    }
    i
}

/// Parses the inline command whose `[` stands at `pos`.
fn parse_command_at(chars: &Vec<char>, pos: usize) -> (r: Result<
    (DialogueBoxToken, usize),
    ParseError,
>)
    requires
        pos < chars.len(),
        chars@[pos as int] == '[',
    ensures
        match r {
            Ok(t) => spec_parse_command(chars@, pos as int) == Ok::<
                (TokenView, int),
                ParseErrorView,
            >((t.0@, t.1 as int)) && pos < t.1 <= chars@.len(),
            Err(e) => spec_parse_command(chars@, pos as int) == Err::<
                (TokenView, int),
                ParseErrorView,
            >(e@),
        },
{
    let len = chars.len();
    let args_end = find_char_from(chars, ']', pos + 1);
    if args_end == len {
        return Err(
            ParseError::InvalidArgument {
                command: String::new(),
                raw_argument: chars_to_string(chars, pos + 1, len),
            },
        );
    }
    let args = chars_to_string(chars, pos + 1, args_end);
    if args_end + 1 == len {
        return Err(ParseError::UnknownCommand { name: String::new() });
    }
    if chars[args_end + 1] != '(' {
        return Err(ParseError::UnknownCommand { name: String::new() });
    }
    let name_end = find_char_from(chars, ')', args_end + 2);
    if name_end == len {
        return Err(
            ParseError::UnknownCommand { name: chars_to_string(chars, args_end + 2, len) },
        );
    }
    let name = chars_to_string(chars, args_end + 2, name_end);
    match DialogueBoxToken::parse_command(Some(args.as_str()), name.as_str()) {
        Ok(tok) => Ok((tok, name_end + 1)),
        Err(e) => Err(e),
    }
}

/// Parses one level of the forest, starting at `pos`; `opener` is the
/// position of the enclosing group's `{`, or `None` at the top level.
fn parse_tokens_at(chars: &Vec<char>, pos: usize, opener: Option<usize>) -> (r: Result<
    (Vec<TokenGroup>, usize),
    ParseError,
>)
    requires
        pos <= chars.len(),
    ensures
        ({
            let so = match opener {
                Some(o) => Some(o as int),
                None => None,
            };
            match r {
                Ok(t) => spec_parse_tokens(chars@, pos as int, so) == Ok::<
                    (Seq<NodeView>, int),
                    ParseErrorView,
                >((nodes_view(t.0@), t.1 as int)) && pos <= t.1 <= chars@.len(),
                Err(e) => spec_parse_tokens(chars@, pos as int, so) == Err::<
                    (Seq<NodeView>, int),
                    ParseErrorView,
                >(e@),
            }
        }),
    decreases chars@.len() - pos,
{
    let ghost so = match opener {
        Some(o) => Some(o as int),
        None => None,
    };
    let len = chars.len();
    // The text run before the next control character.
    let mut q = pos;
    while q < len && !is_control_char(chars[q])
        invariant
            pos <= q <= len,
            len == chars@.len(),
            scan_text(chars@, pos as int) == scan_text(chars@, q as int),
        decreases len - q,
    {
        q = q + 1;
    }
    proof {
        assert(q == scan_text(chars@, pos as int));
        assert(clamp_pos(scan_text(chars@, pos as int), pos as int, chars@.len() as int) == q);
    }
    let ghost spec_text = chars@.subrange(pos as int, q as int);
    let mut out: Vec<TokenGroup> = Vec::new();
    if q > pos {
        let text = chars_to_string(chars, pos, q);
        out.push(
            TokenGroup::Bare(
                DialogueBoxToken::Section(
                    TextSection { text, color: None, effects: Vec::new() },
                ),
            ),
        );
    }
    let ghost prefix = nodes_view(out@);
    proof {
        if q > pos {
            assert(out@.drop_first() =~= Seq::<TokenGroup>::empty());
            assert(nodes_view(Seq::<TokenGroup>::empty()) =~= Seq::<NodeView>::empty());
            assert(prefix =~= seq![node_view(out@[0])]);
        } else {
            assert(spec_text.len() == 0);
            assert(prefix =~= Seq::<NodeView>::empty());
        }
    }
    if q == len {
        match opener {
            Some(o) => Err(ParseError::UnterminatedGroup { position: o }),
            None => Ok((out, q)),
        }
    } else if chars[q] == '}' {
        Ok((out, q + 1))
    } else if chars[q] == '{' {
        match parse_tokens_at(chars, q + 1, Some(q)) {
            Err(e) => Err(e),
            Ok((children, q2)) => {
                proof {
                    assert(clamp_pos(q2 as int, q + 1, chars@.len() as int) == q2 as int);
                }
                match parse_tokens_at(chars, q2, opener) {
                    Err(e) => Err(e),
                    Ok((rest, q3)) => {
                        let mut rest = rest;
                        out.push(TokenGroup::Group(children));
                        let ghost mid = out@;
                        let ghost rest0 = rest@;
                        out.append(&mut rest);
                        proof {
                            lemma_nodes_view_cons(mid[mid.len() - 1], rest0);
                            if q > pos {
                                lemma_nodes_view_cons(mid[0], seq![mid[mid.len() - 1]] + rest0);
                                assert(out@ =~= seq![mid[0]] + (seq![mid[mid.len() - 1]]
                                    + rest0));
                            } else {
                                assert(out@ =~= seq![mid[mid.len() - 1]] + rest0);
                            }
                            assert(nodes_view(out@) =~= prefix + seq![node_view(
                                mid[mid.len() - 1],
                            )] + nodes_view(rest0));
                        }
                        Ok((out, q3))
                    },
                }
            },
        }
    } else {
        match parse_command_at(chars, q) {
            Err(e) => Err(e),
            Ok((tok, q2)) => {
                proof {
                    assert(clamp_pos(q2 as int, q + 1, chars@.len() as int) == q2 as int);
                }
                match parse_tokens_at(chars, q2, opener) {
                    Err(e) => Err(e),
                    Ok((rest, q3)) => {
                        let mut rest = rest;
                        out.push(TokenGroup::Bare(tok));
                        let ghost mid = out@;
                        let ghost rest0 = rest@;
                        out.append(&mut rest);
                        proof {
                            lemma_nodes_view_cons(mid[mid.len() - 1], rest0);
                            if q > pos {
                                lemma_nodes_view_cons(mid[0], seq![mid[mid.len() - 1]] + rest0);
                                assert(out@ =~= seq![mid[0]] + (seq![mid[mid.len() - 1]]
                                    + rest0));
                            } else {
                                assert(out@ =~= seq![mid[mid.len() - 1]] + rest0);
                            }
                            assert(nodes_view(out@) =~= prefix + seq![node_view(
                                mid[mid.len() - 1],
                            )] + nodes_view(rest0));
                        }
                        Ok((out, q3))
                    },
                }
            },
        }
    }
}

/// Parses an authored string into its normalized token forest.
///
/// On success the result is exactly the normalization (with the initial
/// whitespace flag clear) of the forest the grammar assigns to the input; on
/// failure the parse error says why the input was rejected.
pub fn parse_groups(input: &str) -> (r: Result<Vec<TokenGroup>, ParseError>)
    ensures
        match r {
            Ok(forest) => spec_parse_tokens(input@, 0, None) matches Ok(pr) && nodes_view(
                forest@,
            ) == norm_nodes(pr.0, false).0,
            Err(e) => spec_parse_tokens(input@, 0, None) == Err::<
                (Seq<NodeView>, int),
                ParseErrorView,
            >(e@),
        },
{
    let chars = str_to_chars(input);
    match parse_tokens_at(&chars, 0, None) {
        Err(e) => Err(e),
        Ok((tokens, _end)) => {
            let (normed, _flag) = process_nodes(tokens, false);
            Ok(normed)
        },
    }
}

impl TokenGroup {
    /// Whether every node of the slice is a [`TokenGroup::Bare`].
    pub fn bare(items: &[TokenGroup]) -> (r: bool)
        ensures
            r == forall|i: int| 0 <= i < items@.len() ==> (#[trigger] items@[i]) is Bare,
    {
        let mut i: usize = 0;
        while i < items.len()
            invariant
                0 <= i <= items@.len(),
                forall|j: int| 0 <= j < i ==> (#[trigger] items@[j]) is Bare,
            decreases items@.len() - i,
        {
            match &items[i] {
                TokenGroup::Bare(_) => {
                    i = i + 1;
                },
                TokenGroup::Group(_) => {
                    return false;
                },
            }
        }
        true
    }
}

} // verus!
