//! The flattened, linear representation consumed by the reveal engine: one
//! text buffer, styling spans over character ranges, and commands anchored to
//! character offsets, produced by a depth-first walk of a token forest.

use crate::tokens::parse::{node_view, nodes_view, NodeView, TokenGroup};
use crate::tokens::{DialogueBoxToken, SectionView, TextColor, TextCommand, TextEffect, TokenView};
use vstd::prelude::*;

verus! {

/// A directive anchored into the flattened buffer.  Durations and the speed
/// multiplier are fixed-point values in thousandths.
#[derive(Debug, Clone, Copy, PartialEq, Eq)]
pub enum TypeWriterCommand {
    Clear,
    AwaitClear,
    ClearAfter(u32),
    /// Relative speed.
    Speed(u32),
    Pause(u32),
    Delete(usize),
}

/// A command and the character offset at which it fires when the reveal
/// cursor reaches it.
#[derive(Debug, Clone, Copy, PartialEq, Eq)]
pub struct IndexedCommand {
    pub index: usize,
    pub command: TypeWriterCommand,
}

/// A visual modifier of flattened text.
#[derive(Debug, Clone, Copy, PartialEq, Eq)]
pub enum TextMod {
    Color(TextColor),
    Wave,
    Shake,
}

/// A text modifier applied to the half-open character range
/// `[start, end)` of a [`Text`].
#[derive(Debug, Clone, Copy, PartialEq, Eq)]
pub struct IndexedTextMod {
    pub start: usize,
    /// Non inclusive.
    pub end: usize,
    pub text_mod: TextMod,
}

/// A string with a collection of modifiers.
#[derive(Debug, PartialEq, Eq)]
pub struct Text {
    pub value: String,
    pub modifiers: Vec<IndexedTextMod>,
}

/// A flattened dialogue section: its text with styling spans, and the
/// commands anchored into it.
#[derive(Debug, PartialEq, Eq)]
pub struct TypeWriterSection {
    pub text: Text,
    pub commands: Vec<IndexedCommand>,
}

impl TextMod {
    /// Whether this modifier animates per frame in a shader, rather than
    /// binding a static color.
    pub fn is_shader_effect(&self) -> (r: bool)
        ensures
            r == (*self is Wave || *self is Shake),
    {
        match self {
            Self::Wave => true,
            Self::Shake => true,
            Self::Color(_) => false,
        }
    }
}

impl Text {
    /// A text value with no modifiers.
    pub fn from_value(value: String) -> (r: Text)
        ensures
            r.value@ == value@,
            r.modifiers@ == Seq::<IndexedTextMod>::empty(),
    {
        Text { value, modifiers: Vec::new() }
    }
}

impl TypeWriterSection {
    /// The length of the flattened text, in characters.
    pub fn len(&self) -> (r: usize)
        ensures
            r == self.text.value@.len(),
    {
        self.text.value.as_str().unicode_len()
    }

    /// Whether the flattened text is empty.
    pub fn is_empty(&self) -> (r: bool)
        ensures
            r == (self.text.value@.len() == 0),
    {
        self.text.value.as_str().unicode_len() == 0
    }
}

/// The flattened form of a token command.
pub open spec fn type_writer_command(c: TextCommand) -> TypeWriterCommand {
    match c {
        TextCommand::Clear => TypeWriterCommand::Clear,
        TextCommand::AwaitClear => TypeWriterCommand::AwaitClear,
        TextCommand::ClearAfter(d) => TypeWriterCommand::ClearAfter(d),
        TextCommand::Speed(m) => TypeWriterCommand::Speed(m),
        TextCommand::Pause(d) => TypeWriterCommand::Pause(d),
        TextCommand::Delete(n) => TypeWriterCommand::Delete(n),
    }
}

/// The modifier a section effect turns into.
pub open spec fn effect_mod(e: TextEffect) -> TextMod {
    match e {
        TextEffect::Wave => TextMod::Wave,
    }
}

/// The commands of a vector as (offset, command) pairs.
pub open spec fn cmds_view(cmds: Seq<IndexedCommand>) -> Seq<(int, TypeWriterCommand)> {
    cmds.map_values(|c: IndexedCommand| (c.index as int, c.command))
}

/// The modifiers of a vector as (start, end, modifier) triples.
pub open spec fn mods_view(mods: Seq<IndexedTextMod>) -> Seq<(int, int, TextMod)> {
    mods.map_values(|m: IndexedTextMod| (m.start as int, m.end as int, m.text_mod))
}

/// The visible text of one token.
pub open spec fn flat_text_token(t: TokenView) -> Seq<char>
    decreases t,
{
    match t {
        TokenView::Section(sv) => sv.text,
        TokenView::Command(_) => Seq::empty(),
        TokenView::Sequence(ts) => flat_text_tokens(ts),
    }
}

/// The visible text of a token sequence.
pub open spec fn flat_text_tokens(ts: Seq<TokenView>) -> Seq<char>
    decreases ts,
{
    if ts.len() == 0 {
        Seq::empty()
    } else {
        flat_text_token(ts[0]) + flat_text_tokens(ts.drop_first())
    }
}

/// The visible text of one node.
pub open spec fn flat_text_node(n: NodeView) -> Seq<char>
    decreases n,
{
    match n {
        NodeView::Bare(t) => flat_text_token(t),
        NodeView::Group(ns) => flat_text_nodes(ns),
    }
}

/// The visible text of a forest.
pub open spec fn flat_text_nodes(ns: Seq<NodeView>) -> Seq<char>
    decreases ns,
{
    if ns.len() == 0 {
        Seq::empty()
    } else {
        flat_text_node(ns[0]) + flat_text_nodes(ns.drop_first())
    }
}

/// The indexed commands of one token, with the text before it occupying
/// offsets below `off`.
pub open spec fn flat_cmds_token(t: TokenView, off: int) -> Seq<(int, TypeWriterCommand)>
    decreases t,
{
    match t {
        TokenView::Section(_) => Seq::empty(),
        TokenView::Command(c) => seq![(off, type_writer_command(c))],
        TokenView::Sequence(ts) => flat_cmds_tokens(ts, off),
    }
}

/// The indexed commands of a token sequence starting at offset `off`.
pub open spec fn flat_cmds_tokens(ts: Seq<TokenView>, off: int) -> Seq<(int, TypeWriterCommand)>
    decreases ts,
{
    if ts.len() == 0 {
        Seq::empty()
    } else {
        flat_cmds_token(ts[0], off) + flat_cmds_tokens(
            ts.drop_first(),
            off + flat_text_token(ts[0]).len(),
        )
    }
}

/// The indexed commands of one node starting at offset `off`.
pub open spec fn flat_cmds_node(n: NodeView, off: int) -> Seq<(int, TypeWriterCommand)>
    decreases n,
{
    match n {
        NodeView::Bare(t) => flat_cmds_token(t, off),
        NodeView::Group(ns) => flat_cmds_nodes(ns, off),
    }
}

/// The indexed commands of a forest starting at offset `off`.
pub open spec fn flat_cmds_nodes(ns: Seq<NodeView>, off: int) -> Seq<(int, TypeWriterCommand)>
    decreases ns,
{
    if ns.len() == 0 {
        Seq::empty()
    } else {
        flat_cmds_node(ns[0], off) + flat_cmds_nodes(
            ns.drop_first(),
            off + flat_text_node(ns[0]).len(),
        )
    }
}

/// One styling span per effect, each covering `[start, end)`.
pub open spec fn effects_mods(es: Seq<TextEffect>, start: int, end: int) -> Seq<
    (int, int, TextMod),
> {
    Seq::new(es.len(), |i: int| (start, end, effect_mod(es[i])))
}

/// The styling spans of one section placed at offset `off`: its color span,
/// if any, followed by one span per effect.
pub open spec fn section_mods(sv: SectionView, off: int) -> Seq<(int, int, TextMod)> {
    (match sv.color {
        Some(c) => seq![(off, off + sv.text.len() as int, TextMod::Color(c))],
        None => Seq::empty(),
    }) + effects_mods(sv.effects, off, off + sv.text.len() as int)
}

/// The styling spans of one token placed at offset `off`.
pub open spec fn flat_mods_token(t: TokenView, off: int) -> Seq<(int, int, TextMod)>
    decreases t,
{
    match t {
        TokenView::Section(sv) => section_mods(sv, off),
        TokenView::Command(_) => Seq::empty(),
        TokenView::Sequence(ts) => flat_mods_tokens(ts, off),
    }
}

/// The styling spans of a token sequence starting at offset `off`.
pub open spec fn flat_mods_tokens(ts: Seq<TokenView>, off: int) -> Seq<(int, int, TextMod)>
    decreases ts,
{
    if ts.len() == 0 {
        Seq::empty()
    } else {
        flat_mods_token(ts[0], off) + flat_mods_tokens(
            ts.drop_first(),
            off + flat_text_token(ts[0]).len(),
        )
    }
}

/// The styling spans of one node starting at offset `off`.
pub open spec fn flat_mods_node(n: NodeView, off: int) -> Seq<(int, int, TextMod)>
    decreases n,
{
    match n {
        NodeView::Bare(t) => flat_mods_token(t, off),
        NodeView::Group(ns) => flat_mods_nodes(ns, off),
    }
}

/// The styling spans of a forest starting at offset `off`.
pub open spec fn flat_mods_nodes(ns: Seq<NodeView>, off: int) -> Seq<(int, int, TextMod)>
    decreases ns,
{
    if ns.len() == 0 {
        Seq::empty()
    } else {
        flat_mods_node(ns[0], off) + flat_mods_nodes(
            ns.drop_first(),
            off + flat_text_node(ns[0]).len(),
        )
    }
}

/// The total text length of the sections of one token.
pub open spec fn section_len_token(t: TokenView) -> int
    decreases t,
{
    match t {
        TokenView::Section(sv) => sv.text.len() as int,
        TokenView::Command(_) => 0,
        TokenView::Sequence(ts) => section_len_tokens(ts),
    }
}

/// The total text length of the sections of a token sequence.
pub open spec fn section_len_tokens(ts: Seq<TokenView>) -> int
    decreases ts,
{
    if ts.len() == 0 {
        0
    } else {
        section_len_token(ts[0]) + section_len_tokens(ts.drop_first())
    }
}

/// The total text length of the sections of one node.
pub open spec fn section_len_node(n: NodeView) -> int
    decreases n,
{
    match n {
        NodeView::Bare(t) => section_len_token(t),
        NodeView::Group(ns) => section_len_nodes(ns),
    }
}

/// The total text length of the sections of a forest.
pub open spec fn section_len_nodes(ns: Seq<NodeView>) -> int
    decreases ns,
{
    if ns.len() == 0 {
        0
    } else {
        section_len_node(ns[0]) + section_len_nodes(ns.drop_first())
    }
}

proof fn lemma_text_len_token(t: TokenView)
    ensures
        flat_text_token(t).len() == section_len_token(t),
    decreases t, 0int,
{
    match t {
        TokenView::Section(_) => {},
        TokenView::Command(_) => {},
        TokenView::Sequence(ts) => {
            lemma_text_len_tokens(ts);
        },
    }
}

proof fn lemma_text_len_tokens(ts: Seq<TokenView>)
    ensures
        flat_text_tokens(ts).len() == section_len_tokens(ts),
    decreases ts, 1int,
{
    if ts.len() > 0 {
        lemma_text_len_token(ts[0]);
        lemma_text_len_tokens(ts.drop_first());
    }
}

proof fn lemma_text_len_node(n: NodeView)
    ensures
        flat_text_node(n).len() == section_len_node(n),
    decreases n, 0int,
{
    match n {
        NodeView::Bare(t) => {
            lemma_text_len_token(t);
        },
        NodeView::Group(ns) => {
            lemma_text_len_nodes(ns);
        },
    }
}

/// Flattening preserves text: the flattened buffer of a forest is exactly as
/// long as the total length of its retained sections.
pub proof fn lemma_flatten_text_length(ns: Seq<NodeView>)
    ensures
        flat_text_nodes(ns).len() == section_len_nodes(ns),
    decreases ns, 1int,
{
    lemma_text_len_nodes(ns);
}

proof fn lemma_text_len_nodes(ns: Seq<NodeView>)
    ensures
        flat_text_nodes(ns).len() == section_len_nodes(ns),
    decreases ns, 1int,
{
    if ns.len() > 0 {
        lemma_text_len_node(ns[0]);
        lemma_text_len_nodes(ns.drop_first());
    }
}

/// Whether every offset of `cs` lies in `[lo, hi]` and the offsets are
/// sorted in ascending order.
pub open spec fn cmds_bounded_sorted(cs: Seq<(int, TypeWriterCommand)>, lo: int, hi: int) -> bool {
    &&& forall|i: int| 0 <= i < cs.len() ==> lo <= (#[trigger] cs[i]).0 <= hi
    &&& forall|i: int, j: int| 0 <= i <= j < cs.len() ==> (#[trigger] cs[i]).0 <= (#[trigger] cs[j]).0
}

proof fn lemma_cmds_concat(a: Seq<(int, TypeWriterCommand)>, b: Seq<(int, TypeWriterCommand)>, lo: int, mid: int, hi: int)
    requires
        lo <= mid <= hi,
        cmds_bounded_sorted(a, lo, mid),
        cmds_bounded_sorted(b, mid, hi),
    ensures
        cmds_bounded_sorted(a + b, lo, hi),
{
    let c = a + b;
    assert forall|i: int| 0 <= i < c.len() implies lo <= (#[trigger] c[i]).0 <= hi by {
        if i < a.len() {
            assert(c[i] == a[i]);
        } else {
            assert(c[i] == b[i - a.len()]);
        }
    }
    assert forall|i: int, j: int| 0 <= i <= j < c.len() implies (#[trigger] c[i]).0 <= (
    #[trigger] c[j]).0 by {
        if j < a.len() {
            assert(c[i] == a[i] && c[j] == a[j]);
        } else if i >= a.len() {
            assert(c[i] == b[i - a.len()] && c[j] == b[j - a.len()]);
        } else {
            assert(c[i] == a[i] && c[j] == b[j - a.len()]);
            assert(a[i].0 <= mid);
            assert(b[j - a.len()].0 >= mid);
        }
    }
}

proof fn lemma_cmds_token(t: TokenView, off: int)
    ensures
        cmds_bounded_sorted(flat_cmds_token(t, off), off, off + flat_text_token(t).len()),
    decreases t, 0int,
{
    match t {
        TokenView::Section(_) => {},
        TokenView::Command(_) => {},
        TokenView::Sequence(ts) => {
            lemma_cmds_tokens(ts, off);
        },
    }
}

proof fn lemma_cmds_tokens(ts: Seq<TokenView>, off: int)
    ensures
        cmds_bounded_sorted(flat_cmds_tokens(ts, off), off, off + flat_text_tokens(ts).len()),
    decreases ts, 1int,
{
    if ts.len() > 0 {
        let l0 = flat_text_token(ts[0]).len() as int;
        lemma_cmds_token(ts[0], off);
        lemma_cmds_tokens(ts.drop_first(), off + l0);
        lemma_cmds_concat(
            flat_cmds_token(ts[0], off),
            flat_cmds_tokens(ts.drop_first(), off + l0),
            off,
            off + l0,
            off + flat_text_tokens(ts).len(),
        );
    }
}

proof fn lemma_cmds_node(n: NodeView, off: int)
    ensures
        cmds_bounded_sorted(flat_cmds_node(n, off), off, off + flat_text_node(n).len()),
    decreases n, 0int,
{
    match n {
        NodeView::Bare(t) => {
            lemma_cmds_token(t, off);
        },
        NodeView::Group(ns) => {
            lemma_cmds_nodes(ns, off);
        },
    }
}

proof fn lemma_cmds_nodes(ns: Seq<NodeView>, off: int)
    ensures
        cmds_bounded_sorted(flat_cmds_nodes(ns, off), off, off + flat_text_nodes(ns).len()),
    decreases ns, 1int,
{
    if ns.len() > 0 {
        let l0 = flat_text_node(ns[0]).len() as int;
        lemma_cmds_node(ns[0], off);
        lemma_cmds_nodes(ns.drop_first(), off + l0);
        lemma_cmds_concat(
            flat_cmds_node(ns[0], off),
            flat_cmds_nodes(ns.drop_first(), off + l0),
            off,
            off + l0,
            off + flat_text_nodes(ns).len(),
        );
    }
}

/// Flattening emits commands in source order with ascending offsets, each
/// offset between zero and the length of the flattened text.
pub proof fn lemma_flatten_commands_ordered(ns: Seq<NodeView>)
    ensures
        cmds_bounded_sorted(flat_cmds_nodes(ns, 0), 0, flat_text_nodes(ns).len() as int),
{
    lemma_cmds_nodes(ns, 0);
}

/// The modifier one effect turns into.
fn map_effect(e: &TextEffect) -> (r: TextMod)
    ensures
        r == effect_mod(*e),
{
    match e {
        TextEffect::Wave => TextMod::Wave,
    }
}

/// Flattens one token: appends its text to `buf` and records its command or
/// styling spans at the current offset.
#[verifier::loop_isolation(false)]
fn flatten_token_into(
    tok: &DialogueBoxToken,
    buf: &mut String,
    cmds: &mut Vec<IndexedCommand>,
    mods: &mut Vec<IndexedTextMod>,
)
    ensures
        final(buf)@ == old(buf)@ + flat_text_token(tok@),
        cmds_view(final(cmds)@) == cmds_view(old(cmds)@) + flat_cmds_token(
            tok@,
            old(buf)@.len() as int,
        ),
        mods_view(final(mods)@) == mods_view(old(mods)@) + flat_mods_token(
            tok@,
            old(buf)@.len() as int,
        ),
    decreases *tok, 0int,
{
    let ghost off = old(buf)@.len() as int;
    match tok {
        DialogueBoxToken::Section(ts) => {
            let ghost sv = ts@;
            let start = buf.as_str().unicode_len();
            buf.append(ts.text.as_str());
            let end = buf.as_str().unicode_len();
            proof {
                assert(start == off);
                assert(end == off + sv.text.len());
                assert(flat_text_token(tok@) == sv.text);
                assert(cmds_view(cmds@) + flat_cmds_token(tok@, off) =~= cmds_view(cmds@));
            }
            match &ts.color {
                Some(c) => {
                    mods.push(IndexedTextMod { start, end, text_mod: TextMod::Color(*c) });
                },
                None => {},
            }
            let ghost base = mods@;
            proof {
                match sv.color {
                    Some(c) => {
                        assert(mods_view(base) =~= mods_view(old(mods)@) + seq![
                            (off, off + sv.text.len() as int, TextMod::Color(c)),
                        ]);
                    },
                    None => {
                        assert(mods_view(base) =~= mods_view(old(mods)@));
                    },
                }
            }
            let ghost send = off + sv.text.len() as int;
            let mut k: usize = 0;
            while k < ts.effects.len()
                invariant
                    k <= ts.effects.len(),
                    mods_view(mods@) =~= mods_view(base) + effects_mods(
                        ts.effects@.take(k as int),
                        off,
                        send,
                    ),
                decreases ts.effects.len() - k,
            {
                let m = map_effect(&ts.effects[k]);
                let ghost before = mods@;
                mods.push(IndexedTextMod { start, end, text_mod: m });
                proof {
                    let x = (off, send, effect_mod(ts.effects@[k as int]));
                    assert(mods_view(mods@) =~= mods_view(before).push(x));
                    assert(effects_mods(ts.effects@.take(k + 1), off, send) =~= effects_mods(
                        ts.effects@.take(k as int),
                        off,
                        send,
                    ).push(x));
                    assert(mods_view(base) + effects_mods(ts.effects@.take(k as int), off, send).push(
                        x,
                    ) =~= (mods_view(base) + effects_mods(ts.effects@.take(k as int), off, send)).push(
                        x,
                    ));
                    assert(mods_view(mods@) =~= mods_view(base) + effects_mods(
                        ts.effects@.take(k + 1),
                        off,
                        send,
                    ));
                }
                k = k + 1;
            }
            proof {
                assert(ts.effects@.take(ts.effects@.len() as int) =~= ts.effects@);
                assert(flat_mods_token(tok@, off) == section_mods(sv, off));
                assert(mods_view(mods@) =~= mods_view(old(mods)@) + section_mods(sv, off));
            }
        },
        DialogueBoxToken::Command(c) => {
            let index = buf.as_str().unicode_len();
            let command = map_command(c);
            cmds.push(IndexedCommand { index, command });
            proof {
                assert(flat_text_token(tok@) =~= Seq::<char>::empty());
                assert(buf@ =~= old(buf)@ + flat_text_token(tok@));
                assert(cmds_view(cmds@) =~= cmds_view(old(cmds)@) + flat_cmds_token(tok@, off));
                assert(mods_view(mods@) =~= mods_view(old(mods)@) + flat_mods_token(tok@, off));
            }
        },
        DialogueBoxToken::Sequence(toks) => {
            flatten_tokens_from(toks, 0, buf, cmds, mods);
            proof {
                assert(toks@.skip(0) =~= toks@);
                assert(flat_text_token(tok@) == flat_text_tokens(crate::tokens::tokens_view(
                    toks@,
                )));
                assert(flat_cmds_token(tok@, off) == flat_cmds_tokens(
                    crate::tokens::tokens_view(toks@),
                    off,
                ));
                assert(flat_mods_token(tok@, off) == flat_mods_tokens(
                    crate::tokens::tokens_view(toks@),
                    off,
                ));
            }
        },
    }
}

/// Flattens the tokens of `toks` from position `i` on.
fn flatten_tokens_from(
    toks: &Vec<DialogueBoxToken>,
    i: usize,
    buf: &mut String,
    cmds: &mut Vec<IndexedCommand>,
    mods: &mut Vec<IndexedTextMod>,
)
    requires
        i <= toks.len(),
    ensures
        final(buf)@ == old(buf)@ + flat_text_tokens(crate::tokens::tokens_view(toks@.skip(i as int))),
        cmds_view(final(cmds)@) == cmds_view(old(cmds)@) + flat_cmds_tokens(
            crate::tokens::tokens_view(toks@.skip(i as int)),
            old(buf)@.len() as int,
        ),
        mods_view(final(mods)@) == mods_view(old(mods)@) + flat_mods_tokens(
            crate::tokens::tokens_view(toks@.skip(i as int)),
            old(buf)@.len() as int,
        ),
    decreases *toks, toks@.len() - i,
{
    let ghost off = old(buf)@.len() as int;
    if i < toks.len() {
        let ghost tvs = crate::tokens::tokens_view(toks@.skip(i as int));
        proof {
            assert(toks@.skip(i as int)[0] == toks@[i as int]);
            assert(toks@.skip(i as int).drop_first() =~= toks@.skip(i + 1));
            assert(tvs == seq![crate::tokens::token_view(toks@[i as int])]
                + crate::tokens::tokens_view(toks@.skip(i + 1)));
            assert(tvs[0] == crate::tokens::token_view(toks@[i as int]));
            assert(tvs.drop_first() =~= crate::tokens::tokens_view(toks@.skip(i + 1)));
        }
        flatten_token_into(&toks[i], buf, cmds, mods);
        flatten_tokens_from(toks, i + 1, buf, cmds, mods);
        proof {
            assert(flat_text_tokens(tvs) == flat_text_token(tvs[0]) + flat_text_tokens(
                tvs.drop_first(),
            ));
            assert(flat_cmds_tokens(tvs, off) == flat_cmds_token(tvs[0], off) + flat_cmds_tokens(
                tvs.drop_first(),
                off + flat_text_token(tvs[0]).len(),
            ));
            assert(flat_mods_tokens(tvs, off) == flat_mods_token(tvs[0], off) + flat_mods_tokens(
                tvs.drop_first(),
                off + flat_text_token(tvs[0]).len(),
            ));
            assert(final(buf)@ =~= old(buf)@ + flat_text_tokens(tvs));
            assert(cmds_view(final(cmds)@) =~= cmds_view(old(cmds)@) + flat_cmds_tokens(tvs, off));
            assert(mods_view(final(mods)@) =~= mods_view(old(mods)@) + flat_mods_tokens(tvs, off));
        }
    } else {
        proof {
            assert(toks@.skip(i as int) =~= Seq::<DialogueBoxToken>::empty());
            assert(crate::tokens::tokens_view(toks@.skip(i as int)) =~= Seq::<TokenView>::empty());
            assert(buf@ =~= old(buf)@ + flat_text_tokens(crate::tokens::tokens_view(
                toks@.skip(i as int),
            )));
            assert(cmds_view(cmds@) =~= cmds_view(old(cmds)@) + flat_cmds_tokens(
                crate::tokens::tokens_view(toks@.skip(i as int)),
                off,
            ));
            assert(mods_view(mods@) =~= mods_view(old(mods)@) + flat_mods_tokens(
                crate::tokens::tokens_view(toks@.skip(i as int)),
                off,
            ));
        }
    }
}

/// Flattens the nodes of `nodes` from position `i` on.
fn flatten_nodes_from(
    nodes: &Vec<TokenGroup>,
    i: usize,
    buf: &mut String,
    cmds: &mut Vec<IndexedCommand>,
    mods: &mut Vec<IndexedTextMod>,
)
    requires
        i <= nodes.len(),
    ensures
        final(buf)@ == old(buf)@ + flat_text_nodes(nodes_view(nodes@.skip(i as int))),
        cmds_view(final(cmds)@) == cmds_view(old(cmds)@) + flat_cmds_nodes(
            nodes_view(nodes@.skip(i as int)),
            old(buf)@.len() as int,
        ),
        mods_view(final(mods)@) == mods_view(old(mods)@) + flat_mods_nodes(
            nodes_view(nodes@.skip(i as int)),
            old(buf)@.len() as int,
        ),
    decreases *nodes, nodes@.len() - i,
{
    let ghost off = old(buf)@.len() as int;
    if i < nodes.len() {
        let ghost nvs = nodes_view(nodes@.skip(i as int));
        proof {
            assert(nodes@.skip(i as int)[0] == nodes@[i as int]);
            assert(nodes@.skip(i as int).drop_first() =~= nodes@.skip(i + 1));
            assert(nvs == seq![node_view(nodes@[i as int])] + nodes_view(nodes@.skip(i + 1)));
            assert(nvs[0] == node_view(nodes@[i as int]));
            assert(nvs.drop_first() =~= nodes_view(nodes@.skip(i + 1)));
        }
        match &nodes[i] {
            TokenGroup::Bare(tok) => {
                flatten_token_into(tok, buf, cmds, mods);
            },
            TokenGroup::Group(children) => {
                flatten_nodes_from(children, 0, buf, cmds, mods);
                proof {
                    assert(children@.skip(0) =~= children@);
                }
            },
        }
        flatten_nodes_from(nodes, i + 1, buf, cmds, mods);
        proof {
            assert(flat_text_nodes(nvs) == flat_text_node(nvs[0]) + flat_text_nodes(
                nvs.drop_first(),
            ));
            assert(flat_cmds_nodes(nvs, off) == flat_cmds_node(nvs[0], off) + flat_cmds_nodes(
                nvs.drop_first(),
                off + flat_text_node(nvs[0]).len(),
            ));
            assert(flat_mods_nodes(nvs, off) == flat_mods_node(nvs[0], off) + flat_mods_nodes(
                nvs.drop_first(),
                off + flat_text_node(nvs[0]).len(),
            ));
            assert(final(buf)@ =~= old(buf)@ + flat_text_nodes(nvs));
            assert(cmds_view(final(cmds)@) =~= cmds_view(old(cmds)@) + flat_cmds_nodes(nvs, off));
            assert(mods_view(final(mods)@) =~= mods_view(old(mods)@) + flat_mods_nodes(nvs, off));
        }
    } else {
        proof {
            assert(nodes@.skip(i as int) =~= Seq::<TokenGroup>::empty());
            assert(nodes_view(nodes@.skip(i as int)) =~= Seq::<NodeView>::empty());
            assert(buf@ =~= old(buf)@ + flat_text_nodes(nodes_view(nodes@.skip(i as int))));
            assert(cmds_view(cmds@) =~= cmds_view(old(cmds)@) + flat_cmds_nodes(
                nodes_view(nodes@.skip(i as int)),
                off,
            ));
            assert(mods_view(mods@) =~= mods_view(old(mods)@) + flat_mods_nodes(
                nodes_view(nodes@.skip(i as int)),
                off,
            ));
        }
    }
}

/// Flattens a token forest depth-first into one linear section: the
/// concatenated text, the styling spans of each styled section, and every
/// command anchored at the character offset where it fires.
pub fn flatten_groups(nodes: &Vec<TokenGroup>) -> (r: TypeWriterSection)
    ensures
        r.text.value@ == flat_text_nodes(nodes_view(nodes@)),
        cmds_view(r.commands@) == flat_cmds_nodes(nodes_view(nodes@), 0),
        mods_view(r.text.modifiers@) == flat_mods_nodes(nodes_view(nodes@), 0),
{
    let mut buf = String::new();
    let mut cmds: Vec<IndexedCommand> = Vec::new();
    let mut mods: Vec<IndexedTextMod> = Vec::new();
    flatten_nodes_from(nodes, 0, &mut buf, &mut cmds, &mut mods);
    proof {
        assert(nodes@.skip(0) =~= nodes@);
        assert(cmds_view(Seq::<IndexedCommand>::empty()) =~= Seq::<
            (int, TypeWriterCommand),
        >::empty());
        assert(mods_view(Seq::<IndexedTextMod>::empty()) =~= Seq::<(int, int, TextMod)>::empty());
        assert(buf@ =~= flat_text_nodes(nodes_view(nodes@)));
        assert(cmds_view(cmds@) =~= flat_cmds_nodes(nodes_view(nodes@), 0));
        assert(mods_view(mods@) =~= flat_mods_nodes(nodes_view(nodes@), 0));
    }
    TypeWriterSection { text: Text { value: buf, modifiers: mods }, commands: cmds }
}

/// The flattened form of one token command.
fn map_command(c: &TextCommand) -> (r: TypeWriterCommand)
    ensures
        r == type_writer_command(*c),
{
    match c {
        TextCommand::Clear => TypeWriterCommand::Clear,
        TextCommand::AwaitClear => TypeWriterCommand::AwaitClear,
        TextCommand::ClearAfter(d) => TypeWriterCommand::ClearAfter(*d),
        TextCommand::Speed(m) => TypeWriterCommand::Speed(*m),
        TextCommand::Pause(d) => TypeWriterCommand::Pause(*d),
        TextCommand::Delete(n) => TypeWriterCommand::Delete(*n),
    }
}

} // verus!
