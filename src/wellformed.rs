//! Texts made of properly nested tags, and what the scan says of them.
use vstd::prelude::*;

use crate::node::NodeView;
use crate::selector::ChainView;
use crate::skim::{
    dispatches_for, empty_node, scan_run, scan_start, skim_spec, with_attr, NodeKind, ScanState,
    SkimErrorView, Target,
};
use crate::text::is_ws;

verus! {

/// An attribute written `name="value"` or `name='value'`.
pub struct MarkupAttr {
    pub name: Seq<char>,
    pub quote: char,
    pub value: Seq<char>,
}

/// A sequence of sibling elements: each either has content of its own, written
/// `<tag attrs>...</tag>`, or is self-closed, written `<tag attrs/>`.
pub enum Markup {
    End,
    Element { tag: Seq<char>, attrs: Seq<MarkupAttr>, content: Box<Markup>, next: Box<Markup> },
    SelfClosed { tag: Seq<char>, attrs: Seq<MarkupAttr>, next: Box<Markup> },
}

/// A character that may stand in a tag's or an attribute's name.
pub open spec fn name_char(c: char) -> bool {
    &&& !is_ws(c)
    &&& c != '<' && c != '>' && c != '/' && c != '=' && c != '"' && c != '\''
    &&& c != '!' && c != '?'
}

pub open spec fn valid_name(t: Seq<char>) -> bool {
    t.len() > 0 && forall|i: int| 0 <= i < t.len() ==> name_char(#[trigger] t[i])
}

/// A properly quoted attribute: a valid name, a quote, and a value without that quote.
pub open spec fn attr_wf(a: MarkupAttr) -> bool {
    &&& valid_name(a.name)
    &&& (a.quote == '"' || a.quote == '\'')
    &&& forall|i: int| 0 <= i < a.value.len() ==> #[trigger] a.value[i] != a.quote
}

pub open spec fn attrs_wf(attrs: Seq<MarkupAttr>) -> bool {
    forall|i: int| 0 <= i < attrs.len() ==> attr_wf(#[trigger] attrs[i])
}

pub open spec fn markup_wf(m: Markup) -> bool
    decreases m,
{
    match m {
        Markup::End => true,
        Markup::Element { tag, attrs, content, next } => valid_name(tag) && attrs_wf(attrs) && markup_wf(*content)
            && markup_wf(*next),
        Markup::SelfClosed { tag, attrs, next } => valid_name(tag) && attrs_wf(attrs) && markup_wf(*next),
    }
}

/// ` name="value"`
pub open spec fn attr_text(a: MarkupAttr) -> Seq<char> {
    seq![' '] + a.name + seq!['=', a.quote] + a.value + seq![a.quote]
}

pub open spec fn attrs_text(attrs: Seq<MarkupAttr>) -> Seq<char>
    decreases attrs.len(),
{
    if attrs.len() == 0 {
        seq![]
    } else {
        attrs_text(attrs.drop_last()) + attr_text(attrs.last())
    }
}

/// The attributes as a mapping, a later one of the same name winning.
pub open spec fn attrs_map(attrs: Seq<MarkupAttr>) -> Map<Seq<char>, Seq<char>>
    decreases attrs.len(),
{
    if attrs.len() == 0 {
        Map::empty()
    } else {
        attrs_map(attrs.drop_last()).insert(attrs.last().name, attrs.last().value)
    }
}

/// The node that an opening tag gives.
pub open spec fn node_of(t: Seq<char>, attrs: Seq<MarkupAttr>) -> NodeView {
    NodeView { tag: t, attributes: attrs_map(attrs) }
}

/// `<t attrs>`
pub open spec fn open_tag(t: Seq<char>, attrs: Seq<MarkupAttr>) -> Seq<char> {
    seq!['<'] + t + attrs_text(attrs) + seq!['>']
}

/// `</t>`
pub open spec fn close_tag(t: Seq<char>) -> Seq<char> {
    seq!['<', '/'] + t + seq!['>']
}

/// `<t attrs/>`
pub open spec fn self_closed_tag(t: Seq<char>, attrs: Seq<MarkupAttr>) -> Seq<char> {
    seq!['<'] + t + attrs_text(attrs) + seq!['/', '>']
}

/// The text of a markup.
pub open spec fn render(m: Markup) -> Seq<char>
    decreases m,
{
    match m {
        Markup::End => seq![],
        Markup::Element { tag, attrs, content, next } => open_tag(tag, attrs) + render(*content) + close_tag(tag)
            + render(*next),
        Markup::SelfClosed { tag, attrs, next } => self_closed_tag(tag, attrs) + render(*next),
    }
}

/// Between tags, with nothing pending, no error, and `stack` open.
pub open spec fn idle(st: ScanState, stack: Seq<NodeView>) -> bool {
    &&& st.error is None
    &&& st.target == Target::Content
    &&& st.kind == NodeKind::NoNode
    &&& st.node == empty_node()
    &&& st.attr.len() == 0
    &&& st.text.len() == 0
    &&& st.stack == stack
}

/// The scan of `a` ends between tags, with no error.
pub open spec fn between_tags(groups: Seq<Seq<ChainView>>, a: Seq<char>) -> bool {
    scan_run(groups, scan_start(), a).target == Target::Content && scan_run(groups, scan_start(), a).error is None
}

/// Reading `a` then `b` is reading `a + b`.
proof fn lemma_run_concat(g: Seq<Seq<ChainView>>, st: ScanState, a: Seq<char>, b: Seq<char>)
    ensures
        scan_run(g, st, a + b) == scan_run(g, scan_run(g, st, a), b),
    decreases b.len(),
{
    if b.len() == 0 {
        assert(a + b =~= a);
    } else {
        assert((a + b).drop_last() =~= a + b.drop_last());
        assert((a + b).last() == b.last());
        lemma_run_concat(g, st, a, b.drop_last());
    }
}

/// Reading one character is one step.
proof fn lemma_run_char(g: Seq<Seq<ChainView>>, st: ScanState, c: char)
    ensures
        scan_run(g, st, seq![c]) == crate::skim::scan_step(g, st, c),
{
    assert(seq![c].drop_last() =~= seq![]);
    assert(scan_run(g, st, seq![]) == st);
}

/// Reading `a` and then one character.
proof fn lemma_run_then_char(g: Seq<Seq<ChainView>>, st: ScanState, a: Seq<char>, c: char)
    ensures
        scan_run(g, st, a + seq![c]) == crate::skim::scan_step(g, scan_run(g, st, a), c),
{
    lemma_run_concat(g, st, a, seq![c]);
    lemma_run_char(g, scan_run(g, st, a), c);
}

/// Reading name characters in a tag's name appends them to it.
proof fn lemma_read_name(g: Seq<Seq<ChainView>>, st: ScanState, t: Seq<char>)
    requires
        st.error is None,
        st.target == Target::Tag,
        forall|i: int| 0 <= i < t.len() ==> name_char(#[trigger] t[i]),
    ensures
        scan_run(g, st, t) == (ScanState { node: NodeView { tag: st.node.tag + t, ..st.node }, ..st }),
    decreases t.len(),
{
    if t.len() == 0 {
        assert(st.node.tag + t =~= st.node.tag);
    } else {
        lemma_read_name(g, st, t.drop_last());
        assert(name_char(t[t.len() - 1]));
        assert(st.node.tag + t =~= (st.node.tag + t.drop_last()).push(t.last()));
    }
}

/// Reading name characters in an attribute's name appends them to it.
proof fn lemma_read_attr_name(g: Seq<Seq<ChainView>>, st: ScanState, t: Seq<char>)
    requires
        st.error is None,
        st.target == Target::AttrName,
        forall|i: int| 0 <= i < t.len() ==> name_char(#[trigger] t[i]),
    ensures
        scan_run(g, st, t) == (ScanState { attr: st.attr + t, ..st }),
    decreases t.len(),
{
    if t.len() == 0 {
        assert(st.attr + t =~= st.attr);
    } else {
        lemma_read_attr_name(g, st, t.drop_last());
        assert(name_char(t[t.len() - 1]));
        assert(st.attr + t =~= (st.attr + t.drop_last()).push(t.last()));
    }
}

/// Inside a quoted value, every character but the quote is collected.
proof fn lemma_read_value(g: Seq<Seq<ChainView>>, st: ScanState, q: char, v: Seq<char>)
    requires
        st.error is None,
        st.target == Target::Quoted(q),
        forall|i: int| 0 <= i < v.len() ==> #[trigger] v[i] != q,
    ensures
        scan_run(g, st, v) == (ScanState { text: st.text + v, ..st }),
    decreases v.len(),
{
    if v.len() == 0 {
        assert(st.text + v =~= st.text);
    } else {
        lemma_read_value(g, st, q, v.drop_last());
        assert(v[v.len() - 1] != q);
        assert(st.text + v =~= (st.text + v.drop_last()).push(v.last()));
    }
}

/// Inside an opening tag, after its name or an earlier attribute, one attribute is
/// read and stored in the node.
proof fn lemma_attr(g: Seq<Seq<ChainView>>, st: ScanState, a: MarkupAttr)
    requires
        st.error is None,
        st.kind == NodeKind::Opening,
        st.target == Target::Tag || st.target == Target::AttrName,
        st.node.tag.len() > 0,
        st.attr == Seq::<char>::empty(),
        st.text == Seq::<char>::empty(),
        attr_wf(a),
    ensures
        scan_run(g, st, attr_text(a)) == (ScanState {
            target: Target::AttrName,
            node: with_attr(st.node, a.name, a.value),
            ..st
        }),
{
    let q = a.quote;
    let c0 = a.name[0];
    assert(name_char(c0));
    lemma_run_char(g, st, ' ');
    let p1 = seq![' '] + seq![c0];
    lemma_run_then_char(g, st, seq![' '], c0);
    let s1 = scan_run(g, st, p1);
    assert(seq![].push(c0) =~= seq![c0]);
    assert(s1 == (ScanState { target: Target::AttrName, attr: seq![c0], ..st }));
    let rest = a.name.skip(1);
    lemma_read_attr_name(g, s1, rest);
    lemma_run_concat(g, st, p1, rest);
    let p2 = p1 + rest;
    assert(seq![c0] + rest =~= a.name);
    let s2 = scan_run(g, st, p2);
    assert(s2 == (ScanState { target: Target::AttrName, attr: a.name, ..st }));
    lemma_run_then_char(g, st, p2, '=');
    let p3 = p2 + seq!['='];
    lemma_run_then_char(g, st, p3, q);
    let p4 = p3 + seq![q];
    let s4 = scan_run(g, st, p4);
    assert(s4 == (ScanState { target: Target::Quoted(q), attr: a.name, text: seq![], ..st }));
    lemma_read_value(g, s4, q, a.value);
    lemma_run_concat(g, st, p4, a.value);
    let p5 = p4 + a.value;
    assert(seq![] + a.value =~= a.value);
    lemma_run_then_char(g, st, p5, q);
    assert(attr_text(a) =~= p5 + seq![q]);
}

/// The attributes of an opening tag are read in order into its node.
proof fn lemma_attrs(g: Seq<Seq<ChainView>>, st: ScanState, attrs: Seq<MarkupAttr>)
    requires
        st.error is None,
        st.kind == NodeKind::Opening,
        st.target == Target::Tag,
        st.node.tag.len() > 0,
        st.node.attributes == Map::<Seq<char>, Seq<char>>::empty(),
        st.attr == Seq::<char>::empty(),
        st.text == Seq::<char>::empty(),
        attrs_wf(attrs),
    ensures
        ({
            let r = scan_run(g, st, attrs_text(attrs));
            &&& r.target == (if attrs.len() == 0 { Target::Tag } else { Target::AttrName })
            &&& r == (ScanState { target: r.target, node: node_of(st.node.tag, attrs), ..st })
        }),
    decreases attrs.len(),
{
    if attrs.len() == 0 {
        assert(st.node == node_of(st.node.tag, attrs));
    } else {
        let d = attrs.drop_last();
        assert(attrs_wf(d)) by {
            assert forall|i: int| 0 <= i < d.len() implies attr_wf(#[trigger] d[i]) by {
                assert(d[i] == attrs[i]);
            }
        }
        lemma_attrs(g, st, d);
        let s1 = scan_run(g, st, attrs_text(d));
        assert(attr_wf(attrs[attrs.len() - 1]));
        lemma_attr(g, s1, attrs.last());
        lemma_run_concat(g, st, attrs_text(d), attr_text(attrs.last()));
    }
}

/// `<` and then a name: a tag of that name is being read.
proof fn lemma_tag_start(g: Seq<Seq<ChainView>>, st: ScanState, stack: Seq<NodeView>, t: Seq<char>)
    requires
        idle(st, stack),
        valid_name(t),
    ensures
        scan_run(g, st, seq!['<'] + t) == (ScanState {
            target: Target::Tag,
            kind: NodeKind::Opening,
            node: node_of(t, seq![]),
            ..st
        }),
{
    lemma_run_char(g, st, '<');
    let s0 = scan_run(g, st, seq!['<']);
    assert(s0 == (ScanState { target: Target::Opened, kind: NodeKind::Opening, ..st }));
    assert(name_char(t[0]));
    let first = seq!['<'] + seq![t[0]];
    lemma_run_then_char(g, st, seq!['<'], t[0]);
    let s1 = scan_run(g, st, first);
    assert(seq![].push(t[0]) =~= seq![t[0]]);
    assert(s1 == (ScanState { target: Target::Tag, kind: NodeKind::Opening, node: node_of(seq![t[0]], seq![]), ..st }));
    lemma_read_name(g, s1, t.skip(1));
    assert(seq![t[0]] + t.skip(1) =~= t);
    assert(seq!['<'] + t =~= first + t.skip(1));
    lemma_run_concat(g, st, first, t.skip(1));
}

/// `<t attrs`: the tag and its attributes have been read.
proof fn lemma_tag_head(g: Seq<Seq<ChainView>>, st: ScanState, stack: Seq<NodeView>, t: Seq<char>, attrs: Seq<MarkupAttr>)
    requires
        idle(st, stack),
        valid_name(t),
        attrs_wf(attrs),
    ensures
        ({
            let r = scan_run(g, st, seq!['<'] + t + attrs_text(attrs));
            &&& r.target == Target::Tag || r.target == Target::AttrName
            &&& r == (ScanState { target: r.target, kind: NodeKind::Opening, node: node_of(t, attrs), ..st })
        }),
{
    lemma_tag_start(g, st, stack, t);
    let s1 = scan_run(g, st, seq!['<'] + t);
    assert(st.attr =~= seq![] && st.text =~= seq![]);
    lemma_attrs(g, s1, attrs);
    lemma_run_concat(g, st, seq!['<'] + t, attrs_text(attrs));
}

/// After `<t attrs>` the node is open.
proof fn lemma_open_tag(g: Seq<Seq<ChainView>>, st: ScanState, stack: Seq<NodeView>, t: Seq<char>, attrs: Seq<MarkupAttr>)
    requires
        idle(st, stack),
        valid_name(t),
        attrs_wf(attrs),
    ensures
        idle(scan_run(g, st, open_tag(t, attrs)), stack.push(node_of(t, attrs))),
{
    lemma_tag_head(g, st, stack, t, attrs);
    lemma_run_then_char(g, st, seq!['<'] + t + attrs_text(attrs), '>');
}

/// After `<t attrs/>` the same nodes are open as before, and the node has been
/// dispatched on top of them.
proof fn lemma_self_closed_tag(g: Seq<Seq<ChainView>>, st: ScanState, stack: Seq<NodeView>, t: Seq<char>, attrs: Seq<MarkupAttr>)
    requires
        idle(st, stack),
        valid_name(t),
        attrs_wf(attrs),
    ensures
        idle(scan_run(g, st, self_closed_tag(t, attrs)), stack),
        scan_run(g, st, self_closed_tag(t, attrs)).dispatches == st.dispatches + dispatches_for(
            g,
            stack.push(node_of(t, attrs)),
            node_of(t, attrs),
            g.len() as int,
        ),
{
    let head = seq!['<'] + t + attrs_text(attrs);
    lemma_tag_head(g, st, stack, t, attrs);
    assert(self_closed_tag(t, attrs) =~= (head + seq!['/']) + seq!['>']);
    lemma_run_then_char(g, st, head, '/');
    lemma_run_then_char(g, st, head + seq!['/'], '>');
}

/// `</` and then a name: a closing tag of that name is being read.
proof fn lemma_close_start(g: Seq<Seq<ChainView>>, st: ScanState, stack: Seq<NodeView>, t: Seq<char>)
    requires
        idle(st, stack),
        valid_name(t),
    ensures
        scan_run(g, st, seq!['<', '/'] + t) == (ScanState {
            target: Target::Tag,
            kind: NodeKind::Closing,
            node: node_of(t, seq![]),
            ..st
        }),
{
    let pre = seq!['<', '/'];
    assert(pre =~= seq!['<'] + seq!['/']);
    lemma_run_char(g, st, '<');
    lemma_run_then_char(g, st, seq!['<'], '/');
    let s1 = scan_run(g, st, pre);
    assert(s1 == (ScanState { target: Target::Tag, kind: NodeKind::Closing, ..st }));
    lemma_read_name(g, s1, t);
    assert(seq![] + t =~= t);
    lemma_run_concat(g, st, pre, t);
}

/// What `</t>` does: it closes the last open node if that node is `t`, and fails otherwise.
proof fn lemma_close_tag(g: Seq<Seq<ChainView>>, st: ScanState, stack: Seq<NodeView>, t: Seq<char>)
    requires
        idle(st, stack),
        valid_name(t),
    ensures
        stack.len() == 0 ==> scan_run(g, st, close_tag(t)).error == Some(SkimErrorView::CantCloseNode(t, None)),
        stack.len() > 0 && stack.last().tag != t ==> scan_run(g, st, close_tag(t)).error == Some(
            SkimErrorView::CantCloseNode(t, Some(stack.last())),
        ),
        stack.len() > 0 && stack.last().tag == t ==> idle(scan_run(g, st, close_tag(t)), stack.drop_last()),
{
    lemma_close_start(g, st, stack, t);
    assert(close_tag(t) =~= (seq!['<', '/'] + t) + seq!['>']);
    lemma_run_then_char(g, st, seq!['<', '/'] + t, '>');
}

/// A nested markup leaves the scan where it found it: between tags, with the same nodes open.
proof fn lemma_markup(g: Seq<Seq<ChainView>>, st: ScanState, stack: Seq<NodeView>, m: Markup)
    requires
        idle(st, stack),
        markup_wf(m),
    ensures
        idle(scan_run(g, st, render(m)), stack),
    decreases m,
{
    match m {
        Markup::End => {},
        Markup::Element { tag, attrs, content, next } => {
            let s1 = scan_run(g, st, open_tag(tag, attrs));
            lemma_open_tag(g, st, stack, tag, attrs);
            let s2 = scan_run(g, s1, render(*content));
            lemma_markup(g, s1, stack.push(node_of(tag, attrs)), *content);
            let s3 = scan_run(g, s2, close_tag(tag));
            lemma_close_tag(g, s2, stack.push(node_of(tag, attrs)), tag);
            assert(stack.push(node_of(tag, attrs)).drop_last() == stack);
            lemma_markup(g, s3, stack, *next);
            lemma_run_concat(g, st, open_tag(tag, attrs), render(*content));
            lemma_run_concat(g, st, open_tag(tag, attrs) + render(*content), close_tag(tag));
            lemma_run_concat(g, st, open_tag(tag, attrs) + render(*content) + close_tag(tag), render(*next));
        },
        Markup::SelfClosed { tag, attrs, next } => {
            let s1 = scan_run(g, st, self_closed_tag(tag, attrs));
            lemma_self_closed_tag(g, st, stack, tag, attrs);
            lemma_markup(g, s1, stack, *next);
            lemma_run_concat(g, st, self_closed_tag(tag, attrs), render(*next));
        },
    }
}

/// A text made only of properly nested opening, closing and self-closing tags, with
/// properly quoted attributes, is well formed: the scan succeeds, and no node is open
/// at its end.
pub proof fn nested_tags_are_well_formed(groups: Seq<Seq<ChainView>>, m: Markup)
    requires
        markup_wf(m),
    ensures
        skim_spec(groups, render(m)).1 == Ok::<(), SkimErrorView>(()),
        scan_run(groups, scan_start(), render(m)).stack.len() == 0,
{
    lemma_markup(groups, scan_start(), seq![], m);
}

/// Nodes left open once the text ends fail the scan with the unclosed-node error,
/// however deep they are and whatever nested markup follows them.
pub proof fn unclosed_nodes_fail(groups: Seq<Seq<ChainView>>, a: Seq<char>, m: Markup)
    requires
        between_tags(groups, a),
        scan_run(groups, scan_start(), a).stack.len() > 0,
        markup_wf(m),
    ensures
        skim_spec(groups, a + render(m)).1 == Err::<(), SkimErrorView>(SkimErrorView::UnclosedNode),
{
    let st = scan_run(groups, scan_start(), a);
    lemma_between_tags_clean(groups, a);
    lemma_markup(groups, st, st.stack, m);
    lemma_run_concat(groups, scan_start(), a, render(m));
}

/// A closing tag met when no node is open fails with the closing-tag error, which
/// names the tag and no open node.
pub proof fn closing_tag_without_open_node_fails(groups: Seq<Seq<ChainView>>, a: Seq<char>, m: Markup, t: Seq<char>)
    requires
        between_tags(groups, a),
        scan_run(groups, scan_start(), a).stack.len() == 0,
        markup_wf(m),
        valid_name(t),
    ensures
        skim_spec(groups, a + render(m) + close_tag(t)).1 == Err::<(), SkimErrorView>(
            SkimErrorView::CantCloseNode(t, None),
        ),
{
    let st = scan_run(groups, scan_start(), a);
    lemma_between_tags_clean(groups, a);
    lemma_markup(groups, st, st.stack, m);
    lemma_close_tag(groups, scan_run(groups, st, render(m)), st.stack, t);
    lemma_run_concat(groups, scan_start(), a, render(m));
    lemma_run_concat(groups, scan_start(), a + render(m), close_tag(t));
}

/// A closing tag whose name is not that of the last open node fails with the
/// closing-tag error, which names both the closing tag and that node.
pub proof fn closing_tag_of_other_node_fails(groups: Seq<Seq<ChainView>>, a: Seq<char>, m: Markup, t: Seq<char>)
    requires
        between_tags(groups, a),
        scan_run(groups, scan_start(), a).stack.len() > 0,
        scan_run(groups, scan_start(), a).stack.last().tag != t,
        markup_wf(m),
        valid_name(t),
    ensures
        skim_spec(groups, a + render(m) + close_tag(t)).1 == Err::<(), SkimErrorView>(
            SkimErrorView::CantCloseNode(t, Some(scan_run(groups, scan_start(), a).stack.last())),
        ),
{
    let st = scan_run(groups, scan_start(), a);
    lemma_between_tags_clean(groups, a);
    lemma_markup(groups, st, st.stack, m);
    lemma_close_tag(groups, scan_run(groups, st, render(m)), st.stack, t);
    lemma_run_concat(groups, scan_start(), a, render(m));
    lemma_run_concat(groups, scan_start(), a + render(m), close_tag(t));
}

/// An opening tag `<t attrs>` opens the node that it describes: after it the scan is
/// between tags with exactly that node open.
pub proof fn opening_tag_opens_its_node(groups: Seq<Seq<ChainView>>, t: Seq<char>, attrs: Seq<MarkupAttr>)
    requires
        valid_name(t),
        attrs_wf(attrs),
    ensures
        between_tags(groups, open_tag(t, attrs)),
        scan_run(groups, scan_start(), open_tag(t, attrs)).stack == seq![node_of(t, attrs)],
{
    lemma_open_tag(groups, scan_start(), seq![], t, attrs);
    assert(seq![].push(node_of(t, attrs)) =~= seq![node_of(t, attrs)]);
}

/// `<!--c-->`
pub open spec fn comment(c: Seq<char>) -> Seq<char> {
    seq!['<', '!', '-', '-'] + c + seq!['-', '-', '>']
}

/// `<?c?>`
pub open spec fn prolog(c: Seq<char>) -> Seq<char> {
    seq!['<', '?'] + c + seq!['?', '>']
}

/// No `-->` ends the comment inside `c`.
pub open spec fn comment_body(c: Seq<char>) -> bool {
    forall|i: int| 2 <= i < c.len() && #[trigger] c[i] == '>' ==> !(c[i - 1] == '-' && c[i - 2] == '-')
}

/// No `?>` ends the prolog inside `c`.
pub open spec fn prolog_body(c: Seq<char>) -> bool {
    forall|i: int| 1 <= i < c.len() && #[trigger] c[i] == '>' ==> c[i - 1] != '?'
}

/// Between tags, the scan's working node, attribute and text are empty.
proof fn lemma_between_tags_clean(g: Seq<Seq<ChainView>>, s: Seq<char>)
    ensures
        ({
            let st = scan_run(g, scan_start(), s);
            st.target == Target::Content && st.error is None ==> idle(st, st.stack)
        }),
    decreases s.len(),
{
    if s.len() > 0 {
        lemma_between_tags_clean(g, s.drop_last());
    }
}

/// Inside a comment, the body is collected as text.
proof fn lemma_comment_text(g: Seq<Seq<ChainView>>, st: ScanState, c: Seq<char>)
    requires
        st.error is None,
        st.target == Target::Comment,
        st.text.len() == 0,
        comment_body(c),
    ensures
        scan_run(g, st, c) == (ScanState { text: c, ..st }),
    decreases c.len(),
{
    if c.len() > 0 {
        let d = c.drop_last();
        assert(comment_body(d)) by {
            assert forall|i: int| 2 <= i < d.len() && #[trigger] d[i] == '>' implies !(d[i - 1] == '-' && d[i - 2] == '-') by {
                assert(c[i] == d[i]);
            }
        }
        lemma_comment_text(g, st, d);
        if c.last() == '>' && c.len() >= 3 {
            assert(c[c.len() - 1] == '>');
        }
        assert(d.push(c.last()) =~= c);
    } else {
        assert(c =~= st.text);
    }
}

/// Inside a prolog, the body is collected as text.
proof fn lemma_prolog_text(g: Seq<Seq<ChainView>>, st: ScanState, c: Seq<char>)
    requires
        st.error is None,
        st.target == Target::Prolog,
        st.text.len() == 0,
        prolog_body(c),
    ensures
        scan_run(g, st, c) == (ScanState { text: c, ..st }),
    decreases c.len(),
{
    if c.len() > 0 {
        let d = c.drop_last();
        assert(prolog_body(d)) by {
            assert forall|i: int| 1 <= i < d.len() && #[trigger] d[i] == '>' implies d[i - 1] != '?' by {
                assert(c[i] == d[i]);
            }
        }
        lemma_prolog_text(g, st, d);
        if c.last() == '>' && c.len() >= 2 {
            assert(c[c.len() - 1] == '>');
        }
        assert(d.push(c.last()) =~= c);
    } else {
        assert(c =~= st.text);
    }
}

/// Between tags, a comment leaves the scan exactly where it was.
proof fn lemma_comment(g: Seq<Seq<ChainView>>, st: ScanState, c: Seq<char>)
    requires
        idle(st, st.stack),
        comment_body(c),
    ensures
        scan_run(g, st, comment(c)) == st,
{
    lemma_run_char(g, st, '<');
    lemma_run_then_char(g, st, seq!['<'], '!');
    assert(seq!['<', '!'] =~= seq!['<'] + seq!['!']);
    lemma_run_then_char(g, st, seq!['<', '!'], '-');
    assert(seq!['<', '!', '-'] =~= seq!['<', '!'] + seq!['-']);
    lemma_run_then_char(g, st, seq!['<', '!', '-'], '-');
    assert(seq!['<', '!', '-', '-'] =~= seq!['<', '!', '-'] + seq!['-']);
    let s4 = scan_run(g, st, seq!['<', '!', '-', '-']);
    assert(s4 == (ScanState { target: Target::Comment, kind: NodeKind::Opening, text: seq![], ..st }));
    lemma_comment_text(g, s4, c);
    let pre = seq!['<', '!', '-', '-'] + c;
    lemma_run_concat(g, st, seq!['<', '!', '-', '-'], c);
    let s5 = scan_run(g, st, pre);
    assert(s5 == (ScanState { target: Target::Comment, kind: NodeKind::Opening, text: c, ..st }));
    lemma_run_then_char(g, st, pre, '-');
    let s6 = scan_run(g, st, pre + seq!['-']);
    assert(s6 == (ScanState { text: c.push('-'), ..s5 }));
    lemma_run_then_char(g, st, pre + seq!['-'], '-');
    let s7 = scan_run(g, st, pre + seq!['-'] + seq!['-']);
    assert(s7 == (ScanState { text: c.push('-').push('-'), ..s5 }));
    lemma_run_then_char(g, st, pre + seq!['-'] + seq!['-'], '>');
    let t = c.push('-').push('-');
    assert(t[t.len() - 1] == '-' && t[t.len() - 2] == '-');
    assert(scan_run(g, st, pre + seq!['-'] + seq!['-'] + seq!['>']) == crate::skim::reset(s7));
    assert(comment(c) =~= pre + seq!['-'] + seq!['-'] + seq!['>']);
    assert(st.attr =~= seq![] && st.text =~= seq![]);
    assert(crate::skim::reset(s7) == st);
}

/// Between tags, a prolog leaves the scan exactly where it was.
proof fn lemma_prolog(g: Seq<Seq<ChainView>>, st: ScanState, c: Seq<char>)
    requires
        idle(st, st.stack),
        prolog_body(c),
    ensures
        scan_run(g, st, prolog(c)) == st,
{
    lemma_run_char(g, st, '<');
    lemma_run_then_char(g, st, seq!['<'], '?');
    assert(seq!['<', '?'] =~= seq!['<'] + seq!['?']);
    let s2 = scan_run(g, st, seq!['<', '?']);
    assert(s2 == (ScanState { target: Target::Prolog, kind: NodeKind::Opening, text: seq![], ..st }));
    lemma_prolog_text(g, s2, c);
    let pre = seq!['<', '?'] + c;
    lemma_run_concat(g, st, seq!['<', '?'], c);
    let s3 = scan_run(g, st, pre);
    assert(s3 == (ScanState { target: Target::Prolog, kind: NodeKind::Opening, text: c, ..st }));
    lemma_run_then_char(g, st, pre, '?');
    let s4 = scan_run(g, st, pre + seq!['?']);
    assert(s4 == (ScanState { text: c.push('?'), ..s3 }));
    lemma_run_then_char(g, st, pre + seq!['?'], '>');
    assert(c.push('?')[c.len() as int] == '?');
    assert(scan_run(g, st, pre + seq!['?'] + seq!['>']) == crate::skim::reset(s4));
    assert(prolog(c) =~= pre + seq!['?'] + seq!['>']);
    assert(st.attr =~= seq![] && st.text =~= seq![]);
    assert(crate::skim::reset(s4) == st);
}

/// A comment between tags changes nothing: the text reads as if it were absent.
pub proof fn comment_is_transparent(groups: Seq<Seq<ChainView>>, a: Seq<char>, c: Seq<char>, b: Seq<char>)
    requires
        scan_run(groups, scan_start(), a).target == Target::Content,
        comment_body(c),
    ensures
        skim_spec(groups, a + comment(c) + b) == skim_spec(groups, a + b),
{
    let st = scan_run(groups, scan_start(), a);
    lemma_run_concat(groups, scan_start(), a, comment(c));
    lemma_run_concat(groups, scan_start(), a + comment(c), b);
    lemma_run_concat(groups, scan_start(), a, b);
    if st.error is None {
        lemma_between_tags_clean(groups, a);
        lemma_comment(groups, st, c);
    } else {
        lemma_run_failed_stays(groups, st, comment(c));
    }
}

/// A prolog between tags changes nothing: the text reads as if it were absent.
pub proof fn prolog_is_transparent(groups: Seq<Seq<ChainView>>, a: Seq<char>, c: Seq<char>, b: Seq<char>)
    requires
        scan_run(groups, scan_start(), a).target == Target::Content,
        prolog_body(c),
    ensures
        skim_spec(groups, a + prolog(c) + b) == skim_spec(groups, a + b),
{
    let st = scan_run(groups, scan_start(), a);
    lemma_run_concat(groups, scan_start(), a, prolog(c));
    lemma_run_concat(groups, scan_start(), a + prolog(c), b);
    lemma_run_concat(groups, scan_start(), a, b);
    if st.error is None {
        lemma_between_tags_clean(groups, a);
        lemma_prolog(groups, st, c);
    } else {
        lemma_run_failed_stays(groups, st, prolog(c));
    }
}

/// A failed scan reads no further.
proof fn lemma_run_failed_stays(g: Seq<Seq<ChainView>>, st: ScanState, s: Seq<char>)
    requires
        st.error is Some,
    ensures
        scan_run(g, st, s) == st,
    decreases s.len(),
{
    if s.len() > 0 {
        lemma_run_failed_stays(g, st, s.drop_last());
    }
}

/// A self-closed node is matched while it is on top of the open nodes, its ancestors
/// beneath it, and is no longer open once its tag has been read.
pub proof fn self_closed_node_is_matched_then_closed(
    groups: Seq<Seq<ChainView>>,
    a: Seq<char>,
    t: Seq<char>,
    attrs: Seq<MarkupAttr>,
)
    requires
        between_tags(groups, a),
        valid_name(t),
        attrs_wf(attrs),
    ensures
        ({
            let before = scan_run(groups, scan_start(), a);
            let after = scan_run(groups, scan_start(), a + self_closed_tag(t, attrs));
            &&& after.stack == before.stack
            &&& after.dispatches == before.dispatches + dispatches_for(
                groups,
                before.stack.push(node_of(t, attrs)),
                node_of(t, attrs),
                groups.len() as int,
            )
        }),
{
    let before = scan_run(groups, scan_start(), a);
    lemma_between_tags_clean(groups, a);
    lemma_self_closed_tag(groups, before, before.stack, t, attrs);
    lemma_run_concat(groups, scan_start(), a, self_closed_tag(t, attrs));
}

} // verus!
