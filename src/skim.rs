//! The streaming tokenizer: it reads XML-like text once, left to right, keeps the
//! stack of open nodes, and records which selector groups match each node as it opens.
//!
//! The scan is given as an automaton that reads one character at a time:
//! `scan_step` says what each character does, `scan_finish` what the end of the
//! text does, and `skim_spec` what a whole text gives.
use vstd::prelude::*;

use crate::node::{attr_map, names_unique, Attr, NodeView, ParsedNode};
use crate::selector::{group_matches, group_view, stack_view, ChainView, CommaSeparated, Selector};
use crate::text::{chars_of, is_ws, string_of, whitespace};

verus! {

/// Why a text is not well formed.
#[derive(Debug, PartialEq)]
pub enum SkimError {
    /// A quote outside an attribute value, or an attribute value that does not start with one.
    BadQuote,
    /// Nodes still open at the end of the text.
    UnclosedNode,
    /// A comment or prolog with no end; holds the text after its opening.
    UnclosedComment(String),
    /// A quoted value with no closing quote; holds the attribute's name and the node read so far.
    UnclosedString(String, ParsedNode),
    /// A closing tag that does not close the last open node; holds the closing tag's name
    /// and that node, if there is one.
    CantCloseNode(String, Option<ParsedNode>),
    /// An `=` anywhere but between an attribute's name and its value.
    BadEqSign,
}

pub enum SkimErrorView {
    BadQuote,
    UnclosedNode,
    UnclosedComment(Seq<char>),
    UnclosedString(Seq<char>, NodeView),
    CantCloseNode(Seq<char>, Option<NodeView>),
    BadEqSign,
}

impl View for SkimError {
    type V = SkimErrorView;

    open spec fn view(&self) -> SkimErrorView {
        match self {
            SkimError::BadQuote => SkimErrorView::BadQuote,
            SkimError::UnclosedNode => SkimErrorView::UnclosedNode,
            SkimError::UnclosedComment(s) => SkimErrorView::UnclosedComment(s@),
            SkimError::UnclosedString(a, n) => SkimErrorView::UnclosedString(a@, n@),
            SkimError::CantCloseNode(t, n) => SkimErrorView::CantCloseNode(
                t@,
                match n {
                    Some(n) => Some(n@),
                    None => None,
                },
            ),
            SkimError::BadEqSign => SkimErrorView::BadEqSign,
        }
    }
}

/// A node that selector group number `group` matched when the node opened.
#[derive(Debug, PartialEq)]
pub struct Dispatch {
    pub group: usize,
    pub node: ParsedNode,
}

/// Where the characters being read go.
#[derive(Debug, Clone, Copy, PartialEq, Eq, Structural)]
pub enum Target {
    /// Text between tags, which is skipped.
    Content,
    /// Just after `<`.
    Opened,
    /// Just after `<!`.
    Bang,
    /// Just after `<!-`.
    BangDash,
    /// A tag's name.
    Tag,
    /// An attribute's name.
    AttrName,
    /// Whitespace after an attribute's name: an `=` or a new name follows.
    AttrGap,
    /// After `=`, before the opening quote of the value.
    AttrVal,
    /// Inside a value opened by the quote character.
    Quoted(char),
    /// Inside `<!-- ... -->`.
    Comment,
    /// Inside `<? ... ?>`.
    Prolog,
}

/// What the tag being read does once it ends.
#[derive(Debug, Clone, Copy, PartialEq, Eq, Structural)]
pub enum NodeKind {
    Opening,
    Closing,
    SelfClosing,
    NoNode,
}

/// The automaton's state: where characters go, the node and attribute name being
/// read, the text of a value or comment being read, the stack of open nodes, the
/// dispatches made so far and the error met, if any.
pub struct ScanState {
    pub target: Target,
    pub kind: NodeKind,
    pub node: NodeView,
    pub attr: Seq<char>,
    pub text: Seq<char>,
    pub stack: Seq<NodeView>,
    pub dispatches: Seq<(int, NodeView)>,
    pub error: Option<SkimErrorView>,
}

pub open spec fn empty_node() -> NodeView {
    NodeView { tag: seq![], attributes: Map::empty() }
}

pub open spec fn scan_start() -> ScanState {
    ScanState {
        target: Target::Content,
        kind: NodeKind::NoNode,
        node: empty_node(),
        attr: seq![],
        text: seq![],
        stack: seq![],
        dispatches: seq![],
        error: None,
    }
}

/// Back to reading text between tags, with nothing pending.
pub open spec fn reset(st: ScanState) -> ScanState {
    ScanState { target: Target::Content, kind: NodeKind::NoNode, node: empty_node(), attr: seq![], text: seq![], ..st }
}

pub open spec fn fail(st: ScanState, e: SkimErrorView) -> ScanState {
    ScanState { error: Some(e), ..st }
}

/// The node with attribute `name` set to `value`, replacing an earlier value.
pub open spec fn with_attr(n: NodeView, name: Seq<char>, value: Seq<char>) -> NodeView {
    NodeView { attributes: n.attributes.insert(name, value), ..n }
}

/// A pending attribute name is stored with an empty value.
pub open spec fn flush_attr(st: ScanState) -> ScanState {
    if st.attr.len() > 0 {
        ScanState { node: with_attr(st.node, st.attr, seq![]), attr: seq![], ..st }
    } else {
        st
    }
}

/// The dispatches for `node`, now on top of `stack`, by the first `k` groups.
pub open spec fn dispatches_for(groups: Seq<Seq<ChainView>>, stack: Seq<NodeView>, node: NodeView, k: int) -> Seq<(int, NodeView)>
    decreases k,
{
    if k <= 0 {
        seq![]
    } else {
        let before = dispatches_for(groups, stack, node, k - 1);
        if group_matches(groups[k - 1], stack) {
            before.push((k - 1, node))
        } else {
            before
        }
    }
}

/// `>`: the tag ends. An opening or self-closing node is pushed and dispatched to
/// every group that matches (a self-closing one is popped again); a closing tag pops
/// the node that it names.
pub open spec fn end_tag(groups: Seq<Seq<ChainView>>, st0: ScanState) -> ScanState {
    let st = flush_attr(st0);
    if st.kind == NodeKind::Closing {
        if st.stack.len() == 0 {
            fail(st, SkimErrorView::CantCloseNode(st.node.tag, None))
        } else if st.stack.last().tag != st.node.tag {
            fail(st, SkimErrorView::CantCloseNode(st.node.tag, Some(st.stack.last())))
        } else {
            reset(ScanState { stack: st.stack.drop_last(), ..st })
        }
    } else {
        let pushed = st.stack.push(st.node);
        let ds = st.dispatches + dispatches_for(groups, pushed, st.node, groups.len() as int);
        let stack = if st.kind == NodeKind::SelfClosing { st.stack } else { pushed };
        reset(ScanState { stack, dispatches: ds, ..st })
    }
}

/// What `c` does inside a tag: in its name, an attribute's name or before a value.
pub open spec fn tag_char(groups: Seq<Seq<ChainView>>, st: ScanState, c: char) -> ScanState {
    if c == '<' {
        ScanState { target: Target::Opened, kind: NodeKind::Opening, ..st }
    } else if c == '/' {
        ScanState { kind: if st.node.tag.len() == 0 { NodeKind::Closing } else { NodeKind::SelfClosing }, ..st }
    } else if c == '>' {
        end_tag(groups, st)
    } else if is_ws(c) {
        if st.kind == NodeKind::Opening && st.target == Target::Tag && st.node.tag.len() > 0 {
            ScanState { target: Target::AttrName, ..st }
        } else if st.kind == NodeKind::Opening && st.target == Target::AttrName {
            ScanState { target: Target::AttrGap, ..st }
        } else {
            st
        }
    } else if c == '=' {
        if st.kind == NodeKind::Opening && st.target == Target::AttrName {
            ScanState { target: Target::AttrVal, ..st }
        } else {
            fail(st, SkimErrorView::BadEqSign)
        }
    } else if c == '"' || c == '\'' {
        if st.target == Target::AttrVal {
            ScanState { target: Target::Quoted(c), text: seq![], ..st }
        } else {
            fail(st, SkimErrorView::BadQuote)
        }
    } else if st.target == Target::Tag {
        ScanState { node: NodeView { tag: st.node.tag.push(c), ..st.node }, ..st }
    } else if st.target == Target::AttrName {
        ScanState { attr: st.attr.push(c), ..st }
    } else {
        fail(st, SkimErrorView::BadQuote)
    }
}

/// `c` after whitespace that followed an attribute's name.
pub open spec fn gap_char(groups: Seq<Seq<ChainView>>, st: ScanState, c: char) -> ScanState {
    if is_ws(c) {
        st
    } else if c == '=' {
        ScanState { target: Target::AttrVal, ..st }
    } else if c == '>' || c == '/' || c == '<' || c == '"' || c == '\'' {
        tag_char(groups, ScanState { target: Target::AttrName, ..st }, c)
    } else {
        let st1 = flush_attr(st);
        ScanState { target: Target::AttrName, attr: seq![c], ..st1 }
    }
}

/// The tag name read so far with `extra` appended, going on in the tag's name.
pub open spec fn as_tag(st: ScanState, extra: Seq<char>) -> ScanState {
    ScanState { target: Target::Tag, node: NodeView { tag: st.node.tag + extra, ..st.node }, ..st }
}

/// What character `c` does in state `st`.
pub open spec fn scan_step(groups: Seq<Seq<ChainView>>, st: ScanState, c: char) -> ScanState {
    if st.error is Some {
        st
    } else {
        match st.target {
            Target::Content => if c == '<' {
                tag_char(groups, st, c)
            } else {
                st
            },
            Target::Opened => if c == '!' {
                ScanState { target: Target::Bang, ..st }
            } else if c == '?' {
                ScanState { target: Target::Prolog, text: seq![], ..st }
            } else {
                tag_char(groups, ScanState { target: Target::Tag, ..st }, c)
            },
            Target::Bang => if c == '-' {
                ScanState { target: Target::BangDash, ..st }
            } else {
                tag_char(groups, as_tag(st, seq!['!']), c)
            },
            Target::BangDash => if c == '-' {
                ScanState { target: Target::Comment, text: seq![], ..st }
            } else {
                tag_char(groups, as_tag(st, seq!['!', '-']), c)
            },
            Target::Comment => if c == '>' && st.text.len() >= 2 && st.text[st.text.len() - 1] == '-'
                && st.text[st.text.len() - 2] == '-' {
                reset(st)
            } else {
                ScanState { text: st.text.push(c), ..st }
            },
            Target::Prolog => if c == '>' && st.text.len() >= 1 && st.text[st.text.len() - 1] == '?' {
                reset(st)
            } else {
                ScanState { text: st.text.push(c), ..st }
            },
            Target::Quoted(q) => if c == q {
                ScanState {
                    target: Target::AttrName,
                    node: with_attr(st.node, st.attr, st.text),
                    attr: seq![],
                    text: seq![],
                    ..st
                }
            } else {
                ScanState { text: st.text.push(c), ..st }
            },
            Target::AttrGap => gap_char(groups, st, c),
            _ => tag_char(groups, st, c),
        }
    }
}

/// The state after reading `s` from `st`.
pub open spec fn scan_run(groups: Seq<Seq<ChainView>>, st: ScanState, s: Seq<char>) -> ScanState
    decreases s.len(),
{
    if s.len() == 0 {
        st
    } else {
        scan_step(groups, scan_run(groups, st, s.drop_last()), s.last())
    }
}

/// What the end of the text does in state `st`.
pub open spec fn scan_finish(st: ScanState) -> Result<(), SkimErrorView> {
    match st.error {
        Some(e) => Err(e),
        None => match st.target {
            Target::Comment | Target::Prolog => Err(SkimErrorView::UnclosedComment(st.text)),
            Target::Quoted(_) => Err(SkimErrorView::UnclosedString(st.attr, st.node)),
            _ => if st.stack.len() > 0 {
                Err(SkimErrorView::UnclosedNode)
            } else {
                Ok(())
            },
        },
    }
}

/// What a whole text gives: the dispatches made, in order, and the outcome.
pub open spec fn skim_spec(groups: Seq<Seq<ChainView>>, s: Seq<char>) -> (Seq<(int, NodeView)>, Result<(), SkimErrorView>) {
    let st = scan_run(groups, scan_start(), s);
    (st.dispatches, scan_finish(st))
}

pub open spec fn groups_view(groups: Seq<CommaSeparated<Selector>>) -> Seq<Seq<ChainView>> {
    groups.map_values(|g: CommaSeparated<Selector>| group_view(g.0@))
}

pub open spec fn dispatches_view(ds: Seq<Dispatch>) -> Seq<(int, NodeView)> {
    ds.map_values(|d: Dispatch| (d.group as int, d.node@))
}

pub open spec fn result_view(r: Result<(), SkimError>) -> Result<(), SkimErrorView> {
    match r {
        Ok(()) => Ok(()),
        Err(e) => Err(e@),
    }
}

} // verus!

verus! {

/// A copy of `n`.
fn copy_node(n: &ParsedNode) -> (r: ParsedNode)
    ensures
        r@ == n@,
        r.attributes@ == n.attributes@,
{
    let mut attributes: Vec<Attr> = Vec::new();
    let mut i: usize = 0;
    while i < n.attributes.len()
        invariant
            i <= n.attributes@.len(),
            attributes@ == n.attributes@.take(i as int),
        decreases n.attributes@.len() - i,
    {
        let a = &n.attributes[i];
        attributes.push(Attr { name: a.name.clone(), value: a.value.clone() });
        assert(attributes@ =~= n.attributes@.take(i + 1));
        i += 1;
    }
    assert(attributes@ =~= n.attributes@);
    ParsedNode { tag: n.tag.clone(), attributes }
}

fn empty_parsed_node() -> (r: ParsedNode)
    ensures
        r@ == empty_node(),
        names_unique(r.attributes@),
{
    let r = ParsedNode { tag: String::new(), attributes: Vec::new() };
    assert(r.attributes@.len() == 0);
    r
}

/// Appends to `ds` the dispatches for the node on top of `stack`, one for each group
/// that matches, in the groups' order.
fn dispatch_all(groups: &Vec<CommaSeparated<Selector>>, stack: &Vec<ParsedNode>, ds: &mut Vec<Dispatch>)
    requires
        stack@.len() > 0,
    ensures
        dispatches_view(final(ds)@) == dispatches_view(old(ds)@) + dispatches_for(
            groups_view(groups@),
            stack_view(stack@),
            stack@.last()@,
            groups@.len() as int,
        ),
{
    let ghost gv = groups_view(groups@);
    let ghost sv = stack_view(stack@);
    let top = stack.len() - 1;
    let mut k: usize = 0;
    while k < groups.len()
        invariant
            k <= groups@.len(),
            top == stack@.len() - 1,
            gv == groups_view(groups@),
            sv == stack_view(stack@),
            dispatches_view(ds@) == dispatches_view(old(ds)@) + dispatches_for(gv, sv, stack@.last()@, k as int),
        decreases groups@.len() - k,
    {
        let hit = groups[k].match_node(stack.as_slice());
        assert(gv[k as int] == group_view(groups@[k as int].0@));
        if hit {
            let node = copy_node(&stack[top]);
            let ghost before = ds@;
            ds.push(Dispatch { group: k, node });
            assert(dispatches_view(ds@) =~= dispatches_view(before).push((k as int, stack@.last()@)));
        }
        k += 1;
    }
}

/// A scan in progress, fed one character at a time.
pub struct Scanner {
    target: Target,
    kind: NodeKind,
    node: ParsedNode,
    attr: String,
    text: Vec<char>,
    stack: Vec<ParsedNode>,
    dispatches: Vec<Dispatch>,
    error: Option<SkimError>,
}

impl View for Scanner {
    type V = ScanState;

    closed spec fn view(&self) -> ScanState {
        ScanState {
            target: self.target,
            kind: self.kind,
            node: self.node@,
            attr: self.attr@,
            text: self.text@,
            stack: stack_view(self.stack@),
            dispatches: dispatches_view(self.dispatches@),
            error: match self.error {
                Some(e) => Some(e@),
                None => None,
            },
        }
    }
}

impl Scanner {
    /// Holds of every scanner that `new` and `feed` hand out.
    pub closed spec fn wf(&self) -> bool {
        names_unique(self.node.attributes@)
    }

    /// A scanner at the start of a text.
    pub fn new() -> (r: Scanner)
        ensures
            r@ == scan_start(),
            r.wf(),
    {
        Scanner::start()
    }

    /// Reads one character and hands out the dispatches that it made, in order; the
    /// scanner keeps none of them.
    pub fn feed(&mut self, groups: &Vec<CommaSeparated<Selector>>, c: char) -> (r: Vec<Dispatch>)
        requires
            old(self).wf(),
        ensures
            final(self).wf(),
            ({
                let next = scan_step(groups_view(groups@), ScanState { dispatches: seq![], ..old(self)@ }, c);
                &&& dispatches_view(r@) == next.dispatches
                &&& final(self)@ == (ScanState { dispatches: seq![], ..next })
            }),
    {
        let mut s = Scanner::start();
        std::mem::swap(self, &mut s);
        s.dispatches = Vec::new();
        assert(dispatches_view(s.dispatches@) =~= seq![]);
        let mut s = s.step(groups, c);
        let mut out: Vec<Dispatch> = Vec::new();
        std::mem::swap(&mut out, &mut s.dispatches);
        assert(dispatches_view(s.dispatches@) =~= seq![]);
        *self = s;
        out
    }

    /// Whether the scan has met an error; it then reads no further.
    pub fn failed(&self) -> (r: bool)
        ensures
            r == (self@.error is Some),
    {
        self.error.is_some()
    }

    /// Ends the scan: whether the text read was well formed.
    pub fn end(self) -> (r: Result<(), SkimError>)
        ensures
            result_view(r) == scan_finish(self@),
    {
        self.finish()
    }

    fn start() -> (r: Scanner)
        ensures
            r@ == scan_start(),
            r.wf(),
    {
        let s = Scanner {
            target: Target::Content,
            kind: NodeKind::NoNode,
            node: empty_parsed_node(),
            attr: String::new(),
            text: Vec::new(),
            stack: Vec::new(),
            dispatches: Vec::new(),
            error: None,
        };
        assert(stack_view(s.stack@) =~= seq![]);
        assert(dispatches_view(s.dispatches@) =~= seq![]);
        s
    }

    fn reset(self) -> (r: Scanner)
        ensures
            r@ == reset(self@),
            r.wf(),
    {
        Scanner {
            target: Target::Content,
            kind: NodeKind::NoNode,
            node: empty_parsed_node(),
            attr: String::new(),
            text: Vec::new(),
            ..self
        }
    }

    fn fail(self, e: SkimError) -> (r: Scanner)
        requires
            self.wf(),
        ensures
            r@ == fail(self@, e@),
            r.wf(),
    {
        Scanner { error: Some(e), ..self }
    }

    fn flush_attr(self) -> (r: Scanner)
        requires
            self.wf(),
        ensures
            r@ == flush_attr(self@),
            r.wf(),
    {
        if self.attr.as_str().is_empty() {
            self
        } else {
            let mut s = self;
            let name = s.attr;
            s.attr = String::new();
            s.node.set_attr(name, String::new());
            s
        }
    }

    fn end_tag(self, groups: &Vec<CommaSeparated<Selector>>) -> (r: Scanner)
        requires
            self.wf(),
        ensures
            r@ == end_tag(groups_view(groups@), self@),
            r.wf(),
    {
        let s = self.flush_attr();
        let ghost st = s@;
        let Scanner { target, kind, node, attr, text, mut stack, mut dispatches, error } = s;
        if kind == NodeKind::Closing {
            if stack.len() == 0 {
                let s = Scanner { target, kind, node, attr, text, stack, dispatches, error };
                let tag = s.node.tag.clone();
                return s.fail(SkimError::CantCloseNode(tag, None));
            }
            let top = stack.pop().unwrap();
            proof {
                assert(stack_view(stack@) =~= st.stack.drop_last());
                assert(top@ == st.stack.last());
            }
            if top.tag != node.tag {
                stack.push(top);
                proof {
                    assert(stack_view(stack@) =~= st.stack);
                }
                let s = Scanner { target, kind, node, attr, text, stack, dispatches, error };
                let tag = s.node.tag.clone();
                let last = copy_node(&s.stack[s.stack.len() - 1]);
                return s.fail(SkimError::CantCloseNode(tag, Some(last)));
            }
            let s = Scanner { target, kind, node, attr, text, stack, dispatches, error };
            s.reset()
        } else {
            let copy = copy_node(&node);
            stack.push(copy);
            proof {
                assert(stack_view(stack@) =~= st.stack.push(st.node));
            }
            dispatch_all(groups, &stack, &mut dispatches);
            if kind == NodeKind::SelfClosing {
                stack.pop();
                proof {
                    assert(stack_view(stack@) =~= st.stack);
                }
            }
            let s = Scanner { target, kind, node, attr, text, stack, dispatches, error };
            s.reset()
        }
    }

    fn tag_char(self, groups: &Vec<CommaSeparated<Selector>>, c: char) -> (r: Scanner)
        requires
            self.wf(),
        ensures
            r@ == tag_char(groups_view(groups@), self@, c),
            r.wf(),
    {
        let mut s = self;
        if c == '<' {
            s.target = Target::Opened;
            s.kind = NodeKind::Opening;
            s
        } else if c == '/' {
            s.kind = if s.node.tag.as_str().is_empty() {
                NodeKind::Closing
            } else {
                NodeKind::SelfClosing
            };
            s
        } else if c == '>' {
            s.end_tag(groups)
        } else if whitespace(c) {
            if s.kind == NodeKind::Opening && s.target == Target::Tag && !s.node.tag.as_str().is_empty() {
                s.target = Target::AttrName;
            } else if s.kind == NodeKind::Opening && s.target == Target::AttrName {
                s.target = Target::AttrGap;
            }
            s
        } else if c == '=' {
            if s.kind == NodeKind::Opening && s.target == Target::AttrName {
                s.target = Target::AttrVal;
                s
            } else {
                s.fail(SkimError::BadEqSign)
            }
        } else if c == '"' || c == '\'' {
            if s.target == Target::AttrVal {
                s.target = Target::Quoted(c);
                s.text = Vec::new();
                s
            } else {
                s.fail(SkimError::BadQuote)
            }
        } else if s.target == Target::Tag {
            s.node.tag.push(c);
            s
        } else if s.target == Target::AttrName {
            s.attr.push(c);
            s
        } else {
            s.fail(SkimError::BadQuote)
        }
    }

    fn gap_char(self, groups: &Vec<CommaSeparated<Selector>>, c: char) -> (r: Scanner)
        requires
            self.wf(),
        ensures
            r@ == gap_char(groups_view(groups@), self@, c),
            r.wf(),
    {
        let mut s = self;
        if whitespace(c) {
            s
        } else if c == '=' {
            s.target = Target::AttrVal;
            s
        } else if c == '>' || c == '/' || c == '<' || c == '"' || c == '\'' {
            s.target = Target::AttrName;
            s.tag_char(groups, c)
        } else {
            let mut s = s.flush_attr();
            let mut name = String::new();
            name.push(c);
            assert(name@ =~= seq![c]);
            s.target = Target::AttrName;
            s.attr = name;
            s
        }
    }

    /// The tag name read so far with `extra` appended, going on in the tag's name.
    fn as_tag(self, extra: &str) -> (r: Scanner)
        requires
            self.wf(),
        ensures
            r@ == as_tag(self@, extra@),
            r.wf(),
    {
        let mut s = self;
        let more = chars_of(extra);
        let mut i: usize = 0;
        let ghost t0 = s.node.tag@;
        while i < more.len()
            invariant
                i <= more@.len(),
                more@ == extra@,
                s.node.tag@ == t0 + more@.take(i as int),
                s@ == (ScanState { node: NodeView { tag: s.node.tag@, ..self@.node }, ..self@ }),
                s.wf(),
            decreases more@.len() - i,
        {
            s.node.tag.push(more[i]);
            assert(t0 + more@.take(i + 1) =~= (t0 + more@.take(i as int)).push(more@[i as int]));
            i += 1;
        }
        assert(more@.take(more@.len() as int) =~= more@);
        s.target = Target::Tag;
        s
    }

    fn step(self, groups: &Vec<CommaSeparated<Selector>>, c: char) -> (r: Scanner)
        requires
            self.wf(),
        ensures
            r@ == scan_step(groups_view(groups@), self@, c),
            r.wf(),
    {
        if self.error.is_some() {
            return self;
        }
        let mut s = self;
        match s.target {
            Target::Content => {
                if c == '<' {
                    s.tag_char(groups, c)
                } else {
                    s
                }
            },
            Target::Opened => {
                if c == '!' {
                    s.target = Target::Bang;
                    s
                } else if c == '?' {
                    s.target = Target::Prolog;
                    s.text = Vec::new();
                    s
                } else {
                    s.target = Target::Tag;
                    s.tag_char(groups, c)
                }
            },
            Target::Bang => {
                if c == '-' {
                    s.target = Target::BangDash;
                    s
                } else {
                    proof {
                        reveal_strlit("!");
                        assert("!"@ =~= seq!['!']);
                    }
                    s.as_tag("!").tag_char(groups, c)
                }
            },
            Target::BangDash => {
                if c == '-' {
                    s.target = Target::Comment;
                    s.text = Vec::new();
                    s
                } else {
                    proof {
                        reveal_strlit("!-");
                        assert("!-"@ =~= seq!['!', '-']);
                    }
                    s.as_tag("!-").tag_char(groups, c)
                }
            },
            Target::Comment => {
                let ends = c == '>' && ends_with_two_dashes(&s.text);
                if ends {
                    s.reset()
                } else {
                    s.text.push(c);
                    s
                }
            },
            Target::Prolog => {
                let ends = c == '>' && ends_with_question(&s.text);
                if ends {
                    s.reset()
                } else {
                    s.text.push(c);
                    s
                }
            },
            Target::Quoted(q) => {
                if c == q {
                    let name = s.attr;
                    let value = string_of(&s.text, 0, s.text.len());
                    assert(s.text@.subrange(0, s.text@.len() as int) =~= s.text@);
                    s.attr = String::new();
                    s.text = Vec::new();
                    s.node.set_attr(name, value);
                    s.target = Target::AttrName;
                    s
                } else {
                    s.text.push(c);
                    s
                }
            },
            Target::AttrGap => s.gap_char(groups, c),
            _ => s.tag_char(groups, c),
        }
    }

    fn finish(self) -> (r: Result<(), SkimError>)
        ensures
            result_view(r) == scan_finish(self@),
    {
        match self.error {
            Some(e) => Err(e),
            None => match self.target {
                Target::Comment | Target::Prolog => {
                    let text = string_of(&self.text, 0, self.text.len());
                    assert(self.text@.subrange(0, self.text@.len() as int) =~= self.text@);
                    Err(SkimError::UnclosedComment(text))
                },
                Target::Quoted(_) => Err(SkimError::UnclosedString(self.attr, self.node)),
                _ => {
                    if self.stack.len() > 0 {
                        Err(SkimError::UnclosedNode)
                    } else {
                        Ok(())
                    }
                },
            },
        }
    }
}

/// Whether `s` ends with `--`.
fn ends_with_two_dashes(s: &Vec<char>) -> (r: bool)
    ensures
        r == (s@.len() >= 2 && s@[s@.len() - 1] == '-' && s@[s@.len() - 2] == '-'),
{
    let n = s.len();
    n >= 2 && s[n - 1] == '-' && s[n - 2] == '-'
}

/// Whether `s` ends with `?`.
fn ends_with_question(s: &Vec<char>) -> (r: bool)
    ensures
        r == (s@.len() >= 1 && s@[s@.len() - 1] == '?'),
{
    let n = s.len();
    n >= 1 && s[n - 1] == '?'
}

/// Once the scan has failed, the characters after do not change its state.
proof fn lemma_run_failed(groups: Seq<Seq<ChainView>>, st: ScanState, s: Seq<char>, n: int)
    requires
        0 <= n <= s.len(),
        scan_run(groups, st, s.take(n)).error is Some,
    ensures
        scan_run(groups, st, s) == scan_run(groups, st, s.take(n)),
    decreases s.len(),
{
    if n < s.len() {
        assert(s.drop_last().take(n) == s.take(n));
        lemma_run_failed(groups, st, s.drop_last(), n);
    } else {
        assert(s.take(n) == s);
    }
}

/// Scans `xml_src`, matching each node as it opens against every group of `groups`.
///
/// Returns the dispatches made, in order (the group's index and the node), and whether
/// the text was well formed. The scan stops at the first error: the dispatches are then
/// those made before it.
pub fn skim(xml_src: &str, groups: &Vec<CommaSeparated<Selector>>) -> (r: (Vec<Dispatch>, Result<(), SkimError>))
    ensures
        dispatches_view(r.0@) == skim_spec(groups_view(groups@), xml_src@).0,
        result_view(r.1) == skim_spec(groups_view(groups@), xml_src@).1,
{
    let ghost g = groups_view(groups@);
    let v = chars_of(xml_src);
    let mut sc = Scanner::start();
    let mut i: usize = 0;
    assert(v@.take(0) =~= seq![]);
    while i < v.len() && sc.error.is_none()
        invariant
            i <= v@.len(),
            v@ == xml_src@,
            g == groups_view(groups@),
            sc@ == scan_run(g, scan_start(), v@.take(i as int)),
            sc.wf(),
        decreases v@.len() - i,
    {
        assert(v@.take(i + 1).drop_last() =~= v@.take(i as int));
        sc = sc.step(groups, v[i]);
        i += 1;
    }
    proof {
        if i == v@.len() {
            assert(v@.take(i as int) =~= v@);
        } else {
            lemma_run_failed(g, scan_start(), v@, i as int);
        }
    }
    let ghost fin = sc@;
    assert(fin == scan_run(g, scan_start(), xml_src@));
    let Scanner { target, kind, node, attr, text, stack, dispatches, error } = sc;
    let rest = Scanner { target, kind, node, attr, text, stack, dispatches: Vec::new(), error };
    assert(dispatches_view(dispatches@) == fin.dispatches);
    assert(scan_finish(rest@) == scan_finish(fin));
    (dispatches, rest.finish())
}

/// The state without its dispatches, as a scanner keeps it between two characters.
pub open spec fn without_dispatches(st: ScanState) -> ScanState {
    ScanState { dispatches: seq![], ..st }
}

/// The state of a scanner fed `s` one character at a time.
pub open spec fn fed_state(groups: Seq<Seq<ChainView>>, s: Seq<char>) -> ScanState
    decreases s.len(),
{
    if s.len() == 0 {
        scan_start()
    } else {
        without_dispatches(scan_step(groups, fed_state(groups, s.drop_last()), s.last()))
    }
}

/// The dispatches handed out while a scanner is fed `s`, in order.
pub open spec fn fed_dispatches(groups: Seq<Seq<ChainView>>, s: Seq<char>) -> Seq<(int, NodeView)>
    decreases s.len(),
{
    if s.len() == 0 {
        seq![]
    } else {
        fed_dispatches(groups, s.drop_last()) + scan_step(groups, fed_state(groups, s.drop_last()), s.last()).dispatches
    }
}

/// A step adds dispatches to those made before and depends on nothing else of them.
proof fn lemma_step_dispatches(groups: Seq<Seq<ChainView>>, st: ScanState, c: char)
    ensures
        scan_step(groups, st, c) == (ScanState {
            dispatches: st.dispatches + scan_step(groups, without_dispatches(st), c).dispatches,
            ..without_dispatches(scan_step(groups, without_dispatches(st), c))
        }),
{
    assert(st.dispatches + seq![] =~= st.dispatches);
    let f = flush_attr(st);
    let ds = dispatches_for(groups, f.stack.push(f.node), f.node, groups.len() as int);
    assert(st.dispatches + (seq![] + ds) =~= st.dispatches + ds);
}

/// Feeding a scanner a text one character at a time hands out, in order, exactly the
/// dispatches of a scan of the whole text, and leaves it in the state that scan ends in.
pub proof fn feeding_is_scanning(groups: Seq<Seq<ChainView>>, s: Seq<char>)
    ensures
        scan_run(groups, scan_start(), s) == (ScanState {
            dispatches: fed_dispatches(groups, s),
            ..fed_state(groups, s)
        }),
    decreases s.len(),
{
    if s.len() == 0 {
        assert(scan_start() == (ScanState { dispatches: seq![], ..scan_start() }));
    } else {
        feeding_is_scanning(groups, s.drop_last());
        let prev = scan_run(groups, scan_start(), s.drop_last());
        lemma_step_dispatches(groups, prev, s.last());
        assert(without_dispatches(prev) == fed_state(groups, s.drop_last()));
    }
}

} // verus!
