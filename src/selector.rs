//! CSS-style selectors: their structure, and how they match a stack of open nodes.
use vstd::prelude::*;

use crate::node::{has_class, id_key, NodeView, ParsedNode};

pub mod parse;

pub use parse::{PushTo, SelectorParseError};

verus! {

/// Joins two selectors of a chain: `A > B` or `A B`.
#[derive(Debug, Clone, Copy, PartialEq, Eq, Structural)]
pub enum Combinator {
    /// `>`: the node matched by `A` is the direct parent of the one matched by `B`.
    Child,
    /// Whitespace: the node matched by `A` is some ancestor of the one matched by `B`.
    Descendant,
}

/// A chain of simple selectors, matched from the current node towards the root.
///
/// `tag`, `id`, `classes` and `attributes` make up the simple selector matched against
/// one node. An attribute with no value (`[attr]`) asks only that the node has it; one
/// with a value (`[attr=val]`) asks for exactly that value. `parent` is the selector to
/// the left in the chain, with the combinator that joins it to this one.
#[derive(Debug, Default, PartialEq)]
pub struct Selector {
    pub tag: Option<String>,
    pub id: Option<String>,
    pub classes: Vec<String>,
    pub attributes: Vec<(String, Option<String>)>,
    pub parent: Option<(Box<Selector>, Combinator)>,
}

/// A group of selectors separated by commas: it matches where any of them matches.
#[derive(Debug, PartialEq)]
pub struct CommaSeparated<T>(pub Vec<T>);

/// What one simple selector asks of a node.
pub struct SimpleView {
    pub tag: Option<Seq<char>>,
    pub id: Option<Seq<char>>,
    pub classes: Seq<Seq<char>>,
    pub attributes: Seq<(Seq<char>, Option<Seq<char>>)>,
}

/// A chain, rightmost link first: `combinators[k]` joins `links[k]` to its parent `links[k + 1]`.
pub struct ChainView {
    pub links: Seq<SimpleView>,
    pub combinators: Seq<Combinator>,
}

pub open spec fn opt_view(o: Option<String>) -> Option<Seq<char>> {
    match o {
        Some(s) => Some(s@),
        None => None,
    }
}

pub open spec fn strings_view(v: Seq<String>) -> Seq<Seq<char>> {
    v.map_values(|s: String| s@)
}

pub open spec fn attrs_view(v: Seq<(String, Option<String>)>) -> Seq<(Seq<char>, Option<Seq<char>>)> {
    v.map_values(|a: (String, Option<String>)| (a.0@, opt_view(a.1)))
}

pub open spec fn simple_of(s: Selector) -> SimpleView {
    SimpleView {
        tag: opt_view(s.tag),
        id: opt_view(s.id),
        classes: strings_view(s.classes@),
        attributes: attrs_view(s.attributes@),
    }
}

pub open spec fn chain_of(s: Selector) -> ChainView
    decreases s,
{
    match s.parent {
        None => ChainView { links: seq![simple_of(s)], combinators: seq![] },
        Some((p, c)) => {
            let rest = chain_of(*p);
            ChainView { links: seq![simple_of(s)] + rest.links, combinators: seq![c] + rest.combinators }
        },
    }
}

/// Every chain has one link more than it has combinators.
pub open spec fn chain_wf(c: ChainView) -> bool {
    c.links.len() >= 1 && c.combinators.len() == c.links.len() - 1
}

impl View for Selector {
    type V = ChainView;

    open spec fn view(&self) -> ChainView {
        chain_of(*self)
    }
}

/// A node satisfies a simple selector: same tag, same id, every class, every attribute.
pub open spec fn simple_match(s: SimpleView, n: NodeView) -> bool {
    &&& (s.tag is Some ==> n.tag == s.tag->0)
    &&& (s.id is Some ==> n.attributes.contains_key(id_key()) && n.attributes[id_key()] == s.id->0)
    &&& forall|i: int| 0 <= i < s.classes.len() ==> has_class(n, #[trigger] s.classes[i])
    &&& forall|i: int|
        0 <= i < s.attributes.len() ==> {
            let a = #[trigger] s.attributes[i];
            &&& n.attributes.contains_key(a.0)
            &&& (a.1 is Some ==> n.attributes[a.0] == a.1->0)
        }
}

/// Link `k` of `c`, and the links left of it, match among the first `n` nodes of
/// `stack`. Without `desc` link `k` must match the `n`-th node; with it, any of the
/// first `n` nodes may serve, and each is tried, nearest first, until the rest of the
/// chain matches too.
pub open spec fn chain_match(c: ChainView, k: int, stack: Seq<NodeView>, n: int, desc: bool) -> bool
    decreases c.links.len() - k, n,
{
    if k < 0 || k >= c.links.len() || n <= 0 || n > stack.len() {
        false
    } else {
        let here = simple_match(c.links[k], stack[n - 1]) && (k + 1 >= c.links.len() || chain_match(
            c,
            k + 1,
            stack,
            n - 1,
            c.combinators[k] == Combinator::Descendant,
        ));
        here || (desc && chain_match(c, k, stack, n - 1, desc))
    }
}

/// The chain without its first link.
pub open spec fn chain_tail(c: ChainView) -> ChainView {
    ChainView { links: c.links.skip(1), combinators: c.combinators.skip(1) }
}

pub open spec fn stack_view(stack: Seq<ParsedNode>) -> Seq<NodeView> {
    stack.map_values(|p: ParsedNode| p@)
}

/// The chain matches the stack: its rightmost link the last node, and so on leftward.
pub open spec fn chain_matches(c: ChainView, stack: Seq<NodeView>) -> bool {
    chain_match(c, 0, stack, stack.len() as int, false)
}

/// Some selector of the group matches the stack.
pub open spec fn group_matches(g: Seq<ChainView>, stack: Seq<NodeView>) -> bool {
    exists|i: int| 0 <= i < g.len() && chain_matches(#[trigger] g[i], stack)
}

pub open spec fn group_view(g: Seq<Selector>) -> Seq<ChainView> {
    g.map_values(|s: Selector| s@)
}

proof fn lemma_chain_wf(s: Selector)
    ensures
        chain_wf(chain_of(s)),
    decreases s,
{
    if let Some((p, c)) = s.parent {
        lemma_chain_wf(*p);
    }
}

/// Whether `v` holds a string equal to `t`.
pub(crate) fn contains_string(v: &Vec<String>, t: &String) -> (r: bool)
    ensures
        r == exists|j: int| 0 <= j < v@.len() && #[trigger] v@[j]@ == t@,
{
    let mut i: usize = 0;
    while i < v.len()
        invariant
            i <= v@.len(),
            forall|j: int| 0 <= j < i ==> #[trigger] v@[j]@ != t@,
        decreases v@.len() - i,
    {
        if v[i] == *t {
            return true;
        }
        i += 1;
    }
    false
}

impl Selector {
    /// Whether `node` satisfies this selector's own tag, id, classes and attributes,
    /// leaving the parent aside.
    pub fn match_simple(&self, node: &ParsedNode) -> (r: bool)
        ensures
            r == simple_match(simple_of(*self), node@),
    {
        let ghost s = simple_of(*self);
        if let Some(tag) = &self.tag {
            if node.tag != *tag {
                return false;
            }
        }
        if let Some(id) = &self.id {
            let key = String::from_str("id");
            proof {
                reveal_strlit("id");
                assert(key@ == id_key());
            }
            match node.get_attr(&key) {
                Some(v) => {
                    if *v != *id {
                        return false;
                    }
                },
                None => {
                    return false;
                },
            }
        }
        let class_list = node.class_list();
        let mut i: usize = 0;
        while i < self.classes.len()
            invariant
                i <= self.classes@.len(),
                s == simple_of(*self),
                forall|j: int| 0 <= j < i ==> has_class(node@, #[trigger] s.classes[j]),
                forall|t: Seq<char>| (exists|j: int| 0 <= j < class_list@.len() && #[trigger] class_list@[j]@ == t) <==> has_class(node@, t),
            decreases self.classes@.len() - i,
        {
            if !contains_string(&class_list, &self.classes[i]) {
                assert(!has_class(node@, s.classes[i as int]));
                return false;
            }
            i += 1;
        }
        let mut i: usize = 0;
        while i < self.attributes.len()
            invariant
                i <= self.attributes@.len(),
                s == simple_of(*self),
                forall|j: int| 0 <= j < i ==> {
                    let a = #[trigger] s.attributes[j];
                    &&& node@.attributes.contains_key(a.0)
                    &&& (a.1 is Some ==> node@.attributes[a.0] == a.1->0)
                },
            decreases self.attributes@.len() - i,
        {
            let (name, val) = &self.attributes[i];
            assert(s.attributes[i as int] == (name@, opt_view(*val)));
            match node.get_attr(name) {
                Some(v) => {
                    if let Some(want) = val {
                        if *v != *want {
                            return false;
                        }
                    }
                },
                None => {
                    return false;
                },
            }
            i += 1;
        }
        true
    }

    /// Whether the selector matches `stack`, whose last node is the current one and
    /// whose first is the root.
    pub fn match_node(&self, stack: &[ParsedNode]) -> (r: bool)
        ensures
            r == chain_matches(self@, stack_view(stack@)),
    {
        match_from(self, stack, stack.len(), false)
    }
}

/// Reading link `k` of a chain is reading link `k - 1` of its tail.
proof fn lemma_chain_tail(c: ChainView, k: int, stack: Seq<NodeView>, n: int, desc: bool)
    requires
        chain_wf(c),
        1 <= k,
    ensures
        chain_match(c, k, stack, n, desc) == chain_match(chain_tail(c), k - 1, stack, n, desc),
    decreases c.links.len() - k, n,
{
    let t = chain_tail(c);
    if k < c.links.len() && 0 < n <= stack.len() {
        assert(t.links[k - 1] == c.links[k]);
        if k + 1 < c.links.len() {
            assert(t.combinators[k - 1] == c.combinators[k]);
            lemma_chain_tail(c, k + 1, stack, n - 1, c.combinators[k] == Combinator::Descendant);
        }
        lemma_chain_tail(c, k, stack, n - 1, desc);
    }
}

/// Whether `cur` matches among the first `n` nodes of `stack`: the `n`-th one, or
/// with `desc` any of them, the rest of the chain matching below it.
fn match_from(cur: &Selector, stack: &[ParsedNode], n: usize, desc: bool) -> (r: bool)
    requires
        n <= stack@.len(),
    ensures
        r == chain_match(cur@, 0, stack_view(stack@), n as int, desc),
    decreases cur@.links.len(), n,
{
    let ghost sv = stack_view(stack@);
    proof {
        lemma_chain_wf(*cur);
    }
    assert(cur@.links[0] == simple_of(*cur));
    let mut m: usize = n;
    while m > 0
        invariant
            m <= n <= stack@.len(),
            sv == stack_view(stack@),
            chain_wf(cur@),
            cur@.links[0] == simple_of(*cur),
            desc || m == n,
            chain_match(cur@, 0, sv, n as int, desc) == chain_match(cur@, 0, sv, m as int, desc),
        decreases m,
    {
        let here = cur.match_simple(&stack[m - 1]);
        if here {
            let rest = match &cur.parent {
                None => {
                    assert(cur@.links.len() == 1);
                    true
                },
                Some((p, comb)) => {
                    let ghost c = cur@;
                    assert(c.links == seq![simple_of(*cur)] + (**p)@.links);
                    assert(c.combinators == seq![*comb] + (**p)@.combinators);
                    assert(chain_tail(c).links =~= (**p)@.links);
                    assert(chain_tail(c).combinators =~= (**p)@.combinators);
                    proof {
                        lemma_chain_wf(**p);
                        lemma_chain_tail(c, 1, sv, m - 1, *comb == Combinator::Descendant);
                    }
                    match_from(&**p, stack, m - 1, *comb == Combinator::Descendant)
                },
            };
            if rest {
                return true;
            }
        }
        if !desc {
            return false;
        }
        m -= 1;
    }
    false
}

impl CommaSeparated<Selector> {
    /// Whether any selector of the group matches `stack`.
    pub fn match_node(&self, stack: &[ParsedNode]) -> (r: bool)
        ensures
            r == group_matches(group_view(self.0@), stack_view(stack@)),
    {
        let mut i: usize = 0;
        while i < self.0.len()
            invariant
                i <= self.0@.len(),
                forall|j: int| 0 <= j < i ==> !chain_matches(#[trigger] group_view(self.0@)[j], stack_view(stack@)),
            decreases self.0@.len() - i,
        {
            if self.0[i].match_node(stack) {
                assert(group_view(self.0@)[i as int] == self.0@[i as int]@);
                return true;
            }
            i += 1;
        }
        false
    }
}

} // verus!
