//! The element model: one parsed tag occurrence, with its attributes.
use vstd::prelude::*;

use crate::text::chars_of;
use crate::text::string_of;

verus! {

/// A pair of strings: an attribute's name and its value.
#[derive(Debug, Default, Clone, PartialEq)]
pub struct Attr {
    pub name: String,
    pub value: String,
}

impl Attr {
    /// An attribute with an empty name and an empty value.
    pub fn new() -> (r: Attr)
        ensures
            r.name@ == Seq::<char>::empty(),
            r.value@ == Seq::<char>::empty(),
    {
        Attr { name: String::new(), value: String::new() }
    }
}

/// One element occurrence: its tag and its attributes.
///
/// Where two entries of `attributes` share a name, the later one counts.
#[derive(Debug, Default, Clone, PartialEq)]
pub struct ParsedNode {
    pub tag: String,
    pub attributes: Vec<Attr>,
}

/// What a node means: its tag and the mapping from attribute names to values.
pub struct NodeView {
    pub tag: Seq<char>,
    pub attributes: Map<Seq<char>, Seq<char>>,
}

/// The mapping that a list of attributes stands for, the later entry winning.
pub open spec fn attr_map(attrs: Seq<Attr>) -> Map<Seq<char>, Seq<char>>
    decreases attrs.len(),
{
    if attrs.len() == 0 {
        Map::empty()
    } else {
        attr_map(attrs.drop_last()).insert(attrs.last().name@, attrs.last().value@)
    }
}

/// No two attributes share a name.
pub open spec fn names_unique(attrs: Seq<Attr>) -> bool {
    forall|i: int, j: int|
        0 <= i < attrs.len() && 0 <= j < attrs.len() && i != j ==> attrs[i].name@ != attrs[j].name@
}

/// `t` stands between `s[a]` and `s[b]`, bounded by single spaces or by the ends of `s`.
pub open spec fn token_at(s: Seq<char>, a: int, b: int) -> bool {
    &&& 0 <= a <= b <= s.len()
    &&& (a == 0 || s[a - 1] == ' ')
    &&& (b == s.len() || s[b] == ' ')
    &&& forall|k: int| a <= k < b ==> s[k] != ' '
}

/// `t` is one of the pieces of `s` split on single spaces.
pub open spec fn is_token(s: Seq<char>, t: Seq<char>) -> bool {
    exists|a: int, b: int| #[trigger] token_at(s, a, b) && s.subrange(a, b) == t
}

pub open spec fn class_key() -> Seq<char> {
    seq!['c', 'l', 'a', 's', 's']
}

pub open spec fn id_key() -> Seq<char> {
    seq!['i', 'd']
}

/// `t` is in the class list of a node: its `class` value split on single spaces.
/// A missing or empty `class` value gives no class.
pub open spec fn has_class(n: NodeView, t: Seq<char>) -> bool {
    &&& n.attributes.contains_key(class_key())
    &&& n.attributes[class_key()].len() > 0
    &&& is_token(n.attributes[class_key()], t)
}

impl View for ParsedNode {
    type V = NodeView;

    open spec fn view(&self) -> NodeView {
        NodeView { tag: self.tag@, attributes: attr_map(self.attributes@) }
    }
}

/// The entry at `i` is the last one named `k`, so its value is what `k` maps to.
proof fn lemma_attr_map_last(attrs: Seq<Attr>, i: int)
    requires
        0 <= i < attrs.len(),
        forall|j: int| i < j < attrs.len() ==> attrs[j].name@ != attrs[i].name@,
    ensures
        attr_map(attrs).contains_key(attrs[i].name@),
        attr_map(attrs)[attrs[i].name@] == attrs[i].value@,
    decreases attrs.len(),
{
    if i < attrs.len() - 1 {
        lemma_attr_map_last(attrs.drop_last(), i);
    }
}

/// A name that no entry has is not in the mapping.
proof fn lemma_attr_map_absent(attrs: Seq<Attr>, k: Seq<char>)
    requires
        forall|j: int| 0 <= j < attrs.len() ==> attrs[j].name@ != k,
    ensures
        !attr_map(attrs).contains_key(k),
    decreases attrs.len(),
{
    if attrs.len() > 0 {
        lemma_attr_map_absent(attrs.drop_last(), k);
    }
}

/// Overwriting the value of the only entry named `a.name` updates the mapping.
proof fn lemma_attr_map_update(attrs: Seq<Attr>, i: int, a: Attr)
    requires
        0 <= i < attrs.len(),
        names_unique(attrs),
        attrs[i].name@ == a.name@,
    ensures
        attr_map(attrs.update(i, a)) == attr_map(attrs).insert(a.name@, a.value@),
    decreases attrs.len(),
{
    let u = attrs.update(i, a);
    if i == attrs.len() - 1 {
        assert(u.drop_last() == attrs.drop_last());
    } else {
        assert(u.drop_last() == attrs.drop_last().update(i, a));
        lemma_attr_map_update(attrs.drop_last(), i, a);
        assert(attrs.last().name@ != a.name@);
        assert(attr_map(u) =~= attr_map(attrs).insert(a.name@, a.value@));
    }
}

impl ParsedNode {
    /// The value of attribute `name`, if the node has one.
    pub fn get_attr(&self, name: &String) -> (r: Option<&String>)
        ensures
            r is Some <==> self@.attributes.contains_key(name@),
            r is Some ==> r->0@ == self@.attributes[name@],
    {
        let mut i: usize = self.attributes.len();
        while i > 0
            invariant
                i <= self.attributes@.len(),
                forall|j: int| i <= j < self.attributes@.len() ==> self.attributes@[j].name@ != name@,
            decreases i,
        {
            i -= 1;
            if self.attributes[i].name == *name {
                proof {
                    lemma_attr_map_last(self.attributes@, i as int);
                }
                return Some(&self.attributes[i].value);
            }
        }
        proof {
            lemma_attr_map_absent(self.attributes@, name@);
        }
        None
    }

    /// Whether the node has an attribute `name`, whatever its value.
    pub fn has_attr(&self, name: &String) -> (r: bool)
        ensures
            r == self@.attributes.contains_key(name@),
    {
        self.get_attr(name).is_some()
    }

    /// Sets attribute `name` to `value`, replacing an earlier value.
    pub fn set_attr(&mut self, name: String, value: String)
        requires
            names_unique(old(self).attributes@),
        ensures
            names_unique(final(self).attributes@),
            final(self)@.tag == old(self)@.tag,
            final(self)@.attributes == old(self)@.attributes.insert(name@, value@),
    {
        let ghost k = name@;
        let mut i: usize = 0;
        while i < self.attributes.len()
            invariant
                i <= self.attributes@.len(),
                self == old(self),
                name@ == k,
                names_unique(self.attributes@),
                forall|j: int| 0 <= j < i ==> self.attributes@[j].name@ != k,
            decreases self.attributes@.len() - i,
        {
            let same = self.attributes[i].name == name;
            assert(same == (self.attributes@[i as int].name@ == name@));
            if same {
                let a = Attr { name, value };
                proof {
                    lemma_attr_map_update(self.attributes@, i as int, a);
                }
                self.attributes.set(i, a);
                return;
            }
            assert(self.attributes@[i as int].name@ != k);
            i += 1;
        }
        let a = Attr { name, value };
        self.attributes.push(a);
        proof {
            assert(self.attributes@.drop_last() == old(self).attributes@);
        }
    }

    /// The node's class list: its `class` value split on single spaces,
    /// empty where the node has no `class` attribute or an empty one.
    pub fn class_list(&self) -> (r: Vec<String>)
        ensures
            forall|t: Seq<char>| (exists|j: int| 0 <= j < r@.len() && #[trigger] r@[j]@ == t) <==> has_class(self@, t),
            !self@.attributes.contains_key(class_key()) || self@.attributes[class_key()].len() == 0 ==> r@.len()
                == 0,
    {
        let key = String::from_str("class");
        proof {
            reveal_strlit("class");
            assert(key@ == class_key());
        }
        match self.get_attr(&key) {
            Some(v) => {
                if v.as_str().is_empty() {
                    return Vec::new();
                }
                let cs = chars_of(v.as_str());
                split_spaces(&cs)
            },
            None => Vec::new(),
        }
    }
}

/// The pieces of `s` split on single spaces.
fn split_spaces(s: &Vec<char>) -> (r: Vec<String>)
    ensures
        forall|t: Seq<char>| (exists|j: int| 0 <= j < r@.len() && #[trigger] r@[j]@ == t) <==> is_token(s@, t),
{
    let n = s.len();
    let mut r: Vec<String> = Vec::new();
    let ghost mut bounds: Seq<(int, int)> = Seq::empty();
    let mut start: usize = 0;
    let mut i: usize = 0;
    while i < n
        invariant
            n == s@.len(),
            start <= i <= n,
            start == 0 || s@[start - 1] == ' ',
            forall|k: int| start <= k < i ==> s@[k] != ' ',
            bounds.len() == r@.len(),
            forall|j: int|
                0 <= j < r@.len() ==> token_at(s@, #[trigger] bounds[j].0, bounds[j].1) && bounds[j].1
                    < start && r@[j]@ == s@.subrange(bounds[j].0, bounds[j].1),
            forall|a: int, b: int|
                #[trigger] token_at(s@, a, b) && b < start ==> exists|j: int|
                    0 <= j < bounds.len() && bounds[j] == (a, b),
        decreases n - i,
    {
        if s[i] == ' ' {
            assert(token_at(s@, start as int, i as int));
            let piece = string_of(s, start, i);
            let ghost old_r = r@;
            let ghost pv = piece@;
            r.push(piece);
            proof {
                let old_bounds = bounds;
                bounds = bounds.push((start as int, i as int));
                assert forall|j: int| 0 <= j < r@.len() implies token_at(s@, #[trigger] bounds[j].0, bounds[j].1)
                    && bounds[j].1 < i + 1 && r@[j]@ == s@.subrange(bounds[j].0, bounds[j].1) by {
                    if j < old_bounds.len() {
                        assert(bounds[j] == old_bounds[j]);
                        assert(r@[j] == old_r[j]);
                    } else {
                        assert(r@[j]@ == pv);
                    }
                }
                assert forall|a: int, b: int| #[trigger] token_at(s@, a, b) && b < i + 1 implies exists|j: int|
                    0 <= j < bounds.len() && bounds[j] == (a, b) by {
                    if b < start {
                        let j = choose|j: int| 0 <= j < old_bounds.len() && old_bounds[j] == (a, b);
                        assert(bounds[j] == (a, b));
                    } else {
                        assert(b == i);
                        if a < start {
                            assert(s@[start - 1] == ' ');
                        }
                        if a > start {
                            assert(s@[a - 1] == ' ');
                        }
                        assert(bounds[bounds.len() - 1] == (a, b));
                    }
                }
            }
            start = i + 1;
            assert forall|j: int| 0 <= j < r@.len() implies #[trigger] bounds[j].1 < start by {
                assert(token_at(s@, bounds[j].0, bounds[j].1));
            }
        }
        i += 1;
    }
    assert(token_at(s@, start as int, n as int));
    let piece = string_of(s, start, n);
    r.push(piece);
    proof {
        let old_bounds = bounds;
        bounds = bounds.push((start as int, n as int));
        assert forall|t: Seq<char>| (exists|j: int| 0 <= j < r@.len() && #[trigger] r@[j]@ == t) <==> is_token(s@, t) by {
            if exists|j: int| 0 <= j < r@.len() && #[trigger] r@[j]@ == t {
                let j = choose|j: int| 0 <= j < r@.len() && #[trigger] r@[j]@ == t;
                assert(token_at(s@, bounds[j].0, bounds[j].1));
            }
            if is_token(s@, t) {
                let (a, b) = choose|a: int, b: int| #[trigger] token_at(s@, a, b) && s@.subrange(a, b) == t;
                if b < start {
                    let j = choose|j: int| 0 <= j < old_bounds.len() && old_bounds[j] == (a, b);
                    assert(r@[j]@ == t);
                } else {
                    if b < n {
                        assert(s@[b] == ' ');
                    }
                    if a < start {
                        assert(s@[start - 1] == ' ');
                    }
                    if a > start {
                        assert(s@[a - 1] == ' ');
                    }
                    assert(r@[r@.len() - 1]@ == t);
                }
            }
        }
    }
    r
}

} // verus!
