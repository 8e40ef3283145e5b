//! Reading selectors from text.
//!
//! The grammar is given as an automaton that reads one character at a time:
//! `sel_step` says what each character does in each state, `sel_finish` what the
//! end of the text does, and `selector_spec` what a whole text reads as.
use vstd::prelude::*;

use crate::selector::{
    attrs_view, chain_of, contains_string, group_view, opt_view, simple_of, strings_view, ChainView, Combinator,
    CommaSeparated, Selector,
    SimpleView,
};
use crate::text::{is_punct, is_ws, punctuation, whitespace};

verus! {

/// Where the characters of a token go.
#[derive(Debug, Clone, Copy, PartialEq, Eq, Structural)]
pub enum PushTo {
    Tag,
    Id,
    Classes,
    AttrName,
}

/// Why a selector could not be read.
#[derive(Debug, Clone, Copy, PartialEq, Eq, Structural)]
pub enum SelectorParseError {
    /// A second tag in one simple selector.
    MultipleTags,
    /// A second `#id` in one simple selector.
    MultipleIDs,
    /// The same `.class` twice in one simple selector.
    DuplicateClass,
    /// The same attribute name twice in one simple selector.
    DuplicateAttr,
    /// An id, class or attribute name with no characters: `tag#`, `tag.`, `[]`, `[=v]`.
    EmptyToken,
    /// A punctuation character that starts no token: anything but `#`, `.`, `[`, `>`, `-`, `_`.
    UnknownPrefix,
    /// A quoted attribute value with no closing quote.
    UnclosedString,
    /// A `[` with no closing `]`.
    UnclosedBracket,
    /// A combinator with no selector on one of its sides.
    NoOtherSideCombinator,
    /// A character where it may not stand: `==`, `]]`, `[a=]`, `.c=`, text after a quoted value.
    BadChar,
    /// Whitespace where it may not stand: at the start of the text.
    WhiteSpace,
    /// The empty text.
    EmptyString,
}

/// The state of the automaton between two characters.
#[derive(Debug, Clone, Copy, PartialEq, Eq, Structural)]
pub enum Reading {
    /// Reading a token of the current simple selector.
    Token(PushTo),
    /// After `[name=`, before the value.
    ValueStart,
    /// Inside a value opened by the quote character.
    Quoted(char),
    /// After the closing quote of a value, before `]`.
    QuoteClosed,
    /// Inside an unquoted value.
    Bare,
    /// After whitespace that ended an unquoted value, before `]`.
    BareEnded,
    /// Between two simple selectors, the combinator read so far.
    Between(Combinator),
}

/// The automaton's state: where it reads, the chain built so far (its current simple
/// selector first), the token being read and the attribute value being read.
pub struct ParseState {
    pub mode: Reading,
    pub chain: ChainView,
    pub buf: Seq<char>,
    pub val: Seq<char>,
}

pub open spec fn push_to_of(c: char) -> PushTo {
    if c == '#' {
        PushTo::Id
    } else if c == '.' {
        PushTo::Classes
    } else if c == '[' {
        PushTo::AttrName
    } else {
        PushTo::Tag
    }
}

impl PushTo {
    /// The token that a character starts: `#` an id, `.` a class, `[` an attribute,
    /// anything else a tag.
    pub fn new(c: char) -> (r: PushTo)
        ensures
            r == push_to_of(c),
    {
        if c == '#' {
            PushTo::Id
        } else if c == '.' {
            PushTo::Classes
        } else if c == '[' {
            PushTo::AttrName
        } else {
            PushTo::Tag
        }
    }
}

pub open spec fn empty_simple() -> SimpleView {
    SimpleView { tag: None, id: None, classes: seq![], attributes: seq![] }
}

pub open spec fn with_first(c: ChainView, s: SimpleView) -> ChainView {
    ChainView { links: c.links.update(0, s), combinators: c.combinators }
}

/// Stores a finished token in the current simple selector.
pub open spec fn push_token(to: PushTo, c: ChainView, buf: Seq<char>) -> Result<ChainView, SelectorParseError> {
    let s = c.links[0];
    match to {
        PushTo::Tag => if buf.len() == 0 {
            Ok(c)
        } else if s.tag is Some {
            Err(SelectorParseError::MultipleTags)
        } else {
            Ok(with_first(c, SimpleView { tag: Some(buf), ..s }))
        },
        PushTo::Id => if s.id is Some {
            Err(SelectorParseError::MultipleIDs)
        } else if buf.len() == 0 {
            Err(SelectorParseError::EmptyToken)
        } else {
            Ok(with_first(c, SimpleView { id: Some(buf), ..s }))
        },
        PushTo::Classes => if buf.len() == 0 {
            Err(SelectorParseError::EmptyToken)
        } else if s.classes.contains(buf) {
            Err(SelectorParseError::DuplicateClass)
        } else {
            Ok(with_first(c, SimpleView { classes: s.classes.push(buf), ..s }))
        },
        PushTo::AttrName => Err(SelectorParseError::UnclosedBracket),
    }
}

/// Adds an attribute requirement to the current simple selector.
pub open spec fn push_attr(c: ChainView, name: Seq<char>, val: Option<Seq<char>>) -> Result<ChainView, SelectorParseError> {
    let s = c.links[0];
    if exists|i: int| 0 <= i < s.attributes.len() && (#[trigger] s.attributes[i]).0 == name {
        Err(SelectorParseError::DuplicateAttr)
    } else {
        Ok(with_first(c, SimpleView { attributes: s.attributes.push((name, val)), ..s }))
    }
}

/// Ends a value: the attribute is stored and a new token starts.
pub open spec fn close_value(st: ParseState) -> Result<ParseState, SelectorParseError> {
    match push_attr(st.chain, st.buf, Some(st.val)) {
        Ok(c) => Ok(ParseState { mode: Reading::Token(PushTo::Tag), chain: c, buf: seq![], val: seq![] }),
        Err(e) => Err(e),
    }
}

pub open spec fn is_empty_simple(s: SimpleView) -> bool {
    s.tag is None && s.id is None && s.classes.len() == 0 && s.attributes.len() == 0
}

/// What character `ch` does while a token of kind `to` is read.
pub open spec fn token_step(st: ParseState, to: PushTo, ch: char) -> Result<ParseState, SelectorParseError> {
    if ch == '#' || ch == '.' || ch == '[' {
        match push_token(to, st.chain, st.buf) {
            Ok(c) => Ok(ParseState { mode: Reading::Token(push_to_of(ch)), chain: c, buf: seq![], val: seq![] }),
            Err(e) => Err(e),
        }
    } else if ch == '=' {
        if to != PushTo::AttrName {
            Err(SelectorParseError::BadChar)
        } else if st.buf.len() == 0 {
            Err(SelectorParseError::EmptyToken)
        } else {
            Ok(ParseState { mode: Reading::ValueStart, val: seq![], ..st })
        }
    } else if ch == ']' {
        if to != PushTo::AttrName {
            Err(SelectorParseError::BadChar)
        } else if st.buf.len() == 0 {
            Err(SelectorParseError::EmptyToken)
        } else {
            match push_attr(st.chain, st.buf, None) {
                Ok(c) => Ok(ParseState { mode: Reading::Token(PushTo::Tag), chain: c, buf: seq![], val: seq![] }),
                Err(e) => Err(e),
            }
        }
    } else if is_ws(ch) {
        if to == PushTo::AttrName {
            Ok(st)
        } else {
            match push_token(to, st.chain, st.buf) {
                Ok(c) => Ok(ParseState { mode: Reading::Between(Combinator::Descendant), chain: c, buf: seq![], val: seq![] }),
                Err(e) => Err(e),
            }
        }
    } else if ch == '>' && to != PushTo::AttrName {
        match push_token(to, st.chain, st.buf) {
            Ok(c) => if is_empty_simple(c.links[0]) {
                Err(SelectorParseError::NoOtherSideCombinator)
            } else {
                Ok(ParseState { mode: Reading::Between(Combinator::Child), chain: c, buf: seq![], val: seq![] })
            },
            Err(e) => Err(e),
        }
    } else if is_punct(ch) && ch != '-' && ch != '_' {
        Err(SelectorParseError::UnknownPrefix)
    } else {
        Ok(ParseState { buf: st.buf.push(ch), ..st })
    }
}

/// What character `ch` does in state `st`.
pub open spec fn sel_step(st: ParseState, ch: char) -> Result<ParseState, SelectorParseError> {
    match st.mode {
        Reading::Token(to) => token_step(st, to, ch),
        Reading::ValueStart => if is_ws(ch) {
            Ok(st)
        } else if ch == '"' || ch == '\'' {
            Ok(ParseState { mode: Reading::Quoted(ch), val: seq![], ..st })
        } else if ch == ']' || ch == '=' {
            Err(SelectorParseError::BadChar)
        } else {
            Ok(ParseState { mode: Reading::Bare, val: seq![ch], ..st })
        },
        Reading::Quoted(q) => if ch == q {
            Ok(ParseState { mode: Reading::QuoteClosed, ..st })
        } else {
            Ok(ParseState { val: st.val.push(ch), ..st })
        },
        Reading::QuoteClosed => if ch == ']' {
            close_value(st)
        } else if is_ws(ch) {
            Ok(st)
        } else {
            Err(SelectorParseError::BadChar)
        },
        Reading::Bare => if ch == ']' {
            close_value(st)
        } else if is_ws(ch) {
            Ok(ParseState { mode: Reading::BareEnded, ..st })
        } else {
            Ok(ParseState { val: st.val.push(ch), ..st })
        },
        Reading::BareEnded => if ch == ']' {
            close_value(st)
        } else if is_ws(ch) {
            Ok(st)
        } else {
            Err(SelectorParseError::BadChar)
        },
        Reading::Between(k) => if ch == '>' {
            if k == Combinator::Descendant {
                Ok(ParseState { mode: Reading::Between(Combinator::Child), ..st })
            } else {
                Err(SelectorParseError::UnknownPrefix)
            }
        } else if is_ws(ch) {
            Ok(st)
        } else {
            let c = ChainView {
                links: seq![empty_simple()] + st.chain.links,
                combinators: seq![k] + st.chain.combinators,
            };
            token_step(ParseState { mode: Reading::Token(PushTo::Tag), chain: c, buf: seq![], val: seq![] }, PushTo::Tag, ch)
        },
    }
}

pub open spec fn sel_start() -> ParseState {
    ParseState {
        mode: Reading::Token(PushTo::Tag),
        chain: ChainView { links: seq![empty_simple()], combinators: seq![] },
        buf: seq![],
        val: seq![],
    }
}

/// The state after reading `s` from the start, or the first error met.
pub open spec fn sel_run(s: Seq<char>) -> Result<ParseState, SelectorParseError>
    decreases s.len(),
{
    if s.len() == 0 {
        Ok(sel_start())
    } else {
        match sel_run(s.drop_last()) {
            Ok(st) => sel_step(st, s.last()),
            Err(e) => Err(e),
        }
    }
}

/// What the end of the text does in state `st`.
pub open spec fn sel_finish(st: ParseState) -> Result<ChainView, SelectorParseError> {
    match st.mode {
        Reading::Token(to) => push_token(to, st.chain, st.buf),
        Reading::Quoted(_) => Err(SelectorParseError::UnclosedString),
        Reading::Between(_) => Err(SelectorParseError::NoOtherSideCombinator),
        _ => Err(SelectorParseError::UnclosedBracket),
    }
}

/// What a whole text reads as.
pub open spec fn selector_spec(s: Seq<char>) -> Result<ChainView, SelectorParseError> {
    if s.len() == 0 {
        Err(SelectorParseError::EmptyString)
    } else if is_ws(s[0]) {
        Err(SelectorParseError::WhiteSpace)
    } else {
        match sel_run(s) {
            Ok(st) => sel_finish(st),
            Err(e) => Err(e),
        }
    }
}

} // verus!

verus! {

/// The automaton's state in executable form.
struct Parser {
    mode: Reading,
    current: Selector,
    buf: String,
    val: String,
}

impl View for Parser {
    type V = ParseState;

    closed spec fn view(&self) -> ParseState {
        ParseState { mode: self.mode, chain: self.current@, buf: self.buf@, val: self.val@ }
    }
}

/// A selector that differs from `old` only in its own tokens.
proof fn lemma_with_first(old: Selector, new: Selector)
    requires
        new.parent == old.parent,
    ensures
        new@ == with_first(old@, simple_of(new)),
{
    let w = with_first(old@, simple_of(new));
    match new.parent {
        None => {
            assert(new@.links =~= w.links);
        },
        Some((p, c)) => {
            assert(new@.links =~= w.links);
            assert(new@.combinators =~= w.combinators);
        },
    }
}

/// The outcome `r` of an executable step agrees with the outcome `s` of the spec.
pub open spec fn agrees<T: View>(r: Result<T, SelectorParseError>, s: Result<T::V, SelectorParseError>) -> bool {
    match s {
        Ok(v) => match r {
            Ok(x) => x@ == v,
            Err(_) => false,
        },
        Err(e) => r == Err::<T, SelectorParseError>(e),
    }
}

fn push_token_exec(to: PushTo, sel: Selector, buf: String) -> (r: Result<Selector, SelectorParseError>)
    ensures
        agrees(r, push_token(to, sel@, buf@)),
{
    let mut sel = sel;
    let ghost old_sel = sel;
    assert(sel@.links[0] == simple_of(sel));
    match to {
        PushTo::Tag => {
            if buf.as_str().is_empty() {
                assert(buf@.len() == 0);
                return Ok(sel);
            }
            assert(buf@.len() != 0);
            if sel.tag.is_some() {
                return Err(SelectorParseError::MultipleTags);
            }
            sel.tag = Some(buf);
        },
        PushTo::Id => {
            if sel.id.is_some() {
                return Err(SelectorParseError::MultipleIDs);
            }
            if buf.as_str().is_empty() {
                assert(buf@.len() == 0);
                return Err(SelectorParseError::EmptyToken);
            }
            assert(buf@.len() != 0);
            sel.id = Some(buf);
        },
        PushTo::Classes => {
            if buf.as_str().is_empty() {
                assert(buf@.len() == 0);
                return Err(SelectorParseError::EmptyToken);
            }
            assert(buf@.len() != 0);
            let dup = contains_string(&sel.classes, &buf);
            proof {
                let sv = strings_view(sel.classes@);
                if dup {
                    let j = choose|j: int| 0 <= j < sel.classes@.len() && #[trigger] sel.classes@[j]@ == buf@;
                    assert(sv[j] == buf@);
                } else {
                    assert forall|j: int| 0 <= j < sv.len() implies sv[j] != buf@ by {
                        assert(sel.classes@[j]@ != buf@);
                    }
                }
            }
            if dup {
                return Err(SelectorParseError::DuplicateClass);
            }
            let ghost bv = buf@;
            sel.classes.push(buf);
            assert(strings_view(sel.classes@) =~= strings_view(old_sel.classes@).push(bv));
        },
        PushTo::AttrName => {
            return Err(SelectorParseError::UnclosedBracket);
        },
    }
    proof {
        lemma_with_first(old_sel, sel);
    }
    Ok(sel)
}

fn names_attr(attrs: &Vec<(String, Option<String>)>, name: &String) -> (r: bool)
    ensures
        r == exists|j: int| 0 <= j < attrs@.len() && (#[trigger] attrs_view(attrs@)[j]).0 == name@,
{
    let mut i: usize = 0;
    while i < attrs.len()
        invariant
            i <= attrs@.len(),
            forall|j: int| 0 <= j < i ==> (#[trigger] attrs_view(attrs@)[j]).0 != name@,
        decreases attrs@.len() - i,
    {
        if attrs[i].0 == *name {
            assert(attrs_view(attrs@)[i as int].0 == name@);
            return true;
        }
        assert(attrs_view(attrs@)[i as int].0 != name@);
        i += 1;
    }
    false
}

fn push_attr_exec(sel: Selector, name: String, val: Option<String>) -> (r: Result<Selector, SelectorParseError>)
    ensures
        agrees(r, push_attr(sel@, name@, opt_view(val))),
{
    let ghost old_sel = sel;
    let mut sel = sel;
    assert(sel@.links[0] == simple_of(sel));
    if names_attr(&sel.attributes, &name) {
        return Err(SelectorParseError::DuplicateAttr);
    }
    let ghost nv = (name@, opt_view(val));
    sel.attributes.push((name, val));
    assert(attrs_view(sel.attributes@) =~= attrs_view(old_sel.attributes@).push(nv));
    proof {
        lemma_with_first(old_sel, sel);
    }
    Ok(sel)
}

impl Parser {
    fn start() -> (r: Parser)
        ensures
            r@ == sel_start(),
    {
        let current = Selector {
            tag: None,
            id: None,
            classes: Vec::new(),
            attributes: Vec::new(),
            parent: None,
        };
        assert(simple_of(current) == empty_simple()) by {
            assert(strings_view(current.classes@) =~= seq![]);
            assert(attrs_view(current.attributes@) =~= seq![]);
        }
        Parser { mode: Reading::Token(PushTo::Tag), current, buf: String::new(), val: String::new() }
    }

    fn close_value(self) -> (r: Result<Parser, SelectorParseError>)
        ensures
            agrees(r, close_value(self@)),
    {
        let Parser { mode: _, current, buf, val } = self;
        match push_attr_exec(current, buf, Some(val)) {
            Ok(c) => Ok(Parser { mode: Reading::Token(PushTo::Tag), current: c, buf: String::new(), val: String::new() }),
            Err(e) => Err(e),
        }
    }

    fn token_step(self, to: PushTo, ch: char) -> (r: Result<Parser, SelectorParseError>)
        ensures
            agrees(r, token_step(self@, to, ch)),
    {
        let Parser { mode, current, mut buf, val } = self;
        if ch == '#' || ch == '.' || ch == '[' {
            match push_token_exec(to, current, buf) {
                Ok(c) => Ok(Parser { mode: Reading::Token(PushTo::new(ch)), current: c, buf: String::new(), val: String::new() }),
                Err(e) => Err(e),
            }
        } else if ch == '=' {
            if to != PushTo::AttrName {
                Err(SelectorParseError::BadChar)
            } else if buf.as_str().is_empty() {
                assert(buf@.len() == 0);
                Err(SelectorParseError::EmptyToken)
            } else {
                assert(buf@.len() != 0);
                Ok(Parser { mode: Reading::ValueStart, current, buf, val: String::new() })
            }
        } else if ch == ']' {
            if to != PushTo::AttrName {
                Err(SelectorParseError::BadChar)
            } else if buf.as_str().is_empty() {
                assert(buf@.len() == 0);
                Err(SelectorParseError::EmptyToken)
            } else {
                assert(buf@.len() != 0);
                match push_attr_exec(current, buf, None) {
                    Ok(c) => Ok(Parser { mode: Reading::Token(PushTo::Tag), current: c, buf: String::new(), val: String::new() }),
                    Err(e) => Err(e),
                }
            }
        } else if whitespace(ch) {
            if to == PushTo::AttrName {
                Ok(Parser { mode, current, buf, val })
            } else {
                match push_token_exec(to, current, buf) {
                    Ok(c) => Ok(Parser { mode: Reading::Between(Combinator::Descendant), current: c, buf: String::new(), val: String::new() }),
                    Err(e) => Err(e),
                }
            }
        } else if ch == '>' && to != PushTo::AttrName {
            match push_token_exec(to, current, buf) {
                Ok(c) => {
                    assert(c@.links[0] == simple_of(c));
                    if c.tag.is_none() && c.id.is_none() && c.classes.len() == 0 && c.attributes.len() == 0 {
                        Err(SelectorParseError::NoOtherSideCombinator)
                    } else {
                        Ok(Parser { mode: Reading::Between(Combinator::Child), current: c, buf: String::new(), val: String::new() })
                    }
                },
                Err(e) => Err(e),
            }
        } else if punctuation(ch) && ch != '-' && ch != '_' {
            Err(SelectorParseError::UnknownPrefix)
        } else {
            buf.push(ch);
            Ok(Parser { mode, current, buf, val })
        }
    }

    fn step(self, ch: char) -> (r: Result<Parser, SelectorParseError>)
        ensures
            agrees(r, sel_step(self@, ch)),
    {
        match self.mode {
            Reading::Token(to) => self.token_step(to, ch),
            Reading::ValueStart => {
                if whitespace(ch) {
                    Ok(self)
                } else if ch == '"' || ch == '\'' {
                    Ok(Parser { mode: Reading::Quoted(ch), val: String::new(), ..self })
                } else if ch == ']' || ch == '=' {
                    Err(SelectorParseError::BadChar)
                } else {
                    let mut val = String::new();
                    val.push(ch);
                    assert(val@ =~= seq![ch]);
                    Ok(Parser { mode: Reading::Bare, val, ..self })
                }
            },
            Reading::Quoted(q) => {
                if ch == q {
                    Ok(Parser { mode: Reading::QuoteClosed, ..self })
                } else {
                    let mut p = self;
                    p.val.push(ch);
                    Ok(p)
                }
            },
            Reading::QuoteClosed => {
                if ch == ']' {
                    self.close_value()
                } else if whitespace(ch) {
                    Ok(self)
                } else {
                    Err(SelectorParseError::BadChar)
                }
            },
            Reading::Bare => {
                if ch == ']' {
                    self.close_value()
                } else if whitespace(ch) {
                    Ok(Parser { mode: Reading::BareEnded, ..self })
                } else {
                    let mut p = self;
                    p.val.push(ch);
                    Ok(p)
                }
            },
            Reading::BareEnded => {
                if ch == ']' {
                    self.close_value()
                } else if whitespace(ch) {
                    Ok(self)
                } else {
                    Err(SelectorParseError::BadChar)
                }
            },
            Reading::Between(k) => {
                if ch == '>' {
                    if k == Combinator::Descendant {
                        Ok(Parser { mode: Reading::Between(Combinator::Child), ..self })
                    } else {
                        Err(SelectorParseError::UnknownPrefix)
                    }
                } else if whitespace(ch) {
                    Ok(self)
                } else {
                    let current = Selector {
                        tag: None,
                        id: None,
                        classes: Vec::new(),
                        attributes: Vec::new(),
                        parent: Some((Box::new(self.current), k)),
                    };
                    assert(simple_of(current) == empty_simple()) by {
                        assert(strings_view(current.classes@) =~= seq![]);
                        assert(attrs_view(current.attributes@) =~= seq![]);
                    }
                    let p = Parser { mode: Reading::Token(PushTo::Tag), current, buf: String::new(), val: String::new() };
                    p.token_step(PushTo::Tag, ch)
                }
            },
        }
    }

    fn finish(self) -> (r: Result<Selector, SelectorParseError>)
        ensures
            agrees(r, sel_finish(self@)),
    {
        match self.mode {
            Reading::Token(to) => push_token_exec(to, self.current, self.buf),
            Reading::Quoted(_) => Err(SelectorParseError::UnclosedString),
            Reading::Between(_) => Err(SelectorParseError::NoOtherSideCombinator),
            _ => Err(SelectorParseError::UnclosedBracket),
        }
    }
}

/// Once the automaton has failed on a prefix, the whole text fails the same way.
proof fn lemma_run_err(s: Seq<char>, n: int)
    requires
        0 <= n <= s.len(),
        sel_run(s.take(n)) is Err,
    ensures
        sel_run(s) == sel_run(s.take(n)),
    decreases s.len(),
{
    if n < s.len() {
        assert(s.drop_last().take(n) == s.take(n));
        lemma_run_err(s.drop_last(), n);
    } else {
        assert(s.take(n) == s);
    }
}

/// Reads the selector written in `v[from..to]`.
pub fn parse_chars(v: &Vec<char>, from: usize, to: usize) -> (r: Result<Selector, SelectorParseError>)
    requires
        from <= to <= v@.len(),
    ensures
        agrees(r, selector_spec(v@.subrange(from as int, to as int))),
{
    let ghost s = v@.subrange(from as int, to as int);
    if from == to {
        return Err(SelectorParseError::EmptyString);
    }
    if whitespace(v[from]) {
        return Err(SelectorParseError::WhiteSpace);
    }
    let mut p = Parser::start();
    let mut i: usize = from;
    assert(s.take(0) =~= seq![]);
    while i < to
        invariant
            from <= i <= to <= v@.len(),
            from < to,
            !is_ws(v@[from as int]),
            s == v@.subrange(from as int, to as int),
            sel_run(s.take(i - from)) == Ok::<ParseState, SelectorParseError>(p@),
        decreases to - i,
    {
        assert(s.take(i - from + 1).drop_last() =~= s.take(i - from));
        assert(s.take(i - from + 1).last() == v@[i as int]);
        match p.step(v[i]) {
            Ok(q) => {
                p = q;
            },
            Err(e) => {
                proof {
                    assert(sel_run(s.take(i - from + 1)) == Err::<ParseState, SelectorParseError>(e));
                    lemma_run_err(s, i - from + 1);
                    assert(s[0] == v@[from as int]);
                    assert(sel_run(s) == Err::<ParseState, SelectorParseError>(e));
                    assert(s.len() > 0 && !is_ws(s[0]));
                    assert(selector_spec(s) == Err::<ChainView, SelectorParseError>(e));
                }
                return Err(e);
            },
        }
        i += 1;
    }
    assert(s.take(to - from) =~= s);
    p.finish()
}

impl Selector {
    /// Reads a selector from `s`; see `selector_spec` for the grammar.
    pub fn parse(s: &str) -> (r: Result<Selector, SelectorParseError>)
        ensures
            agrees(r, selector_spec(s@)),
    {
        let v = crate::text::chars_of(s);
        assert(v@.subrange(0, v@.len() as int) =~= s@);
        parse_chars(&v, 0, v.len())
    }
}

impl std::str::FromStr for Selector {
    type Err = SelectorParseError;

    fn from_str(s: &str) -> (r: Result<Selector, SelectorParseError>)
        ensures
            agrees(r, selector_spec(s@)),
    {
        Selector::parse(s)
    }
}

} // verus!

verus! {

/// The quote that is open after reading `s`, if any.
pub open spec fn open_quote(s: Seq<char>) -> Option<char>
    decreases s.len(),
{
    if s.len() == 0 {
        None
    } else {
        let c = s.last();
        match open_quote(s.drop_last()) {
            None => if c == '\'' || c == '"' {
                Some(c)
            } else {
                None
            },
            Some(q) => if c == q {
                None
            } else {
                Some(q)
            },
        }
    }
}

/// The pieces of `s` between commas that stand outside quotes.
pub open spec fn group_pieces(s: Seq<char>) -> Seq<Seq<char>>
    decreases s.len(),
{
    if s.len() == 0 {
        seq![seq![]]
    } else {
        let ps = group_pieces(s.drop_last());
        let c = s.last();
        if c == ',' && open_quote(s.drop_last()) is None {
            ps.push(seq![])
        } else {
            ps.update(ps.len() - 1, ps.last().push(c))
        }
    }
}

pub open spec fn trim_front(s: Seq<char>) -> Seq<char>
    decreases s.len(),
{
    if s.len() > 0 && is_ws(s[0]) {
        trim_front(s.drop_first())
    } else {
        s
    }
}

pub open spec fn trim_back(s: Seq<char>) -> Seq<char>
    decreases s.len(),
{
    if s.len() > 0 && is_ws(s.last()) {
        trim_back(s.drop_last())
    } else {
        s
    }
}

/// `s` without its leading and trailing whitespace.
pub open spec fn trim(s: Seq<char>) -> Seq<char> {
    trim_back(trim_front(s))
}

/// The chain with one link that asks nothing of a node.
pub open spec fn any_chain() -> ChainView {
    ChainView { links: seq![empty_simple()], combinators: seq![] }
}

/// One member of a group: `*` matches every node, anything else is a selector.
pub open spec fn member_spec(p: Seq<char>) -> Result<ChainView, SelectorParseError> {
    if p == seq!['*'] {
        Ok(any_chain())
    } else {
        selector_spec(p)
    }
}

/// The members read in order, or the first error met.
pub open spec fn members_spec(ps: Seq<Seq<char>>) -> Result<Seq<ChainView>, SelectorParseError>
    decreases ps.len(),
{
    if ps.len() == 0 {
        Ok(seq![])
    } else {
        match members_spec(ps.drop_last()) {
            Ok(cs) => match member_spec(trim(ps.last())) {
                Ok(c) => Ok(cs.push(c)),
                Err(e) => Err(e),
            },
            Err(e) => Err(e),
        }
    }
}

/// The pieces that are read as members: a last piece that is empty once trimmed
/// (after a trailing comma) is left out.
pub open spec fn group_members(s: Seq<char>) -> Seq<Seq<char>> {
    let ps = group_pieces(s);
    if trim(ps.last()).len() == 0 {
        ps.drop_last()
    } else {
        ps
    }
}

/// What a group text reads as: each member trimmed and read in order. A text with
/// no member at all (empty, or only whitespace) is the empty-string error.
pub open spec fn group_spec(s: Seq<char>) -> Result<Seq<ChainView>, SelectorParseError> {
    if group_members(s).len() == 0 {
        Err(SelectorParseError::EmptyString)
    } else {
        members_spec(group_members(s))
    }
}

proof fn lemma_pieces_nonempty(s: Seq<char>)
    ensures
        group_pieces(s).len() >= 1,
    decreases s.len(),
{
    if s.len() > 0 {
        lemma_pieces_nonempty(s.drop_last());
    }
}

proof fn lemma_trim_front_step(v: Seq<char>, a: int, b: int)
    requires
        0 <= a < b <= v.len(),
        is_ws(v[a]),
    ensures
        trim_front(v.subrange(a, b)) == trim_front(v.subrange(a + 1, b)),
{
    assert(v.subrange(a, b).drop_first() =~= v.subrange(a + 1, b));
}

proof fn lemma_trim_back_step(v: Seq<char>, a: int, b: int)
    requires
        0 <= a < b <= v.len(),
        is_ws(v[b - 1]),
    ensures
        trim_back(v.subrange(a, b)) == trim_back(v.subrange(a, b - 1)),
{
    assert(v.subrange(a, b).drop_last() =~= v.subrange(a, b - 1));
}

/// Reading more text leaves every piece but the last one unchanged.
proof fn lemma_pieces_prefix(s: Seq<char>, j: int)
    requires
        0 <= j <= s.len(),
    ensures
        group_pieces(s).len() >= group_pieces(s.take(j)).len(),
        group_pieces(s).take(group_pieces(s.take(j)).len() - 1) == group_pieces(s.take(j)).take(
            group_pieces(s.take(j)).len() - 1,
        ),
    decreases s.len(),
{
    lemma_pieces_nonempty(s.take(j));
    if j == s.len() {
        assert(s.take(j) == s);
    } else {
        assert(s.drop_last().take(j) == s.take(j));
        lemma_pieces_prefix(s.drop_last(), j);
        lemma_pieces_nonempty(s.drop_last());
        let ps = group_pieces(s.drop_last());
        let m = group_pieces(s.take(j)).len() - 1;
        assert(group_pieces(s).take(m) =~= ps.take(m));
    }
}

/// Once a member fails, the members after it do not change the outcome.
proof fn lemma_members_err(ps: Seq<Seq<char>>, m: int)
    requires
        0 <= m <= ps.len(),
        members_spec(ps.take(m)) is Err,
    ensures
        members_spec(ps) == members_spec(ps.take(m)),
    decreases ps.len(),
{
    if m < ps.len() {
        assert(ps.drop_last().take(m) == ps.take(m));
        lemma_members_err(ps.drop_last(), m);
    } else {
        assert(ps.take(m) == ps);
    }
}

/// The bounds of `v[from..to]` without its leading and trailing whitespace.
fn trim_range(v: &Vec<char>, from: usize, to: usize) -> (r: (usize, usize))
    requires
        from <= to <= v@.len(),
    ensures
        from <= r.0 <= r.1 <= to,
        v@.subrange(r.0 as int, r.1 as int) == trim(v@.subrange(from as int, to as int)),
{
    let mut a = from;
    while a < to && whitespace(v[a])
        invariant
            from <= a <= to <= v@.len(),
            trim_front(v@.subrange(from as int, to as int)) == trim_front(v@.subrange(a as int, to as int)),
        decreases to - a,
    {
        proof {
            lemma_trim_front_step(v@, a as int, to as int);
        }
        a += 1;
    }
    assert(trim_front(v@.subrange(a as int, to as int)) == v@.subrange(a as int, to as int));
    let mut b = to;
    while b > a && whitespace(v[b - 1])
        invariant
            from <= a <= b <= to <= v@.len(),
            trim_back(v@.subrange(a as int, to as int)) == trim_back(v@.subrange(a as int, b as int)),
        decreases b - a,
    {
        proof {
            lemma_trim_back_step(v@, a as int, b as int);
        }
        b -= 1;
    }
    (a, b)
}

/// Reads the member written in `v[from..to]`, already trimmed.
fn parse_member(v: &Vec<char>, from: usize, to: usize) -> (r: Result<Selector, SelectorParseError>)
    requires
        from <= to <= v@.len(),
    ensures
        agrees(r, member_spec(v@.subrange(from as int, to as int))),
{
    if to - from == 1 && v[from] == '*' {
        assert(v@.subrange(from as int, to as int) =~= seq!['*']);
        let any = Selector { tag: None, id: None, classes: Vec::new(), attributes: Vec::new(), parent: None };
        assert(any@.links =~= any_chain().links) by {
            assert(strings_view(any.classes@) =~= seq![]);
            assert(attrs_view(any.attributes@) =~= seq![]);
        }
        assert(any@.combinators =~= any_chain().combinators);
        return Ok(any);
    }
    assert(v@.subrange(from as int, to as int) != seq!['*']) by {
        if to - from == 1 {
            assert(v@.subrange(from as int, to as int)[0] == v@[from as int]);
        }
    }
    parse_chars(v, from, to)
}

pub open spec fn agrees_group(r: Result<CommaSeparated<Selector>, SelectorParseError>, s: Result<Seq<ChainView>, SelectorParseError>) -> bool {
    match s {
        Ok(cs) => match r {
            Ok(g) => group_view(g.0@) == cs,
            Err(_) => false,
        },
        Err(e) => r == Err::<CommaSeparated<Selector>, SelectorParseError>(e),
    }
}

impl CommaSeparated<Selector> {
    /// Reads a group of selectors separated by commas; commas inside quotes do not
    /// separate, and one trailing comma is allowed. See `group_spec`.
    pub fn parse(s: &str) -> (r: Result<CommaSeparated<Selector>, SelectorParseError>)
        ensures
            agrees_group(r, group_spec(s@)),
    {
        let v = crate::text::chars_of(s);
        let n = v.len();
        let mut out: Vec<Selector> = Vec::new();
        let mut quote: Option<char> = None;
        let mut start: usize = 0;
        let mut i: usize = 0;
        let ghost mut done: Seq<Seq<char>> = seq![];
        assert(v@.take(0) =~= seq![]);
        assert(done.push(v@.subrange(0, 0)) =~= seq![seq![]]);
        assert(group_view(out@) =~= seq![]);
        while i < n
            invariant
                n == v@.len(),
                v@ == s@,
                start <= i <= n,
                quote == open_quote(v@.take(i as int)),
                group_pieces(v@.take(i as int)) == done.push(v@.subrange(start as int, i as int)),
                members_spec(done) == Ok::<Seq<ChainView>, SelectorParseError>(group_view(out@)),
                done.len() == out@.len(),
            decreases n - i,
        {
            let c = v[i];
            let ghost pre = v@.take(i as int);
            let ghost piece = v@.subrange(start as int, i as int);
            assert(v@.take(i + 1).drop_last() =~= pre);
            assert(v@.take(i + 1).last() == c);
            let split = quote.is_none() && c == ',';
            if split {
                let (a, b) = trim_range(&v, start, i);
                let ghost d2 = done.push(piece);
                assert(d2.drop_last() == done && d2.last() == piece);
                match parse_member(&v, a, b) {
                    Ok(sel) => {
                        let ghost old_out = out@;
                        out.push(sel);
                        proof {
                            assert(group_view(out@) =~= group_view(old_out).push(out@.last()@));
                            assert(members_spec(d2) == Ok::<Seq<ChainView>, SelectorParseError>(group_view(out@)));
                            done = d2;
                        }
                        start = i + 1;
                    },
                    Err(e) => {
                        proof {
                            assert(members_spec(d2) == Err::<Seq<ChainView>, SelectorParseError>(e));
                            assert(group_pieces(v@.take(i + 1)) == d2.push(seq![]));
                            lemma_pieces_prefix(v@, i + 1);
                            let ps = group_pieces(v@);
                            let l = if trim(ps.last()).len() == 0 { ps.drop_last() } else { ps };
                            assert(l.take(d2.len() as int) =~= d2);
                            lemma_members_err(l, d2.len() as int);
                        }
                        return Err(e);
                    },
                }
                proof {
                    assert(v@.subrange(start as int, i + 1) =~= seq![]);
                }
            } else {
                proof {
                    let ps = done.push(piece);
                    assert(piece.push(c) =~= v@.subrange(start as int, i + 1));
                    assert(ps.update(ps.len() - 1, ps.last().push(c)) =~= done.push(v@.subrange(start as int, i + 1)));
                }
            }
            match quote {
                None => {
                    if c == '\'' || c == '"' {
                        quote = Some(c);
                    }
                },
                Some(q) => {
                    if c == q {
                        quote = None;
                    }
                },
            }
            i += 1;
        }
        assert(v@.take(n as int) =~= v@);
        let (a, b) = trim_range(&v, start, n);
        let ghost ps = group_pieces(s@);
        assert(ps.drop_last() == done && ps.last() == v@.subrange(start as int, n as int));
        if a == b {
            if out.len() == 0 {
                return Err(SelectorParseError::EmptyString);
            }
            return Ok(CommaSeparated(out));
        }
        match parse_member(&v, a, b) {
            Ok(sel) => {
                let ghost old_out = out@;
                out.push(sel);
                assert(group_view(out@) =~= group_view(old_out).push(out@.last()@));
                assert(members_spec(ps) == Ok::<Seq<ChainView>, SelectorParseError>(group_view(out@)));
                Ok(CommaSeparated(out))
            },
            Err(e) => Err(e),
        }
    }
}

impl std::str::FromStr for CommaSeparated<Selector> {
    type Err = SelectorParseError;

    fn from_str(s: &str) -> (r: Result<CommaSeparated<Selector>, SelectorParseError>)
        ensures
            agrees_group(r, group_spec(s@)),
    {
        CommaSeparated::<Selector>::parse(s)
    }
}

/// Reading one more character.
proof fn lemma_sel_run_push(s: Seq<char>, c: char)
    ensures
        sel_run(s.push(c)) == match sel_run(s) {
            Ok(st) => sel_step(st, c),
            Err(e) => Err(e),
        },
{
    assert(s.push(c).drop_last() =~= s);
}

/// The errors that short texts give: the empty text, leading whitespace, a `#` with
/// no id, a bracket or a quote never closed, a combinator with nothing after it, an
/// unknown prefix, and a class or an attribute named twice.
pub proof fn selector_error_examples()
    ensures
        selector_spec(seq![]) == Err::<ChainView, SelectorParseError>(SelectorParseError::EmptyString),
        selector_spec(seq![' ', 'a']) == Err::<ChainView, SelectorParseError>(SelectorParseError::WhiteSpace),
        selector_spec(seq!['t', 'a', 'g', '#']) == Err::<ChainView, SelectorParseError>(SelectorParseError::EmptyToken),
        selector_spec(seq!['[', 'a', 't', 't', 'r', '=', 'v', 'a', 'l']) == Err::<ChainView, SelectorParseError>(SelectorParseError::UnclosedBracket),
        selector_spec(seq!['[', 'a', 't', 't', 'r', '=', '\'', 'v', 'a', 'l']) == Err::<ChainView, SelectorParseError>(SelectorParseError::UnclosedString),
        selector_spec(seq!['t', 'a', 'g', ' ', '>', ' ']) == Err::<ChainView, SelectorParseError>(SelectorParseError::NoOtherSideCombinator),
        selector_spec(seq!['t', 'a', 'g', '&']) == Err::<ChainView, SelectorParseError>(SelectorParseError::UnknownPrefix),
        selector_spec(seq!['.', 'a', '.', 'a']) == Err::<ChainView, SelectorParseError>(SelectorParseError::DuplicateClass),
        selector_spec(seq!['[', 'a', ']', '[', 'a', ']']) == Err::<ChainView, SelectorParseError>(SelectorParseError::DuplicateAttr),
{
    lemma_sel_run_push(seq![], 't');
    assert(seq![].push('t') =~= seq!['t']);
    lemma_sel_run_push(seq!['t'], 'a');
    assert(seq!['t'].push('a') =~= seq!['t', 'a']);
    lemma_sel_run_push(seq!['t', 'a'], 'g');
    assert(seq!['t', 'a'].push('g') =~= seq!['t', 'a', 'g']);
    lemma_sel_run_push(seq!['t', 'a', 'g'], '#');
    assert(seq!['t', 'a', 'g'].push('#') =~= seq!['t', 'a', 'g', '#']);
    lemma_sel_run_push(seq![], '[');
    assert(seq![].push('[') =~= seq!['[']);
    lemma_sel_run_push(seq!['['], 'a');
    assert(seq!['['].push('a') =~= seq!['[', 'a']);
    lemma_sel_run_push(seq!['[', 'a'], 't');
    assert(seq!['[', 'a'].push('t') =~= seq!['[', 'a', 't']);
    lemma_sel_run_push(seq!['[', 'a', 't'], 't');
    assert(seq!['[', 'a', 't'].push('t') =~= seq!['[', 'a', 't', 't']);
    lemma_sel_run_push(seq!['[', 'a', 't', 't'], 'r');
    assert(seq!['[', 'a', 't', 't'].push('r') =~= seq!['[', 'a', 't', 't', 'r']);
    lemma_sel_run_push(seq!['[', 'a', 't', 't', 'r'], '=');
    assert(seq!['[', 'a', 't', 't', 'r'].push('=') =~= seq!['[', 'a', 't', 't', 'r', '=']);
    lemma_sel_run_push(seq!['[', 'a', 't', 't', 'r', '='], 'v');
    assert(seq!['[', 'a', 't', 't', 'r', '='].push('v') =~= seq!['[', 'a', 't', 't', 'r', '=', 'v']);
    lemma_sel_run_push(seq!['[', 'a', 't', 't', 'r', '=', 'v'], 'a');
    assert(seq!['[', 'a', 't', 't', 'r', '=', 'v'].push('a') =~= seq!['[', 'a', 't', 't', 'r', '=', 'v', 'a']);
    lemma_sel_run_push(seq!['[', 'a', 't', 't', 'r', '=', 'v', 'a'], 'l');
    assert(seq!['[', 'a', 't', 't', 'r', '=', 'v', 'a'].push('l') =~= seq!['[', 'a', 't', 't', 'r', '=', 'v', 'a', 'l']);
    lemma_sel_run_push(seq![], '[');
    assert(seq![].push('[') =~= seq!['[']);
    lemma_sel_run_push(seq!['['], 'a');
    assert(seq!['['].push('a') =~= seq!['[', 'a']);
    lemma_sel_run_push(seq!['[', 'a'], 't');
    assert(seq!['[', 'a'].push('t') =~= seq!['[', 'a', 't']);
    lemma_sel_run_push(seq!['[', 'a', 't'], 't');
    assert(seq!['[', 'a', 't'].push('t') =~= seq!['[', 'a', 't', 't']);
    lemma_sel_run_push(seq!['[', 'a', 't', 't'], 'r');
    assert(seq!['[', 'a', 't', 't'].push('r') =~= seq!['[', 'a', 't', 't', 'r']);
    lemma_sel_run_push(seq!['[', 'a', 't', 't', 'r'], '=');
    assert(seq!['[', 'a', 't', 't', 'r'].push('=') =~= seq!['[', 'a', 't', 't', 'r', '=']);
    lemma_sel_run_push(seq!['[', 'a', 't', 't', 'r', '='], '\'');
    assert(seq!['[', 'a', 't', 't', 'r', '='].push('\'') =~= seq!['[', 'a', 't', 't', 'r', '=', '\'']);
    lemma_sel_run_push(seq!['[', 'a', 't', 't', 'r', '=', '\''], 'v');
    assert(seq!['[', 'a', 't', 't', 'r', '=', '\''].push('v') =~= seq!['[', 'a', 't', 't', 'r', '=', '\'', 'v']);
    lemma_sel_run_push(seq!['[', 'a', 't', 't', 'r', '=', '\'', 'v'], 'a');
    assert(seq!['[', 'a', 't', 't', 'r', '=', '\'', 'v'].push('a') =~= seq!['[', 'a', 't', 't', 'r', '=', '\'', 'v', 'a']);
    lemma_sel_run_push(seq!['[', 'a', 't', 't', 'r', '=', '\'', 'v', 'a'], 'l');
    assert(seq!['[', 'a', 't', 't', 'r', '=', '\'', 'v', 'a'].push('l') =~= seq!['[', 'a', 't', 't', 'r', '=', '\'', 'v', 'a', 'l']);
    lemma_sel_run_push(seq![], 't');
    assert(seq![].push('t') =~= seq!['t']);
    lemma_sel_run_push(seq!['t'], 'a');
    assert(seq!['t'].push('a') =~= seq!['t', 'a']);
    lemma_sel_run_push(seq!['t', 'a'], 'g');
    assert(seq!['t', 'a'].push('g') =~= seq!['t', 'a', 'g']);
    lemma_sel_run_push(seq!['t', 'a', 'g'], ' ');
    assert(seq!['t', 'a', 'g'].push(' ') =~= seq!['t', 'a', 'g', ' ']);
    lemma_sel_run_push(seq!['t', 'a', 'g', ' '], '>');
    assert(seq!['t', 'a', 'g', ' '].push('>') =~= seq!['t', 'a', 'g', ' ', '>']);
    lemma_sel_run_push(seq!['t', 'a', 'g', ' ', '>'], ' ');
    assert(seq!['t', 'a', 'g', ' ', '>'].push(' ') =~= seq!['t', 'a', 'g', ' ', '>', ' ']);
    lemma_sel_run_push(seq![], 't');
    assert(seq![].push('t') =~= seq!['t']);
    lemma_sel_run_push(seq!['t'], 'a');
    assert(seq!['t'].push('a') =~= seq!['t', 'a']);
    lemma_sel_run_push(seq!['t', 'a'], 'g');
    assert(seq!['t', 'a'].push('g') =~= seq!['t', 'a', 'g']);
    lemma_sel_run_push(seq!['t', 'a', 'g'], '&');
    assert(seq!['t', 'a', 'g'].push('&') =~= seq!['t', 'a', 'g', '&']);
    lemma_sel_run_push(seq![], '.');
    assert(seq![].push('.') =~= seq!['.']);
    lemma_sel_run_push(seq!['.'], 'a');
    assert(seq!['.'].push('a') =~= seq!['.', 'a']);
    lemma_sel_run_push(seq!['.', 'a'], '.');
    assert(seq!['.', 'a'].push('.') =~= seq!['.', 'a', '.']);
    lemma_sel_run_push(seq!['.', 'a', '.'], 'a');
    assert(seq!['.', 'a', '.'].push('a') =~= seq!['.', 'a', '.', 'a']);
    lemma_sel_run_push(seq![], '[');
    assert(seq![].push('[') =~= seq!['[']);
    lemma_sel_run_push(seq!['['], 'a');
    assert(seq!['['].push('a') =~= seq!['[', 'a']);
    lemma_sel_run_push(seq!['[', 'a'], ']');
    assert(seq!['[', 'a'].push(']') =~= seq!['[', 'a', ']']);
    lemma_sel_run_push(seq!['[', 'a', ']'], '[');
    assert(seq!['[', 'a', ']'].push('[') =~= seq!['[', 'a', ']', '[']);
    lemma_sel_run_push(seq!['[', 'a', ']', '['], 'a');
    assert(seq!['[', 'a', ']', '['].push('a') =~= seq!['[', 'a', ']', '[', 'a']);
    lemma_sel_run_push(seq!['[', 'a', ']', '[', 'a'], ']');
    assert(seq!['[', 'a', ']', '[', 'a'].push(']') =~= seq!['[', 'a', ']', '[', 'a', ']']);
    let d = sel_run(seq!['.', 'a', '.', 'a'])->Ok_0;
    assert(d.buf =~= seq!['a']);
    assert(d.chain.links[0].classes[0] =~= seq!['a']);
    assert(d.chain.links[0].classes.contains(d.buf));
    let e = sel_run(seq!['[', 'a', ']', '[', 'a'])->Ok_0;
    assert(e.buf =~= seq!['a']);
    assert(e.chain.links[0].attributes[0].0 =~= seq!['a']);
    assert(e.chain.links[0].attributes[0].0 == e.buf);
}

} // verus!
