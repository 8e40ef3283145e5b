use xml_skimmer::selector::{CommaSeparated, PushTo, Selector, SelectorParseError};
use xml_skimmer::{Attr, ParsedNode};

fn attr(name: &str, value: &str) -> Attr {
    Attr { name: name.to_string(), value: value.to_string() }
}

fn node(tag: &str, attributes: Vec<Attr>) -> ParsedNode {
    ParsedNode { tag: tag.to_string(), attributes }
}

fn stack() -> Vec<ParsedNode> {
    vec![
        node("tag3", vec![]),
        node("tag2", vec![]),
        node("tag", vec![attr("class", "class cls c"), attr("id", "id"), attr("attr", "val")]),
    ]
}

fn group_matches(text: &str, stack: &[ParsedNode]) -> bool {
    CommaSeparated::<Selector>::parse(text).unwrap().match_node(stack)
}

#[test]
fn non_matching_selectors() {
    let s = stack();
    assert!(!group_matches("tag2", &s));
    assert!(!group_matches("tag3 > tag", &s));
    assert!(!group_matches("#other", &s));
    assert!(!group_matches(".cl", &s));
    assert!(!group_matches("[attr=other]", &s));
    assert!(!group_matches("[missing]", &s));
    assert!(!group_matches("tag", &[]));
}

#[test]
fn descendant_and_child_chains() {
    let s = stack();
    assert!(group_matches("tag3 tag2 tag", &s));
    assert!(group_matches("tag3 > tag2 tag", &s));
    assert!(group_matches("tag3>tag2>tag", &s));
    assert!(!group_matches("tag tag", &s));
    assert!(!group_matches("tag2 tag3 tag", &s));
}

#[test]
fn class_list_splits_on_single_spaces() {
    let n = node("a", vec![attr("class", "x  y")]);
    let mut classes = n.class_list();
    classes.sort();
    assert_eq!(classes, vec!["".to_string(), "x".to_string(), "y".to_string()]);
    assert!(node("a", vec![]).class_list().is_empty());
    assert!(node("a", vec![attr("class", "")]).class_list().is_empty());
}

#[test]
fn later_attribute_entry_wins() {
    let n = node("a", vec![attr("k", "1"), attr("k", "2")]);
    assert_eq!(n.get_attr(&"k".to_string()), Some(&"2".to_string()));
    assert!(!n.has_attr(&"j".to_string()));
}

#[test]
fn set_attr_replaces() {
    let mut n = node("a", vec![attr("k", "1")]);
    n.set_attr("k".to_string(), "2".to_string());
    n.set_attr("j".to_string(), "3".to_string());
    assert_eq!(n.attributes, vec![attr("k", "2"), attr("j", "3")]);
}

#[test]
fn group_parsing() {
    let g = CommaSeparated::<Selector>::parse("tag , tag2 , ").unwrap();
    assert_eq!(g.0.len(), 2);
    let g = CommaSeparated::<Selector>::parse("tag[attr='1, 2, 3']").unwrap();
    assert_eq!(g.0.len(), 1);
    assert_eq!(g.0[0].attributes, vec![("attr".to_string(), Some("1, 2, 3".to_string()))]);
    assert_eq!(CommaSeparated::<Selector>::parse("a,,b"), Err(SelectorParseError::EmptyString));
    assert_eq!(CommaSeparated::<Selector>::parse("a, b&"), Err(SelectorParseError::UnknownPrefix));
    assert_eq!(CommaSeparated::<Selector>::parse(""), Err(SelectorParseError::EmptyString));
    assert_eq!(CommaSeparated::<Selector>::parse("  "), Err(SelectorParseError::EmptyString));
}

#[test]
fn wildcard_matches_any_node() {
    assert!(group_matches("*", &stack()));
    assert!(group_matches(" * ", &[node("x", vec![])]));
    assert_eq!(Selector::parse("*"), Err(SelectorParseError::UnknownPrefix));
}

#[test]
fn selector_error_table() {
    assert_eq!(Selector::parse(""), Err(SelectorParseError::EmptyString));
    assert_eq!(Selector::parse("tag#"), Err(SelectorParseError::EmptyToken));
    assert_eq!(Selector::parse("[attr=val"), Err(SelectorParseError::UnclosedBracket));
    assert_eq!(Selector::parse("[attr='val"), Err(SelectorParseError::UnclosedString));
    assert_eq!(Selector::parse("tag > "), Err(SelectorParseError::NoOtherSideCombinator));
    assert_eq!(Selector::parse("tag&"), Err(SelectorParseError::UnknownPrefix));
}

#[test]
fn duplicates_and_whitespace_are_errors() {
    assert_eq!(Selector::parse(".a.a"), Err(SelectorParseError::DuplicateClass));
    assert_eq!(Selector::parse("[a][a=1]"), Err(SelectorParseError::DuplicateAttr));
    assert_eq!(Selector::parse(" tag"), Err(SelectorParseError::WhiteSpace));
    assert_eq!(Selector::parse("tag "), Err(SelectorParseError::NoOtherSideCombinator));
    assert_eq!(Selector::parse("> tag"), Err(SelectorParseError::NoOtherSideCombinator));
    assert_eq!(Selector::parse("a > > b"), Err(SelectorParseError::UnknownPrefix));
    assert_eq!(Selector::parse("a ]"), Err(SelectorParseError::BadChar));
}

#[test]
fn empty_quoted_value_is_kept() {
    let s = Selector::parse("[a=\"\"]").unwrap();
    assert_eq!(s.attributes, vec![("a".to_string(), Some(String::new()))]);
}

#[test]
fn push_to_of_prefix() {
    assert_eq!(PushTo::new('#'), PushTo::Id);
    assert_eq!(PushTo::new('.'), PushTo::Classes);
    assert_eq!(PushTo::new('['), PushTo::AttrName);
    assert_eq!(PushTo::new('x'), PushTo::Tag);
}

#[test]
fn match_simple_ignores_parent() {
    let s = Selector::parse("nothere > tag.c").unwrap();
    assert!(s.match_simple(&stack()[2]));
    assert!(!s.match_node(&stack()));
}

#[test]
fn attr_new_is_empty() {
    let a = Attr::new();
    assert!(a.name.is_empty() && a.value.is_empty());
}

#[test]
fn descendant_link_tries_farther_ancestors() {
    let s = vec![node("a", vec![]), node("b", vec![]), node("x", vec![]), node("b", vec![]), node("c", vec![])];
    assert!(Selector::parse("a > b c").unwrap().match_node(&s));
    assert!(group_matches("a b c", &s));
    assert!(!group_matches("a > x c", &s));
    assert!(group_matches("a x c", &s));
}

#[test]
fn from_str_agrees_with_parse() {
    assert_eq!("tag#".parse::<Selector>(), Selector::parse("tag#"));
    assert_eq!("a, b".parse::<CommaSeparated<Selector>>(), CommaSeparated::<Selector>::parse("a, b"));
}
