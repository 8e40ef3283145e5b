use xml_skimmer::selector::{CommaSeparated, Selector};
use xml_skimmer::skim::skim;
use xml_skimmer::{Dispatch, ParsedNode, SkimError};

fn groups(texts: &[&str]) -> Vec<CommaSeparated<Selector>> {
    texts.iter().map(|t| t.parse::<CommaSeparated<Selector>>().unwrap()).collect()
}

fn tags(ds: &[Dispatch]) -> Vec<(usize, String)> {
    ds.iter().map(|d| (d.group, d.node.tag.clone())).collect()
}

fn attr_of(n: &ParsedNode, name: &str) -> Option<String> {
    n.get_attr(&name.to_string()).cloned()
}

#[test]
fn nested_tags_are_well_formed() {
    let (ds, r) = skim("<a><b/><c></c></a>", &groups(&["*"]));
    assert_eq!(r, Ok(()));
    assert_eq!(tags(&ds), vec![(0, "a".to_string()), (0, "b".to_string()), (0, "c".to_string())]);
}

#[test]
fn text_and_whitespace_between_tags() {
    let (ds, r) = skim("<a>\n  hello <b x='1' /> world\n</a>\n", &groups(&["b"]));
    assert_eq!(r, Ok(()));
    assert_eq!(tags(&ds), vec![(0, "b".to_string())]);
    assert_eq!(attr_of(&ds[0].node, "x"), Some("1".to_string()));
}

#[test]
fn unclosed_node() {
    let (_, r) = skim("<a><b></b>", &groups(&[]));
    assert_eq!(r, Err(SkimError::UnclosedNode));
}

#[test]
fn rogue_closing_tag() {
    let (_, r) = skim("</a>", &groups(&[]));
    assert_eq!(r, Err(SkimError::CantCloseNode("a".to_string(), None)));
}

#[test]
fn mismatched_closing_tag() {
    let (_, r) = skim("<a></b>", &groups(&[]));
    let open = ParsedNode { tag: "a".to_string(), attributes: vec![] };
    assert_eq!(r, Err(SkimError::CantCloseNode("b".to_string(), Some(open))));
}

#[test]
fn attributes_of_each_quote_style() {
    let (ds, r) = skim("<tag a=\"1\" b='2' c></tag>", &groups(&["tag"]));
    assert_eq!(r, Ok(()));
    assert_eq!(ds.len(), 1);
    let n = &ds[0].node;
    assert_eq!(n.attributes.len(), 3);
    assert_eq!(attr_of(n, "a"), Some("1".to_string()));
    assert_eq!(attr_of(n, "b"), Some("2".to_string()));
    assert_eq!(attr_of(n, "c"), Some("".to_string()));
}

#[test]
fn repeated_attribute_keeps_last() {
    let (ds, r) = skim("<tag a=\"1\" a=\"2\"/>", &groups(&["tag"]));
    assert_eq!(r, Ok(()));
    let n = &ds[0].node;
    assert_eq!(n.attributes.len(), 1);
    assert_eq!(attr_of(n, "a"), Some("2".to_string()));
}

#[test]
fn boolean_attribute_before_end_of_tag() {
    let (ds, r) = skim("<tag c />", &groups(&["tag[c]"]));
    assert_eq!(r, Ok(()));
    assert_eq!(ds.len(), 1);
    assert_eq!(ds[0].node.attributes.len(), 1);
}

#[test]
fn comment_is_transparent() {
    let (ds, r) = skim("<a><!-- <b></b> --></a>", &groups(&["*"]));
    assert_eq!(r, Ok(()));
    assert_eq!(tags(&ds), vec![(0, "a".to_string())]);
}

#[test]
fn prolog_is_transparent() {
    let g = groups(&["*", "a"]);
    let (with, r1) = skim("<?xml version=\"1.0\"?><a/>", &g);
    let (without, r2) = skim("<a/>", &g);
    assert_eq!(r1, r2);
    assert_eq!(with, without);
    assert_eq!(tags(&with), vec![(0, "a".to_string()), (1, "a".to_string())]);
}

#[test]
fn unclosed_comment() {
    let (_, r) = skim("<a><!-- never ends</a>", &groups(&[]));
    assert_eq!(r, Err(SkimError::UnclosedComment(" never ends</a>".to_string())));
    let (_, r) = skim("<?xml", &groups(&[]));
    assert_eq!(r, Err(SkimError::UnclosedComment("xml".to_string())));
}

#[test]
fn unclosed_string() {
    let (_, r) = skim("<a x=\"1>", &groups(&[]));
    let node = ParsedNode { tag: "a".to_string(), attributes: vec![] };
    assert_eq!(r, Err(SkimError::UnclosedString("x".to_string(), node)));
}

#[test]
fn bad_quote_and_bad_equals() {
    assert_eq!(skim("<a \"x\">", &groups(&[])).1, Err(SkimError::BadQuote));
    assert_eq!(skim("<a x=1>", &groups(&[])).1, Err(SkimError::BadQuote));
    assert_eq!(skim("<a=\"1\">", &groups(&[])).1, Err(SkimError::BadEqSign));
}

#[test]
fn scan_stops_at_first_error() {
    let (ds, r) = skim("<a></b><c/>", &groups(&["*"]));
    assert!(r.is_err());
    assert_eq!(tags(&ds), vec![(0, "a".to_string())]);
}

#[test]
fn self_closed_child_sees_its_parent() {
    let (ds, r) = skim("<p><c/></p>", &groups(&["p > c", "p"]));
    assert_eq!(r, Ok(()));
    assert_eq!(tags(&ds), vec![(1, "p".to_string()), (0, "c".to_string())]);
}

#[test]
fn self_closed_node_is_no_ancestor() {
    let (ds, r) = skim("<p/><c/>", &groups(&["p c"]));
    assert_eq!(r, Ok(()));
    assert!(ds.is_empty());
}

#[test]
fn groups_dispatch_in_their_order() {
    let (ds, r) = skim("<r><x id='i' class='u v'/></r>", &groups(&[".v", "r > #i", "nope", "x"]));
    assert_eq!(r, Ok(()));
    assert_eq!(tags(&ds), vec![(0, "x".to_string()), (1, "x".to_string()), (3, "x".to_string())]);
}

#[test]
fn long_comment_is_skipped() {
    let body = "-".repeat(1) + &"x".repeat(100000);
    let text = format!("<a><!--{}--></a>", body);
    let (ds, r) = skim(&text, &groups(&["a"]));
    assert_eq!(r, Ok(()));
    assert_eq!(ds.len(), 1);
}

#[test]
fn deep_unclosed_and_mismatched() {
    assert_eq!(skim("<a><b><c/>", &groups(&[])).1, Err(SkimError::UnclosedNode));
    let open = ParsedNode { tag: "b".to_string(), attributes: vec![xml_skimmer::Attr { name: "k".to_string(), value: "v".to_string() }] };
    assert_eq!(skim("<a><b k='v'><c/></a>", &groups(&[])).1, Err(SkimError::CantCloseNode("a".to_string(), Some(open))));
}
