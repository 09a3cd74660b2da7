use cfgcomment::config::Data;
use cfgcomment::grammar::parse_tag;
use cfgcomment::predicate::{CfgTag, Group, Predicate};

fn feature(name: &str) -> Group {
    Group::Option(Predicate::Feature(name.to_string()))
}

fn start(text: &str) -> Group {
    match parse_tag(text) {
        Ok(CfgTag::Start(g)) => g,
        Ok(CfgTag::End) => panic!("end"),
        Err(_) => panic!("no directive: {}", text),
    }
}

fn with(features: &[&str]) -> Data {
    Data { features: features.iter().map(|f| f.to_string()).collect(), reset: false }
}

#[test]
fn end_tag() {
    assert!(matches!(parse_tag("[cfg(end)]"), Ok(CfgTag::End)));
    assert!(matches!(parse_tag("[ cfg\t( end ) ]"), Ok(CfgTag::End)));
}

#[test]
fn feature_tag() {
    assert_eq!(start("[cfg(feature = \"x\")]"), feature("x"));
    assert_eq!(start("[cfg(feature=\"x\")]"), feature("x"));
    assert_eq!(start("[cfg( feature \t=  \"long-name_1\" )]"), feature("long-name_1"));
}

#[test]
fn feature_name_is_taken_as_written() {
    assert_eq!(start("[cfg(feature = \"\")]"), feature(""));
    assert_eq!(start("[cfg(feature = \" a b \")]"), feature(" a b "));
    assert_eq!(start("[cfg(feature = \"a\\\")]"), feature("a\\"));
    assert_eq!(start("[cfg(feature = \"ü)]\")]"), feature("ü)]"));
}

#[test]
fn not_tag() {
    let expected = Group::Not(Box::new(feature("x")));
    assert_eq!(start("[cfg(not(feature = \"x\"))]"), expected);
    assert_eq!(start("[cfg(not ( feature = \"x\" ) )]"), expected);
    let twice = Group::Not(Box::new(Group::Not(Box::new(feature("x")))));
    assert_eq!(start("[cfg(not(not(feature = \"x\")))]"), twice);
}

#[test]
fn any_and_all_tags() {
    let any = Group::Any(vec![feature("a"), feature("b")]);
    assert_eq!(start("[cfg(any(feature = \"a\", feature = \"b\"))]"), any);
    assert_eq!(start("[cfg(any(feature = \"a\",feature = \"b\"))]"), any);
    assert_eq!(start("[cfg(any( feature = \"a\" , feature = \"b\" ))]"), any);
    let all = Group::All(vec![feature("a"), feature("b"), feature("c")]);
    assert_eq!(start("[cfg(all(feature = \"a\", feature = \"b\", feature = \"c\"))]"), all);
    let one = Group::All(vec![feature("a")]);
    assert_eq!(start("[cfg(all(feature = \"a\"))]"), one);
}

#[test]
fn trailing_comma_is_optional() {
    let any = Group::Any(vec![feature("a"), feature("b")]);
    assert_eq!(start("[cfg(any(feature = \"a\", feature = \"b\",))]"), any);
    assert_eq!(start("[cfg(any(feature = \"a\", feature = \"b\" , ))]"), any);
    assert!(parse_tag("[cfg(any(feature = \"a\",,))]").is_err());
}

#[test]
fn nested_groups() {
    let expected = Group::All(vec![
        feature("a"),
        Group::Any(vec![feature("b"), Group::Not(Box::new(feature("c")))]),
    ]);
    let got = start("[cfg(all(feature = \"a\", any(feature = \"b\", not(feature = \"c\"))))]");
    assert_eq!(got, expected);
}

#[test]
fn list_needs_a_member() {
    assert!(parse_tag("[cfg(any())]").is_err());
    assert!(parse_tag("[cfg(all())]").is_err());
    assert!(parse_tag("[cfg(all(,))]").is_err());
}

#[test]
fn malformed_tags() {
    for text in [
        "",
        "[",
        "cfg(end)",
        "[cfg(end)",
        "[cfg(end)] ",
        " [cfg(end)]",
        "[cfg(end)]x",
        "[cfg end]",
        "[cfg()]",
        "[cfg(endx)]",
        "[cfg(end())]",
        "[cfg(feature)]",
        "[cfg(feature = x)]",
        "[cfg(feature = \"x)]",
        "[cfg(feature \"x\")]",
        "[cfg(Feature = \"x\")]",
        "[cfg(not(feature = \"x\")]",
        "[cfg(not())]",
        "[cfg(not(feature = \"x\", feature = \"y\"))]",
        "[cfg(any(feature = \"x\" feature = \"y\"))]",
        "[cfg(any feature = \"x\")]",
        "[cfg(anyone(feature = \"x\"))]",
        "[cfg(xor(feature = \"x\"))]",
        "[cfg(feature = \"x\"))]",
        "[cfg(feature = \"x\") extra]",
        "[cfg(\nend)]",
        "[cfg(feature\n= \"x\")]",
    ] {
        assert!(parse_tag(text).is_err(), "{}", text);
    }
}

#[test]
fn newline_inside_a_name_is_part_of_it() {
    assert_eq!(start("[cfg(feature = \"a\nb\")]"), feature("a\nb"));
}

#[test]
fn feature_matches_by_membership() {
    assert!(feature("x").matches(&with(&["x"])));
    assert!(feature("x").matches(&with(&["w", "x", "y"])));
    assert!(!feature("x").matches(&with(&[])));
    assert!(!feature("x").matches(&with(&["xx", "X"])));
    assert!(Predicate::Feature("x".to_string()).matches(&with(&["x"])));
    assert!(!Predicate::Feature("x".to_string()).matches(&with(&["y"])));
}

#[test]
fn has_feature_is_exact() {
    let config = with(&["a", "b", "a"]);
    assert!(config.has_feature("a"));
    assert!(config.has_feature("b"));
    assert!(!config.has_feature("c"));
    assert!(!config.has_feature(""));
    assert!(!with(&[]).has_feature("a"));
}

#[test]
fn empty_groups() {
    assert!(Group::All(vec![]).matches(&with(&[])));
    assert!(!Group::Any(vec![]).matches(&with(&["x"])));
}

#[test]
fn all_and_any() {
    let c = with(&["a", "b"]);
    assert!(Group::All(vec![feature("a"), feature("b")]).matches(&c));
    assert!(!Group::All(vec![feature("a"), feature("c")]).matches(&c));
    assert!(Group::Any(vec![feature("c"), feature("b")]).matches(&c));
    assert!(!Group::Any(vec![feature("c"), feature("d")]).matches(&c));
}

#[test]
fn double_negation() {
    for c in [with(&[]), with(&["x"])] {
        let g = feature("x");
        let nn = Group::Not(Box::new(Group::Not(Box::new(feature("x")))));
        assert_eq!(nn.matches(&c), g.matches(&c));
        assert_eq!(Group::Not(Box::new(feature("x"))).matches(&c), !g.matches(&c));
    }
}

#[test]
fn de_morgan() {
    for c in [with(&[]), with(&["a"]), with(&["b"]), with(&["a", "b"])] {
        let not_any = Group::Not(Box::new(Group::Any(vec![feature("a"), feature("b")])));
        let all_not = Group::All(vec![
            Group::Not(Box::new(feature("a"))),
            Group::Not(Box::new(feature("b"))),
        ]);
        assert_eq!(not_any.matches(&c), all_not.matches(&c));
        let not_all = Group::Not(Box::new(Group::All(vec![feature("a"), feature("b")])));
        let any_not = Group::Any(vec![
            Group::Not(Box::new(feature("a"))),
            Group::Not(Box::new(feature("b"))),
        ]);
        assert_eq!(not_all.matches(&c), any_not.matches(&c));
    }
}

#[test]
fn parsed_predicate_evaluates() {
    let g = start("[cfg(all(feature = \"a\", not(any(feature = \"b\", feature = \"c\"))))]");
    assert!(g.matches(&with(&["a"])));
    assert!(!g.matches(&with(&["a", "c"])));
    assert!(!g.matches(&with(&[])));
}

fn write_pred(g: &Group, gap: &str) -> String {
    let list = |l: &Vec<Group>| {
        l.iter().map(|m| write_pred(m, gap)).collect::<Vec<_>>().join(&format!("{gap},{gap}"))
    };
    match g {
        Group::Option(Predicate::Feature(n)) => format!("feature{gap}={gap}\"{n}\""),
        Group::All(l) => format!("all{gap}({gap}{}{gap})", list(l)),
        Group::Any(l) => format!("any{gap}({gap}{}{gap})", list(l)),
        Group::Not(m) => format!("not{gap}({gap}{}{gap})", write_pred(m, gap)),
    }
}

#[test]
fn written_out_directives_are_read_back() {
    let trees = [
        feature("x"),
        Group::Not(Box::new(feature(""))),
        Group::Any(vec![feature("a")]),
        Group::All(vec![
            feature("a b"),
            Group::Any(vec![Group::Not(Box::new(feature("c"))), feature("d"), feature("e")]),
            Group::All(vec![Group::All(vec![feature("any")])]),
        ]),
    ];
    for gap in ["", " ", "\t", " \t  "] {
        let end = format!("[{gap}cfg{gap}({gap}end{gap}){gap}]");
        assert_eq!(parse_tag(&end), Ok(CfgTag::End), "{:?}", end);
        for tree in &trees {
            let text = format!("[{gap}cfg{gap}({gap}{}{gap}){gap}]", write_pred(tree, gap));
            assert_eq!(start(&text), *tree, "{:?}", text);
        }
    }
}
