use cfgcomment::config::Data;
use cfgcomment::lang::LangDesc;
use cfgcomment::state::CfgState;
use cfgcomment::toggle::{process, ToggleError};

fn slashes() -> LangDesc {
    LangDesc {
        cfg_prefix: "//[".to_string(),
        cfg_prefix_comment_len: 2,
        cfg_suffix: "]".to_string(),
        comment: "//# ".to_string(),
    }
}

fn with(features: &[&str]) -> Data {
    Data { features: features.iter().map(|f| f.to_string()).collect(), reset: false }
}

fn reset() -> Data {
    Data { features: Vec::new(), reset: true }
}

fn lines(text: &[&str]) -> Vec<String> {
    text.iter().map(|l| l.to_string()).collect()
}

#[test]
fn single_feature_enabled_uncomments() {
    let input = lines(&["//[cfg(feature = \"x\")]", "//# line_a();", "//[cfg(end)]"]);
    let out = process(input, &with(&["x"]), &slashes()).unwrap();
    assert_eq!(out, lines(&["//[cfg(feature = \"x\")]", "line_a();", "//[cfg(end)]"]));
}

#[test]
fn single_feature_disabled_keeps_comment() {
    let input = lines(&["//[cfg(feature = \"x\")]", "//# line_a();", "//[cfg(end)]"]);
    let out = process(input.clone(), &with(&[]), &slashes()).unwrap();
    assert_eq!(out, input);
}

#[test]
fn negated_feature_comments_active_line() {
    let input = lines(&["//[cfg(not(feature = \"x\"))]", "line_a();", "//[cfg(end)]"]);
    let out = process(input, &with(&["x"]), &slashes()).unwrap();
    assert_eq!(out, lines(&["//[cfg(not(feature = \"x\"))]", "//# line_a();", "//[cfg(end)]"]));
}

#[test]
fn negated_feature_absent_uncomments() {
    let input = lines(&["//[cfg(not(feature = \"x\"))]", "//# line_a();", "//[cfg(end)]"]);
    let out = process(input, &with(&[]), &slashes()).unwrap();
    assert_eq!(out, lines(&["//[cfg(not(feature = \"x\"))]", "line_a();", "//[cfg(end)]"]));
}

#[test]
fn reset_uncomments_every_scope() {
    let input = lines(&[
        "//# outside();",
        "//[cfg(feature = \"a\")]",
        "//# in_a();",
        "  //[cfg(feature = \"b\")]",
        "  //# in_b();",
        "",
        "  //[cfg(end)]",
        "still_a();",
        "//[cfg(end)]",
    ]);
    let out = process(input, &reset(), &slashes()).unwrap();
    assert_eq!(
        out,
        lines(&[
            "outside();",
            "//[cfg(feature = \"a\")]",
            "in_a();",
            "  //[cfg(feature = \"b\")]",
            "  in_b();",
            "",
            "  //[cfg(end)]",
            "still_a();",
            "//[cfg(end)]",
        ])
    );
}

#[test]
fn reset_ignores_the_feature_set() {
    let input = lines(&["//[cfg(feature = \"x\")]", "//# a();", "//[cfg(end)]"]);
    let plain = process(input.clone(), &reset(), &slashes()).unwrap();
    let with_x = Data { features: vec!["x".to_string()], reset: true };
    assert_eq!(process(input, &with_x, &slashes()).unwrap(), plain);
    assert_eq!(plain[1], "a();");
}

#[test]
fn content_without_scope_indentation_is_rejected() {
    let input = lines(&["    //[cfg(feature = \"x\")]", "line_a();", "    //[cfg(end)]"]);
    assert_eq!(process(input, &with(&["x"]), &slashes()), Err(ToggleError::PrefixMismatch));
}

#[test]
fn end_without_start_is_rejected() {
    let input = lines(&["a();", "//[cfg(end)]"]);
    assert_eq!(process(input, &with(&[]), &slashes()), Err(ToggleError::UnbalancedEnd));
}

#[test]
fn second_end_is_rejected() {
    let input = lines(&["//[cfg(feature = \"x\")]", "//[cfg(end)]", "//[cfg(end)]"]);
    assert_eq!(process(input, &with(&[]), &slashes()), Err(ToggleError::UnbalancedEnd));
}

#[test]
fn malformed_directive_is_rejected() {
    let input = lines(&["//[cfg(feature = x)]"]);
    assert_eq!(process(input, &with(&[]), &slashes()), Err(ToggleError::DirectiveParseError));
}

#[test]
fn directive_with_trailing_whitespace_is_rejected() {
    let input = lines(&["//[cfg(end)]  "]);
    assert_eq!(process(input, &with(&[]), &slashes()), Err(ToggleError::DirectiveParseError));
}

#[test]
fn marker_longer_than_directive_is_a_parse_error() {
    let desc = LangDesc {
        cfg_prefix: "#".to_string(),
        cfg_prefix_comment_len: 9,
        cfg_suffix: "".to_string(),
        comment: "; ".to_string(),
    };
    assert_eq!(
        process(lines(&["#[x]"]), &with(&[]), &desc),
        Err(ToggleError::DirectiveParseError)
    );
}

#[test]
fn first_error_wins() {
    let input = lines(&["//[cfg(end)]", "//[cfg(nonsense)]"]);
    assert_eq!(process(input, &with(&[]), &slashes()), Err(ToggleError::UnbalancedEnd));
}

#[test]
fn unterminated_scope_is_let_pass() {
    let input = lines(&["//[cfg(feature = \"x\")]", "a();"]);
    let out = process(input, &with(&[]), &slashes()).unwrap();
    assert_eq!(out, lines(&["//[cfg(feature = \"x\")]", "//# a();"]));
}

#[test]
fn empty_file_gives_empty_file() {
    assert_eq!(process(Vec::new(), &with(&[]), &slashes()), Ok(Vec::new()));
}

#[test]
fn one_line_out_per_line_in() {
    let input = lines(&["a", "", "//[cfg(feature = \"x\")]", "b", "   ", "//[cfg(end)]", "c"]);
    let out = process(input.clone(), &with(&[]), &slashes()).unwrap();
    assert_eq!(out.len(), input.len());
    assert_eq!(out, lines(&["a", "", "//[cfg(feature = \"x\")]", "//# b", "   ", "//[cfg(end)]", "c"]));
}

#[test]
fn blank_lines_never_change_or_fail() {
    let input = lines(&["    //[cfg(feature = \"x\")]", "", " \t", "    //[cfg(end)]"]);
    let out = process(input.clone(), &with(&[]), &slashes()).unwrap();
    assert_eq!(out, input);
}

#[test]
fn comment_marker_goes_behind_the_scope_indentation() {
    let input = lines(&["    //[cfg(feature = \"x\")]", "    a();", "      b();", "    //[cfg(end)]"]);
    let out = process(input, &with(&[]), &slashes()).unwrap();
    assert_eq!(
        out,
        lines(&["    //[cfg(feature = \"x\")]", "    //# a();", "    //#   b();", "    //[cfg(end)]"])
    );
}

#[test]
fn uncommenting_restores_the_exact_text() {
    let input = lines(&["    //[cfg(feature = \"x\")]", "    //# a();", "    //#   b();", "    //[cfg(end)]"]);
    let out = process(input, &with(&["x"]), &slashes()).unwrap();
    assert_eq!(
        out,
        lines(&["    //[cfg(feature = \"x\")]", "    a();", "      b();", "    //[cfg(end)]"])
    );
}

#[test]
fn nested_scopes_need_every_predicate() {
    let input = lines(&[
        "//[cfg(feature = \"a\")]",
        "in_a();",
        "//[cfg(feature = \"b\")]",
        "in_a_and_b();",
        "//[cfg(end)]",
        "in_a_again();",
        "//[cfg(end)]",
        "outside();",
    ]);
    let out = process(input.clone(), &with(&["a"]), &slashes()).unwrap();
    assert_eq!(out[1], "in_a();");
    assert_eq!(out[3], "//# in_a_and_b();");
    assert_eq!(out[5], "in_a_again();");
    assert_eq!(out[7], "outside();");
    let out = process(input, &with(&["b"]), &slashes()).unwrap();
    assert_eq!(out[1], "//# in_a();");
    assert_eq!(out[3], "//# in_a_and_b();");
    assert_eq!(out[5], "//# in_a_again();");
    assert_eq!(out[7], "outside();");
}

#[test]
fn inner_scope_prefix_returns_to_outer_after_end() {
    let input = lines(&[
        "//[cfg(feature = \"a\")]",
        "  //[cfg(feature = \"b\")]",
        "  x();",
        "  //[cfg(end)]",
        "y();",
        "//[cfg(end)]",
    ]);
    let out = process(input, &with(&["a", "b"]), &slashes()).unwrap();
    assert_eq!(out[2], "  x();");
    assert_eq!(out[4], "y();");
}

#[test]
fn toggling_twice_is_toggling_once() {
    let input = lines(&[
        "//[cfg(feature = \"x\")]",
        "//# on_x();",
        "//[cfg(end)]",
        "//[cfg(not(feature = \"x\"))]",
        "off_x();",
        "//[cfg(end)]",
    ]);
    for config in [with(&["x"]), with(&[]), reset()] {
        let once = process(input.clone(), &config, &slashes()).unwrap();
        let twice = process(once.clone(), &config, &slashes()).unwrap();
        assert_eq!(twice, once);
    }
}

#[test]
fn reset_forgets_the_earlier_configuration() {
    let input = lines(&[
        "//[cfg(feature = \"x\")]",
        "//# on_x();",
        "//[cfg(any(feature = \"y\", feature = \"z\"))]",
        "on_x_and_y_or_z();",
        "//[cfg(end)]",
        "//[cfg(end)]",
        "always();",
    ]);
    let a = process(input.clone(), &with(&["x"]), &slashes()).unwrap();
    let b = process(input.clone(), &with(&["y"]), &slashes()).unwrap();
    assert_ne!(a, b);
    let ra = process(a, &reset(), &slashes()).unwrap();
    let rb = process(b, &reset(), &slashes()).unwrap();
    assert_eq!(ra, rb);
    assert_eq!(ra, process(input, &reset(), &slashes()).unwrap());
}

#[test]
fn twice_commented_line_loses_one_marker_per_pass() {
    let input = lines(&["//# //# a();"]);
    let once = process(input, &reset(), &slashes()).unwrap();
    assert_eq!(once, lines(&["//# a();"]));
    let twice = process(once, &reset(), &slashes()).unwrap();
    assert_eq!(twice, lines(&["a();"]));
}

#[test]
fn process_line_tracks_scopes() {
    let desc = slashes();
    let config = with(&[]);
    let mut state = CfgState::new();
    assert_eq!(state.process_line("a();".to_string(), &config, &desc), Ok("a();".to_string()));
    assert_eq!(state.frames.len(), 0);
    let start = "  //[cfg(feature = \"x\")]".to_string();
    assert_eq!(state.process_line(start.clone(), &config, &desc), Ok(start));
    assert_eq!(state.frames, vec![(false, "  ".to_string())]);
    assert_eq!(state.process_line("  b();".to_string(), &config, &desc), Ok("  //# b();".to_string()));
    assert_eq!(state.process_line("b();".to_string(), &config, &desc), Err(ToggleError::PrefixMismatch));
    assert_eq!(state.frames.len(), 1);
    let end = "  //[cfg(end)]".to_string();
    assert_eq!(state.process_line(end.clone(), &config, &desc), Ok(end.clone()));
    assert_eq!(state.frames.len(), 0);
    assert_eq!(state.process_line(end, &config, &desc), Err(ToggleError::UnbalancedEnd));
    assert_eq!(state.frames.len(), 0);
}

#[test]
fn starts_and_ends_balance_when_the_stack_ends_empty() {
    let desc = slashes();
    let config = with(&["a"]);
    let input = lines(&[
        "//[cfg(feature = \"a\")]",
        "//[cfg(feature = \"b\")]",
        "//[cfg(end)]",
        "x();",
        "//[cfg(end)]",
    ]);
    let mut state = CfgState::new();
    let mut depth = Vec::new();
    for line in input {
        state.process_line(line, &config, &desc).unwrap();
        depth.push(state.frames.len());
    }
    assert_eq!(depth, vec![1, 2, 1, 1, 0]);
}

#[test]
fn directive_needs_prefix_and_suffix() {
    let config = with(&[]);
    let out = process(lines(&["//[cfg(end)] trailing"]), &config, &slashes()).unwrap();
    assert_eq!(out, lines(&["//[cfg(end)] trailing"]));
    let out = process(lines(&["x //[cfg(end)]"]), &config, &slashes()).unwrap();
    assert_eq!(out, lines(&["x //[cfg(end)]"]));
}

#[test]
fn unicode_text_is_kept_whole() {
    let input = lines(&["//[cfg(feature = \"é\")]", "//# let s = \"żółw ✓\";", "//[cfg(end)]"]);
    let out = process(input, &with(&["é"]), &slashes()).unwrap();
    assert_eq!(out[1], "let s = \"żółw ✓\";");
}

#[test]
fn other_language_tokens() {
    let desc = LangDesc {
        cfg_prefix: "#[".to_string(),
        cfg_prefix_comment_len: 1,
        cfg_suffix: "]".to_string(),
        comment: "#- ".to_string(),
    };
    let input = lines(&["#[cfg(feature = \"x\")]", "key = 1", "#[cfg(end)]"]);
    let out = process(input, &with(&[]), &desc).unwrap();
    assert_eq!(out, lines(&["#[cfg(feature = \"x\")]", "#- key = 1", "#[cfg(end)]"]));
}
