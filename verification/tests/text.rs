use cfgcomment::attributes::{attribute_line, has_line, missing_attribute_lines};
use cfgcomment::buildscript::feature_name;
use cfgcomment::lang::{LangDesc, LangTable};
use cfgcomment::state::CfgState;
use cfgcomment::toggle::ToggleError;
use cfgcomment::text::{
    char_is_ascii_space, char_is_space, count_lead_ascii_space, count_lead_space,
    count_trail_space, range_ends_with, range_starts_with, skip_str, split_at_ws_end, to_chars,
};

fn chars(s: &str) -> Vec<char> {
    s.chars().collect()
}

#[test]
fn split_behind_leading_whitespace() {
    assert_eq!(split_at_ws_end("  \t x y "), ("  \t ", "x y "));
    assert_eq!(split_at_ws_end("x"), ("", "x"));
    assert_eq!(split_at_ws_end("   "), ("   ", ""));
    assert_eq!(split_at_ws_end(""), ("", ""));
    assert_eq!(split_at_ws_end("\r\n\x0Cx"), ("\r\n\x0C", "x"));
}

#[test]
fn split_stops_at_whitespace_that_is_not_ascii() {
    assert_eq!(split_at_ws_end(" \u{a0} x"), (" ", "\u{a0} x"));
    assert_eq!(split_at_ws_end("\x0B x"), ("", "\x0B x"));
    assert_eq!(split_at_ws_end(" é"), (" ", "é"));
}

#[test]
fn whitespace_classes_agree_with_std() {
    for n in 0..0x3100u32 {
        if let Some(c) = char::from_u32(n) {
            assert_eq!(char_is_space(c), c.is_whitespace(), "{:x}", n);
            assert_eq!(char_is_ascii_space(c), c.is_ascii() && (c as u8).is_ascii_whitespace(), "{:x}", n);
        }
    }
    assert!(!char_is_space('\u{feff}'));
    assert!(!char_is_space('\u{10ffff}'));
}

#[test]
fn to_chars_keeps_every_character() {
    assert_eq!(to_chars(""), Vec::<char>::new());
    assert_eq!(to_chars("aé✓\u{1F600}b"), vec!['a', 'é', '✓', '\u{1F600}', 'b']);
}

#[test]
fn counting_whitespace() {
    assert_eq!(count_lead_space(&chars("  \u{a0}\tx ")), 4);
    assert_eq!(count_lead_ascii_space(&chars("  \u{a0}\tx ")), 2);
    assert_eq!(count_trail_space(&chars(" x \u{3000}\n")), 3);
    assert_eq!(count_lead_space(&chars(" \t ")), 3);
    assert_eq!(count_trail_space(&chars(" \t ")), 3);
    assert_eq!(count_lead_space(&chars("")), 0);
    assert_eq!(count_trail_space(&chars("x")), 0);
}

#[test]
fn ranges_start_and_end() {
    let v = chars("  //[x]  ");
    assert!(range_starts_with(&v, 2, 9, &chars("//[")));
    assert!(!range_starts_with(&v, 0, 9, &chars("//[")));
    assert!(!range_starts_with(&v, 2, 4, &chars("//[")));
    assert!(range_starts_with(&v, 2, 2, &chars("")));
    assert!(range_ends_with(&v, 0, 7, &chars("]")));
    assert!(!range_ends_with(&v, 0, 9, &chars("]")));
    assert!(range_ends_with(&v, 0, 7, &chars("//[x]")));
    assert!(!range_ends_with(&v, 3, 7, &chars("//[x]")));
    assert!(range_ends_with(&v, 4, 4, &chars("")));
}

#[test]
fn skipping_characters() {
    assert_eq!(skip_str("//[cfg]", 2), "[cfg]");
    assert_eq!(skip_str("éé[cfg]", 2), "[cfg]");
    assert_eq!(skip_str("ab", 2), "");
    assert_eq!(skip_str("ab", 3), "");
    assert_eq!(skip_str("ab", 0), "ab");
}

#[test]
fn scope_stack() {
    let mut s = CfgState::new();
    assert!(s.enabled());
    assert_eq!(s.prefix(), "");
    assert_eq!(s.pop(), None);
    s.push((true, "  ".to_string()));
    assert!(s.enabled());
    assert_eq!(s.prefix(), "  ");
    s.push((false, "    ".to_string()));
    assert!(!s.enabled());
    assert_eq!(s.prefix(), "    ");
    s.push((true, "\t".to_string()));
    assert!(!s.enabled());
    assert_eq!(s.prefix(), "\t");
    assert_eq!(s.pop(), Some(()));
    assert_eq!(s.pop(), Some(()));
    assert!(s.enabled());
    assert_eq!(s.prefix(), "  ");
    assert_eq!(s.pop(), Some(()));
    assert_eq!(s.pop(), None);
    assert_eq!(s.frames.len(), 0);
}

#[test]
fn built_in_table() {
    let t = LangDesc::default_list();
    let rs = t.get("rs").unwrap();
    assert_eq!(rs.cfg_prefix, "//[");
    assert_eq!(rs.cfg_prefix_comment_len, 2);
    assert_eq!(rs.cfg_suffix, "]");
    assert_eq!(rs.comment, "//# ");
    assert!(t.get("txt").is_none());
    assert!(t.get("").is_none());
    assert!(t.get(".rs").is_none());
}

#[test]
fn table_entries_can_be_added_and_replaced() {
    let mut t = LangTable::new();
    assert!(t.get("py").is_none());
    let py = LangDesc {
        cfg_prefix: "#[".to_string(),
        cfg_prefix_comment_len: 1,
        cfg_suffix: "]".to_string(),
        comment: "#- ".to_string(),
    };
    t.insert("py".to_string(), py.clone());
    t.insert("rs".to_string(), LangDesc::slashes());
    assert_eq!(t.get("py").unwrap().comment, "#- ");
    assert_eq!(t.get("rs").unwrap().comment, "//# ");
    let mut other = py.clone();
    other.comment = "## ".to_string();
    t.insert("py".to_string(), other);
    assert_eq!(t.get("py").unwrap().comment, "## ");
    assert_eq!(t.get("py").unwrap().cfg_prefix, "#[");
    assert_eq!(t.get("rs").unwrap().comment, "//# ");
}

#[test]
fn feature_names_from_variables() {
    assert_eq!(feature_name("CARGO_FEATURE_SERDE"), Some("serde".to_string()));
    assert_eq!(feature_name("CARGO_FEATURE_WITH_STD_2"), Some("with-std-2".to_string()));
    assert_eq!(feature_name("CARGO_FEATURE_"), Some("".to_string()));
    assert_eq!(feature_name("CARGO_FEATURE_MiXed_é_Z"), Some("mixed-é-z".to_string()));
    assert_eq!(feature_name("CARGO_FEATURE"), None);
    assert_eq!(feature_name("cargo_feature_x"), None);
    assert_eq!(feature_name("PATH"), None);
    assert_eq!(feature_name(""), None);
}

#[test]
fn feature_names_agree_with_std() {
    for name in ["A_B", "Z@[`{", "ÀB_c-", "__"] {
        let variable = format!("CARGO_FEATURE_{}", name);
        let expected = name.to_ascii_lowercase().replace("_", "-");
        assert_eq!(feature_name(&variable), Some(expected));
    }
}

#[test]
fn attribute_lines() {
    assert_eq!(attribute_line("rs"), "*.rs filter=cfgcomment");
    assert_eq!(attribute_line(""), "*. filter=cfgcomment");
    let table = LangDesc::default_list();
    assert_eq!(missing_attribute_lines(&table, &Vec::new()), vec!["*.rs filter=cfgcomment".to_string()]);
    let present = vec!["*.txt text".to_string(), "*.rs filter=cfgcomment".to_string()];
    assert!(has_line(&present, &"*.txt text".to_string()));
    assert!(!has_line(&present, &"*.txt".to_string()));
    assert_eq!(missing_attribute_lines(&table, &present), Vec::<String>::new());
}

#[test]
fn attribute_lines_come_once_and_in_table_order() {
    let mut table = LangTable::new();
    for ext in ["rs", "c", "rs", "h", "c"] {
        table.insert(ext.to_string(), LangDesc::slashes());
    }
    let present = vec!["*.h filter=cfgcomment".to_string()];
    assert_eq!(
        missing_attribute_lines(&table, &present),
        vec!["*.rs filter=cfgcomment".to_string(), "*.c filter=cfgcomment".to_string()]
    );
}

#[test]
fn error_messages() {
    assert_eq!(ToggleError::UnbalancedEnd.message(), "unexpected end");
    assert_eq!(ToggleError::PrefixMismatch.message(), "wrong prefix");
    assert_eq!(ToggleError::DirectiveParseError.message(), "malformed directive");
}

#[test]
fn default_state_is_outside_any_scope() {
    let s = CfgState::default();
    assert_eq!(s.frames.len(), 0);
    assert!(s.enabled());
    assert_eq!(s.prefix(), "");
}
