use fcf::config::Config;
use fcf::json::{parse_config, to_json};

fn s(x: &str) -> String {
    String::from(x)
}

#[test]
fn load_empty_text_gives_default_config() {
    let c = parse_config("").unwrap();
    assert!(c.editor.is_none());
    assert!(c.bindings.is_empty());
}

#[test]
fn save_empty_config_exact_text() {
    let c = Config::new();
    assert_eq!(to_json(&c), s("{\n  \"editor\": null,\n  \"bindings\": {}\n}"));
}

#[test]
fn save_full_config_exact_text() {
    let mut c = Config::new();
    c.set_editor(s("vim"));
    c.bind(s("vim-rc"), s("/home/u/.vimrc"));
    assert_eq!(
        to_json(&c),
        s("{\n  \"editor\": \"vim\",\n  \"bindings\": {\n    \"vim-rc\": \"/home/u/.vimrc\"\n  }\n}"),
    );
}

#[test]
fn save_then_load_is_identity_for_empty() {
    let c = Config::new();
    assert_eq!(parse_config(&to_json(&c)).unwrap(), c);
}

#[test]
fn save_then_load_is_identity_with_entries() {
    let mut c = Config::new();
    c.set_editor(s("emacs"));
    c.bind(s("a"), s("/etc/a"));
    c.bind(s("b"), s("/etc/b"));
    assert_eq!(parse_config(&to_json(&c)).unwrap(), c);
}

#[test]
fn save_then_load_is_identity_with_special_characters() {
    let mut c = Config::new();
    c.set_editor(s("ed\"i\\tor"));
    c.bind(s("ke\ny"), s("/tmp/\t tab"));
    c.bind(s("h\u{e9}llo \u{2699}"), s("ctrl\u{1}char\r\u{8}\u{c}"));
    c.bind(s(""), s(""));
    let text = to_json(&c);
    assert_eq!(parse_config(&text).unwrap(), c);
}

#[test]
fn set_editor_then_load_reflects_editor() {
    let mut c = Config::new();
    c.bind(s("k"), s("/p"));
    c.set_editor(s("vim"));
    let loaded = parse_config(&to_json(&c)).unwrap();
    assert_eq!(loaded.editor, Some(s("vim")));
    c.set_editor(s("nano"));
    let loaded2 = parse_config(&to_json(&c)).unwrap();
    assert_eq!(loaded2.editor, Some(s("nano")));
    assert_eq!(loaded2.resolve(&s("k")), Some(s("/p")));
}

#[test]
fn unbind_absent_leaves_document_text_unchanged() {
    let mut c = Config::new();
    c.set_editor(s("vim"));
    c.bind(s("a"), s("/1"));
    let before = to_json(&c);
    assert!(!c.unbind(&s("missing")));
    assert_eq!(to_json(&c), before);
}

#[test]
fn unbind_present_drops_only_that_entry_from_document() {
    let mut c = Config::new();
    c.bind(s("a"), s("/1"));
    c.bind(s("b"), s("/2"));
    assert!(c.unbind(&s("a")));
    assert_eq!(
        to_json(&c),
        s("{\n  \"editor\": null,\n  \"bindings\": {\n    \"b\": \"/2\"\n  }\n}"),
    );
}

#[test]
fn load_accepts_members_in_either_order() {
    let c = parse_config("{\"bindings\": {\"k\": \"/p\"}, \"editor\": \"vi\"}").unwrap();
    assert_eq!(c.editor, Some(s("vi")));
    assert_eq!(c.resolve(&s("k")), Some(s("/p")));
}

#[test]
fn load_accepts_missing_members_and_null() {
    let c = parse_config("{}").unwrap();
    assert!(c.editor.is_none());
    assert!(c.bindings.is_empty());
    let c2 = parse_config("{\"editor\": null, \"bindings\": null}").unwrap();
    assert!(c2.editor.is_none());
    assert!(c2.bindings.is_empty());
    let c3 = parse_config("{\"editor\": \"vi\"}").unwrap();
    assert_eq!(c3.editor, Some(s("vi")));
}

#[test]
fn load_accepts_whitespace_between_tokens() {
    let c = parse_config(" \t\r\n{ \"editor\" :\n null ,\n \"bindings\" : {\n \"k\" : \"/p\" } } \n").unwrap();
    assert!(c.editor.is_none());
    assert_eq!(c.resolve(&s("k")), Some(s("/p")));
}

#[test]
fn load_decodes_string_escapes() {
    let c = parse_config("{\"editor\": \"\\u0041\\n\\t\\\"\\\\\\/\\b\\f\\r\\u0009\"}").unwrap();
    assert_eq!(c.editor, Some(s("A\n\t\"\\/\u{8}\u{c}\r\t")));
}

#[test]
fn load_keeps_last_of_repeated_binding_keys() {
    let c = parse_config("{\"bindings\": {\"k\": \"/old\", \"k\": \"/new\"}}").unwrap();
    assert_eq!(c.resolve(&s("k")), Some(s("/new")));
    assert_eq!(c.bindings.len(), 1);
}

#[test]
fn load_rejects_malformed_documents() {
    assert!(parse_config(" ").is_err());
    assert!(parse_config("{").is_err());
    assert!(parse_config("garbage").is_err());
    assert!(parse_config("{\"editor\": 5}").is_err());
    assert!(parse_config("{\"unknown\": \"x\"}").is_err());
    assert!(parse_config("{\"editor\": null, \"editor\": null}").is_err());
    assert!(parse_config("{\"editor\": null} trailing").is_err());
    assert!(parse_config("{\"bindings\": {\"k\": 1}}").is_err());
    assert!(parse_config("{\"bindings\": [\"k\"]}").is_err());
    assert!(parse_config("{\"editor\": \"unterminated}").is_err());
    assert!(parse_config("{\"editor\": \"bad\\q\"}").is_err());
    assert!(parse_config("{\"editor\": \"vi\"").is_err());
}
