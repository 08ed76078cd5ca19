use fcf::config::{Config, EditError};

fn s(x: &str) -> String {
    String::from(x)
}

#[test]
fn new_config_is_empty() {
    let c = Config::new();
    assert!(c.editor.is_none());
    assert!(c.bindings.is_empty());
}

#[test]
fn bind_then_resolve_returns_path() {
    let mut c = Config::new();
    c.bind(s("k"), s("/etc/a.conf"));
    assert_eq!(c.resolve(&s("k")), Some(s("/etc/a.conf")));
}

#[test]
fn bind_overwrites_existing_key() {
    let mut c = Config::new();
    c.bind(s("k"), s("/old"));
    c.bind(s("k"), s("/new"));
    assert_eq!(c.resolve(&s("k")), Some(s("/new")));
    assert_eq!(c.bindings.len(), 1);
}

#[test]
fn resolve_missing_key_is_none() {
    let mut c = Config::new();
    c.bind(s("k"), s("/p"));
    assert_eq!(c.resolve(&s("other")), None);
}

#[test]
fn unbind_present_removes_exactly_that_entry() {
    let mut c = Config::new();
    c.bind(s("a"), s("/1"));
    c.bind(s("b"), s("/2"));
    c.bind(s("c"), s("/3"));
    assert!(c.unbind(&s("b")));
    assert_eq!(c.resolve(&s("b")), None);
    assert_eq!(c.resolve(&s("a")), Some(s("/1")));
    assert_eq!(c.resolve(&s("c")), Some(s("/3")));
    assert_eq!(c.bindings.len(), 2);
}

#[test]
fn unbind_absent_reports_not_found_and_changes_nothing() {
    let mut c = Config::new();
    c.bind(s("a"), s("/1"));
    let before = c.clone();
    assert!(!c.unbind(&s("missing")));
    assert_eq!(c, before);
}

#[test]
fn set_editor_overwrites() {
    let mut c = Config::new();
    c.set_editor(s("vim"));
    assert_eq!(c.editor, Some(s("vim")));
    c.set_editor(s("emacs"));
    assert_eq!(c.editor, Some(s("emacs")));
}

#[test]
fn effective_editor_prefers_configured_one() {
    let mut c = Config::new();
    assert_eq!(c.effective_editor(Some(s("nano"))), Some(s("nano")));
    assert_eq!(c.effective_editor(None), None);
    c.set_editor(s("vim"));
    assert_eq!(c.effective_editor(Some(s("nano"))), Some(s("vim")));
}

#[test]
fn edit_command_reports_missing_editor_first() {
    let c = Config::new();
    assert_eq!(c.edit_command(&s("k"), None), Err(EditError::NoEditor));
}

#[test]
fn edit_command_reports_missing_binding() {
    let mut c = Config::new();
    c.set_editor(s("vim"));
    assert_eq!(c.edit_command(&s("k"), None), Err(EditError::NotBound));
}

#[test]
fn edit_command_uses_fallback_editor() {
    let mut c = Config::new();
    c.bind(s("k"), s("/p"));
    assert_eq!(c.edit_command(&s("k"), Some(s("nano"))), Ok((s("nano"), s("/p"))));
}

#[test]
fn scenario_bind_resolve_editor_edit() {
    let mut c = Config::new();
    c.bind(s("vim-rc"), s("/home/u/.vimrc"));
    assert_eq!(c.resolve(&s("vim-rc")), Some(s("/home/u/.vimrc")));
    c.set_editor(s("vim"));
    let cmd = c.edit_command(&s("vim-rc"), None).unwrap();
    assert_eq!(cmd, (s("vim"), s("/home/u/.vimrc")));
}

#[test]
fn scenario_unbind_missing_on_empty_store() {
    let mut c = Config::new();
    assert!(!c.unbind(&s("missing-key")));
    let doc_before = fcf::json::to_json(&Config::new());
    let doc_after = fcf::json::to_json(&c);
    assert_eq!(doc_before, doc_after);
}

#[test]
fn expand_tilde_with_home() {
    let home = s("/home/u");
    assert_eq!(fcf::paths::expand_tilde("~/x/y", Some(&home)), s("/home/u/x/y"));
    assert_eq!(fcf::paths::expand_tilde("/abs/p", Some(&home)), s("/abs/p"));
    assert_eq!(fcf::paths::expand_tilde("~/x", None), s("~/x"));
    assert_eq!(fcf::paths::expand_tilde("", Some(&home)), s(""));
}
