use lang_switcher::config::Config;

fn cfg(pairs: &[(&str, &str)]) -> Config {
    let mut c = Config(Vec::new());
    for (k, v) in pairs {
        c.insert(k, v);
    }
    c
}

#[test]
fn get_is_exact() {
    let c = cfg(&[("Chrome.exe", "fa")]);
    assert_eq!(c.get("Chrome.exe"), Some("fa".to_string()));
    assert_eq!(c.get("chrome.exe"), None);
    assert_eq!(c.get("firefox.exe"), None);
}

#[test]
fn lookup_prefers_exact_match() {
    let c = cfg(&[("CHROME.EXE", "fa"), ("chrome.exe", "en")]);
    assert_eq!(c.lookup("chrome.exe"), Some("en".to_string()));
    assert_eq!(c.lookup("CHROME.EXE"), Some("fa".to_string()));
}

#[test]
fn lookup_falls_back_to_case_insensitive() {
    let c = cfg(&[("Chrome.exe", "fa")]);
    assert_eq!(c.lookup("chrome.exe"), Some("fa".to_string()));
    assert_eq!(c.lookup("CHROME.EXE"), Some("fa".to_string()));
    assert_eq!(c.lookup("opera.exe"), None);
}

#[test]
fn unconfigured_name_gets_default_language() {
    let c = cfg(&[("chrome.exe", "fa")]);
    assert_eq!(c.assigned_lang("Code.exe"), "en".to_string());
    assert_eq!(c.assigned_lang("WINWORD.EXE"), "en".to_string());
}

#[test]
fn assigned_lang_uses_exact_entry() {
    let c = cfg(&[("Code.exe", "fa")]);
    assert_eq!(c.assigned_lang("Code.exe"), "fa".to_string());
}

#[test]
fn assigned_lang_matches_up_to_case() {
    let c = cfg(&[("CODE.EXE", "fa")]);
    assert_eq!(c.assigned_lang("Code.exe"), "fa".to_string());
    assert_eq!(c.assigned_lang("code.exe"), "fa".to_string());
}

#[test]
fn insert_replaces_existing_key() {
    let mut c = cfg(&[("a", "en"), ("b", "fa")]);
    c.insert("a", "fa");
    assert_eq!(c.0.len(), 2);
    assert_eq!(c.get("a"), Some("fa".to_string()));
    assert_eq!(c.get("b"), Some("fa".to_string()));
    c.insert("c", "en");
    assert_eq!(c.0.len(), 3);
    assert_eq!(c.get("c"), Some("en".to_string()));
}

#[test]
fn default_config_is_empty() {
    let c = Config::default();
    assert!(c.0.is_empty());
    assert_eq!(c.lookup("anything"), None);
}
