use lang_switcher::config::Config;
use lang_switcher::watcher::{lang_to_klid, WatcherState};

fn cfg(pairs: &[(&str, &str)]) -> Config {
    let mut c = Config(Vec::new());
    for (k, v) in pairs {
        c.insert(k, v);
    }
    c
}

#[test]
fn first_poll_of_configured_process_requests_switch() {
    let c = cfg(&[("chrome.exe", "fa")]);
    let st = WatcherState::new();
    let name = "chrome.exe".to_string();
    let r = st.poll_decide(Some(10), Some(name.as_str()), &c);
    assert_eq!(r, Some("fa".to_string()));
}

#[test]
fn unchanged_foreground_process_never_reissues() {
    let c = cfg(&[("chrome.exe", "fa")]);
    let mut st = WatcherState::new();
    let name = "chrome.exe".to_string();
    let first = st.poll_decide(Some(10), Some(name.as_str()), &c);
    assert_eq!(first, Some("fa".to_string()));
    st.poll_commit(Some(10), Some(name.as_str()), &c, true);
    // repeated polls, same process, same configuration: no further call
    for _ in 0..3 {
        let again = st.poll_decide(Some(10), Some(name.as_str()), &c);
        assert_eq!(again, None);
        st.poll_commit(Some(10), Some(name.as_str()), &c, false);
    }
}

#[test]
fn unchanged_configured_language_never_reissues() {
    // two processes configured to the same language: switching focus
    // between them issues the call only once
    let c = cfg(&[("chrome.exe", "fa"), ("Code.exe", "fa")]);
    let mut st = WatcherState::new();
    let chrome = "chrome.exe".to_string();
    let code = "Code.exe".to_string();
    assert_eq!(
        st.poll_decide(Some(10), Some(chrome.as_str()), &c),
        Some("fa".to_string())
    );
    st.poll_commit(Some(10), Some(chrome.as_str()), &c, true);
    assert_eq!(st.poll_decide(Some(20), Some(code.as_str()), &c), None);
}

#[test]
fn case_insensitive_lookup_in_watcher() {
    let c = cfg(&[("Chrome.exe", "fa")]);
    let st = WatcherState::new();
    let name = "CHROME.EXE".to_string();
    assert_eq!(
        st.poll_decide(Some(10), Some(name.as_str()), &c),
        Some("fa".to_string())
    );
}

#[test]
fn no_foreground_or_unresolved_process_decides_nothing() {
    let c = cfg(&[("chrome.exe", "fa")]);
    let st = WatcherState::new();
    assert_eq!(st.poll_decide(None, None, &c), None);
    assert_eq!(st.poll_decide(Some(10), None, &c), None);
}

#[test]
fn unconfigured_process_decides_nothing_and_clears_last_language() {
    let c = cfg(&[("chrome.exe", "fa")]);
    let mut st = WatcherState::new();
    let chrome = "chrome.exe".to_string();
    let other = "notepad.exe".to_string();
    st.poll_commit(Some(10), Some(chrome.as_str()), &c, true);
    assert_eq!(st.last_lang, Some("fa".to_string()));
    assert_eq!(st.poll_decide(Some(20), Some(other.as_str()), &c), None);
    st.poll_commit(Some(20), Some(other.as_str()), &c, false);
    assert_eq!(st.last_lang, None);
    // chrome again: the call is re-issued since the last language was cleared
    assert_eq!(
        st.poll_decide(Some(10), Some(chrome.as_str()), &c),
        Some("fa".to_string())
    );
}

#[test]
fn failed_switch_is_retried_on_next_process_change() {
    let c = cfg(&[("chrome.exe", "fa"), ("Code.exe", "fa")]);
    let mut st = WatcherState::new();
    let chrome = "chrome.exe".to_string();
    let code = "Code.exe".to_string();
    assert_eq!(
        st.poll_decide(Some(10), Some(chrome.as_str()), &c),
        Some("fa".to_string())
    );
    // the OS call failed: the language is not recorded
    st.poll_commit(Some(10), Some(chrome.as_str()), &c, false);
    assert_eq!(st.last_lang, None);
    assert_eq!(
        st.poll_decide(Some(20), Some(code.as_str()), &c),
        Some("fa".to_string())
    );
}

#[test]
fn klid_mapping_is_fixed() {
    assert_eq!(lang_to_klid("en"), Some("00000409"));
    assert_eq!(lang_to_klid("fa"), Some("00000429"));
    assert_eq!(lang_to_klid("de"), None);
    assert_eq!(lang_to_klid("EN"), None);
    assert_eq!(lang_to_klid(""), None);
}

#[test]
fn changed_configured_language_reissues_on_next_process_change() {
    let mut st = WatcherState::new();
    let chrome = "chrome.exe".to_string();
    let code = "Code.exe".to_string();
    let before = cfg(&[("chrome.exe", "fa"), ("Code.exe", "fa")]);
    st.poll_commit(Some(10), Some(chrome.as_str()), &before, true);
    // the user re-configures the next program to another language
    let after = cfg(&[("chrome.exe", "fa"), ("Code.exe", "en")]);
    assert_eq!(
        st.poll_decide(Some(20), Some(code.as_str()), &after),
        Some("en".to_string())
    );
}
