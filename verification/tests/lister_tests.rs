use lang_switcher::codec::parse_config;
use lang_switcher::config::Config;
use lang_switcher::lister::{
    is_gui_running, is_watcher_running, LangState, ProcessInfo, WindowInfo,
};

fn cfg(pairs: &[(&str, &str)]) -> Config {
    let mut c = Config(Vec::new());
    for (k, v) in pairs {
        c.insert(k, v);
    }
    c
}

fn proc(pid: u32, name: &str, exe: Option<&str>) -> ProcessInfo {
    ProcessInfo { pid, name: name.to_string(), exe_path: exe.map(|s| s.to_string()) }
}

fn names_and_langs(st: &LangState) -> Vec<(String, String)> {
    st.programs.iter().map(|p| (p.name.clone(), p.lang.clone())).collect()
}

#[test]
fn predefined_list_is_fixed() {
    assert_eq!(
        LangState::predefined_list(),
        vec![
            "Code.exe",
            "PyCharm.exe",
            "chrome.exe",
            "firefox.exe",
            "Opera.exe",
            "WINWORD.EXE",
            "EXCEL.EXE"
        ]
    );
}

#[test]
fn visible_window_pids_filters_and_dedups() {
    let windows = vec![
        WindowInfo { pid: 1, visible: true, title_len: 5 },
        WindowInfo { pid: 1, visible: true, title_len: 7 },
        WindowInfo { pid: 2, visible: false, title_len: 5 },
        WindowInfo { pid: 3, visible: true, title_len: 0 },
        WindowInfo { pid: 0, visible: true, title_len: 5 },
        WindowInfo { pid: 4, visible: true, title_len: 1 },
    ];
    assert_eq!(LangState::visible_window_pids(&windows), vec![1, 4]);
}

#[test]
fn skips_blacklisted_names_case_insensitively() {
    assert!(LangState::should_skip_process("explorer.exe", None, None));
    assert!(LangState::should_skip_process("Explorer.EXE", None, None));
    assert!(LangState::should_skip_process("DWM.exe", None, None));
    assert!(!LangState::should_skip_process("chrome.exe", None, None));
}

#[test]
fn skips_os_directories() {
    let p1 = "C:\\Windows\\System32\\svchost.exe".to_string();
    let p2 = "/windows/thing".to_string();
    let p3 = "C:\\Program Files\\App\\app.exe".to_string();
    assert!(LangState::should_skip_process("svchost.exe", Some(&p1), None));
    assert!(LangState::should_skip_process("thing", Some(&p2), None));
    assert!(!LangState::should_skip_process("app.exe", Some(&p3), None));
}

#[test]
fn skips_itself_by_current_executable_name() {
    let me = "lang_switcher_rust.exe".to_string();
    assert!(LangState::should_skip_process("LANG_SWITCHER_RUST.EXE", None, Some(&me)));
    assert!(!LangState::should_skip_process("chrome.exe", None, Some(&me)));
}

#[test]
fn builds_allowlist_first_then_others_sorted() {
    let procs = vec![
        proc(1, "zebra.exe", Some("C:\\apps\\zebra.exe")),
        proc(2, "chrome.exe", Some("C:\\apps\\chrome.exe")),
        proc(3, "explorer.exe", None),
        proc(4, "Alpha.exe", Some("C:\\apps\\alpha.exe")),
        proc(5, "Code.exe", Some("C:\\apps\\code.exe")),
    ];
    let c = cfg(&[("chrome.exe", "fa")]);
    let st = LangState::new(&procs, &Vec::new(), &c, None);
    assert_eq!(
        names_and_langs(&st),
        vec![
            ("Code.exe".to_string(), "en".to_string()),
            ("chrome.exe".to_string(), "fa".to_string()),
            ("Alpha.exe".to_string(), "en".to_string()),
            ("zebra.exe".to_string(), "en".to_string()),
        ]
    );
}

#[test]
fn listed_program_matches_configuration_up_to_case() {
    // the entry's key differs from the process name only in letter case
    let procs = vec![proc(1, "Code.exe", None)];
    let c = cfg(&[("CODE.EXE", "fa")]);
    let st = LangState::new(&procs, &Vec::new(), &c, None);
    assert_eq!(names_and_langs(&st), vec![("Code.exe".to_string(), "fa".to_string())]);
}

#[test]
fn allowlisted_program_without_entry_gets_default() {
    let procs = vec![
        proc(1, "Code.exe", None),
        proc(2, "WINWORD.EXE", None),
        proc(3, "chrome.exe", None),
    ];
    let c = cfg(&[("chrome.exe", "fa")]);
    let st = LangState::new(&procs, &Vec::new(), &c, None);
    for (name, lang) in names_and_langs(&st) {
        if name == "chrome.exe" {
            assert_eq!(lang, "fa");
        } else {
            assert_eq!(lang, "en");
        }
    }
}

#[test]
fn dedups_by_executable_path_ignoring_case() {
    let procs = vec![
        proc(1, "tool.exe", Some("C:\\Apps\\Tool.exe")),
        proc(2, "TOOL.EXE", Some("c:\\apps\\tool.exe")),
    ];
    let c = Config(Vec::new());
    let st = LangState::new(&procs, &Vec::new(), &c, None);
    assert_eq!(st.programs.len(), 1);
    assert_eq!(st.programs[0].name, "tool.exe");
}

#[test]
fn window_filter_hides_processes_without_visible_window() {
    let procs = vec![
        proc(1, "chrome.exe", None),
        proc(2, "zebra.exe", None),
    ];
    let c = Config(Vec::new());
    let st = LangState::new(&procs, &vec![2], &c, None);
    assert_eq!(names_and_langs(&st), vec![("zebra.exe".to_string(), "en".to_string())]);
}

#[test]
fn allowlist_scan_takes_first_visible_match() {
    let procs = vec![
        proc(1, "chrome.exe", Some("C:\\a\\chrome.exe")),
        proc(2, "chrome.exe", Some("C:\\b\\chrome.exe")),
    ];
    let c = Config(Vec::new());
    let st = LangState::new(&procs, &vec![2], &c, None);
    assert_eq!(st.programs.len(), 1);
    assert_eq!(st.programs[0].exe_path, Some("C:\\b\\chrome.exe".to_string()));
}

#[test]
fn blank_names_are_not_listed() {
    let procs = vec![proc(1, "   ", None), proc(2, "ok.exe", None)];
    let c = Config(Vec::new());
    let st = LangState::new(&procs, &Vec::new(), &c, None);
    assert_eq!(st.programs.len(), 1);
    assert_eq!(st.programs[0].name, "ok.exe");
}

#[test]
fn refresh_keeps_the_language_already_shown() {
    let procs = vec![proc(1, "chrome.exe", None)];
    let c = cfg(&[("chrome.exe", "fa")]);
    let mut st = LangState::new(&procs, &Vec::new(), &c, None);
    assert_eq!(st.programs[0].lang, "fa");
    st.toggle_lang(0);
    assert_eq!(st.programs[0].lang, "en");
    // a refresh re-reads the snapshot but keeps the toggled language
    st.refresh(&procs, &Vec::new(), &c, None);
    assert_eq!(names_and_langs(&st), vec![("chrome.exe".to_string(), "en".to_string())]);
}

#[test]
fn toggle_flips_between_the_two_languages() {
    let procs = vec![proc(1, "zebra.exe", None)];
    let c = Config(Vec::new());
    let mut st = LangState::new(&procs, &Vec::new(), &c, None);
    assert_eq!(st.programs[0].lang, "en");
    st.toggle_lang(0);
    assert_eq!(st.programs[0].lang, "fa");
    st.toggle_lang(0);
    assert_eq!(st.programs[0].lang, "en");
}

#[test]
fn toggle_then_save_persists_exactly_that_value() {
    let procs = vec![
        proc(1, "chrome.exe", None),
        proc(2, "zebra.exe", None),
        proc(3, "alpha.exe", None),
    ];
    let c = cfg(&[("chrome.exe", "fa")]);
    let mut st = LangState::new(&procs, &Vec::new(), &c, None);
    let idx = st.programs.iter().position(|p| p.name == "zebra.exe").unwrap();
    st.toggle_lang(idx);
    assert_eq!(st.programs[idx].lang, "fa");
    let doc = st.save_config();
    let saved = parse_config(&doc).unwrap();
    assert_eq!(saved.get("zebra.exe"), Some("fa".to_string()));
    // and no other entry changed
    assert_eq!(saved.get("chrome.exe"), Some("fa".to_string()));
    assert_eq!(saved.get("alpha.exe"), Some("en".to_string()));
    assert_eq!(saved.0.len(), 3);
}

#[test]
fn finds_watcher_and_gui_processes() {
    let procs = vec![proc(1, "Watcher.EXE", None), proc(2, "other", None)];
    assert!(is_watcher_running(&procs));
    assert!(!is_gui_running(&procs));
    let procs2 = vec![proc(1, "lang_switcher_rust", None)];
    assert!(!is_watcher_running(&procs2));
    assert!(is_gui_running(&procs2));
    assert!(!is_watcher_running(&Vec::new()));
}

#[test]
fn case_equal_names_keep_snapshot_order() {
    // two distinct executables whose names differ only in case: the sort
    // is stable, so they stay in snapshot order behind alpha.exe
    let procs = vec![
        proc(1, "beta.exe", Some("C:\\x\\beta.exe")),
        proc(2, "BETA.exe", Some("C:\\y\\other.exe")),
        proc(3, "alpha.exe", None),
    ];
    let c = Config(Vec::new());
    let st = LangState::new(&procs, &Vec::new(), &c, None);
    let names: Vec<String> = st.programs.iter().map(|p| p.name.clone()).collect();
    assert_eq!(names, vec!["alpha.exe", "beta.exe", "BETA.exe"]);
}
