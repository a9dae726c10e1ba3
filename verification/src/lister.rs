//! The program lister: from a snapshot of running processes and visible
//! windows it builds the list the GUI shows — the allow-listed programs
//! first, then every other visible program, filtered of shell and system
//! processes, deduplicated by executable, and sorted by name. Each program
//! carries its configured language, and toggling one and saving persists
//! exactly that change.

use vstd::prelude::*;
use vstd::utf8::encode_utf8;

use crate::config::{
    default_lang, find_exact, fold_upsert, keys_distinct, spec_assigned, Config,
};
use crate::codec::{config_to_json, print_doc};
use crate::text::{
    bytes_eq, ci_eq, ci_eq_bytes, ci_le, contains_bytes, contains_seq, is_blank, is_blank_bytes,
    lower, lower_bytes, str_bytes,
};

verus! {

/// One entry of the lister: a program, its assigned language, and the
/// executable path when the snapshot knows one.
#[derive(Debug)]
pub struct Program {
    pub name: String,
    pub lang: String,
    pub exe_path: Option<String>,
}

/// The lister's state: the programs currently shown.
pub struct LangState {
    pub programs: Vec<Program>,
}

/// One running process, as the process snapshot reports it.
#[derive(Debug)]
pub struct ProcessInfo {
    pub pid: u32,
    pub name: String,
    pub exe_path: Option<String>,
}

/// One top-level window, as the window enumeration reports it: the owning
/// process, whether the window is visible, and its title length.
#[derive(Debug)]
pub struct WindowInfo {
    pub pid: u32,
    pub visible: bool,
    pub title_len: u32,
}

impl Program {
    /// The UTF-8 bytes of the program name.
    pub open spec fn nb(self) -> Seq<u8> {
        encode_utf8(self.name@)
    }

    /// The UTF-8 bytes of the language tag.
    pub open spec fn lb(self) -> Seq<u8> {
        encode_utf8(self.lang@)
    }

    /// The UTF-8 bytes of the executable path, when there is one.
    pub open spec fn pb(self) -> Option<Seq<u8>> {
        match self.exe_path {
            Some(p) => Some(encode_utf8(p@)),
            None => None,
        }
    }
}

impl ProcessInfo {
    /// The UTF-8 bytes of the process name.
    pub open spec fn nb(self) -> Seq<u8> {
        encode_utf8(self.name@)
    }

    /// The UTF-8 bytes of the executable path, when the snapshot knows one.
    pub open spec fn pb(self) -> Option<Seq<u8>> {
        match self.exe_path {
            Some(p) => Some(encode_utf8(p@)),
            None => None,
        }
    }
}

/// The byte-level view of one program: name, language, path.
pub open spec fn prog_view(p: Program) -> (Seq<u8>, Seq<u8>, Option<Seq<u8>>) {
    (p.nb(), p.lb(), p.pb())
}

/// The byte-level view of a program list.
pub open spec fn progs_view(ps: Seq<Program>) -> Seq<(Seq<u8>, Seq<u8>, Option<Seq<u8>>)> {
    ps.map_values(|p: Program| prog_view(p))
}

/// The byte-level view of the dedup keys seen so far.
pub open spec fn seen_view(s: Seq<Vec<u8>>) -> Seq<Seq<u8>> {
    s.map_values(|v: Vec<u8>| v@)
}

/// The fixed allow-list of well-known executables the lister puts first.
pub open spec fn spec_predefined() -> Seq<Seq<u8>> {
    seq![
        encode_utf8("Code.exe"@),
        encode_utf8("PyCharm.exe"@),
        encode_utf8("chrome.exe"@),
        encode_utf8("firefox.exe"@),
        encode_utf8("Opera.exe"@),
        encode_utf8("WINWORD.EXE"@),
        encode_utf8("EXCEL.EXE"@),
    ]
}

/// Shell and system executables the lister never shows.
pub open spec fn spec_blacklist() -> Seq<Seq<u8>> {
    seq![
        encode_utf8("explorer.exe"@),
        encode_utf8("shellexperiencehost.exe"@),
        encode_utf8("systemsettings.exe"@),
        encode_utf8("applicationframehost.exe"@),
        encode_utf8("searchui.exe"@),
        encode_utf8("startmenuexperiencehost.exe"@),
        encode_utf8("sihost.exe"@),
        encode_utf8("runtimebroker.exe"@),
        encode_utf8("audiodg.exe"@),
        encode_utf8("wsappx.exe"@),
        encode_utf8("smss.exe"@),
        encode_utf8("csrss.exe"@),
        encode_utf8("wininit.exe"@),
        encode_utf8("services.exe"@),
        encode_utf8("lsass.exe"@),
        encode_utf8("dwm.exe"@),
        encode_utf8("taskhostw.exe"@),
    ]
}

/// Path fragments that mark an executable as part of the OS installation.
pub open spec fn spec_path_patterns() -> Seq<Seq<u8>> {
    seq![
        encode_utf8("\\windows\\"@),
        encode_utf8("/windows/"@),
        encode_utf8("\\system32\\"@),
        encode_utf8("/system32/"@),
        encode_utf8("\\syswow64\\"@),
        encode_utf8("/syswow64/"@),
    ]
}

impl LangState {
    /// The allow-list, in the order the lister scans it.
    pub fn predefined_list() -> (r: Vec<&'static str>)
        ensures
            r@.len() == spec_predefined().len(),
            forall|i: int|
                0 <= i < r@.len() ==> encode_utf8((#[trigger] r@[i])@) == spec_predefined()[i],
    {
        let r: Vec<&'static str> = vec![
            "Code.exe",
            "PyCharm.exe",
            "chrome.exe",
            "firefox.exe",
            "Opera.exe",
            "WINWORD.EXE",
            "EXCEL.EXE",
        ];
        proof {
            assert(encode_utf8(r@[0]@) == spec_predefined()[0]);
            assert(encode_utf8(r@[1]@) == spec_predefined()[1]);
            assert(encode_utf8(r@[2]@) == spec_predefined()[2]);
            assert(encode_utf8(r@[3]@) == spec_predefined()[3]);
            assert(encode_utf8(r@[4]@) == spec_predefined()[4]);
            assert(encode_utf8(r@[5]@) == spec_predefined()[5]);
            assert(encode_utf8(r@[6]@) == spec_predefined()[6]);
        }
        r
    }

    /// The processes owning a visible, titled top-level window: those are
    /// the programs worth listing when window information is available.
    #[verifier::loop_isolation(false)]
    pub fn visible_window_pids(windows: &Vec<WindowInfo>) -> (r: Vec<u32>)
        ensures
            r@ == spec_visible_pids(windows@, Seq::empty()),
            forall|k: int| 0 <= k < r@.len() ==> spec_pid_listed(windows@, #[trigger] r@[k]),
            forall|j: int|
                0 <= j < windows@.len() && spec_listed_window(#[trigger] windows@[j])
                    ==> r@.contains(windows@[j].pid),
            forall|i: int, j: int| 0 <= i < j < r@.len() ==> r@[i] != r@[j],
    {
        let mut r: Vec<u32> = Vec::new();
        proof {
            assert(windows@.skip(0) =~= windows@);
        }
        let mut i: usize = 0;
        while i < windows.len()
            invariant
                i <= windows@.len(),
                spec_visible_pids(windows@.skip(i as int), r@) == spec_visible_pids(
                    windows@,
                    Seq::empty(),
                ),
                forall|k: int| 0 <= k < r@.len() ==> spec_pid_listed(windows@, #[trigger] r@[k]),
                forall|j: int|
                    0 <= j < i && spec_listed_window(#[trigger] windows@[j]) ==> r@.contains(
                        windows@[j].pid,
                    ),
                forall|p: int, q: int| 0 <= p < q < r@.len() ==> r@[p] != r@[q],
            decreases windows@.len() - i,
        {
            let ghost rv0 = r@;
            proof {
                assert(windows@.skip(i as int)[0] == windows@[i as int]);
                assert(windows@.skip(i as int).skip(1) =~= windows@.skip(i as int + 1));
            }
            let w = &windows[i];
            if w.visible && w.title_len > 0 && w.pid != 0 {
                if !contains_u32(&r, w.pid) {
                    let ghost r0 = r@;
                    r.push(w.pid);
                    proof {
                        assert(spec_listed_window(windows@[i as int]));
                        assert(spec_pid_listed(windows@, windows@[i as int].pid));
                        assert forall|j: int|
                            0 <= j < i + 1 && spec_listed_window(#[trigger] windows@[j])
                                implies r@.contains(windows@[j].pid) by {
                            if j < i {
                                let k = choose|k: int|
                                    0 <= k < r0.len() && r0[k] == windows@[j].pid;
                                assert(r@[k] == windows@[j].pid);
                            } else {
                                assert(r@[r0.len() as int] == windows@[j].pid);
                            }
                        }
                        assert forall|k: int| 0 <= k < r@.len() implies spec_pid_listed(
                            windows@,
                            #[trigger] r@[k],
                        ) by {
                            if k < r0.len() {
                                assert(r@[k] == r0[k]);
                            } else {
                                assert(r@[k] == windows@[i as int].pid);
                            }
                        }
                    }
                }
            }
            proof {
                assert(spec_visible_pids(windows@.skip(i as int), rv0) == spec_visible_pids(
                    windows@.skip(i as int + 1),
                    r@,
                ));
            }
            i = i + 1;
        }
        proof {
            assert(windows@.skip(windows@.len() as int) =~= Seq::<WindowInfo>::empty());
        }
        r
    }
}

/// A window that makes its owning process worth listing: visible, with a
/// non-empty title and a known owner.
pub open spec fn spec_listed_window(w: WindowInfo) -> bool {
    w.visible && w.title_len > 0 && w.pid != 0
}

/// Some window in the enumeration makes the process with this pid worth
/// listing.
pub open spec fn spec_pid_listed(ws: Seq<WindowInfo>, p: u32) -> bool {
    exists|j: int| 0 <= j < ws.len() && spec_listed_window(#[trigger] ws[j]) && ws[j].pid == p
}

/// The owning pids of the listed windows, in first-occurrence order, each
/// once, appended to what was already gathered.
pub open spec fn spec_visible_pids(ws: Seq<WindowInfo>, acc: Seq<u32>) -> Seq<u32>
    decreases ws.len(),
{
    if ws.len() == 0 {
        acc
    } else if spec_listed_window(ws[0]) && !acc.contains(ws[0].pid) {
        spec_visible_pids(ws.skip(1), acc.push(ws[0].pid))
    } else {
        spec_visible_pids(ws.skip(1), acc)
    }
}

/// Membership in a pid list.
pub fn contains_u32(v: &Vec<u32>, x: u32) -> (r: bool)
    ensures
        r == v@.contains(x),
{
    let mut i: usize = 0;
    while i < v.len()
        invariant
            i <= v@.len(),
            forall|k: int| 0 <= k < i ==> v@[k] != x,
        decreases v@.len() - i,
    {
        if v[i] == x {
            return true;
        }
        i = i + 1;
    }
    false
}

/// The bytes of an optional string.
pub open spec fn opt_bytes(s: Option<Seq<char>>) -> Option<Seq<u8>> {
    match s {
        Some(cs) => Some(encode_utf8(cs)),
        None => None,
    }
}

/// Whether the lister hides a process: its lower-cased name is
/// blacklisted, its executable lives in an OS directory, or it is this
/// program itself (the name matches the current executable's, up to case).
pub open spec fn spec_should_skip(nb: Seq<u8>, path: Option<Seq<u8>>, cur: Option<Seq<u8>>) -> bool {
    spec_blacklist().contains(lower(nb)) || (match path {
        Some(pb) => exists|i: int|
            0 <= i < spec_path_patterns().len() && contains_seq(
                lower(pb),
                #[trigger] spec_path_patterns()[i],
            ),
        None => false,
    }) || (match cur {
        Some(cb) => ci_eq(cb, nb),
        None => false,
    })
}

fn blacklist_names() -> (r: Vec<&'static str>)
    ensures
        r@.len() == spec_blacklist().len(),
        forall|i: int|
            0 <= i < r@.len() ==> encode_utf8((#[trigger] r@[i])@) == spec_blacklist()[i],
{
    let r: Vec<&'static str> = vec![
        "explorer.exe",
        "shellexperiencehost.exe",
        "systemsettings.exe",
        "applicationframehost.exe",
        "searchui.exe",
        "startmenuexperiencehost.exe",
        "sihost.exe",
        "runtimebroker.exe",
        "audiodg.exe",
        "wsappx.exe",
        "smss.exe",
        "csrss.exe",
        "wininit.exe",
        "services.exe",
        "lsass.exe",
        "dwm.exe",
        "taskhostw.exe",
    ];
    proof {
        assert forall|i: int|
            0 <= i < r@.len() implies encode_utf8((#[trigger] r@[i])@) == spec_blacklist()[i] by {
            assert(encode_utf8(r@[0]@) == spec_blacklist()[0]);
            assert(encode_utf8(r@[1]@) == spec_blacklist()[1]);
            assert(encode_utf8(r@[2]@) == spec_blacklist()[2]);
            assert(encode_utf8(r@[3]@) == spec_blacklist()[3]);
            assert(encode_utf8(r@[4]@) == spec_blacklist()[4]);
            assert(encode_utf8(r@[5]@) == spec_blacklist()[5]);
            assert(encode_utf8(r@[6]@) == spec_blacklist()[6]);
            assert(encode_utf8(r@[7]@) == spec_blacklist()[7]);
            assert(encode_utf8(r@[8]@) == spec_blacklist()[8]);
            assert(encode_utf8(r@[9]@) == spec_blacklist()[9]);
            assert(encode_utf8(r@[10]@) == spec_blacklist()[10]);
            assert(encode_utf8(r@[11]@) == spec_blacklist()[11]);
            assert(encode_utf8(r@[12]@) == spec_blacklist()[12]);
            assert(encode_utf8(r@[13]@) == spec_blacklist()[13]);
            assert(encode_utf8(r@[14]@) == spec_blacklist()[14]);
            assert(encode_utf8(r@[15]@) == spec_blacklist()[15]);
            assert(encode_utf8(r@[16]@) == spec_blacklist()[16]);
        }
    }
    r
}

fn path_patterns() -> (r: Vec<&'static str>)
    ensures
        r@.len() == spec_path_patterns().len(),
        forall|i: int|
            0 <= i < r@.len() ==> encode_utf8((#[trigger] r@[i])@) == spec_path_patterns()[i],
{
    let r: Vec<&'static str> = vec![
        "\\windows\\",
        "/windows/",
        "\\system32\\",
        "/system32/",
        "\\syswow64\\",
        "/syswow64/",
    ];
    proof {
        assert(encode_utf8(r@[0]@) == spec_path_patterns()[0]);
        assert(encode_utf8(r@[1]@) == spec_path_patterns()[1]);
        assert(encode_utf8(r@[2]@) == spec_path_patterns()[2]);
        assert(encode_utf8(r@[3]@) == spec_path_patterns()[3]);
        assert(encode_utf8(r@[4]@) == spec_path_patterns()[4]);
        assert(encode_utf8(r@[5]@) == spec_path_patterns()[5]);
    }
    r
}

impl LangState {
    /// Whether the lister hides this process.
    #[verifier::loop_isolation(false)]
    pub fn should_skip_process(
        proc_name: &str,
        exe_path: Option<&String>,
        current_exe_name: Option<&String>,
    ) -> (r: bool)
        ensures
            r == spec_should_skip(
                encode_utf8(proc_name@),
                match exe_path {
                    Some(p) => Some(encode_utf8(p@)),
                    None => None,
                },
                match current_exe_name {
                    Some(c) => Some(encode_utf8(c@)),
                    None => None,
                },
            ),
    {
        let nb = str_bytes(proc_name);
        let low = lower_bytes(&nb);
        let bl = blacklist_names();
        let mut i: usize = 0;
        let mut in_blacklist = false;
        while i < bl.len()
            invariant
                i <= bl@.len(),
                bl@.len() == spec_blacklist().len(),
                forall|k: int|
                    0 <= k < bl@.len() ==> encode_utf8((#[trigger] bl@[k])@)
                        == spec_blacklist()[k],
                low@ == lower(nb@),
                nb@ == encode_utf8(proc_name@),
                in_blacklist ==> spec_blacklist().contains(lower(nb@)),
                !in_blacklist ==> forall|k: int| 0 <= k < i ==> spec_blacklist()[k] != lower(
                    nb@,
                ),
            decreases bl@.len() - i,
        {
            let entry = str_bytes(bl[i]);
            if bytes_eq(&entry, &low) {
                in_blacklist = true;
            }
            i = i + 1;
        }
        if in_blacklist {
            return true;
        }
        proof {
            assert(!spec_blacklist().contains(lower(nb@)));
        }
        if let Some(p) = exe_path {
            let pbl = lower_bytes(&str_bytes(p.as_str()));
            let pats = path_patterns();
            let mut j: usize = 0;
            while j < pats.len()
                invariant
                    j <= pats@.len(),
                    pats@.len() == spec_path_patterns().len(),
                    forall|k: int|
                        0 <= k < pats@.len() ==> encode_utf8((#[trigger] pats@[k])@)
                            == spec_path_patterns()[k],
                    pbl@ == lower(encode_utf8(p@)),
                    forall|k: int|
                        0 <= k < j ==> !contains_seq(
                            lower(encode_utf8(p@)),
                            #[trigger] spec_path_patterns()[k],
                        ),
                decreases pats@.len() - j,
            {
                let pat = str_bytes(pats[j]);
                if contains_bytes(&pbl, &pat) {
                    proof {
                        assert(contains_seq(lower(encode_utf8(p@)), spec_path_patterns()[
                            j as int
                        ]));
                        assert(exists|k: int|
                            0 <= k < spec_path_patterns().len() && contains_seq(
                                lower(encode_utf8(p@)),
                                #[trigger] spec_path_patterns()[k],
                            ));
                    }
                    return true;
                }
                j = j + 1;
            }
        }
        if let Some(c) = current_exe_name {
            let cb = str_bytes(c.as_str());
            if ci_eq_bytes(&cb, &nb) {
                return true;
            }
        }
        false
    }
}

/// The dedup key of a process: its lower-cased executable path, or its
/// lower-cased name when no path is known.
pub open spec fn spec_key(nb: Seq<u8>, path: Option<Seq<u8>>) -> Seq<u8> {
    match path {
        Some(pb) => lower(pb),
        None => lower(nb),
    }
}

fn key_of(name: &str, path: Option<&String>) -> (r: Vec<u8>)
    ensures
        r@ == spec_key(
            encode_utf8(name@),
            match path {
                Some(p) => Some(encode_utf8(p@)),
                None => None,
            },
        ),
{
    match path {
        Some(p) => lower_bytes(&str_bytes(p.as_str())),
        None => lower_bytes(&str_bytes(name)),
    }
}

/// Membership in the seen-key list.
fn contains_key(seen: &Vec<Vec<u8>>, key: &Vec<u8>) -> (r: bool)
    ensures
        r == seen_view(seen@).contains(key@),
{
    let mut i: usize = 0;
    while i < seen.len()
        invariant
            i <= seen@.len(),
            forall|k: int| 0 <= k < i ==> seen_view(seen@)[k] != key@,
        decreases seen@.len() - i,
    {
        if bytes_eq(&seen[i], key) {
            proof {
                assert(seen_view(seen@)[i as int] == key@);
            }
            return true;
        }
        i = i + 1;
    }
    proof {
        assert forall|k: int| 0 <= k < seen_view(seen@).len() implies seen_view(seen@)[k]
            != key@ by {}
    }
    false
}

/// The view of an optional prior program list.
pub open spec fn opt_prior_view(p: Option<&Vec<Program>>) -> Option<
    Seq<(Seq<u8>, Seq<u8>, Option<Seq<u8>>)>,
> {
    match p {
        Some(v) => Some(progs_view(v@)),
        None => None,
    }
}

/// The bytes of an optional string reference.
pub open spec fn opt_str_view(s: Option<&String>) -> Option<Seq<u8>> {
    match s {
        Some(x) => Some(encode_utf8(x@)),
        None => None,
    }
}

/// The language of the first prior program whose name matches, up to case.
pub open spec fn spec_prior_lang(
    pv: Seq<(Seq<u8>, Seq<u8>, Option<Seq<u8>>)>,
    nb: Seq<u8>,
) -> Option<Seq<u8>>
    decreases pv.len(),
{
    if pv.len() == 0 {
        None
    } else if ci_eq(pv[0].0, nb) {
        Some(pv[0].1)
    } else {
        spec_prior_lang(pv.skip(1), nb)
    }
}

/// The language a listed program gets: the language it already had in the
/// prior list when refreshing, else the configured value (exact match
/// first, then case-insensitive), else the fixed default.
pub open spec fn spec_entry_lang(
    prior: Option<Seq<(Seq<u8>, Seq<u8>, Option<Seq<u8>>)>>,
    es: Seq<(Seq<u8>, Seq<u8>)>,
    nb: Seq<u8>,
) -> Seq<u8> {
    match prior {
        Some(pv) => match spec_prior_lang(pv, nb) {
            Some(l) => l,
            None => spec_assigned(es, nb),
        },
        None => spec_assigned(es, nb),
    }
}

#[verifier::loop_isolation(false)]
fn entry_lang(prior: Option<&Vec<Program>>, cfg: &Config, name: &str) -> (r: String)
    ensures
        encode_utf8(r@) == spec_entry_lang(
            opt_prior_view(prior),
            cfg.entries(),
            encode_utf8(name@),
        ),
{
    let nb = str_bytes(name);
    if let Some(ps) = prior {
        proof {
            assert(progs_view(ps@).skip(0) =~= progs_view(ps@));
        }
        let mut i: usize = 0;
        while i < ps.len()
            invariant
                i <= ps@.len(),
                spec_prior_lang(progs_view(ps@).skip(i as int), nb@) == spec_prior_lang(
                    progs_view(ps@),
                    nb@,
                ),
            decreases ps@.len() - i,
        {
            let pn = str_bytes(ps[i].name.as_str());
            proof {
                assert(progs_view(ps@).skip(i as int)[0] == progs_view(ps@)[i as int]);
            }
            if ci_eq_bytes(&pn, &nb) {
                return ps[i].lang.clone();
            }
            proof {
                assert(progs_view(ps@).skip(i as int).skip(1) =~= progs_view(ps@).skip(
                    i as int + 1,
                ));
            }
            i = i + 1;
        }
        proof {
            assert(progs_view(ps@).skip(ps@.len() as int) =~= Seq::<
                (Seq<u8>, Seq<u8>, Option<Seq<u8>>),
            >::empty());
        }
    }
    cfg.assigned_lang(name)
}

/// The first process whose name matches, up to case, and which owns a
/// visible window when window filtering is on.
pub open spec fn spec_find_proc(
    procs: Seq<ProcessInfo>,
    i: int,
    pname: Seq<u8>,
    vis: Seq<u32>,
    filter: bool,
) -> Option<int>
    decreases procs.len() - i,
{
    if i < 0 || i >= procs.len() {
        None
    } else if ci_eq(procs[i].nb(), pname) && (!filter || vis.contains(procs[i].pid)) {
        Some(i)
    } else {
        spec_find_proc(procs, i + 1, pname, vis, filter)
    }
}

#[verifier::loop_isolation(false)]
fn find_proc(procs: &Vec<ProcessInfo>, pname: &str, vis: &Vec<u32>, filter: bool) -> (r: Option<
    usize,
>)
    ensures
        match r {
            Some(j) => j < procs@.len() && spec_find_proc(
                procs@,
                0,
                encode_utf8(pname@),
                vis@,
                filter,
            ) == Some(j as int),
            None => spec_find_proc(procs@, 0, encode_utf8(pname@), vis@, filter).is_none(),
        },
{
    let nb = str_bytes(pname);
    let mut j: usize = 0;
    while j < procs.len()
        invariant
            j <= procs@.len(),
            spec_find_proc(procs@, j as int, nb@, vis@, filter) == spec_find_proc(
                procs@,
                0,
                nb@,
                vis@,
                filter,
            ),
        decreases procs@.len() - j,
    {
        let pn = str_bytes(procs[j].name.as_str());
        let nm = ci_eq_bytes(&pn, &nb);
        if nm {
            if !filter || contains_u32(vis, procs[j].pid) {
                return Some(j);
            }
        }
        j = j + 1;
    }
    None
}

/// One step of the allow-list scan: the first matching visible process is
/// listed, unless it is hidden or its executable was already listed.
pub open spec fn spec_step_predefined(
    procs: Seq<ProcessInfo>,
    pname: Seq<u8>,
    vis: Seq<u32>,
    filter: bool,
    prior: Option<Seq<(Seq<u8>, Seq<u8>, Option<Seq<u8>>)>>,
    es: Seq<(Seq<u8>, Seq<u8>)>,
    cur: Option<Seq<u8>>,
    acc: (Seq<(Seq<u8>, Seq<u8>, Option<Seq<u8>>)>, Seq<Seq<u8>>),
) -> (Seq<(Seq<u8>, Seq<u8>, Option<Seq<u8>>)>, Seq<Seq<u8>>) {
    match spec_find_proc(procs, 0, pname, vis, filter) {
        None => acc,
        Some(j) => {
            let p = procs[j];
            if spec_should_skip(p.nb(), p.pb(), cur) {
                acc
            } else {
                let key = spec_key(p.nb(), p.pb());
                if acc.1.contains(key) {
                    acc
                } else {
                    (
                        acc.0.push((p.nb(), spec_entry_lang(prior, es, p.nb()), p.pb())),
                        acc.1.push(key),
                    )
                }
            }
        },
    }
}

/// The allow-list scan, name by name.
pub open spec fn spec_scan_predefined(
    names: Seq<Seq<u8>>,
    procs: Seq<ProcessInfo>,
    vis: Seq<u32>,
    filter: bool,
    prior: Option<Seq<(Seq<u8>, Seq<u8>, Option<Seq<u8>>)>>,
    es: Seq<(Seq<u8>, Seq<u8>)>,
    cur: Option<Seq<u8>>,
    acc: (Seq<(Seq<u8>, Seq<u8>, Option<Seq<u8>>)>, Seq<Seq<u8>>),
) -> (Seq<(Seq<u8>, Seq<u8>, Option<Seq<u8>>)>, Seq<Seq<u8>>)
    decreases names.len(),
{
    if names.len() == 0 {
        acc
    } else {
        spec_scan_predefined(
            names.skip(1),
            procs,
            vis,
            filter,
            prior,
            es,
            cur,
            spec_step_predefined(procs, names[0], vis, filter, prior, es, cur, acc),
        )
    }
}

fn opt_ref(o: &Option<String>) -> (r: Option<&String>)
    ensures
        r.is_some() == o.is_some(),
        r.is_some() ==> r.unwrap()@ == o.unwrap()@,
{
    match o {
        Some(x) => Some(x),
        None => None,
    }
}

fn clone_opt_string(o: &Option<String>) -> (r: Option<String>)
    ensures
        r.is_some() == o.is_some(),
        r.is_some() ==> r.unwrap()@ == o.unwrap()@,
{
    match o {
        Some(x) => Some(x.clone()),
        None => None,
    }
}

#[verifier::loop_isolation(false)]
fn fill_predefined(
    progs: &mut Vec<Program>,
    seen: &mut Vec<Vec<u8>>,
    procs: &Vec<ProcessInfo>,
    vis: &Vec<u32>,
    filter: bool,
    cfg: &Config,
    prior: Option<&Vec<Program>>,
    cur: Option<&String>,
)
    ensures
        progs_view(final(progs)@) == spec_scan_predefined(
            spec_predefined(),
            procs@,
            vis@,
            filter,
            opt_prior_view(prior),
            cfg.entries(),
            opt_str_view(cur),
            (progs_view(old(progs)@), seen_view(old(seen)@)),
        ).0,
        seen_view(final(seen)@) == spec_scan_predefined(
            spec_predefined(),
            procs@,
            vis@,
            filter,
            opt_prior_view(prior),
            cfg.entries(),
            opt_str_view(cur),
            (progs_view(old(progs)@), seen_view(old(seen)@)),
        ).1,
{
    let names = LangState::predefined_list();
    let ghost total = spec_scan_predefined(
        spec_predefined(),
        procs@,
        vis@,
        filter,
        opt_prior_view(prior),
        cfg.entries(),
        opt_str_view(cur),
        (progs_view(old(progs)@), seen_view(old(seen)@)),
    );
    proof {
        assert(spec_predefined().skip(0) =~= spec_predefined());
    }
    let mut n: usize = 0;
    while n < names.len()
        invariant
            n <= names@.len(),
            names@.len() == spec_predefined().len(),
            spec_scan_predefined(
                spec_predefined().skip(n as int),
                procs@,
                vis@,
                filter,
                opt_prior_view(prior),
                cfg.entries(),
                opt_str_view(cur),
                (progs_view(progs@), seen_view(seen@)),
            ) == total,
        decreases names@.len() - n,
    {
        let ghost acc0 = (progs_view(progs@), seen_view(seen@));
        let ghost pname = spec_predefined()[n as int];
        proof {
            assert(encode_utf8(names@[n as int]@) == spec_predefined()[n as int]);
            assert(spec_predefined().skip(n as int)[0] == pname);
            assert(spec_predefined().skip(n as int).skip(1) =~= spec_predefined().skip(
                n as int + 1,
            ));
        }
        match find_proc(procs, names[n], vis, filter) {
            None => {
                proof {
                    assert(spec_step_predefined(
                        procs@,
                        pname,
                        vis@,
                        filter,
                        opt_prior_view(prior),
                        cfg.entries(),
                        opt_str_view(cur),
                        acc0,
                    ) == acc0);
                }
            },
            Some(ji) => {
                let pr = &procs[ji];
                let path_ref = opt_ref(&pr.exe_path);
                proof {
                    assert(procs@[ji as int].pb() == (match path_ref {
                        Some(x) => Some(encode_utf8(x@)),
                        None => None,
                    }));
                }
                if !LangState::should_skip_process(pr.name.as_str(), path_ref, cur) {
                    let key = key_of(pr.name.as_str(), path_ref);
                    if !contains_key(seen, &key) {
                        let lang = entry_lang(prior, cfg, pr.name.as_str());
                        let name_c = pr.name.clone();
                        let path_c = clone_opt_string(&pr.exe_path);
                        let ghost progs0 = progs@;
                        let ghost seen0 = seen@;
                        progs.push(Program { name: name_c, lang, exe_path: path_c });
                        seen.push(key);
                        proof {
                            let p = procs@[ji as int];
                            assert(progs_view(progs@) =~= progs_view(progs0).push(
                                (p.nb(), spec_entry_lang(
                                    opt_prior_view(prior),
                                    cfg.entries(),
                                    p.nb(),
                                ), p.pb()),
                            ));
                            assert(seen_view(seen@) =~= seen_view(seen0).push(
                                spec_key(p.nb(), p.pb()),
                            ));
                        }
                    }
                }
            },
        }
        n = n + 1;
    }
    proof {
        assert(spec_predefined().skip(spec_predefined().len() as int) =~= Seq::<
            Seq<u8>,
        >::empty());
    }
}

/// The processes the second pass lists, scanned in snapshot order: every
/// visible, non-blank, non-hidden process whose executable was not listed
/// yet, with the keys accumulating as they are found.
pub open spec fn spec_collect_others(
    procs: Seq<ProcessInfo>,
    i: int,
    vis: Seq<u32>,
    filter: bool,
    cur: Option<Seq<u8>>,
    seen: Seq<Seq<u8>>,
) -> (Seq<(Seq<u8>, Option<Seq<u8>>)>, Seq<Seq<u8>>)
    decreases procs.len() - i,
{
    if i < 0 || i >= procs.len() {
        (Seq::empty(), seen)
    } else {
        let p = procs[i];
        let key = spec_key(p.nb(), p.pb());
        if (filter && !vis.contains(p.pid)) || is_blank(p.nb()) || spec_should_skip(
            p.nb(),
            p.pb(),
            cur,
        ) || seen.contains(key) {
            spec_collect_others(procs, i + 1, vis, filter, cur, seen)
        } else {
            let rest = spec_collect_others(procs, i + 1, vis, filter, cur, seen.push(key));
            (seq![(p.nb(), p.pb())] + rest.0, rest.1)
        }
    }
}

/// Attach to each collected process the language the configuration
/// assigns it.
pub open spec fn with_langs(
    xs: Seq<(Seq<u8>, Option<Seq<u8>>)>,
    es: Seq<(Seq<u8>, Seq<u8>)>,
) -> Seq<(Seq<u8>, Seq<u8>, Option<Seq<u8>>)> {
    xs.map_values(|x: (Seq<u8>, Option<Seq<u8>>)| (x.0, spec_assigned(es, x.0), x.1))
}

/// Sorted by program name, case-insensitively.
pub open spec fn sorted_ci(pv: Seq<(Seq<u8>, Seq<u8>, Option<Seq<u8>>)>) -> bool {
    forall|i: int, j: int|
        0 <= i < j < pv.len() ==> ci_le((#[trigger] pv[i]).0, (#[trigger] pv[j]).0)
}

/// Insert one program into a name-ordered list, after every program whose
/// name is at or below its own: where a stable insertion sort puts it.
pub open spec fn insert_sorted(
    x: (Seq<u8>, Seq<u8>, Option<Seq<u8>>),
    s: Seq<(Seq<u8>, Seq<u8>, Option<Seq<u8>>)>,
) -> Seq<(Seq<u8>, Seq<u8>, Option<Seq<u8>>)>
    decreases s.len(),
{
    if s.len() == 0 {
        seq![x]
    } else if ci_le(s[0].0, x.0) {
        seq![s[0]] + insert_sorted(x, s.skip(1))
    } else {
        seq![x] + s
    }
}

/// Stable sort by program name, case-insensitively: names in order, and
/// programs whose names are equal up to case kept in input order.
pub open spec fn spec_sort_ci(pv: Seq<(Seq<u8>, Seq<u8>, Option<Seq<u8>>)>) -> Seq<
    (Seq<u8>, Seq<u8>, Option<Seq<u8>>),
>
    decreases pv.len(),
{
    if pv.len() == 0 {
        Seq::empty()
    } else {
        insert_sorted(pv.last(), spec_sort_ci(pv.drop_last()))
    }
}

proof fn lemma_insert_sorted_at(
    x: (Seq<u8>, Seq<u8>, Option<Seq<u8>>),
    s: Seq<(Seq<u8>, Seq<u8>, Option<Seq<u8>>)>,
    j: int,
)
    requires
        0 <= j <= s.len(),
        forall|t: int| 0 <= t < j ==> ci_le((#[trigger] s[t]).0, x.0),
        j == s.len() || !ci_le(s[j].0, x.0),
    ensures
        insert_sorted(x, s) == s.insert(j, x),
    decreases s.len(),
{
    if s.len() == 0 {
        assert(insert_sorted(x, s) =~= s.insert(0, x));
    } else if j == 0 {
        assert(insert_sorted(x, s) =~= s.insert(0, x));
    } else {
        assert(ci_le(s[0].0, x.0));
        assert forall|t: int| 0 <= t < j - 1 implies ci_le((#[trigger] s.skip(1)[t]).0, x.0) by {
            assert(s.skip(1)[t] == s[t + 1]);
        }
        if j - 1 < s.skip(1).len() {
            assert(s.skip(1)[j - 1] == s[j]);
        }
        lemma_insert_sorted_at(x, s.skip(1), j - 1);
        assert(seq![s[0]] + s.skip(1).insert(j - 1, x) =~= s.insert(j, x));
    }
}

#[verifier::loop_isolation(false)]
fn sort_programs(input: Vec<Program>) -> (r: Vec<Program>)
    ensures
        progs_view(r@) == spec_sort_ci(progs_view(input@)),
{
    let ghost orig = input@;
    let mut rest = input;
    let mut out: Vec<Program> = Vec::new();
    proof {
        assert(orig.take(0) =~= Seq::<Program>::empty());
        assert(progs_view(orig.take(0)) =~= Seq::<(Seq<u8>, Seq<u8>, Option<Seq<u8>>)>::empty());
        assert(progs_view(out@) =~= spec_sort_ci(progs_view(orig.take(0))));
        assert(rest@ =~= orig.skip(0));
    }
    while rest.len() > 0
        invariant
            rest@.len() <= orig.len(),
            rest@ == orig.skip(orig.len() - rest@.len()),
            progs_view(out@) == spec_sort_ci(progs_view(orig.take(orig.len() - rest@.len()))),
        decreases rest@.len(),
    {
        let ghost k = orig.len() - rest@.len();
        let p = rest.remove(0);
        proof {
            assert(p == orig[k as int]);
            orig.skip(k as int).remove_ensures(0);
            assert(rest@ =~= orig.skip(k as int + 1));
        }
        let pn = str_bytes(p.name.as_str());
        let mut j: usize = 0;
        #[verifier::loop_isolation(true)]
        loop
            invariant_except_break
                j <= out@.len(),
                forall|t: int| 0 <= t < j ==> ci_le((#[trigger] progs_view(out@)[t]).0, pn@),
            ensures
                j <= out@.len(),
                forall|t: int| 0 <= t < j ==> ci_le((#[trigger] progs_view(out@)[t]).0, pn@),
                j == out@.len() || !ci_le(progs_view(out@)[j as int].0, pn@),
            decreases out@.len() - j,
        {
            if j == out.len() {
                break;
            }
            let jn = str_bytes(out[j].name.as_str());
            if !crate::text::ci_le_bytes(&jn, &pn) {
                break;
            }
            j = j + 1;
        }
        let ghost out0 = out@;
        out.insert(j, p);
        proof {
            lemma_insert_sorted_at(prog_view(p), progs_view(out0), j as int);
            assert(progs_view(out@) =~= progs_view(out0).insert(j as int, prog_view(p)));
            assert(orig.take(k as int + 1).drop_last() =~= orig.take(k as int));
            assert(orig.take(k as int + 1).last() == orig[k as int]);
            let pv1 = progs_view(orig.take(k as int + 1));
            assert(pv1.drop_last() =~= progs_view(orig.take(k as int)));
            assert(pv1.last() == prog_view(orig[k as int]));
            assert(spec_sort_ci(pv1) == insert_sorted(pv1.last(), spec_sort_ci(pv1.drop_last())));
        }
    }
    proof {
        assert(orig.take(orig.len() as int) =~= orig);
    }
    out
}

proof fn lemma_insert_sorted_bound(
    b: Seq<u8>,
    x: (Seq<u8>, Seq<u8>, Option<Seq<u8>>),
    s: Seq<(Seq<u8>, Seq<u8>, Option<Seq<u8>>)>,
)
    requires
        ci_le(b, x.0),
        forall|t: int| 0 <= t < s.len() ==> ci_le(b, (#[trigger] s[t]).0),
    ensures
        forall|t: int|
            0 <= t < insert_sorted(x, s).len() ==> ci_le(b, (#[trigger] insert_sorted(x, s)[t]).0),
    decreases s.len(),
{
    let res = insert_sorted(x, s);
    if s.len() == 0 {
        assert(res[0] == x);
    } else if ci_le(s[0].0, x.0) {
        assert forall|t: int| 0 <= t < s.skip(1).len() implies ci_le(
            b,
            (#[trigger] s.skip(1)[t]).0,
        ) by {
            assert(s.skip(1)[t] == s[t + 1]);
        }
        lemma_insert_sorted_bound(b, x, s.skip(1));
        assert forall|t: int| 0 <= t < res.len() implies ci_le(b, (#[trigger] res[t]).0) by {
            if t == 0 {
                assert(res[0] == s[0]);
            } else {
                assert(res[t] == insert_sorted(x, s.skip(1))[t - 1]);
            }
        }
    } else {
        assert forall|t: int| 0 <= t < res.len() implies ci_le(b, (#[trigger] res[t]).0) by {
            if t == 0 {
                assert(res[0] == x);
            } else {
                assert(res[t] == s[t - 1]);
            }
        }
    }
}

proof fn lemma_insert_sorted_sorted(
    x: (Seq<u8>, Seq<u8>, Option<Seq<u8>>),
    s: Seq<(Seq<u8>, Seq<u8>, Option<Seq<u8>>)>,
)
    requires
        sorted_ci(s),
    ensures
        sorted_ci(insert_sorted(x, s)),
    decreases s.len(),
{
    let res = insert_sorted(x, s);
    if s.len() == 0 {
    } else if ci_le(s[0].0, x.0) {
        let q = insert_sorted(x, s.skip(1));
        assert forall|i: int, j: int|
            0 <= i < j < s.skip(1).len() implies ci_le(
            (#[trigger] s.skip(1)[i]).0,
            (#[trigger] s.skip(1)[j]).0,
        ) by {
            assert(s.skip(1)[i] == s[i + 1]);
            assert(s.skip(1)[j] == s[j + 1]);
        }
        lemma_insert_sorted_sorted(x, s.skip(1));
        assert forall|t: int| 0 <= t < s.skip(1).len() implies ci_le(
            s[0].0,
            (#[trigger] s.skip(1)[t]).0,
        ) by {
            assert(s.skip(1)[t] == s[t + 1]);
        }
        lemma_insert_sorted_bound(s[0].0, x, s.skip(1));
        assert forall|i: int, j: int|
            0 <= i < j < res.len() implies ci_le((#[trigger] res[i]).0, (#[trigger] res[j]).0) by {
            if i == 0 {
                assert(res[0] == s[0]);
                assert(res[j] == q[j - 1]);
            } else {
                assert(res[i] == q[i - 1]);
                assert(res[j] == q[j - 1]);
            }
        }
    } else {
        crate::text::lemma_ci_le_total(s[0].0, x.0);
        assert forall|i: int, j: int|
            0 <= i < j < res.len() implies ci_le((#[trigger] res[i]).0, (#[trigger] res[j]).0) by {
            if i == 0 {
                assert(res[0] == x);
                assert(res[j] == s[j - 1]);
                if j > 1 {
                    crate::text::lemma_ci_le_trans(x.0, s[0].0, s[j - 1].0);
                }
            } else {
                assert(res[i] == s[i - 1]);
                assert(res[j] == s[j - 1]);
            }
        }
    }
}

/// The stable sort orders the programs by name.
pub proof fn lemma_sort_ci_sorted(pv: Seq<(Seq<u8>, Seq<u8>, Option<Seq<u8>>)>)
    ensures
        sorted_ci(spec_sort_ci(pv)),
    decreases pv.len(),
{
    if pv.len() > 0 {
        lemma_sort_ci_sorted(pv.drop_last());
        lemma_insert_sorted_sorted(pv.last(), spec_sort_ci(pv.drop_last()));
    }
}

proof fn lemma_insert_sorted_multiset(
    x: (Seq<u8>, Seq<u8>, Option<Seq<u8>>),
    s: Seq<(Seq<u8>, Seq<u8>, Option<Seq<u8>>)>,
)
    ensures
        insert_sorted(x, s).to_multiset() == s.to_multiset().insert(x),
    decreases s.len(),
{
    broadcast use vstd::seq_lib::group_to_multiset_ensures;
    broadcast use vstd::multiset::group_multiset_axioms;

    let res = insert_sorted(x, s);
    if s.len() == 0 {
        assert(res =~= s.push(x));
    } else if ci_le(s[0].0, x.0) {
        let q = insert_sorted(x, s.skip(1));
        lemma_insert_sorted_multiset(x, s.skip(1));
        vstd::seq_lib::lemma_multiset_commutative(seq![s[0]], q);
        assert(s =~= seq![s[0]] + s.skip(1));
        vstd::seq_lib::lemma_multiset_commutative(seq![s[0]], s.skip(1));
        assert(res.to_multiset() =~= s.to_multiset().insert(x));
    } else {
        assert(res =~= seq![x] + s);
        vstd::seq_lib::lemma_multiset_commutative(seq![x], s);
        assert(seq![x] =~= Seq::<(Seq<u8>, Seq<u8>, Option<Seq<u8>>)>::empty().push(x));
        assert(res.to_multiset() =~= s.to_multiset().insert(x));
    }
}

/// The stable sort is a permutation: it keeps exactly the given programs.
pub proof fn lemma_sort_ci_multiset(pv: Seq<(Seq<u8>, Seq<u8>, Option<Seq<u8>>)>)
    ensures
        spec_sort_ci(pv).to_multiset() == pv.to_multiset(),
    decreases pv.len(),
{
    broadcast use vstd::seq_lib::group_to_multiset_ensures;

    if pv.len() == 0 {
        assert(pv =~= Seq::<(Seq<u8>, Seq<u8>, Option<Seq<u8>>)>::empty());
    } else {
        lemma_sort_ci_multiset(pv.drop_last());
        lemma_insert_sorted_multiset(pv.last(), spec_sort_ci(pv.drop_last()));
        assert(pv =~= pv.drop_last().push(pv.last()));
    }
}

/// A program list without the languages: name and path only.
pub open spec fn sans_lang(pv: Seq<(Seq<u8>, Seq<u8>, Option<Seq<u8>>)>) -> Seq<
    (Seq<u8>, Option<Seq<u8>>),
> {
    pv.map_values(|t: (Seq<u8>, Seq<u8>, Option<Seq<u8>>)| (t.0, t.2))
}

/// List every remaining process the lister shows — visible, non-blank,
/// not hidden, not yet listed — assign each its configured language, and
/// append them sorted by name, programs with case-equal names kept in
/// snapshot order.
#[verifier::loop_isolation(false)]
pub fn self_fill_other_processes(
    progs: &mut Vec<Program>,
    seen: &mut Vec<Vec<u8>>,
    filter_by_windows: bool,
    cfg: &Config,
    procs: &Vec<ProcessInfo>,
    vis: &Vec<u32>,
    cur: Option<&String>,
)
    ensures
        final(progs)@.len() >= old(progs)@.len(),
        final(progs)@.subrange(0, old(progs)@.len() as int) == old(progs)@,
        progs_view(final(progs)@.skip(old(progs)@.len() as int)) == spec_sort_ci(with_langs(
            spec_collect_others(
                procs@,
                0,
                vis@,
                filter_by_windows,
                opt_str_view(cur),
                seen_view(old(seen)@),
            ).0,
            cfg.entries(),
        )),
        seen_view(final(seen)@) == spec_collect_others(
            procs@,
            0,
            vis@,
            filter_by_windows,
            opt_str_view(cur),
            seen_view(old(seen)@),
        ).1,
{
    broadcast use vstd::seq_lib::group_to_multiset_ensures;

    let ghost curb = opt_str_view(cur);
    let ghost total = spec_collect_others(
        procs@,
        0,
        vis@,
        filter_by_windows,
        curb,
        seen_view(old(seen)@),
    );
    let mut other: Vec<Program> = Vec::new();
    proof {
        assert(sans_lang(progs_view(other@)) =~= Seq::<(Seq<u8>, Option<Seq<u8>>)>::empty());
        assert(with_langs(sans_lang(progs_view(other@)), cfg.entries()) =~= progs_view(
            other@,
        ));
        assert(sans_lang(progs_view(other@)) + total.0 =~= total.0);
    }
    let mut i: usize = 0;
    while i < procs.len()
        invariant
            i <= procs@.len(),
            with_langs(sans_lang(progs_view(other@)), cfg.entries()) == progs_view(other@),
            total.0 == sans_lang(progs_view(other@)) + spec_collect_others(
                procs@,
                i as int,
                vis@,
                filter_by_windows,
                curb,
                seen_view(seen@),
            ).0,
            total.1 == spec_collect_others(
                procs@,
                i as int,
                vis@,
                filter_by_windows,
                curb,
                seen_view(seen@),
            ).1,
        decreases procs@.len() - i,
    {
        let pr = &procs[i];
        let keep_vis = if filter_by_windows {
            contains_u32(vis, pr.pid)
        } else {
            true
        };
        let mut keep = keep_vis;
        let nb = str_bytes(pr.name.as_str());
        if keep {
            if is_blank_bytes(&nb) {
                keep = false;
            }
        }
        let path_ref = opt_ref(&pr.exe_path);
        proof {
            assert(procs@[i as int].pb() == (match path_ref {
                Some(x) => Some(encode_utf8(x@)),
                None => None,
            }));
        }
        if keep {
            if LangState::should_skip_process(pr.name.as_str(), path_ref, cur) {
                keep = false;
            }
        }
        let mut took = false;
        if keep {
            let key = key_of(pr.name.as_str(), path_ref);
            if !contains_key(seen, &key) {
                let ghost other0 = other@;
                let ghost seen0 = seen@;
                let lang = cfg.assigned_lang(pr.name.as_str());
                let name_c = pr.name.clone();
                let path_c = clone_opt_string(&pr.exe_path);
                other.push(Program { name: name_c, lang, exe_path: path_c });
                seen.push(key);
                took = true;
                proof {
                    let p = procs@[i as int];
                    assert(progs_view(other@) =~= progs_view(other0).push(
                        (p.nb(), spec_assigned(cfg.entries(), p.nb()), p.pb()),
                    ));
                    assert(sans_lang(progs_view(other@)) =~= sans_lang(
                        progs_view(other0),
                    ).push((p.nb(), p.pb())));
                    assert(with_langs(sans_lang(progs_view(other@)), cfg.entries())
                        =~= progs_view(other@));
                    assert(seen_view(seen@) =~= seen_view(seen0).push(
                        spec_key(p.nb(), p.pb()),
                    ));
                    let rest = spec_collect_others(
                        procs@,
                        i as int + 1,
                        vis@,
                        filter_by_windows,
                        curb,
                        seen_view(seen@),
                    );
                    assert(spec_collect_others(
                        procs@,
                        i as int,
                        vis@,
                        filter_by_windows,
                        curb,
                        seen_view(seen0),
                    ).0 == seq![(p.nb(), p.pb())] + rest.0);
                    assert(spec_collect_others(
                        procs@,
                        i as int,
                        vis@,
                        filter_by_windows,
                        curb,
                        seen_view(seen0),
                    ).1 == rest.1);
                    assert(sans_lang(progs_view(other0)) + (seq![(p.nb(), p.pb())] + rest.0)
                        =~= sans_lang(progs_view(other@)) + rest.0);
                }
            }
        }
        if !took {
            proof {
                assert(spec_collect_others(
                    procs@,
                    i as int,
                    vis@,
                    filter_by_windows,
                    curb,
                    seen_view(seen@),
                ) == spec_collect_others(
                    procs@,
                    i as int + 1,
                    vis@,
                    filter_by_windows,
                    curb,
                    seen_view(seen@),
                ));
            }
        }
        i = i + 1;
    }
    proof {
        assert(spec_collect_others(
            procs@,
            procs@.len() as int,
            vis@,
            filter_by_windows,
            curb,
            seen_view(seen@),
        ).0 =~= Seq::<(Seq<u8>, Option<Seq<u8>>)>::empty());
        assert(total.0 =~= sans_lang(progs_view(other@)));
        assert(with_langs(total.0, cfg.entries()) == progs_view(other@));
    }
    let mut sorted = sort_programs(other);
    let ghost sorted0 = sorted@;
    let ghost progs0 = progs@;
    progs.append(&mut sorted);
    proof {
        assert(progs@.subrange(0, progs0.len() as int) =~= progs0);
        assert(progs@.skip(progs0.len() as int) =~= sorted0);
        assert(progs_view(progs@.skip(progs0.len() as int)) == progs_view(sorted0));
    }
}

/// The contract of a built program list: the allow-list pass comes first,
/// exactly as scanned, and then exactly the other collected programs with
/// their configured languages, stably sorted by name.
pub open spec fn spec_built(
    pv: Seq<(Seq<u8>, Seq<u8>, Option<Seq<u8>>)>,
    procs: Seq<ProcessInfo>,
    vis: Seq<u32>,
    es: Seq<(Seq<u8>, Seq<u8>)>,
    prior: Option<Seq<(Seq<u8>, Seq<u8>, Option<Seq<u8>>)>>,
    cur: Option<Seq<u8>>,
) -> bool {
    let filter = vis.len() > 0;
    let scanned = spec_scan_predefined(
        spec_predefined(),
        procs,
        vis,
        filter,
        prior,
        es,
        cur,
        (Seq::empty(), Seq::empty()),
    );
    let others = spec_collect_others(procs, 0, vis, filter, cur, scanned.1);
    &&& scanned.0.len() <= pv.len()
    &&& pv.take(scanned.0.len() as int) == scanned.0
    &&& pv.skip(scanned.0.len() as int) == spec_sort_ci(with_langs(others.0, es))
}

#[verifier::loop_isolation(false)]
fn build_programs(
    procs: &Vec<ProcessInfo>,
    visible_pids: &Vec<u32>,
    cfg: &Config,
    prior: Option<&Vec<Program>>,
    current_exe_name: Option<&String>,
) -> (r: Vec<Program>)
    ensures
        spec_built(
            progs_view(r@),
            procs@,
            visible_pids@,
            cfg.entries(),
            opt_prior_view(prior),
            opt_str_view(current_exe_name),
        ),
{
    let filter = visible_pids.len() > 0;
    let mut progs: Vec<Program> = Vec::new();
    let mut seen: Vec<Vec<u8>> = Vec::new();
    proof {
        assert(progs_view(progs@) =~= Seq::<(Seq<u8>, Seq<u8>, Option<Seq<u8>>)>::empty());
        assert(seen_view(seen@) =~= Seq::<Seq<u8>>::empty());
    }
    fill_predefined(
        &mut progs,
        &mut seen,
        procs,
        visible_pids,
        filter,
        cfg,
        prior,
        current_exe_name,
    );
    let ghost scanned_progs = progs@;
    self_fill_other_processes(
        &mut progs,
        &mut seen,
        filter,
        cfg,
        procs,
        visible_pids,
        current_exe_name,
    );
    proof {
        let n = scanned_progs.len() as int;
        assert(progs_view(progs@).take(n) =~= progs_view(progs@.subrange(0, n)));
        assert(progs_view(progs@).skip(n) =~= progs_view(progs@.skip(n)));
    }
    progs
}

/// The key→value pairs a program list denotes: each name with its language.
pub open spec fn entry_pairs(pv: Seq<(Seq<u8>, Seq<u8>, Option<Seq<u8>>)>) -> Seq<
    (Seq<u8>, Seq<u8>),
> {
    pv.map_values(|t: (Seq<u8>, Seq<u8>, Option<Seq<u8>>)| (t.0, t.1))
}

impl LangState {
    /// Build the program list from a fresh snapshot: allow-listed
    /// programs first, then every other visible program, each assigned
    /// its configured language or the default.
    pub fn new(
        procs: &Vec<ProcessInfo>,
        visible_pids: &Vec<u32>,
        cfg: &Config,
        current_exe_name: Option<&String>,
    ) -> (r: Self)
        ensures
            spec_built(
                progs_view(r.programs@),
                procs@,
                visible_pids@,
                cfg.entries(),
                None::<Seq<(Seq<u8>, Seq<u8>, Option<Seq<u8>>)>>,
                opt_str_view(current_exe_name),
            ),
    {
        LangState { programs: build_programs(procs, visible_pids, cfg, None, current_exe_name) }
    }

    /// Rebuild the program list from a fresh snapshot, keeping the
    /// language a program already had in the current list.
    pub fn refresh(
        &mut self,
        procs: &Vec<ProcessInfo>,
        visible_pids: &Vec<u32>,
        cfg: &Config,
        current_exe_name: Option<&String>,
    )
        ensures
            spec_built(
                progs_view(final(self).programs@),
                procs@,
                visible_pids@,
                cfg.entries(),
                Some(progs_view(old(self).programs@)),
                opt_str_view(current_exe_name),
            ),
    {
        let rebuilt = build_programs(
            procs,
            visible_pids,
            cfg,
            Some(&self.programs),
            current_exe_name,
        );
        self.programs = rebuilt;
    }

    /// The configuration the current list denotes: each program's name
    /// mapped to its language, a later duplicate replacing an earlier one.
    #[verifier::loop_isolation(false)]
    pub fn to_config(&self) -> (r: Config)
        ensures
            r.wf(),
            r.entries() == fold_upsert(
                Seq::empty(),
                entry_pairs(progs_view(self.programs@)),
            ),
    {
        let mut cfg = Config::default();
        proof {
            assert(cfg.entries() =~= Seq::<(Seq<u8>, Seq<u8>)>::empty());
            assert(entry_pairs(progs_view(self.programs@)).take(0) =~= Seq::<
                (Seq<u8>, Seq<u8>),
            >::empty());
        }
        let ghost pairs = entry_pairs(progs_view(self.programs@));
        let mut i: usize = 0;
        while i < self.programs.len()
            invariant
                i <= self.programs@.len(),
                cfg.wf(),
                cfg.entries() == fold_upsert(Seq::empty(), pairs.take(i as int)),
            decreases self.programs@.len() - i,
        {
            cfg.insert(self.programs[i].name.as_str(), self.programs[i].lang.as_str());
            proof {
                assert(pairs.take(i + 1) =~= pairs.take(i as int).push(pairs[i as int]));
                crate::config::lemma_fold_upsert_snoc(
                    Seq::empty(),
                    pairs.take(i as int),
                    pairs[i as int],
                );
            }
            i = i + 1;
        }
        proof {
            assert(pairs.take(pairs.len() as int) =~= pairs);
        }
        cfg
    }

    /// The persisted document for the current list.
    pub fn save_config(&self) -> (r: Vec<u8>)
        ensures
            r@ == print_doc(
                fold_upsert(Seq::empty(), entry_pairs(progs_view(self.programs@))),
            ),
    {
        let cfg = self.to_config();
        config_to_json(&cfg)
    }

    /// Set one listed program's language, leaving everything else as it
    /// was.
    pub fn set_lang(&mut self, idx: usize, lang: &str)
        requires
            idx < old(self).programs@.len(),
        ensures
            progs_view(final(self).programs@) == progs_view(old(self).programs@).update(
                idx as int,
                (
                    progs_view(old(self).programs@)[idx as int].0,
                    encode_utf8(lang@),
                    progs_view(old(self).programs@)[idx as int].2,
                ),
            ),
    {
        let v: String = lang.to_owned();
        self.programs[idx].lang = v;
        proof {
            assert(progs_view(self.programs@) =~= progs_view(old(self).programs@).update(
                idx as int,
                (
                    progs_view(old(self).programs@)[idx as int].0,
                    encode_utf8(lang@),
                    progs_view(old(self).programs@)[idx as int].2,
                ),
            ));
        }
    }

    /// Flip one listed program's language between the two offered tags,
    /// as the toggle in the GUI does.
    pub fn toggle_lang(&mut self, idx: usize)
        requires
            idx < old(self).programs@.len(),
        ensures
            progs_view(final(self).programs@) == progs_view(old(self).programs@).update(
                idx as int,
                (
                    progs_view(old(self).programs@)[idx as int].0,
                    spec_toggled(progs_view(old(self).programs@)[idx as int].1),
                    progs_view(old(self).programs@)[idx as int].2,
                ),
            ),
    {
        let lb = str_bytes(self.programs[idx].lang.as_str());
        let en = str_bytes("en");
        if bytes_eq(&lb, &en) {
            self.set_lang(idx, "fa");
        } else {
            self.set_lang(idx, "en");
        }
    }
}

/// The other language tag: `en` flips to `fa`, everything else to `en`.
pub open spec fn spec_toggled(l: Seq<u8>) -> Seq<u8> {
    if l == encode_utf8("en"@) {
        encode_utf8("fa"@)
    } else {
        encode_utf8("en"@)
    }
}

/// A process name that is the watcher executable's.
pub open spec fn spec_watcher_name(nb: Seq<u8>) -> bool {
    ci_eq(nb, encode_utf8("watcher.exe"@)) || ci_eq(nb, encode_utf8("watcher"@))
}

/// A process name that is the settings GUI executable's.
pub open spec fn spec_gui_name(nb: Seq<u8>) -> bool {
    ci_eq(nb, encode_utf8("lang_switcher_rust.exe"@)) || ci_eq(
        nb,
        encode_utf8("lang_switcher_rust"@),
    )
}

/// Does the snapshot contain a running watcher process?
#[verifier::loop_isolation(false)]
pub fn is_watcher_running(procs: &Vec<ProcessInfo>) -> (r: bool)
    ensures
        r == exists|i: int| 0 <= i < procs@.len() && spec_watcher_name((#[trigger] procs@[i]).nb()),
{
    let t1 = str_bytes("watcher.exe");
    let t2 = str_bytes("watcher");
    let mut i: usize = 0;
    while i < procs.len()
        invariant
            i <= procs@.len(),
            forall|k: int| 0 <= k < i ==> !spec_watcher_name((#[trigger] procs@[k]).nb()),
        decreases procs@.len() - i,
    {
        let nb = str_bytes(procs[i].name.as_str());
        if ci_eq_bytes(&nb, &t1) || ci_eq_bytes(&nb, &t2) {
            proof {
                assert(spec_watcher_name(procs@[i as int].nb()));
            }
            return true;
        }
        i = i + 1;
    }
    false
}

/// Does the snapshot contain a running settings GUI process?
#[verifier::loop_isolation(false)]
pub fn is_gui_running(procs: &Vec<ProcessInfo>) -> (r: bool)
    ensures
        r == exists|i: int| 0 <= i < procs@.len() && spec_gui_name((#[trigger] procs@[i]).nb()),
{
    let t1 = str_bytes("lang_switcher_rust.exe");
    let t2 = str_bytes("lang_switcher_rust");
    let mut i: usize = 0;
    while i < procs.len()
        invariant
            i <= procs@.len(),
            forall|k: int| 0 <= k < i ==> !spec_gui_name((#[trigger] procs@[k]).nb()),
        decreases procs@.len() - i,
    {
        let nb = str_bytes(procs[i].name.as_str());
        if ci_eq_bytes(&nb, &t1) || ci_eq_bytes(&nb, &t2) {
            proof {
                assert(spec_gui_name(procs@[i as int].nb()));
            }
            return true;
        }
        i = i + 1;
    }
    false
}

/// Every allow-list name with no configuration entry, even up to letter
/// case, is assigned the fixed default language when the list is built.
pub proof fn lemma_allowlist_unconfigured_default(es: Seq<(Seq<u8>, Seq<u8>)>, n: int)
    requires
        0 <= n < spec_predefined().len(),
        forall|i: int| 0 <= i < es.len() ==> !ci_eq((#[trigger] es[i]).0, spec_predefined()[n]),
    ensures
        spec_entry_lang(
            None::<Seq<(Seq<u8>, Seq<u8>, Option<Seq<u8>>)>>,
            es,
            spec_predefined()[n],
        ) == default_lang(),
{
    crate::config::lemma_unconfigured_gets_default(es, spec_predefined()[n]);
}

/// Toggling one program's language in the lister and saving persists
/// exactly that value and no others: in the saved entries the toggled
/// program's name maps to the new language, and every other key maps to
/// exactly what it mapped to before.
pub proof fn lemma_toggle_then_save_exact(
    pv: Seq<(Seq<u8>, Seq<u8>, Option<Seq<u8>>)>,
    idx: int,
    l: Seq<u8>,
)
    requires
        0 <= idx < pv.len(),
        forall|i: int, j: int|
            0 <= i < j < pv.len() ==> (#[trigger] pv[i]).0 != (#[trigger] pv[j]).0,
    ensures
        find_exact(
            fold_upsert(
                Seq::empty(),
                entry_pairs(pv.update(idx, (pv[idx].0, l, pv[idx].2))),
            ),
            pv[idx].0,
        ) == Some(l),
        forall|k: Seq<u8>|
            k != pv[idx].0 ==> #[trigger] find_exact(
                fold_upsert(
                    Seq::empty(),
                    entry_pairs(pv.update(idx, (pv[idx].0, l, pv[idx].2))),
                ),
                k,
            ) == find_exact(fold_upsert(Seq::empty(), entry_pairs(pv)), k),
{
    let es = entry_pairs(pv);
    let pv2 = pv.update(idx, (pv[idx].0, l, pv[idx].2));
    let es2 = entry_pairs(pv2);
    assert(es2 =~= es.update(idx, (es[idx].0, l)));
    assert forall|i: int, j: int|
        0 <= i < j < es.len() implies (#[trigger] es[i]).0 != (#[trigger] es[j]).0 by {
        assert(es[i].0 == pv[i].0);
        assert(es[j].0 == pv[j].0);
    }
    assert(keys_distinct(es));
    assert forall|i: int, j: int|
        0 <= i < j < es2.len() implies (#[trigger] es2[i]).0 != (#[trigger] es2[j]).0 by {
        assert(es2[i].0 == es[i].0);
        assert(es2[j].0 == es[j].0);
    }
    assert(keys_distinct(es2));
    let emp = Seq::<(Seq<u8>, Seq<u8>)>::empty();
    assert(keys_distinct(emp));
    crate::config::lemma_fold_upsert_fresh(emp, es);
    crate::config::lemma_fold_upsert_fresh(emp, es2);
    assert(fold_upsert(emp, es) =~= es);
    assert(fold_upsert(emp, es2) =~= es2);
    assert(es2[idx] == (es[idx].0, l));
    crate::config::lemma_find_exact_at(es2, idx);
    assert(find_exact(es2, pv[idx].0) == Some(l));
    assert forall|k: Seq<u8>| k != pv[idx].0 implies #[trigger] find_exact(
        fold_upsert(emp, es2),
        k,
    ) == find_exact(fold_upsert(emp, es), k) by {
        crate::config::lemma_find_exact_update_other(es, idx, l, k);
    }
}

/// `spec_prior_lang` misses exactly when no prior name matches up to case.
pub proof fn lemma_prior_lang_none(pv: Seq<(Seq<u8>, Seq<u8>, Option<Seq<u8>>)>, nb: Seq<u8>)
    ensures
        spec_prior_lang(pv, nb).is_none() <==> (forall|i: int|
            0 <= i < pv.len() ==> !ci_eq((#[trigger] pv[i]).0, nb)),
    decreases pv.len(),
{
    if pv.len() > 0 {
        lemma_prior_lang_none(pv.skip(1), nb);
        if spec_prior_lang(pv, nb).is_none() {
            assert forall|i: int| 0 <= i < pv.len() implies !ci_eq((#[trigger] pv[i]).0, nb) by {
                if i > 0 {
                    assert(pv.skip(1)[i - 1] == pv[i]);
                    assert(!ci_eq(pv.skip(1)[i - 1].0, nb));
                }
            }
        }
        if forall|i: int| 0 <= i < pv.len() ==> !ci_eq((#[trigger] pv[i]).0, nb) {
            assert forall|i: int| 0 <= i < pv.skip(1).len() implies !ci_eq(
                (#[trigger] pv.skip(1)[i]).0,
                nb,
            ) by {
                assert(pv.skip(1)[i] == pv[i + 1]);
            }
            assert(spec_prior_lang(pv.skip(1), nb).is_none());
        }
    }
}

/// The allow-list scan only appends, and every program it appends carries
/// exactly the language the prior list and the configuration assign its
/// name.
pub proof fn lemma_scan_predefined_langs(
    names: Seq<Seq<u8>>,
    procs: Seq<ProcessInfo>,
    vis: Seq<u32>,
    filter: bool,
    prior: Option<Seq<(Seq<u8>, Seq<u8>, Option<Seq<u8>>)>>,
    es: Seq<(Seq<u8>, Seq<u8>)>,
    cur: Option<Seq<u8>>,
    acc: (Seq<(Seq<u8>, Seq<u8>, Option<Seq<u8>>)>, Seq<Seq<u8>>),
)
    ensures
        spec_scan_predefined(names, procs, vis, filter, prior, es, cur, acc).0.len()
            >= acc.0.len(),
        spec_scan_predefined(names, procs, vis, filter, prior, es, cur, acc).0.take(
            acc.0.len() as int,
        ) == acc.0,
        forall|t: int|
            acc.0.len() <= t < spec_scan_predefined(
                names,
                procs,
                vis,
                filter,
                prior,
                es,
                cur,
                acc,
            ).0.len() ==> (#[trigger] spec_scan_predefined(
                names,
                procs,
                vis,
                filter,
                prior,
                es,
                cur,
                acc,
            ).0[t]).1 == spec_entry_lang(
                prior,
                es,
                spec_scan_predefined(names, procs, vis, filter, prior, es, cur, acc).0[t].0,
            ),
    decreases names.len(),
{
    let r = spec_scan_predefined(names, procs, vis, filter, prior, es, cur, acc);
    if names.len() == 0 {
        assert(r.0.take(acc.0.len() as int) =~= acc.0);
    } else {
        let acc2 = spec_step_predefined(procs, names[0], vis, filter, prior, es, cur, acc);
        lemma_scan_predefined_langs(names.skip(1), procs, vis, filter, prior, es, cur, acc2);
        let r2 = spec_scan_predefined(names.skip(1), procs, vis, filter, prior, es, cur, acc2);
        assert(r == r2);
        if acc2.0 == acc.0 {
            assert(r.0.take(acc.0.len() as int) == acc.0);
        } else {
            // the step appended one program with the assigned language
            let j = spec_find_proc(procs, 0, names[0], vis, filter).unwrap();
            let p = procs[j];
            let e = (p.nb(), spec_entry_lang(prior, es, p.nb()), p.pb());
            assert(acc2.0 == acc.0.push(e));
            assert forall|i: int| 0 <= i < acc.0.len() implies r.0.take(acc.0.len() as int)[i]
                == acc.0[i] by {
                assert(r.0[i] == r.0.take(acc2.0.len() as int)[i]);
                assert(r.0[i] == acc2.0[i]);
                assert(acc2.0[i] == acc.0[i]);
            }
            assert(r.0.take(acc.0.len() as int) =~= acc.0);
            assert forall|t: int| acc.0.len() <= t < r.0.len() implies (#[trigger] r.0[t]).1
                == spec_entry_lang(prior, es, r.0[t].0) by {
                if t < acc2.0.len() {
                    assert(r.0[t] == r.0.take(acc2.0.len() as int)[t]);
                    assert(r.0[t] == acc2.0[t]);
                    assert(acc2.0[t] == e);
                }
            }
        }
    }
}

/// Every program of the second pass — the sorted suffix of a built list —
/// carries exactly the language the configuration assigns its name.
pub proof fn lemma_built_others_assigned(
    pv: Seq<(Seq<u8>, Seq<u8>, Option<Seq<u8>>)>,
    procs: Seq<ProcessInfo>,
    vis: Seq<u32>,
    es: Seq<(Seq<u8>, Seq<u8>)>,
    prior: Option<Seq<(Seq<u8>, Seq<u8>, Option<Seq<u8>>)>>,
    cur: Option<Seq<u8>>,
    t: int,
)
    requires
        spec_built(pv, procs, vis, es, prior, cur),
        spec_scan_predefined(
            spec_predefined(),
            procs,
            vis,
            vis.len() > 0,
            prior,
            es,
            cur,
            (Seq::empty(), Seq::empty()),
        ).0.len() <= t < pv.len(),
    ensures
        pv[t].1 == spec_assigned(es, pv[t].0),
{
    broadcast use vstd::seq_lib::group_to_multiset_ensures;

    let filter = vis.len() > 0;
    let scanned = spec_scan_predefined(
        spec_predefined(),
        procs,
        vis,
        filter,
        prior,
        es,
        cur,
        (Seq::empty(), Seq::empty()),
    );
    let wl = with_langs(spec_collect_others(procs, 0, vis, filter, cur, scanned.1).0, es);
    let suffix = pv.skip(scanned.0.len() as int);
    let x = suffix[t - scanned.0.len()];
    assert(pv[t] == x);
    assert(suffix.contains(x));
    lemma_sort_ci_multiset(wl);
    assert(suffix.to_multiset().count(x) > 0);
    assert(wl.to_multiset().count(x) > 0);
    assert(wl.contains(x));
    let j = choose|j: int| 0 <= j < wl.len() && wl[j] == x;
    assert(x.1 == spec_assigned(es, x.0));
}

/// Every program a built list shows whose name has no configuration entry,
/// even up to letter case — and, on a refresh, no prior entry either — is
/// shown with the fixed default language. In particular this holds of every
/// allow-list name without an entry.
pub proof fn lemma_built_unconfigured_default(
    pv: Seq<(Seq<u8>, Seq<u8>, Option<Seq<u8>>)>,
    procs: Seq<ProcessInfo>,
    vis: Seq<u32>,
    es: Seq<(Seq<u8>, Seq<u8>)>,
    prior: Option<Seq<(Seq<u8>, Seq<u8>, Option<Seq<u8>>)>>,
    cur: Option<Seq<u8>>,
    t: int,
)
    requires
        spec_built(pv, procs, vis, es, prior, cur),
        0 <= t < pv.len(),
        forall|i: int| 0 <= i < es.len() ==> !ci_eq((#[trigger] es[i]).0, pv[t].0),
        match prior {
            Some(pr) => forall|i: int| 0 <= i < pr.len() ==> !ci_eq((#[trigger] pr[i]).0, pv[t].0),
            None => true,
        },
    ensures
        pv[t].1 == default_lang(),
{
    let filter = vis.len() > 0;
    let scanned = spec_scan_predefined(
        spec_predefined(),
        procs,
        vis,
        filter,
        prior,
        es,
        cur,
        (Seq::empty(), Seq::empty()),
    );
    crate::config::lemma_unconfigured_gets_default(es, pv[t].0);
    if t < scanned.0.len() {
        lemma_scan_predefined_langs(
            spec_predefined(),
            procs,
            vis,
            filter,
            prior,
            es,
            cur,
            (Seq::empty(), Seq::empty()),
        );
        assert(pv[t] == pv.take(scanned.0.len() as int)[t]);
        assert(pv[t] == scanned.0[t]);
        assert(scanned.0[t].1 == spec_entry_lang(prior, es, scanned.0[t].0));
        match prior {
            Some(pr) => {
                lemma_prior_lang_none(pr, pv[t].0);
                assert(spec_prior_lang(pr, pv[t].0).is_none());
            },
            None => {},
        }
    } else {
        lemma_built_others_assigned(pv, procs, vis, es, prior, cur, t);
    }
}

} // verus!
