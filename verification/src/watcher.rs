//! The watcher's decision state: which process owned the foreground window
//! at the previous poll, and which language the last successful layout
//! switch requested. Each poll decides from these and the configuration
//! whether to issue an OS layout-switch call; the caller performs the call
//! and commits its outcome.

use vstd::prelude::*;
use vstd::utf8::encode_utf8;

use crate::config::{spec_lookup, Config};
use crate::text::{bytes_eq, str_bytes};

verus! {

/// What the watcher remembers between polls.
pub struct WatcherState {
    pub last_pid: Option<u32>,
    pub last_lang: Option<String>,
}

/// The bytes of an optional language tag.
pub open spec fn opt_lang_bytes(l: Option<String>) -> Option<Seq<u8>> {
    match l {
        Some(s) => Some(encode_utf8(s@)),
        None => None,
    }
}

/// The bytes of an optionally resolved process name.
pub open spec fn opt_name_bytes(n: Option<&str>) -> Option<Seq<u8>> {
    match n {
        Some(s) => Some(encode_utf8(s@)),
        None => None,
    }
}

/// The language a poll requests a layout switch for, if any: nothing when
/// no window is in the foreground, when its owning process is the one
/// already seen, when the process name cannot be resolved, or when the
/// process has no configured language; otherwise the configured language,
/// unless it is the one last requested successfully.
pub open spec fn spec_decide(
    last_pid: Option<u32>,
    last_lang: Option<Seq<u8>>,
    pid: Option<u32>,
    name: Option<Seq<u8>>,
    es: Seq<(Seq<u8>, Seq<u8>)>,
) -> Option<Seq<u8>> {
    match pid {
        None => None,
        Some(p) => if last_pid == Some(p) {
            None
        } else {
            match name {
                None => None,
                Some(nb) => match spec_lookup(es, nb) {
                    Some(l) => if last_lang == Some(l) {
                        None
                    } else {
                        Some(l)
                    },
                    None => None,
                },
            }
        },
    }
}

/// The state after a poll: the new last-seen process, and the new
/// last-requested language, which advances only when a switch was issued
/// and succeeded, and is cleared when the process has no configured
/// language.
pub open spec fn spec_commit(
    last_pid: Option<u32>,
    last_lang: Option<Seq<u8>>,
    pid: Option<u32>,
    name: Option<Seq<u8>>,
    es: Seq<(Seq<u8>, Seq<u8>)>,
    switched: bool,
) -> (Option<u32>, Option<Seq<u8>>) {
    match pid {
        None => (last_pid, last_lang),
        Some(p) => if last_pid == Some(p) {
            (last_pid, last_lang)
        } else {
            let ll = match name {
                None => last_lang,
                Some(nb) => match spec_lookup(es, nb) {
                    Some(l) => if last_lang == Some(l) {
                        last_lang
                    } else if switched {
                        Some(l)
                    } else {
                        last_lang
                    },
                    None => None,
                },
            };
            (Some(p), ll)
        },
    }
}

impl WatcherState {
    /// The byte-level view of the last requested language.
    pub open spec fn last_lang_bytes(self) -> Option<Seq<u8>> {
        opt_lang_bytes(self.last_lang)
    }

    /// The fresh state: nothing seen, nothing requested.
    pub fn new() -> (r: Self)
        ensures
            r.last_pid.is_none(),
            r.last_lang.is_none(),
    {
        WatcherState { last_pid: None, last_lang: None }
    }

    /// Decide whether this poll should request a layout switch, and for
    /// which language.
    pub fn poll_decide(&self, pid: Option<u32>, name: Option<&str>, cfg: &Config) -> (r: Option<
        String,
    >)
        ensures
            opt_lang_bytes(r) == spec_decide(
                self.last_pid,
                self.last_lang_bytes(),
                pid,
                opt_name_bytes(name),
                cfg.entries(),
            ),
    {
        let p = match pid {
            Some(p) => p,
            None => {
                return None;
            },
        };
        if let Some(lp) = self.last_pid {
            if lp == p {
                return None;
            }
        }
        let n = match name {
            Some(n) => n,
            None => {
                return None;
            },
        };
        match cfg.lookup(n) {
            Some(l) => {
                if let Some(ll) = &self.last_lang {
                    let lb = str_bytes(ll.as_str());
                    let nb = str_bytes(l.as_str());
                    if bytes_eq(&lb, &nb) {
                        return None;
                    }
                }
                Some(l)
            },
            None => None,
        }
    }

    /// Record the outcome of this poll: the foreground process becomes the
    /// last-seen one, and the requested language becomes the last-requested
    /// one exactly when the switch call succeeded.
    pub fn poll_commit(&mut self, pid: Option<u32>, name: Option<&str>, cfg: &Config, switched: bool)
        ensures
            final(self).last_pid == spec_commit(
                old(self).last_pid,
                old(self).last_lang_bytes(),
                pid,
                opt_name_bytes(name),
                cfg.entries(),
                switched,
            ).0,
            final(self).last_lang_bytes() == spec_commit(
                old(self).last_pid,
                old(self).last_lang_bytes(),
                pid,
                opt_name_bytes(name),
                cfg.entries(),
                switched,
            ).1,
    {
        let p = match pid {
            Some(p) => p,
            None => {
                return ;
            },
        };
        if let Some(lp) = self.last_pid {
            if lp == p {
                return ;
            }
        }
        self.last_pid = Some(p);
        let n = match name {
            Some(n) => n,
            None => {
                return ;
            },
        };
        match cfg.lookup(n) {
            Some(l) => {
                let same = if let Some(ll) = &self.last_lang {
                    let lb = str_bytes(ll.as_str());
                    let nb = str_bytes(l.as_str());
                    bytes_eq(&lb, &nb)
                } else {
                    false
                };
                if !same && switched {
                    self.last_lang = Some(l);
                }
            },
            None => {
                self.last_lang = None;
            },
        }
    }
}

/// After any poll that saw process `p`, a poll that still sees `p` in the
/// foreground decides nothing, whatever name resolution and configuration
/// it runs against: an unchanged foreground process never re-issues the
/// layout-switch call.
pub proof fn lemma_no_reissue_same_pid(
    last_pid: Option<u32>,
    last_lang: Option<Seq<u8>>,
    p: u32,
    name: Option<Seq<u8>>,
    es: Seq<(Seq<u8>, Seq<u8>)>,
    switched: bool,
    name2: Option<Seq<u8>>,
    es2: Seq<(Seq<u8>, Seq<u8>)>,
)
    ensures
        spec_decide(
            spec_commit(last_pid, last_lang, Some(p), name, es, switched).0,
            spec_commit(last_pid, last_lang, Some(p), name, es, switched).1,
            Some(p),
            name2,
            es2,
        ) == None::<Seq<u8>>,
{
}

/// A poll of a process whose configured language is the one last switched
/// to successfully decides nothing: an unchanged configured language never
/// re-issues the layout-switch call.
pub proof fn lemma_no_reissue_same_lang(
    last_pid: Option<u32>,
    last_lang: Option<Seq<u8>>,
    pid: Option<u32>,
    nb: Seq<u8>,
    es: Seq<(Seq<u8>, Seq<u8>)>,
)
    requires
        last_lang.is_some(),
        spec_lookup(es, nb) == last_lang,
    ensures
        spec_decide(last_pid, last_lang, pid, Some(nb), es) == None::<Seq<u8>>,
{
}

/// The keyboard layout identifier for a language tag: `en` is US English,
/// `fa` is Persian, and no other tag has one.
pub open spec fn spec_klid(b: Seq<u8>) -> Option<Seq<u8>> {
    if b == encode_utf8("en"@) {
        Some(encode_utf8("00000409"@))
    } else if b == encode_utf8("fa"@) {
        Some(encode_utf8("00000429"@))
    } else {
        None
    }
}

/// The layout identifier handed to the OS for a configured language tag.
pub fn lang_to_klid(lang: &str) -> (r: Option<&'static str>)
    ensures
        match r {
            Some(k) => spec_klid(encode_utf8(lang@)) == Some(encode_utf8(k@)),
            None => spec_klid(encode_utf8(lang@)).is_none(),
        },
{
    let lb = str_bytes(lang);
    let en = str_bytes("en");
    if bytes_eq(&lb, &en) {
        return Some("00000409");
    }
    let fa = str_bytes("fa");
    if bytes_eq(&lb, &fa) {
        return Some("00000429");
    }
    None
}

} // verus!
