//! The configuration store: an association list from process executable
//! names to language tags, the in-memory form of the persisted document.
//! Keys are unique; lookups try an exact match first and then a
//! case-insensitive one; unmapped processes get the fixed default language.

use vstd::prelude::*;
use vstd::utf8::encode_utf8;

use crate::text::{bytes_eq, ci_eq, ci_eq_bytes, str_bytes};

verus! {

/// One process-name → language-tag entry of the configuration.
#[derive(Debug)]
pub struct ConfigEntry {
    pub key: String,
    pub value: String,
}

/// The configuration: a mapping from process executable name to language
/// tag, kept as an association list with pairwise distinct keys.
#[derive(Debug)]
pub struct Config(pub Vec<ConfigEntry>);

impl ConfigEntry {
    /// The UTF-8 bytes of the key.
    pub open spec fn kb(self) -> Seq<u8> {
        encode_utf8(self.key@)
    }

    /// The UTF-8 bytes of the value.
    pub open spec fn vb(self) -> Seq<u8> {
        encode_utf8(self.value@)
    }
}

/// The bytes of the fixed default language tag, `en`.
pub open spec fn default_lang() -> Seq<u8> {
    encode_utf8("en"@)
}

/// Pairwise distinct keys: the association list denotes a map.
pub open spec fn keys_distinct(es: Seq<(Seq<u8>, Seq<u8>)>) -> bool {
    forall|i: int, j: int| 0 <= i < j < es.len() ==> es[i].0 != es[j].0
}

/// Upserting every entry of `es` in turn, starting from `acc`.
pub open spec fn fold_upsert(
    acc: Seq<(Seq<u8>, Seq<u8>)>,
    es: Seq<(Seq<u8>, Seq<u8>)>,
) -> Seq<(Seq<u8>, Seq<u8>)>
    decreases es.len(),
{
    if es.len() == 0 {
        acc
    } else {
        fold_upsert(spec_upsert(acc, es[0].0, es[0].1), es.skip(1))
    }
}

/// First entry whose key equals `k` exactly, if any.
pub open spec fn find_exact(es: Seq<(Seq<u8>, Seq<u8>)>, k: Seq<u8>) -> Option<Seq<u8>>
    decreases es.len(),
{
    if es.len() == 0 {
        None
    } else if es[0].0 == k {
        Some(es[0].1)
    } else {
        find_exact(es.skip(1), k)
    }
}

/// First entry whose key equals `k` up to ASCII letter case, if any.
pub open spec fn find_ci(es: Seq<(Seq<u8>, Seq<u8>)>, k: Seq<u8>) -> Option<Seq<u8>>
    decreases es.len(),
{
    if es.len() == 0 {
        None
    } else if ci_eq(es[0].0, k) {
        Some(es[0].1)
    } else {
        find_ci(es.skip(1), k)
    }
}

/// The configured language for `k`: an exact match if there is one,
/// otherwise a case-insensitive match.
pub open spec fn spec_lookup(es: Seq<(Seq<u8>, Seq<u8>)>, k: Seq<u8>) -> Option<Seq<u8>> {
    match find_exact(es, k) {
        Some(v) => Some(v),
        None => find_ci(es, k),
    }
}

/// The language the lister assigns to `k`: the configured value — an
/// exact match first, then a case-insensitive one — or the fixed default.
pub open spec fn spec_assigned(es: Seq<(Seq<u8>, Seq<u8>)>, k: Seq<u8>) -> Seq<u8> {
    match spec_lookup(es, k) {
        Some(v) => v,
        None => default_lang(),
    }
}

/// Map-like insertion: replace the value of the entry whose key is `k`,
/// or append a new entry if no key equals `k`.
pub open spec fn spec_upsert(
    es: Seq<(Seq<u8>, Seq<u8>)>,
    k: Seq<u8>,
    v: Seq<u8>,
) -> Seq<(Seq<u8>, Seq<u8>)>
    decreases es.len(),
{
    if es.len() == 0 {
        seq![(k, v)]
    } else if es[0].0 == k {
        seq![(es[0].0, v)] + es.skip(1)
    } else {
        seq![es[0]] + spec_upsert(es.skip(1), k, v)
    }
}

impl Config {
    /// The byte-level model: the sequence of (key bytes, value bytes) pairs.
    pub open spec fn entries(self) -> Seq<(Seq<u8>, Seq<u8>)> {
        self.0@.map_values(|e: ConfigEntry| (e.kb(), e.vb()))
    }

    /// Well-formed: keys are pairwise distinct.
    pub open spec fn wf(self) -> bool {
        keys_distinct(self.entries())
    }

    /// The exact-match lookup, as `HashMap::get` would answer it.
    pub fn get(&self, name: &str) -> (r: Option<String>)
        ensures
            r.is_some() == find_exact(self.entries(), encode_utf8(name@)).is_some(),
            r.is_some() ==> find_exact(self.entries(), encode_utf8(name@)) == Some(
                encode_utf8(r.unwrap()@),
            ),
    {
        let nb = str_bytes(name);
        proof {
            assert(self.entries().skip(0) =~= self.entries());
        }
        let mut i: usize = 0;
        while i < self.0.len()
            invariant
                i <= self.0.len(),
                nb@ == encode_utf8(name@),
                find_exact(self.entries().skip(i as int), nb@) == find_exact(self.entries(), nb@),
            decreases self.0.len() - i,
        {
            let kb = str_bytes(self.0[i].key.as_str());
            proof {
                assert(self.entries().skip(i as int)[0] == self.entries()[i as int]);
            }
            if bytes_eq(&kb, &nb) {
                let v = self.0[i].value.clone();
                return Some(v);
            }
            proof {
                assert(self.entries().skip(i as int).skip(1) =~= self.entries().skip(
                    i as int + 1,
                ));
            }
            i = i + 1;
        }
        proof {
            assert(self.entries().skip(self.0@.len() as int) =~= Seq::<
                (Seq<u8>, Seq<u8>),
            >::empty());
        }
        None
    }

    /// The watcher's lookup: exact match first, then case-insensitive.
    pub fn lookup(&self, name: &str) -> (r: Option<String>)
        ensures
            r.is_some() == spec_lookup(self.entries(), encode_utf8(name@)).is_some(),
            r.is_some() ==> spec_lookup(self.entries(), encode_utf8(name@)) == Some(
                encode_utf8(r.unwrap()@),
            ),
    {
        if let Some(v) = self.get(name) {
            return Some(v);
        }
        let nb = str_bytes(name);
        proof {
            assert(self.entries().skip(0) =~= self.entries());
        }
        let mut i: usize = 0;
        while i < self.0.len()
            invariant
                i <= self.0.len(),
                nb@ == encode_utf8(name@),
                find_exact(self.entries(), nb@).is_none(),
                find_ci(self.entries().skip(i as int), nb@) == find_ci(self.entries(), nb@),
            decreases self.0.len() - i,
        {
            let kb = str_bytes(self.0[i].key.as_str());
            proof {
                assert(self.entries().skip(i as int)[0] == self.entries()[i as int]);
            }
            if ci_eq_bytes(&kb, &nb) {
                let v = self.0[i].value.clone();
                return Some(v);
            }
            proof {
                assert(self.entries().skip(i as int).skip(1) =~= self.entries().skip(
                    i as int + 1,
                ));
            }
            i = i + 1;
        }
        proof {
            assert(self.entries().skip(self.0@.len() as int) =~= Seq::<
                (Seq<u8>, Seq<u8>),
            >::empty());
        }
        None
    }

    /// The language the lister assigns to `name`: the configured value —
    /// an exact match first, then a case-insensitive one — or the fixed
    /// default `en`.
    pub fn assigned_lang(&self, name: &str) -> (r: String)
        ensures
            encode_utf8(r@) == spec_assigned(self.entries(), encode_utf8(name@)),
    {
        match self.lookup(name) {
            Some(v) => v,
            None => "en".to_owned(),
        }
    }

    /// Insert `key → value`: replace the existing entry for `key`, or
    /// append one. Keeps the keys pairwise distinct.
    pub fn insert(&mut self, key: &str, value: &str)
        ensures
            final(self).entries() == spec_upsert(
                old(self).entries(),
                encode_utf8(key@),
                encode_utf8(value@),
            ),
            old(self).wf() ==> final(self).wf(),
    {
        let kb = str_bytes(key);
        let mut i: usize = 0;
        while i < self.0.len()
            invariant
                i <= self.0.len(),
                kb@ == encode_utf8(key@),
                self == old(self),
                forall|k: int| 0 <= k < i ==> self.entries()[k].0 != kb@,
            decreases self.0.len() - i,
        {
            let ekb = str_bytes(self.0[i].key.as_str());
            if bytes_eq(&ekb, &kb) {
                let v: String = value.to_owned();
                self.0[i].value = v;
                proof {
                    assert(self.entries() =~= old(self).entries().update(
                        i as int,
                        (old(self).entries()[i as int].0, encode_utf8(value@)),
                    ));
                    lemma_upsert_at_match(
                        old(self).entries(),
                        kb@,
                        encode_utf8(value@),
                        i as int,
                    );
                    if old(self).wf() {
                        lemma_upsert_keys_distinct(old(self).entries(), kb@, encode_utf8(value@));
                    }
                }
                return ;
            }
            i = i + 1;
        }
        let e = ConfigEntry { key: key.to_owned(), value: value.to_owned() };
        self.0.push(e);
        proof {
            assert(self.entries() =~= old(self).entries().push(
                (encode_utf8(key@), encode_utf8(value@)),
            ));
            lemma_find_exact_none(old(self).entries(), kb@);
            lemma_upsert_at_end(old(self).entries(), kb@, encode_utf8(value@));
            if old(self).wf() {
                lemma_upsert_keys_distinct(old(self).entries(), kb@, encode_utf8(value@));
            }
        }
    }
}

impl Default for Config {
    /// The empty configuration, the state after a missing or corrupt document.
    fn default() -> (r: Self)
        ensures
            r.entries().len() == 0,
            r.wf(),
    {
        let r = Config(Vec::new());
        proof {
            assert(r.entries() =~= Seq::<(Seq<u8>, Seq<u8>)>::empty());
        }
        r
    }
}

/// `find_exact` answers `None` exactly when no key equals `k`.
pub proof fn lemma_find_exact_none(es: Seq<(Seq<u8>, Seq<u8>)>, k: Seq<u8>)
    ensures
        find_exact(es, k).is_none() <==> (forall|i: int| 0 <= i < es.len() ==> es[i].0 != k),
    decreases es.len(),
{
    if es.len() > 0 {
        lemma_find_exact_none(es.skip(1), k);
        if find_exact(es, k).is_none() {
            assert forall|i: int| 0 <= i < es.len() implies (#[trigger] es[i]).0 != k by {
                if i > 0 {
                    assert(es.skip(1)[i - 1] == es[i]);
                    assert(es.skip(1)[i - 1].0 != k);
                }
            }
        }
        if forall|i: int| 0 <= i < es.len() ==> (#[trigger] es[i]).0 != k {
            assert forall|i: int| 0 <= i < es.skip(1).len() implies (#[trigger] es.skip(1)[i]).0
                != k by {
                assert(es.skip(1)[i] == es[i + 1]);
                assert(es[i + 1].0 != k);
            }
            assert(find_exact(es.skip(1), k).is_none());
        }
    }
}

/// `find_ci` answers `None` exactly when no key matches `k` up to case.
pub proof fn lemma_find_ci_none(es: Seq<(Seq<u8>, Seq<u8>)>, k: Seq<u8>)
    ensures
        find_ci(es, k).is_none() <==> (forall|i: int| 0 <= i < es.len() ==> !ci_eq(es[i].0, k)),
    decreases es.len(),
{
    if es.len() > 0 {
        lemma_find_ci_none(es.skip(1), k);
        if find_ci(es, k).is_none() {
            assert forall|i: int| 0 <= i < es.len() implies !ci_eq((#[trigger] es[i]).0, k) by {
                if i > 0 {
                    assert(es.skip(1)[i - 1] == es[i]);
                    assert(!ci_eq(es.skip(1)[i - 1].0, k));
                }
            }
        }
        if forall|i: int| 0 <= i < es.len() ==> !ci_eq((#[trigger] es[i]).0, k) {
            assert forall|i: int| 0 <= i < es.skip(1).len() implies !ci_eq(
                (#[trigger] es.skip(1)[i]).0,
                k,
            ) by {
                assert(es.skip(1)[i] == es[i + 1]);
                assert(!ci_eq(es[i + 1].0, k));
            }
            assert(find_ci(es.skip(1), k).is_none());
        }
    }
}

/// A successful `find_ci` returns the value of some case-insensitive match.
pub proof fn lemma_find_ci_witness(es: Seq<(Seq<u8>, Seq<u8>)>, k: Seq<u8>)
    requires
        find_ci(es, k).is_some(),
    ensures
        exists|i: int|
            0 <= i < es.len() && ci_eq(#[trigger] es[i].0, k) && find_ci(es, k) == Some(es[i].1),
    decreases es.len(),
{
    if es.len() > 0 {
        if ci_eq(es[0].0, k) {
            assert(0 <= 0 < es.len() && ci_eq(es[0].0, k) && find_ci(es, k) == Some(es[0].1));
        } else {
            lemma_find_ci_witness(es.skip(1), k);
            let i = choose|i: int|
                0 <= i < es.skip(1).len() && ci_eq(#[trigger] es.skip(1)[i].0, k) && find_ci(
                    es.skip(1),
                    k,
                ) == Some(es.skip(1)[i].1);
            assert(es.skip(1)[i] == es[i + 1]);
            assert(0 <= i + 1 < es.len() && ci_eq(es[i + 1].0, k) && find_ci(es, k)
                == Some(es[i + 1].1));
        }
    }
}

/// A process name with no configuration entry, even up to letter case, is
/// assigned the fixed default language. In particular every allow-list name
/// without an entry gets the default.
pub proof fn lemma_unconfigured_gets_default(es: Seq<(Seq<u8>, Seq<u8>)>, name: Seq<u8>)
    requires
        forall|i: int| 0 <= i < es.len() ==> !ci_eq(#[trigger] es[i].0, name),
    ensures
        spec_assigned(es, name) == default_lang(),
        spec_lookup(es, name).is_none(),
{
    lemma_find_exact_none(es, name);
    lemma_find_ci_none(es, name);
    assert forall|i: int| 0 <= i < es.len() implies es[i].0 != name by {
        if es[i].0 == name {
            assert(ci_eq(es[i].0, name));
        }
    }
}

/// Configuration lookups are case-insensitive: if some key matches the
/// observed name up to ASCII letter case, the lookup succeeds, and it
/// answers the value of such a matching entry.
pub proof fn lemma_lookup_case_insensitive(es: Seq<(Seq<u8>, Seq<u8>)>, name: Seq<u8>)
    requires
        exists|i: int| 0 <= i < es.len() && ci_eq(#[trigger] es[i].0, name),
    ensures
        spec_lookup(es, name).is_some(),
        exists|i: int|
            0 <= i < es.len() && ci_eq(#[trigger] es[i].0, name) && spec_lookup(es, name) == Some(
                es[i].1,
            ),
{
    lemma_find_ci_none(es, name);
    if find_exact(es, name).is_some() {
        lemma_find_exact_witness(es, name);
        let i = choose|i: int|
            0 <= i < es.len() && #[trigger] es[i].0 == name && find_exact(es, name) == Some(
                es[i].1,
            );
        assert(ci_eq(es[i].0, name));
        assert(0 <= i < es.len() && ci_eq(es[i].0, name) && spec_lookup(es, name)
            == Some(es[i].1));
    } else {
        lemma_find_ci_witness(es, name);
    }
}

/// A successful `find_exact` returns the value of some exactly matching key.
pub proof fn lemma_find_exact_witness(es: Seq<(Seq<u8>, Seq<u8>)>, k: Seq<u8>)
    requires
        find_exact(es, k).is_some(),
    ensures
        exists|i: int|
            0 <= i < es.len() && #[trigger] es[i].0 == k && find_exact(es, k) == Some(es[i].1),
    decreases es.len(),
{
    if es.len() > 0 {
        if es[0].0 == k {
            assert(0 <= 0 < es.len() && es[0].0 == k && find_exact(es, k) == Some(es[0].1));
        } else {
            lemma_find_exact_witness(es.skip(1), k);
            let i = choose|i: int|
                0 <= i < es.skip(1).len() && #[trigger] es.skip(1)[i].0 == k && find_exact(
                    es.skip(1),
                    k,
                ) == Some(es.skip(1)[i].1);
            assert(es.skip(1)[i] == es[i + 1]);
            assert(0 <= i + 1 < es.len() && es[i + 1].0 == k && find_exact(es, k)
                == Some(es[i + 1].1));
        }
    }
}

/// When no key equals `k`, upsert appends the new entry at the end.
pub proof fn lemma_upsert_at_end(es: Seq<(Seq<u8>, Seq<u8>)>, k: Seq<u8>, v: Seq<u8>)
    requires
        forall|i: int| 0 <= i < es.len() ==> es[i].0 != k,
    ensures
        spec_upsert(es, k, v) == es.push((k, v)),
    decreases es.len(),
{
    if es.len() == 0 {
        assert(spec_upsert(es, k, v) =~= es.push((k, v)));
    } else {
        assert forall|i: int| 0 <= i < es.skip(1).len() implies (#[trigger] es.skip(1)[i]).0
            != k by {
            assert(es.skip(1)[i] == es[i + 1]);
        }
        lemma_upsert_at_end(es.skip(1), k, v);
        assert(seq![es[0]] + es.skip(1).push((k, v)) =~= es.push((k, v)));
    }
}

/// When the first match of `k` is at index `j`, upsert updates that entry
/// in place.
pub proof fn lemma_upsert_at_match(es: Seq<(Seq<u8>, Seq<u8>)>, k: Seq<u8>, v: Seq<u8>, j: int)
    requires
        0 <= j < es.len(),
        es[j].0 == k,
        forall|i: int| 0 <= i < j ==> es[i].0 != k,
    ensures
        spec_upsert(es, k, v) == es.update(j, (es[j].0, v)),
    decreases es.len(),
{
    if j == 0 {
        assert(spec_upsert(es, k, v) =~= es.update(0, (es[0].0, v)));
    } else {
        assert forall|i: int| 0 <= i < j - 1 implies (#[trigger] es.skip(1)[i]).0 != k by {
            assert(es.skip(1)[i] == es[i + 1]);
        }
        assert(es.skip(1)[j - 1] == es[j]);
        lemma_upsert_at_match(es.skip(1), k, v, j - 1);
        assert(seq![es[0]] + es.skip(1).update(j - 1, (es[j].0, v)) =~= es.update(
            j,
            (es[j].0, v),
        ));
    }
}

/// A successful `find_exact` has a first matching index.
pub proof fn lemma_find_exact_first(es: Seq<(Seq<u8>, Seq<u8>)>, k: Seq<u8>)
    requires
        find_exact(es, k).is_some(),
    ensures
        exists|j: int|
            0 <= j < es.len() && (#[trigger] es[j]).0 == k && find_exact(es, k) == Some(es[j].1)
                && (forall|i: int| 0 <= i < j ==> es[i].0 != k),
    decreases es.len(),
{
    if es.len() > 0 {
        if es[0].0 == k {
            assert(0 <= 0 < es.len() && es[0].0 == k && find_exact(es, k) == Some(es[0].1) && (
            forall|i: int| 0 <= i < 0 ==> es[i].0 != k));
        } else {
            lemma_find_exact_first(es.skip(1), k);
            let j = choose|j: int|
                0 <= j < es.skip(1).len() && (#[trigger] es.skip(1)[j]).0 == k && find_exact(
                    es.skip(1),
                    k,
                ) == Some(es.skip(1)[j].1) && (forall|i: int|
                    0 <= i < j ==> es.skip(1)[i].0 != k);
            assert(es.skip(1)[j] == es[j + 1]);
            assert forall|i: int| 0 <= i < j + 1 implies (#[trigger] es[i]).0 != k by {
                if i > 0 {
                    assert(es.skip(1)[i - 1] == es[i]);
                }
            }
            assert(0 <= j + 1 < es.len() && es[j + 1].0 == k && find_exact(es, k) == Some(
                es[j + 1].1,
            ) && (forall|i: int| 0 <= i < j + 1 ==> es[i].0 != k));
        }
    }
}

/// Upsert keeps keys pairwise distinct.
pub proof fn lemma_upsert_keys_distinct(es: Seq<(Seq<u8>, Seq<u8>)>, k: Seq<u8>, v: Seq<u8>)
    requires
        keys_distinct(es),
    ensures
        keys_distinct(spec_upsert(es, k, v)),
{
    let res = spec_upsert(es, k, v);
    lemma_find_exact_none(es, k);
    if find_exact(es, k).is_none() {
        lemma_upsert_at_end(es, k, v);
        assert forall|i: int, j: int| 0 <= i < j < res.len() implies res[i].0 != res[j].0 by {
            if j == es.len() {
                assert(res[i] == es[i]);
                assert(res[j] == (k, v));
            } else {
                assert(res[i] == es[i]);
                assert(res[j] == es[j]);
            }
        }
    } else {
        lemma_find_exact_first(es, k);
        let j0 = choose|j0: int|
            0 <= j0 < es.len() && (#[trigger] es[j0]).0 == k && find_exact(es, k) == Some(
                es[j0].1,
            ) && (forall|i: int| 0 <= i < j0 ==> es[i].0 != k);
        lemma_upsert_at_match(es, k, v, j0);
        assert forall|i: int, j: int| 0 <= i < j < res.len() implies res[i].0 != res[j].0 by {
            assert(res[i].0 == es[i].0);
            assert(res[j].0 == es[j].0);
        }
    }
}

/// After an upsert, the inserted key maps to the inserted value.
pub proof fn lemma_upsert_find_same(es: Seq<(Seq<u8>, Seq<u8>)>, k: Seq<u8>, v: Seq<u8>)
    ensures
        find_exact(spec_upsert(es, k, v), k) == Some(v),
    decreases es.len(),
{
    let res = spec_upsert(es, k, v);
    if es.len() == 0 {
        assert(res[0] == (k, v));
    } else if es[0].0 == k {
        assert(res[0] == (es[0].0, v));
    } else {
        assert(res[0] == es[0]);
        lemma_upsert_find_same(es.skip(1), k, v);
        assert(res.skip(1) =~= spec_upsert(es.skip(1), k, v));
    }
}

/// An upsert leaves every other key's value unchanged.
pub proof fn lemma_upsert_find_other(
    es: Seq<(Seq<u8>, Seq<u8>)>,
    k: Seq<u8>,
    v: Seq<u8>,
    k2: Seq<u8>,
)
    requires
        k2 != k,
    ensures
        find_exact(spec_upsert(es, k, v), k2) == find_exact(es, k2),
    decreases es.len(),
{
    let res = spec_upsert(es, k, v);
    if es.len() == 0 {
        assert(res[0] == (k, v));
        assert(res.skip(1) =~= Seq::<(Seq<u8>, Seq<u8>)>::empty());
        assert(find_exact(res, k2) == find_exact(res.skip(1), k2));
        assert(find_exact(res.skip(1), k2).is_none());
        assert(find_exact(es, k2).is_none());
    } else if es[0].0 == k {
        assert(res[0] == (es[0].0, v));
        assert(res.skip(1) =~= es.skip(1));
        assert(find_exact(res, k2) == find_exact(res.skip(1), k2));
        assert(find_exact(es, k2) == find_exact(es.skip(1), k2));
    } else {
        assert(res[0] == es[0]);
        lemma_upsert_find_other(es.skip(1), k, v, k2);
        assert(res.skip(1) =~= spec_upsert(es.skip(1), k, v));
        if es[0].0 == k2 {
            assert(find_exact(res, k2) == Some(res[0].1));
            assert(find_exact(es, k2) == Some(es[0].1));
        } else {
            assert(find_exact(res, k2) == find_exact(res.skip(1), k2));
            assert(find_exact(es, k2) == find_exact(es.skip(1), k2));
        }
    }
}

/// Folding upserts of entries whose keys are fresh and pairwise distinct
/// just appends them.
pub proof fn lemma_fold_upsert_fresh(acc: Seq<(Seq<u8>, Seq<u8>)>, es: Seq<(Seq<u8>, Seq<u8>)>)
    requires
        keys_distinct(acc),
        keys_distinct(es),
        forall|i: int, j: int|
            0 <= i < acc.len() && 0 <= j < es.len() ==> (#[trigger] acc[i]).0 != (
            #[trigger] es[j]).0,
    ensures
        fold_upsert(acc, es) == acc + es,
    decreases es.len(),
{
    if es.len() == 0 {
        assert(fold_upsert(acc, es) =~= acc + es);
    } else {
        let e = es[0];
        lemma_find_exact_none(acc, e.0);
        assert forall|i: int| 0 <= i < acc.len() implies (#[trigger] acc[i]).0 != e.0 by {}
        lemma_upsert_at_end(acc, e.0, e.1);
        assert(spec_upsert(acc, e.0, e.1) == acc.push(e));
        let acc2 = acc.push(e);
        assert forall|i: int, j: int| 0 <= i < j < acc2.len() implies acc2[i].0 != acc2[j].0 by {
            if j < acc.len() {
                assert(acc2[i] == acc[i]);
                assert(acc2[j] == acc[j]);
            } else {
                assert(acc2[i] == acc[i]);
                assert(acc2[j] == e);
            }
        }
        assert forall|i: int, j: int|
            0 <= i < es.skip(1).len() && 0 <= j < es.skip(1).len() && i < j implies es.skip(
            1,
        )[i].0 != es.skip(1)[j].0 by {
            assert(es.skip(1)[i] == es[i + 1]);
            assert(es.skip(1)[j] == es[j + 1]);
        }
        assert forall|i: int, j: int|
            0 <= i < acc2.len() && 0 <= j < es.skip(1).len() implies (#[trigger] acc2[i]).0 != (
        #[trigger] es.skip(1)[j]).0 by {
            assert(es.skip(1)[j] == es[j + 1]);
            if i < acc.len() {
                assert(acc2[i] == acc[i]);
            } else {
                assert(acc2[i] == e);
            }
        }
        lemma_fold_upsert_fresh(acc2, es.skip(1));
        assert(acc.push(e) + es.skip(1) =~= acc + es);
    }
}

/// Fold of upserts, one more entry at the end.
pub proof fn lemma_fold_upsert_snoc(
    acc: Seq<(Seq<u8>, Seq<u8>)>,
    es: Seq<(Seq<u8>, Seq<u8>)>,
    e: (Seq<u8>, Seq<u8>),
)
    ensures
        fold_upsert(acc, es.push(e)) == spec_upsert(fold_upsert(acc, es), e.0, e.1),
    decreases es.len(),
{
    if es.len() == 0 {
        assert(es.push(e)[0] == e);
        assert(es.push(e).skip(1) =~= es);
        assert(fold_upsert(acc, es.push(e)) == fold_upsert(
            spec_upsert(acc, e.0, e.1),
            es.push(e).skip(1),
        ));
        assert(fold_upsert(spec_upsert(acc, e.0, e.1), es.push(e).skip(1)) == spec_upsert(
            acc,
            e.0,
            e.1,
        ));
        assert(fold_upsert(acc, es) == acc);
    } else {
        assert(es.push(e)[0] == es[0]);
        assert(es.push(e).skip(1) =~= es.skip(1).push(e));
        lemma_fold_upsert_snoc(spec_upsert(acc, es[0].0, es[0].1), es.skip(1), e);
    }
}

/// With distinct keys, looking up the key at an index answers that
/// index's value.
pub proof fn lemma_find_exact_at(es: Seq<(Seq<u8>, Seq<u8>)>, i: int)
    requires
        keys_distinct(es),
        0 <= i < es.len(),
    ensures
        find_exact(es, es[i].0) == Some(es[i].1),
    decreases es.len(),
{
    if i == 0 {
    } else {
        assert(es[0].0 != es[i].0);
        assert forall|p: int, q: int|
            0 <= p < q < es.skip(1).len() implies (#[trigger] es.skip(1)[p]).0 != (
        #[trigger] es.skip(1)[q]).0 by {
            assert(es.skip(1)[p] == es[p + 1]);
            assert(es.skip(1)[q] == es[q + 1]);
        }
        assert(es.skip(1)[i - 1] == es[i]);
        lemma_find_exact_at(es.skip(1), i - 1);
    }
}

/// Replacing the value at one index leaves every other key's lookup
/// unchanged.
pub proof fn lemma_find_exact_update_other(
    es: Seq<(Seq<u8>, Seq<u8>)>,
    i: int,
    v2: Seq<u8>,
    k: Seq<u8>,
)
    requires
        0 <= i < es.len(),
        k != es[i].0,
    ensures
        find_exact(es.update(i, (es[i].0, v2)), k) == find_exact(es, k),
    decreases es.len(),
{
    let es2 = es.update(i, (es[i].0, v2));
    if i == 0 {
        assert(es2[0] == (es[0].0, v2));
        assert(es2.skip(1) =~= es.skip(1));
        assert(find_exact(es2, k) == find_exact(es2.skip(1), k));
        assert(find_exact(es, k) == find_exact(es.skip(1), k));
    } else {
        assert(es2[0] == es[0]);
        if es[0].0 == k {
            assert(find_exact(es2, k) == Some(es2[0].1));
            assert(find_exact(es, k) == Some(es[0].1));
        } else {
            assert(es2.skip(1) =~= es.skip(1).update(i - 1, (es[i].0, v2)));
            assert(es.skip(1)[i - 1] == es[i]);
            lemma_find_exact_update_other(es.skip(1), i - 1, v2, k);
            assert(find_exact(es2, k) == find_exact(es2.skip(1), k));
            assert(find_exact(es, k) == find_exact(es.skip(1), k));
        }
    }
}

} // verus!
