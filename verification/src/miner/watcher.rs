//! Incremental re-scanning: which files are new, modified or deleted since
//! the last scan, by their SHA-256.
use vstd::prelude::*;

use super::scanner::{spec_gitignore_build, FileEntry, FileEntryModel, Scanner};
use super::{MinerConfig, MinerConfigModel};
use crate::paths::{path_join, path_strip_prefix, spec_path_join, spec_path_strip_prefix};
use crate::text::str_equal;
use std::collections::HashMap;

verus! {

/// A file's path relative to `root`, or the path itself when it is not under `root`.
pub open spec fn rel_path(root: Seq<char>, path: Seq<char>) -> Seq<char> {
    match spec_path_strip_prefix(path, root) {
        Some(r) => r,
        None => path,
    }
}

/// Index of the first pair whose key is `k`.
pub open spec fn key_index<V>(s: Seq<(Seq<char>, V)>, k: Seq<char>) -> Option<int>
    decreases s.len(),
{
    if s.len() == 0 {
        None
    } else {
        match key_index(s.drop_last(), k) {
            Some(i) => Some(i),
            None => if s.last().0 == k {
                Some(s.len() - 1)
            } else {
                None
            },
        }
    }
}

/// The first `n` scanned files keyed by relative path; a later file with the
/// same key replaces the earlier one in place.
pub open spec fn current_files(es: Seq<FileEntryModel>, root: Seq<char>, n: nat) -> Seq<(Seq<char>, FileEntryModel)>
    decreases n,
{
    if n == 0 || n > es.len() {
        Seq::empty()
    } else {
        let cur = current_files(es, root, (n - 1) as nat);
        let e = es[n - 1];
        let k = rel_path(root, e.path);
        match key_index(cur, k) {
            Some(i) => cur.update(i, (k, e)),
            None => cur.push((k, e)),
        }
    }
}

/// Among the first `n` current files: those with no known hash (new) and
/// those whose known hash differs (modified), in order.
pub open spec fn classify(
    cur: Seq<(Seq<char>, FileEntryModel)>,
    known: Seq<(Seq<char>, Seq<char>)>,
    n: nat,
) -> (Seq<FileEntryModel>, Seq<FileEntryModel>)
    decreases n,
{
    if n == 0 || n > cur.len() {
        (Seq::empty(), Seq::empty())
    } else {
        let (nf, md) = classify(cur, known, (n - 1) as nat);
        let (k, e) = cur[n - 1];
        match key_index(known, k) {
            None => (nf.push(e), md),
            Some(j) => if known[j].1 != e.sha256 {
                (nf, md.push(e))
            } else {
                (nf, md)
            },
        }
    }
}

/// Among the first `n` known files, those no longer present, as paths under `root`.
pub open spec fn deleted_paths(
    known: Seq<(Seq<char>, Seq<char>)>,
    cur: Seq<(Seq<char>, FileEntryModel)>,
    root: Seq<char>,
    n: nat,
) -> Seq<Seq<char>>
    decreases n,
{
    if n == 0 || n > known.len() {
        Seq::empty()
    } else {
        let d = deleted_paths(known, cur, root, (n - 1) as nat);
        let k = known[n - 1].0;
        if key_index(cur, k) is None {
            d.push(spec_path_join(root, k))
        } else {
            d
        }
    }
}

/// The known hashes after a scan: each current file's key and hash.
pub open spec fn hashes_of(cur: Seq<(Seq<char>, FileEntryModel)>) -> Seq<(Seq<char>, Seq<char>)> {
    cur.map_values(|p: (Seq<char>, FileEntryModel)| (p.0, p.1.sha256))
}

/// The views of file entries.
pub open spec fn entry_models(es: Seq<FileEntry>) -> Seq<FileEntryModel> {
    es.map_values(|e: FileEntry| e@)
}

/// The views of key/value string pairs.
pub open spec fn pair_views(ps: Seq<(String, String)>) -> Seq<(Seq<char>, Seq<char>)> {
    ps.map_values(|p: (String, String)| (p.0@, p.1@))
}

/// The views of keyed file entries.
pub open spec fn keyed_views(ps: Seq<(String, FileEntry)>) -> Seq<(Seq<char>, FileEntryModel)> {
    ps.map_values(|p: (String, FileEntry)| (p.0@, p.1@))
}

pub proof fn lemma_key_index<V>(s: Seq<(Seq<char>, V)>, k: Seq<char>)
    ensures
        match key_index(s, k) {
            Some(i) => 0 <= i < s.len() && s[i].0 == k && forall|j: int| 0 <= j < i ==> #[trigger] s[j].0 != k,
            None => forall|j: int| 0 <= j < s.len() ==> #[trigger] s[j].0 != k,
        },
    decreases s.len(),
{
    if s.len() > 0 {
        lemma_key_index(s.drop_last(), k);
        match key_index(s.drop_last(), k) {
            Some(i) => {
                assert forall|j: int| 0 <= j < i implies #[trigger] s[j].0 != k by {
                    assert(s[j] == s.drop_last()[j]);
                }
                assert(s[i] == s.drop_last()[i]);
            },
            None => {
                assert forall|j: int| 0 <= j < s.len() - 1 implies #[trigger] s[j].0 != k by {
                    assert(s[j] == s.drop_last()[j]);
                }
            },
        }
    }
}

pub proof fn lemma_key_index_char<V>(s: Seq<(Seq<char>, V)>, k: Seq<char>, i: int)
    requires
        0 <= i < s.len(),
        s[i].0 == k,
        forall|j: int| 0 <= j < i ==> #[trigger] s[j].0 != k,
    ensures
        key_index(s, k) == Some(i),
{
    lemma_key_index(s, k);
    match key_index(s, k) {
        Some(m) => {
            if m < i {
                assert(s[m].0 != k);
            }
            if m > i {
                assert(s[i].0 != k);
            }
        },
        None => {
            assert(s[i].0 != k);
        },
    }
}

/// Index of the first known pair whose key is `k`.
pub(crate) fn find_known(ps: &Vec<(String, String)>, k: &str) -> (r: Option<usize>)
    ensures
        match r {
            Some(i) => key_index(pair_views(ps@), k@) == Some(i as int),
            None => key_index(pair_views(ps@), k@) is None,
        },
{
    let n = ps.len();
    for i in 0..n
        invariant
            n == ps@.len(),
            forall|j: int| 0 <= j < i ==> #[trigger] pair_views(ps@)[j].0 != k@,
    {
        if str_equal(ps[i].0.as_str(), k) {
            proof {
                lemma_key_index_char(pair_views(ps@), k@, i as int);
            }
            return Some(i);
        }
    }
    proof {
        lemma_key_index(pair_views(ps@), k@);
        if let Some(m) = key_index(pair_views(ps@), k@) {
            assert(pair_views(ps@)[m].0 != k@);
        }
    }
    None
}

/// Index of the first keyed entry whose key is `k`.
fn find_current(ps: &Vec<(String, FileEntry)>, k: &str) -> (r: Option<usize>)
    ensures
        match r {
            Some(i) => key_index(keyed_views(ps@), k@) == Some(i as int),
            None => key_index(keyed_views(ps@), k@) is None,
        },
{
    let n = ps.len();
    for i in 0..n
        invariant
            n == ps@.len(),
            forall|j: int| 0 <= j < i ==> #[trigger] keyed_views(ps@)[j].0 != k@,
    {
        if str_equal(ps[i].0.as_str(), k) {
            proof {
                lemma_key_index_char(keyed_views(ps@), k@, i as int);
            }
            return Some(i);
        }
    }
    proof {
        lemma_key_index(keyed_views(ps@), k@);
        if let Some(m) = key_index(keyed_views(ps@), k@) {
            assert(keyed_views(ps@)[m].0 != k@);
        }
    }
    None
}

/// The map from relative path to SHA-256 that a cache text denotes (a JSON
/// object whose values are all strings), or `None` when the text is not one.
pub uninterp spec fn spec_json_string_map(json: Seq<char>) -> Option<Map<Seq<char>, Seq<char>>>;

/// `s` lists the entries of `m`: no key twice, each pair an entry of `m`, and
/// every key of `m` among them.
pub open spec fn lists_map(s: Seq<(Seq<char>, Seq<char>)>, m: Map<Seq<char>, Seq<char>>) -> bool {
    &&& unique_keys(s)
    &&& forall|i: int| 0 <= i < s.len() ==> m.dom().contains(#[trigger] s[i].0) && m[s[i].0] == s[i].1
    &&& forall|k: Seq<char>| #[trigger] m.dom().contains(k) ==> exists|i: int| 0 <= i < s.len() && #[trigger] s[i].0 == k
}

/// Calls `serde_json::from_str` into a `HashMap<String, String>` and lists its
/// entries.  Trusted: the parse succeeds exactly when `spec_json_string_map`
/// of the text is `Some`, and the pairs then list that map; their order (the
/// map's walk order) is left open.
#[verifier::external_body]
fn json_string_pairs(json: &str) -> (r: Option<Vec<(String, String)>>)
    ensures
        (r is Some) == (spec_json_string_map(json@) is Some),
        r is Some ==> lists_map(pair_views(r->Some_0@), spec_json_string_map(json@)->Some_0),
{
    match serde_json::from_str::<HashMap<String, String>>(json) {
        Ok(m) => Some(m.into_iter().collect()),
        Err(_) => None,
    }
}

/// Calls `serde_json::to_string` on the `HashMap<String, String>` of the pairs.
/// Trusted: serialising a map of strings does not fail, and parsing the text
/// back as a map of strings gives the map that the pairs list.
#[verifier::external_body]
fn json_of_pairs(pairs: &Vec<(String, String)>) -> (r: String)
    requires
        unique_keys(pair_views(pairs@)),
    ensures
        spec_json_string_map(r@) is Some,
        lists_map(pair_views(pairs@), spec_json_string_map(r@)->Some_0),
{
    let map: HashMap<String, String> = pairs.iter().cloned().collect();
    serde_json::to_string(&map).unwrap_or_default()
}

/// Whether a file whose contents now hash to `sha256` changed since its
/// known hash `known_sha256` was recorded.
pub fn hash_changed(sha256: &str, known_sha256: &str) -> (r: bool)
    ensures
        r == (sha256@ != known_sha256@),
{
    !str_equal(sha256, known_sha256)
}

/// Tracks known file hashes for incremental re-scanning.
pub struct Watcher {
    scanner: Scanner,
    known: Vec<(String, String)>,
}

impl Watcher {
    /// No relative path is known twice.
    #[verifier::type_invariant]
    spec fn known_unique(self) -> bool {
        unique_keys(pair_views(self.known@))
    }

    /// The known (relative path, SHA-256) pairs.
    pub closed spec fn known_view(&self) -> Seq<(Seq<char>, Seq<char>)> {
        pair_views(self.known@)
    }

    /// The configuration of the scanner.
    pub closed spec fn config_of(&self) -> MinerConfigModel {
        self.scanner.config_of()
    }

    /// The paths the scanner's skip patterns ignore.
    pub closed spec fn ignored(&self) -> Set<Seq<char>> {
        self.scanner.ignored()
    }

    /// A watcher scanning with `config`, knowing no files yet.
    pub fn new(config: MinerConfig) -> (r: Self)
        ensures
            r.known_view() == Seq::<(Seq<char>, Seq<char>)>::empty(),
            r.config_of() == config@,
            r.ignored() == match spec_gitignore_build(config@.root, config@.skip_patterns) {
                Some(s) => s,
                None => Set::<Seq<char>>::empty(),
            },
    {
        let scanner = Scanner::new(config.clone());
        Self { scanner, known: Vec::new() }
    }

    /// The scanner that lists the current files.
    pub fn scanner(&self) -> (r: &Scanner)
        ensures
            r.config_of() == self.config_of(),
            r.ignored() == self.ignored(),
    {
        &self.scanner
    }

    /// Loads the known hashes from the text of a cache file: when it parses as
    /// a JSON object of strings, the known hashes become its entries;
    /// otherwise they stay as they were.
    pub fn load_known_json(&mut self, json: &str)
        ensures
            match spec_json_string_map(json@) {
                Some(m) => lists_map(final(self).known_view(), m),
                None => final(self).known_view() == old(self).known_view(),
            },
            final(self).config_of() == old(self).config_of(),
            final(self).ignored() == old(self).ignored(),
    {
        let parsed = json_string_pairs(json);
        match parsed {
            Some(pairs) => {
                self.known = pairs;
            },
            None => {},
        }
    }

    /// The text of a cache file holding the known hashes: a JSON object from
    /// relative path to SHA-256.
    pub fn known_json(&self) -> (r: String)
        ensures
            spec_json_string_map(r@) matches Some(m) && lists_map(self.known_view(), m),
    {
        proof {
            use_type_invariant(self);
        }
        json_of_pairs(&self.known)
    }

    /// The known (relative path, SHA-256) pairs, for saving.
    pub fn known(&self) -> (r: &Vec<(String, String)>)
        ensures
            pair_views(r@) == self.known_view(),
    {
        &self.known
    }

    /// Compares the files just scanned under `root` with the known hashes and
    /// returns the new files, the modified files and the paths of the deleted
    /// files; the known hashes become those of the scanned files.
    pub fn scan_incremental(&mut self, root: &str, current: Vec<FileEntry>) -> (r: (Vec<FileEntry>, Vec<FileEntry>, Vec<String>))
        ensures
            ({
                let cur = current_files(entry_models(current@), root@, current@.len());
                &&& entry_models(r.0@) == classify(cur, old(self).known_view(), cur.len()).0
                &&& entry_models(r.1@) == classify(cur, old(self).known_view(), cur.len()).1
                &&& r.2@.map_values(|s: String| s@) == deleted_paths(old(self).known_view(), cur, root@, old(self).known_view().len())
                &&& final(self).known_view() == hashes_of(cur)
            }),
            final(self).config_of() == old(self).config_of(),
    {
        let ghost es = entry_models(current@);
        let ghost kv = pair_views(self.known@);
        // Key the scanned files by relative path.
        let mut cur: Vec<(String, FileEntry)> = Vec::new();
        let n = current.len();
        for i in 0..n
            invariant
                n == current@.len(),
                es == entry_models(current@),
                keyed_views(cur@) == current_files(es, root@, i as nat),
        {
            let e = current[i].clone();
            let k = match path_strip_prefix(e.path.as_str(), root) {
                Some(r) => r,
                None => e.path.clone(),
            };
            assert(k@ == rel_path(root@, es[i as int].path));
            let ghost pre = keyed_views(cur@);
            match find_current(&cur, k.as_str()) {
                Some(j) => {
                    proof {
                        lemma_key_index(pre, k@);
                    }
                    let ghost kk = k@;
                    let ghost ev = e@;
                    cur.set(j, (k, e));
                    assert(keyed_views(cur@) =~= pre.update(j as int, (kk, ev)));
                },
                None => {
                    let ghost kk = k@;
                    let ghost ev = e@;
                    cur.push((k, e));
                    assert(keyed_views(cur@) =~= pre.push((kk, ev)));
                },
            }
        }
        let ghost cv = keyed_views(cur@);
        // New and modified files.
        let mut new_files: Vec<FileEntry> = Vec::new();
        let mut modified: Vec<FileEntry> = Vec::new();
        let m = cur.len();
        for i in 0..m
            invariant
                m == cur@.len(),
                cv == keyed_views(cur@),
                kv == pair_views(self.known@),
                (entry_models(new_files@), entry_models(modified@)) == classify(cv, kv, i as nat),
        {
            let k = &cur[i].0;
            let e = &cur[i].1;
            assert(cv[i as int] == (k@, e@));
            let ghost nf = entry_models(new_files@);
            let ghost md = entry_models(modified@);
            match find_known(&self.known, k.as_str()) {
                None => {
                    let c = e.clone();
                    new_files.push(c);
                    assert(entry_models(new_files@) =~= nf.push(e@));
                },
                Some(j) => {
                    proof {
                        lemma_key_index(kv, k@);
                    }
                    assert(kv[j as int].1 == self.known@[j as int].1@);
                    if self.known[j].1 != e.sha256 {
                        let c = e.clone();
                        modified.push(c);
                        assert(entry_models(modified@) =~= md.push(e@));
                    }
                },
            }
        }
        // Deleted files.
        let mut deleted: Vec<String> = Vec::new();
        let nk = self.known.len();
        for i in 0..nk
            invariant
                nk == self.known@.len(),
                cv == keyed_views(cur@),
                kv == pair_views(self.known@),
                deleted@.map_values(|s: String| s@) == deleted_paths(kv, cv, root@, i as nat),
        {
            let k = &self.known[i].0;
            assert(kv[i as int].0 == k@);
            if find_current(&cur, k.as_str()).is_none() {
                let p = path_join(root, k.as_str());
                let ghost pre = deleted@.map_values(|s: String| s@);
                deleted.push(p);
                assert(deleted@.map_values(|s: String| s@) =~= pre.push(p@));
            }
        }
        // The scanned files' hashes become the known ones.
        let mut known: Vec<(String, String)> = Vec::new();
        for i in 0..m
            invariant
                m == cur@.len(),
                cv == keyed_views(cur@),
                pair_views(known@) == hashes_of(cv.take(i as int)),
        {
            let ghost pre = pair_views(known@);
            let k = cur[i].0.clone();
            let h = cur[i].1.sha256.clone();
            known.push((k, h));
            assert(hashes_of(cv.take(i + 1)) =~= hashes_of(cv.take(i as int)).push((cv[i as int].0, cv[i as int].1.sha256)));
            assert(pair_views(known@) =~= pre.push((k@, h@)));
        }
        assert(cv.take(m as int) =~= cv);
        proof {
            law_known_after_scan(es, root@);
        }
        self.known = known;
        (new_files, modified, deleted)
    }
}

/// No two pairs share a key.
pub open spec fn unique_keys<V>(s: Seq<(Seq<char>, V)>) -> bool {
    forall|i: int, j: int| 0 <= i < s.len() && 0 <= j < s.len() && i != j ==> #[trigger] s[i].0 != #[trigger] s[j].0
}

proof fn lemma_current_files_unique(es: Seq<FileEntryModel>, root: Seq<char>, n: nat)
    ensures
        unique_keys(current_files(es, root, n)),
    decreases n,
{
    if n > 0 && n <= es.len() {
        lemma_current_files_unique(es, root, (n - 1) as nat);
        let cur = current_files(es, root, (n - 1) as nat);
        let e = es[n - 1];
        let k = rel_path(root, e.path);
        lemma_key_index(cur, k);
        match key_index(cur, k) {
            Some(i) => {
                let q = cur.update(i, (k, e));
                assert forall|a: int, b: int| 0 <= a < q.len() && 0 <= b < q.len() && a != b implies #[trigger] q[a].0 != #[trigger] q[b].0 by {
                    assert(q[a].0 == cur[a].0);
                    assert(q[b].0 == cur[b].0);
                }
            },
            None => {
                let q = cur.push((k, e));
                assert forall|a: int, b: int| 0 <= a < q.len() && 0 <= b < q.len() && a != b implies #[trigger] q[a].0 != #[trigger] q[b].0 by {
                    if a < cur.len() {
                        assert(q[a] == cur[a]);
                    }
                    if b < cur.len() {
                        assert(q[b] == cur[b]);
                    }
                }
            },
        }
    }
}

proof fn lemma_key_index_hashes(cur: Seq<(Seq<char>, FileEntryModel)>, k: Seq<char>)
    ensures
        key_index(hashes_of(cur), k) == key_index(cur, k),
    decreases cur.len(),
{
    if cur.len() > 0 {
        assert(hashes_of(cur).drop_last() =~= hashes_of(cur.drop_last()));
        lemma_key_index_hashes(cur.drop_last(), k);
    }
}

proof fn lemma_classify_unchanged(cur: Seq<(Seq<char>, FileEntryModel)>, n: nat)
    requires
        unique_keys(cur),
        n <= cur.len(),
    ensures
        classify(cur, hashes_of(cur), n) == (Seq::<FileEntryModel>::empty(), Seq::<FileEntryModel>::empty()),
    decreases n,
{
    if n > 0 {
        lemma_classify_unchanged(cur, (n - 1) as nat);
        let k = cur[n - 1].0;
        lemma_key_index_hashes(cur, k);
        lemma_key_index_char(cur, k, n - 1);
    }
}

proof fn lemma_deleted_unchanged(cur: Seq<(Seq<char>, FileEntryModel)>, root: Seq<char>, n: nat)
    requires
        n <= cur.len(),
    ensures
        deleted_paths(hashes_of(cur), cur, root, n) == Seq::<Seq<char>>::empty(),
    decreases n,
{
    if n > 0 {
        lemma_deleted_unchanged(cur, root, (n - 1) as nat);
        let k = hashes_of(cur)[n - 1].0;
        assert(k == cur[n - 1].0);
        lemma_key_index(cur, k);
    }
}

/// Law: right after a scan, scanning the same files again reports no new,
/// no modified and no deleted file.
pub proof fn law_rescan_unchanged(es: Seq<FileEntryModel>, root: Seq<char>)
    ensures
        ({
            let cur = current_files(es, root, es.len());
            let known = hashes_of(cur);
            &&& classify(cur, known, cur.len()) == (Seq::<FileEntryModel>::empty(), Seq::<FileEntryModel>::empty())
            &&& deleted_paths(known, cur, root, known.len()) == Seq::<Seq<char>>::empty()
        }),
{
    let cur = current_files(es, root, es.len());
    lemma_current_files_unique(es, root, es.len());
    lemma_classify_unchanged(cur, cur.len());
    lemma_deleted_unchanged(cur, root, cur.len());
}

/// Law: after a scan, the known hashes have one entry per scanned path.
pub proof fn law_known_after_scan(es: Seq<FileEntryModel>, root: Seq<char>)
    ensures
        unique_keys(hashes_of(current_files(es, root, es.len()))),
        forall|i: int| 0 <= i < es.len() ==> key_index(hashes_of(current_files(es, root, es.len())), rel_path(root, #[trigger] es[i].path)) is Some,
{
    let cur = current_files(es, root, es.len());
    lemma_current_files_unique(es, root, es.len());
    assert forall|a: int, b: int| 0 <= a < hashes_of(cur).len() && 0 <= b < hashes_of(cur).len() && a != b implies #[trigger] hashes_of(cur)[a].0 != #[trigger] hashes_of(cur)[b].0 by {
        assert(hashes_of(cur)[a].0 == cur[a].0);
        assert(hashes_of(cur)[b].0 == cur[b].0);
    }
    assert forall|i: int| 0 <= i < es.len() implies key_index(hashes_of(cur), rel_path(root, #[trigger] es[i].path)) is Some by {
        lemma_current_files_keys(es, root, es.len(), i);
        lemma_key_index_hashes(cur, rel_path(root, es[i].path));
    }
}

proof fn lemma_current_files_keys(es: Seq<FileEntryModel>, root: Seq<char>, n: nat, i: int)
    requires
        0 <= i < n <= es.len(),
    ensures
        key_index(current_files(es, root, n), rel_path(root, es[i].path)) is Some,
    decreases n,
{
    let cur = current_files(es, root, (n - 1) as nat);
    let e = es[n - 1];
    let k = rel_path(root, e.path);
    let q = current_files(es, root, n);
    let ki = rel_path(root, es[i].path);
    lemma_key_index(cur, k);
    if i < n - 1 {
        lemma_current_files_keys(es, root, (n - 1) as nat, i);
        lemma_key_index(cur, ki);
        lemma_key_index(q, ki);
        let m = key_index(cur, ki)->0;
        if key_index(q, ki) is None {
            match key_index(cur, k) {
                Some(j) => {
                    assert(q[m].0 == cur[m].0);
                },
                None => {
                    assert(q[m] == cur[m]);
                },
            }
        }
    } else {
        lemma_key_index(q, k);
        match key_index(cur, k) {
            Some(j) => {
                if key_index(q, k) is None {
                    assert(q[j].0 == k);
                }
            },
            None => {
                if key_index(q, k) is None {
                    assert(q[cur.len() as int].0 == k);
                }
            },
        }
    }
}

/// The value listed for key `k`, if any.
pub open spec fn lookup(s: Seq<(Seq<char>, Seq<char>)>, k: Seq<char>) -> Option<Seq<char>> {
    match key_index(s, k) {
        Some(i) => Some(s[i].1),
        None => None,
    }
}

/// Law: two listings of one map agree on every key.  So the known hashes
/// loaded (`load_known_json`) from the text that `known_json` saved are the
/// saved ones, whatever their order.
pub proof fn law_cache_round_trip(
    saved: Seq<(Seq<char>, Seq<char>)>,
    loaded: Seq<(Seq<char>, Seq<char>)>,
    m: Map<Seq<char>, Seq<char>>,
)
    requires
        lists_map(saved, m),
        lists_map(loaded, m),
    ensures
        forall|k: Seq<char>| lookup(saved, k) == lookup(loaded, k),
{
    assert forall|k: Seq<char>| lookup(saved, k) == lookup(loaded, k) by {
        lemma_lists_lookup(saved, m, k);
        lemma_lists_lookup(loaded, m, k);
    }
}

/// In a listing of `m`, the value listed for `k` is `m`'s.
proof fn lemma_lists_lookup(s: Seq<(Seq<char>, Seq<char>)>, m: Map<Seq<char>, Seq<char>>, k: Seq<char>)
    requires
        lists_map(s, m),
    ensures
        lookup(s, k) == (if m.dom().contains(k) { Some(m[k]) } else { None::<Seq<char>> }),
{
    lemma_key_index(s, k);
    match key_index(s, k) {
        Some(i) => {
            assert(m.dom().contains(s[i].0));
        },
        None => {
            if m.dom().contains(k) {
                let i = choose|i: int| 0 <= i < s.len() && #[trigger] s[i].0 == k;
                assert(s[i].0 != k);
            }
        },
    }
}

/// Law: a scanned file is reported new exactly when no hash is known under
/// its relative path, and modified exactly when the hash known under its
/// relative path differs from its new one; both lists keep the scan's order,
/// whatever the order of the known hashes.
pub proof fn law_classify_by_lookup(
    cur: Seq<(Seq<char>, FileEntryModel)>,
    known: Seq<(Seq<char>, Seq<char>)>,
    n: nat,
)
    requires
        n <= cur.len(),
    ensures
        classify(cur, known, n).0 == cur.take(n as int).filter(
            |p: (Seq<char>, FileEntryModel)| lookup(known, p.0) is None,
        ).map_values(|p: (Seq<char>, FileEntryModel)| p.1),
        classify(cur, known, n).1 == cur.take(n as int).filter(
            |p: (Seq<char>, FileEntryModel)| lookup(known, p.0) is Some && lookup(known, p.0)->Some_0 != p.1.sha256,
        ).map_values(|p: (Seq<char>, FileEntryModel)| p.1),
    decreases n,
{
    let fnew = |p: (Seq<char>, FileEntryModel)| lookup(known, p.0) is None;
    let fmod = |p: (Seq<char>, FileEntryModel)| lookup(known, p.0) is Some && lookup(known, p.0)->Some_0 != p.1.sha256;
    let proj = |p: (Seq<char>, FileEntryModel)| p.1;
    reveal(Seq::filter);
    if n == 0 {
        assert(cur.take(0) =~= Seq::<(Seq<char>, FileEntryModel)>::empty());
        assert(cur.take(0).filter(fnew) =~= Seq::<(Seq<char>, FileEntryModel)>::empty());
        assert(cur.take(0).filter(fmod) =~= Seq::<(Seq<char>, FileEntryModel)>::empty());
    } else {
        law_classify_by_lookup(cur, known, (n - 1) as nat);
        let t = cur.take(n as int);
        assert(t.drop_last() =~= cur.take(n - 1));
        assert(t.last() == cur[n - 1]);
        let x = cur[n - 1];
        let a = cur.take(n - 1).filter(fnew);
        let b = cur.take(n - 1).filter(fmod);
        assert(t.filter(fnew) == if fnew(x) { a.push(x) } else { a });
        assert(t.filter(fmod) == if fmod(x) { b.push(x) } else { b });
        assert(a.push(x).map_values(proj) =~= a.map_values(proj).push(x.1));
        assert(b.push(x).map_values(proj) =~= b.map_values(proj).push(x.1));
    }
}

/// Law: the deleted paths are the known relative paths that no scanned file
/// has, each joined to the root, in the order of the known hashes.
pub proof fn law_deleted_are_unscanned_known(
    known: Seq<(Seq<char>, Seq<char>)>,
    cur: Seq<(Seq<char>, FileEntryModel)>,
    root: Seq<char>,
    n: nat,
)
    requires
        n <= known.len(),
    ensures
        deleted_paths(known, cur, root, n) == known.take(n as int).filter(
            |p: (Seq<char>, Seq<char>)| !(exists|j: int| 0 <= j < cur.len() && (#[trigger] cur[j]).0 == p.0),
        ).map_values(|p: (Seq<char>, Seq<char>)| spec_path_join(root, p.0)),
    decreases n,
{
    let gone = |p: (Seq<char>, Seq<char>)| !(exists|j: int| 0 <= j < cur.len() && (#[trigger] cur[j]).0 == p.0);
    let join = |p: (Seq<char>, Seq<char>)| spec_path_join(root, p.0);
    reveal(Seq::filter);
    if n == 0 {
        assert(known.take(0) =~= Seq::<(Seq<char>, Seq<char>)>::empty());
        assert(known.take(0).filter(gone) =~= Seq::<(Seq<char>, Seq<char>)>::empty());
    } else {
        law_deleted_are_unscanned_known(known, cur, root, (n - 1) as nat);
        let t = known.take(n as int);
        assert(t.drop_last() =~= known.take(n - 1));
        assert(t.last() == known[n - 1]);
        let x = known[n - 1];
        let a = known.take(n - 1).filter(gone);
        assert(t.filter(gone) == if gone(x) { a.push(x) } else { a });
        assert(a.push(x).map_values(join) =~= a.map_values(join).push(join(x)));
        lemma_key_index(cur, x.0);
        if key_index(cur, x.0) is Some {
            let j = key_index(cur, x.0)->0;
            assert(cur[j].0 == x.0);
        }
    }
}

} // verus!
