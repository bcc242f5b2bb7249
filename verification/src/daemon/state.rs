//! State of the watch daemon: which directories are watched, and whether it runs.
use vstd::prelude::*;

use crate::clock::now_rfc3339;
use crate::model::project::opt_str;
use crate::paths::{home_dir, path_join, spec_path_join};
use crate::text::{clone_opt_string, str_equal};

verus! {

/// A watched directory.
#[derive(Debug)]
pub struct WatchedEntry {
    pub path: String,
    pub shelf: String,
    pub project_name: String,
    pub last_modified: Option<String>,
    pub files_indexed: usize,
}

/// The mathematical value of a watched entry.
pub struct WatchedModel {
    pub path: Seq<char>,
    pub shelf: Seq<char>,
    pub project_name: Seq<char>,
    pub last_modified: Option<Seq<char>>,
    pub files_indexed: nat,
}

impl View for WatchedEntry {
    type V = WatchedModel;

    open spec fn view(&self) -> WatchedModel {
        WatchedModel {
            path: self.path@,
            shelf: self.shelf@,
            project_name: self.project_name@,
            last_modified: opt_str(self.last_modified),
            files_indexed: self.files_indexed as nat,
        }
    }
}

impl Clone for WatchedEntry {
    fn clone(&self) -> (r: Self)
        ensures
            r@ == self@,
    {
        WatchedEntry {
            path: self.path.clone(),
            shelf: self.shelf.clone(),
            project_name: self.project_name.clone(),
            last_modified: clone_opt_string(&self.last_modified),
            files_indexed: self.files_indexed,
        }
    }
}

/// The views of a sequence of entries.
pub open spec fn entry_views(es: Seq<WatchedEntry>) -> Seq<WatchedModel> {
    es.map_values(|e: WatchedEntry| e@)
}

/// The entries not for `path`, in order.
pub open spec fn without_path(es: Seq<WatchedModel>, path: Seq<char>) -> Seq<WatchedModel>
    decreases es.len(),
{
    if es.len() == 0 {
        Seq::empty()
    } else if es.last().path == path {
        without_path(es.drop_last(), path)
    } else {
        without_path(es.drop_last(), path).push(es.last())
    }
}

/// Some entry is for `path`.
pub open spec fn watches(es: Seq<WatchedModel>, path: Seq<char>) -> bool {
    exists|i: int| 0 <= i < es.len() && (#[trigger] es[i]).path == path
}

/// A freshly added entry.
pub open spec fn new_entry(path: Seq<char>, shelf: Seq<char>, project_name: Seq<char>) -> WatchedModel {
    WatchedModel { path, shelf, project_name, last_modified: None, files_indexed: 0 }
}

/// `without_path` drops exactly the entries for `path`, keeping the rest.
pub proof fn lemma_without_path(es: Seq<WatchedModel>, path: Seq<char>)
    ensures
        !watches(without_path(es, path), path),
        without_path(es, path).len() <= es.len(),
        without_path(es, path).len() == es.len() <==> !watches(es, path),
        forall|e: WatchedModel| e.path != path ==> (#[trigger] without_path(es, path).contains(e) <==> es.contains(e)),
    decreases es.len(),
{
    if es.len() > 0 {
        let d = es.drop_last();
        lemma_without_path(d, path);
        let w = without_path(d, path);
        assert(watches(es, path) <==> watches(d, path) || es.last().path == path) by {
            if watches(es, path) {
                let i = choose|i: int| 0 <= i < es.len() && (#[trigger] es[i]).path == path;
                if i < es.len() - 1 {
                    assert(d[i] == es[i]);
                }
            }
            if watches(d, path) {
                let i = choose|i: int| 0 <= i < d.len() && (#[trigger] d[i]).path == path;
                assert(es[i] == d[i]);
            }
            if es.last().path == path {
                assert(es[es.len() - 1] == es.last());
            }
        }
        assert forall|e: WatchedModel| #[trigger] es.contains(e) <==> (d.contains(e) || e == es.last()) by {
            if es.contains(e) {
                let k = choose|k: int| 0 <= k < es.len() && es[k] == e;
                if k < es.len() - 1 {
                    assert(d[k] == e);
                }
            }
            if d.contains(e) {
                let k = choose|k: int| 0 <= k < d.len() && d[k] == e;
                assert(es[k] == e);
            }
            if e == es.last() {
                assert(es[es.len() - 1] == e);
            }
        }
        if es.last().path != path {
            let q = w.push(es.last());
            assert(!watches(q, path)) by {
                if watches(q, path) {
                    let i = choose|i: int| 0 <= i < q.len() && (#[trigger] q[i]).path == path;
                    assert(q[i] == w[i]);
                }
            }
            assert forall|e: WatchedModel| #[trigger] q.contains(e) <==> (w.contains(e) || e == es.last()) by {
                if q.contains(e) {
                    let k = choose|k: int| 0 <= k < q.len() && q[k] == e;
                    if k < w.len() {
                        assert(w[k] == e);
                    }
                }
                if w.contains(e) {
                    let k = choose|k: int| 0 <= k < w.len() && w[k] == e;
                    assert(q[k] == e);
                }
                if e == es.last() {
                    assert(q[w.len() as int] == e);
                }
            }
        }
    }
}

/// State of the watch daemon.
#[derive(Debug)]
pub struct DaemonState {
    pub is_running: bool,
    pub pid: Option<u32>,
    pub watched: Vec<WatchedEntry>,
    pub last_check: Option<String>,
}

impl Default for DaemonState {
    fn default() -> (r: Self)
        ensures
            !r.is_running,
            r.pid is None,
            r.watched@.len() == 0,
            r.last_check is None,
    {
        DaemonState { is_running: false, pid: None, watched: Vec::new(), last_check: None }
    }
}

/// The daemon state file under a home directory: `home/.hypatia/daemon_state.json`.
pub fn state_path_under(home: &str) -> (r: String)
    ensures
        r@ == spec_path_join(spec_path_join(home@, ".hypatia"@), "daemon_state.json"@),
{
    let dir = path_join(home, ".hypatia");
    path_join(dir.as_str(), "daemon_state.json")
}

impl DaemonState {
    /// The entries' values.
    pub open spec fn entries(&self) -> Seq<WatchedModel> {
        entry_views(self.watched@)
    }

    /// Path of the daemon state file: `~/.hypatia/daemon_state.json`, or
    /// under `.` when there is no home directory.
    pub fn state_path() -> (r: String)
        ensures
            exists|home: Seq<char>| r@ == spec_path_join(spec_path_join(home, ".hypatia"@), "daemon_state.json"@),
    {
        let home = match home_dir() {
            Some(h) => h,
            None => ".".to_owned(),
        };
        state_path_under(home.as_str())
    }

    /// Watches `path` for `shelf` and `project_name`, replacing any entry for
    /// the same path; the new entry comes last.
    pub fn add_watch(&mut self, path: &str, shelf: &str, project_name: &str)
        ensures
            final(self).entries() == without_path(old(self).entries(), path@).push(new_entry(path@, shelf@, project_name@)),
            final(self).is_running == old(self).is_running,
            final(self).pid == old(self).pid,
            final(self).last_check == old(self).last_check,
    {
        self.retain_other_paths(path);
        let e = WatchedEntry {
            path: path.to_owned(),
            shelf: shelf.to_owned(),
            project_name: project_name.to_owned(),
            last_modified: None,
            files_indexed: 0,
        };
        let ghost pre = self.entries();
        self.watched.push(e);
        assert(self.entries() =~= pre.push(e@));
    }

    /// Stops watching `path`; returns whether it was watched.
    pub fn remove_watch(&mut self, path: &str) -> (r: bool)
        ensures
            final(self).entries() == without_path(old(self).entries(), path@),
            r == watches(old(self).entries(), path@),
            final(self).is_running == old(self).is_running,
            final(self).pid == old(self).pid,
            final(self).last_check == old(self).last_check,
    {
        let len = self.watched.len();
        self.retain_other_paths(path);
        proof {
            lemma_without_path(old(self).entries(), path@);
        }
        self.watched.len() != len
    }

    /// Keeps only the entries whose path differs from `path`.
    fn retain_other_paths(&mut self, path: &str)
        ensures
            final(self).entries() == without_path(old(self).entries(), path@),
            final(self).is_running == old(self).is_running,
            final(self).pid == old(self).pid,
            final(self).last_check == old(self).last_check,
    {
        let mut rest: Vec<WatchedEntry> = Vec::new();
        std::mem::swap(&mut rest, &mut self.watched);
        let ghost orig = entry_views(rest@);
        let n = rest.len();
        let mut kept: Vec<WatchedEntry> = Vec::new();
        let mut i: usize = 0;
        while i < n
            invariant
                i <= n,
                n == rest@.len() + i,
                orig.len() == n,
                entry_views(rest@) == orig.subrange(i as int, n as int),
                entry_views(kept@) == without_path(orig.take(i as int), path@),
            decreases n - i,
        {
            let ghost r0 = rest@;
            assert(entry_views(r0)[0] == orig.subrange(i as int, n as int)[0]);
            let e = rest.remove(0);
            assert(e == r0[0]);
            assert(rest@ =~= r0.subrange(1, r0.len() as int));
            assert(e@ == orig[i as int]);
            assert(orig.take(i + 1).drop_last() =~= orig.take(i as int));
            assert(orig.take(i + 1).last() == orig[i as int]);
            if !str_equal(e.path.as_str(), path) {
                let ghost pre = entry_views(kept@);
                kept.push(e);
                assert(entry_views(kept@) =~= pre.push(e@));
            }
            assert(entry_views(rest@) =~= entry_views(r0).subrange(1, r0.len() as int));
            i = i + 1;
            assert(entry_views(rest@) =~= orig.subrange(i as int, n as int));
        }
        assert(orig.take(n as int) =~= orig);
        self.watched = kept;
    }

    /// Marks the daemon as running as process `pid`, checked now.
    pub fn mark_running(&mut self, pid: u32)
        ensures
            final(self).is_running,
            final(self).pid == Some(pid),
            final(self).last_check is Some,
            final(self).entries() == old(self).entries(),
    {
        self.is_running = true;
        self.pid = Some(pid);
        self.last_check = Some(now_rfc3339());
    }

    /// Marks the daemon as stopped.
    pub fn mark_stopped(&mut self)
        ensures
            !final(self).is_running,
            final(self).pid is None,
            final(self).last_check == old(self).last_check,
            final(self).entries() == old(self).entries(),
    {
        self.is_running = false;
        self.pid = None;
    }
}

/// Law: after watching a path, exactly one entry is for it, the last one, and
/// it starts with no files indexed; other paths keep their entries.
pub proof fn law_add_watch_single(es: Seq<WatchedModel>, path: Seq<char>, shelf: Seq<char>, project: Seq<char>)
    ensures
        ({
            let after = without_path(es, path).push(new_entry(path, shelf, project));
            &&& after.last() == new_entry(path, shelf, project)
            &&& forall|i: int| 0 <= i < after.len() - 1 ==> (#[trigger] after[i]).path != path
            &&& forall|e: WatchedModel| e.path != path ==> (#[trigger] after.contains(e) <==> es.contains(e))
        }),
{
    lemma_without_path(es, path);
    let w = without_path(es, path);
    let after = w.push(new_entry(path, shelf, project));
    assert forall|i: int| 0 <= i < after.len() - 1 implies (#[trigger] after[i]).path != path by {
        assert(after[i] == w[i]);
        if w[i].path == path {
            assert(watches(w, path));
        }
    }
    assert forall|e: WatchedModel| e.path != path implies (#[trigger] after.contains(e) <==> es.contains(e)) by {
        if after.contains(e) {
            let k = choose|k: int| 0 <= k < after.len() && after[k] == e;
            assert(k < w.len());
            assert(w[k] == e);
            assert(w.contains(e));
        }
        if es.contains(e) {
            assert(w.contains(e));
            let k = choose|k: int| 0 <= k < w.len() && w[k] == e;
            assert(after[k] == e);
        }
    }
}

/// Law: un-watching a path that was just watched reports it was watched and
/// leaves no entry for it.
pub proof fn law_remove_after_add_watch(es: Seq<WatchedModel>, path: Seq<char>, shelf: Seq<char>, project: Seq<char>)
    ensures
        ({
            let after = without_path(es, path).push(new_entry(path, shelf, project));
            &&& watches(after, path)
            &&& without_path(after, path) == without_path(es, path)
            &&& !watches(without_path(after, path), path)
        }),
{
    lemma_without_path(es, path);
    let w = without_path(es, path);
    let after = w.push(new_entry(path, shelf, project));
    assert(after[after.len() - 1].path == path);
    assert(after.drop_last() =~= w);
    lemma_without_path_idem(es, path);
    lemma_without_path(after, path);
}

/// Dropping a path's entries twice is dropping them once.
proof fn lemma_without_path_idem(es: Seq<WatchedModel>, path: Seq<char>)
    ensures
        without_path(without_path(es, path), path) == without_path(es, path),
    decreases es.len(),
{
    if es.len() > 0 {
        lemma_without_path_idem(es.drop_last(), path);
        let w = without_path(es.drop_last(), path);
        if es.last().path != path {
            assert(w.push(es.last()).drop_last() =~= w);
        }
    }
}

} // verus!
