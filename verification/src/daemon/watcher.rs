//! Decisions of the watch daemon: which file events matter, which shelf a
//! changed file belongs to, and how pending changes are grouped.
use vstd::prelude::*;

use crate::miner::watcher::{key_index, lemma_key_index, lemma_key_index_char};
use crate::model::project::{default_extensions, project_views, Project, ProjectModel};
use crate::paths::{path_extension, path_starts_with, spec_path_extension, spec_path_starts_with};
use crate::service::project::ProjectManager;
use crate::text::{str_equal, string_views};
use crate::model::project::default_extension_list;
use crate::text::contains_string;

verus! {

/// A changed file is worth re-indexing when its extension (as written) is
/// one of the indexed source extensions.
pub open spec fn relevant_path(path: Seq<char>) -> bool {
    match spec_path_extension(path) {
        Some(e) => default_extensions().contains(e),
        None => false,
    }
}

/// Law: a changed file is worth re-indexing exactly when it has an
/// extension and that extension is one of `rs`, `ts`, `js`, `py`, `md`,
/// `json`, `yaml`, `yml`, `toml`, `txt`.
pub proof fn law_relevant_extensions(path: Seq<char>)
    ensures
        relevant_path(path) <==> match spec_path_extension(path) {
            Some(e) => e == "rs"@ || e == "ts"@ || e == "js"@ || e == "py"@ || e == "md"@ || e == "json"@
                || e == "yaml"@ || e == "yml"@ || e == "toml"@ || e == "txt"@,
            None => false,
        },
{
    if let Some(e) = spec_path_extension(path) {
        let d = default_extensions();
        if d.contains(e) {
            let i = choose|i: int| 0 <= i < d.len() && d[i] == e;
            assert(0 <= i < 10);
        }
        if e == "rs"@ { assert(d[0] == e); }
        if e == "ts"@ { assert(d[1] == e); }
        if e == "js"@ { assert(d[2] == e); }
        if e == "py"@ { assert(d[3] == e); }
        if e == "md"@ { assert(d[4] == e); }
        if e == "json"@ { assert(d[5] == e); }
        if e == "yaml"@ { assert(d[6] == e); }
        if e == "yml"@ { assert(d[7] == e); }
        if e == "toml"@ { assert(d[8] == e); }
        if e == "txt"@ { assert(d[9] == e); }
    }
}

/// Whether a changed file is worth re-indexing (see `relevant_path`).
pub fn is_relevant_path(path: &str) -> (r: bool)
    ensures
        r == relevant_path(path@),
{
    match path_extension(path) {
        Some(e) => {
            let exts = default_extension_list();
            contains_string(&exts, e.as_str())
        },
        None => false,
    }
}

/// An event matters when it creates, modifies or removes something and one
/// of its paths is relevant.
pub fn is_relevant_event(is_change: bool, paths: &Vec<String>) -> (r: bool)
    ensures
        r == (is_change && exists|i: int| 0 <= i < paths@.len() && relevant_path(#[trigger] paths@[i]@)),
{
    if !is_change {
        return false;
    }
    let n = paths.len();
    for i in 0..n
        invariant
            n == paths@.len(),
            is_change,
            forall|j: int| 0 <= j < i ==> !relevant_path(#[trigger] paths@[j]@),
    {
        if is_relevant_path(paths[i].as_str()) {
            assert(relevant_path(paths@[i as int]@));
            return true;
        }
    }
    false
}

/// Index of the first project whose root is a path prefix of `path`.
pub open spec fn first_containing(ps: Seq<ProjectModel>, path: Seq<char>) -> Option<int>
    decreases ps.len(),
{
    if ps.len() == 0 {
        None
    } else {
        match first_containing(ps.drop_last(), path) {
            Some(i) => Some(i),
            None => if spec_path_starts_with(path, ps.last().root) {
                Some(ps.len() - 1)
            } else {
                None
            },
        }
    }
}

proof fn lemma_first_containing(ps: Seq<ProjectModel>, path: Seq<char>)
    ensures
        match first_containing(ps, path) {
            Some(i) => 0 <= i < ps.len() && spec_path_starts_with(path, ps[i].root) && forall|j: int| 0 <= j < i ==> !spec_path_starts_with(path, #[trigger] ps[j].root),
            None => forall|j: int| 0 <= j < ps.len() ==> !spec_path_starts_with(path, #[trigger] ps[j].root),
        },
    decreases ps.len(),
{
    if ps.len() > 0 {
        lemma_first_containing(ps.drop_last(), path);
        match first_containing(ps.drop_last(), path) {
            Some(i) => {
                assert forall|j: int| 0 <= j < i implies !spec_path_starts_with(path, #[trigger] ps[j].root) by {
                    assert(ps[j] == ps.drop_last()[j]);
                }
                assert(ps[i] == ps.drop_last()[i]);
            },
            None => {
                assert forall|j: int| 0 <= j < ps.len() - 1 implies !spec_path_starts_with(path, #[trigger] ps[j].root) by {
                    assert(ps[j] == ps.drop_last()[j]);
                }
            },
        }
    }
}

/// The shelf of the first registered project whose root contains `path`.
pub fn determine_shelf_for_path(manager: &ProjectManager, path: &str) -> (r: Option<String>)
    ensures
        match first_containing(manager.projects(), path@) {
            Some(i) => r matches Some(s) && s@ == manager.projects()[i].shelf,
            None => r is None,
        },
{
    let ps = manager.list_projects();
    let n = ps.len();
    for i in 0..n
        invariant
            n == ps@.len(),
            project_views(ps@) == manager.projects(),
            forall|j: int| 0 <= j < i ==> !spec_path_starts_with(path@, #[trigger] manager.projects()[j].root),
    {
        assert(manager.projects()[i as int] == ps@[i as int]@);
        if path_starts_with(path, ps[i].root.as_str()) {
            proof {
                lemma_first_containing(manager.projects(), path@);
                if let Some(k) = first_containing(manager.projects(), path@) {
                    if k < i {
                        assert(!spec_path_starts_with(path@, manager.projects()[k].root));
                    }
                    if k > i {
                        assert(!spec_path_starts_with(path@, manager.projects()[i as int].root));
                    }
                } else {
                    assert(!spec_path_starts_with(path@, manager.projects()[i as int].root));
                }
            }
            return Some(ps[i].shelf.clone());
        }
    }
    proof {
        lemma_first_containing(manager.projects(), path@);
        if let Some(k) = first_containing(manager.projects(), path@) {
            assert(!spec_path_starts_with(path@, manager.projects()[k].root));
        }
    }
    None
}

/// The first `n` changes (path, shelf) grouped by shelf, in order of first
/// appearance, each group listing its paths in order.
pub open spec fn group_changes(changes: Seq<(Seq<char>, Seq<char>)>, n: nat) -> Seq<(Seq<char>, Seq<Seq<char>>)>
    decreases n,
{
    if n == 0 || n > changes.len() {
        Seq::empty()
    } else {
        let gs = group_changes(changes, (n - 1) as nat);
        let (path, shelf) = changes[n - 1];
        match key_index(gs, shelf) {
            Some(i) => gs.update(i, (shelf, gs[i].1.push(path))),
            None => gs.push((shelf, seq![path])),
        }
    }
}

/// The views of shelf groups.
pub open spec fn group_views(gs: Seq<(String, Vec<String>)>) -> Seq<(Seq<char>, Seq<Seq<char>>)> {
    gs.map_values(|g: (String, Vec<String>)| (g.0@, string_views(g.1@)))
}

/// Index of the group for `shelf`.
fn find_group(groups: &Vec<(String, Vec<String>)>, shelf: &str) -> (r: Option<usize>)
    ensures
        match r {
            Some(i) => key_index(group_views(groups@), shelf@) == Some(i as int),
            None => key_index(group_views(groups@), shelf@) is None,
        },
{
    let ghost gv = group_views(groups@);
    let n = groups.len();
    for i in 0..n
        invariant
            n == groups@.len(),
            gv == group_views(groups@),
            forall|j: int| 0 <= j < i ==> #[trigger] gv[j].0 != shelf@,
    {
        if str_equal(groups[i].0.as_str(), shelf) {
            proof {
                lemma_key_index_char(gv, shelf@, i as int);
            }
            return Some(i);
        }
    }
    proof {
        lemma_key_index(gv, shelf@);
        if let Some(k) = key_index(gv, shelf@) {
            assert(gv[k].0 != shelf@);
        }
    }
    None
}

/// Groups pending changes (path, shelf) by shelf (see `group_changes`).
pub fn group_by_shelf(changes: &Vec<(String, String)>) -> (r: Vec<(String, Vec<String>)>)
    ensures
        group_views(r@) == group_changes(changes@.map_values(|c: (String, String)| (c.0@, c.1@)), changes@.len()),
{
    let ghost cs = changes@.map_values(|c: (String, String)| (c.0@, c.1@));
    let mut groups: Vec<(String, Vec<String>)> = Vec::new();
    let n = changes.len();
    for i in 0..n
        invariant
            n == changes@.len(),
            cs == changes@.map_values(|c: (String, String)| (c.0@, c.1@)),
            group_views(groups@) == group_changes(cs, i as nat),
    {
        let path = &changes[i].0;
        let shelf = &changes[i].1;
        assert(cs[i as int] == (path@, shelf@));
        let ghost pre = group_views(groups@);
        let found = find_group(&groups, shelf.as_str());
        proof {
            lemma_key_index(pre, shelf@);
        }
        match found {
            Some(j) => {
                let g = &mut groups[j];
                let ghost old_paths = string_views(g.1@);
                g.1.push(path.clone());
                assert(string_views(g.1@) =~= old_paths.push(path@));
                assert(group_views(groups@) =~= pre.update(j as int, (shelf@, pre[j as int].1.push(path@))));
            },
            None => {
                let mut v: Vec<String> = Vec::new();
                v.push(path.clone());
                assert(string_views(v@) =~= seq![path@]);
                groups.push((shelf.clone(), v));
                assert(group_views(groups@) =~= pre.push((shelf@, seq![path@])));
            },
        }
    }
    groups
}

/// Index of the first project on shelf `shelf`, if any.
pub fn project_for_shelf(projects: &[Project], shelf: &str) -> (r: Option<usize>)
    ensures
        match r {
            Some(i) => i < projects@.len() && projects@[i as int].shelf@ == shelf@ && forall|j: int| 0 <= j < i ==> #[trigger] projects@[j].shelf@ != shelf@,
            None => forall|j: int| 0 <= j < projects@.len() ==> #[trigger] projects@[j].shelf@ != shelf@,
        },
{
    let n = projects.len();
    for i in 0..n
        invariant
            n == projects@.len(),
            forall|j: int| 0 <= j < i ==> #[trigger] projects@[j].shelf@ != shelf@,
    {
        if str_equal(projects[i].shelf.as_str(), shelf) {
            return Some(i);
        }
    }
    None
}

/// Indices of the projects with auto-watch enabled, in order.
pub fn auto_watch_projects(projects: &[Project]) -> (r: Vec<usize>)
    ensures
        forall|k: int| 0 <= k < r@.len() ==> (#[trigger] r@[k]) < projects@.len() && projects@[r@[k] as int].auto_watch,
        forall|k: int, l: int| 0 <= k < l < r@.len() ==> r@[k] < r@[l],
        forall|j: int| 0 <= j < projects@.len() && projects@[j].auto_watch ==> r@.contains(j as usize),
{
    let mut r: Vec<usize> = Vec::new();
    let n = projects.len();
    for i in 0..n
        invariant
            n == projects@.len(),
            forall|k: int| 0 <= k < r@.len() ==> (#[trigger] r@[k]) < i && projects@[r@[k] as int].auto_watch,
            forall|k: int, l: int| 0 <= k < l < r@.len() ==> r@[k] < r@[l],
            forall|j: int| 0 <= j < i && projects@[j].auto_watch ==> r@.contains(j as usize),
    {
        if projects[i].auto_watch {
            let ghost pre = r@;
            r.push(i);
            assert forall|j: int| 0 <= j < i + 1 && projects@[j].auto_watch implies r@.contains(j as usize) by {
                if j < i {
                    let k = choose|k: int| 0 <= k < pre.len() && pre[k] == j as usize;
                    assert(r@[k] == j as usize);
                } else {
                    assert(r@[pre.len() as int] == i);
                }
            }
        }
    }
    r
}

} // verus!
