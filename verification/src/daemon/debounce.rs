//! The watch daemon's event loop as a step function: from the pending changes
//! and what the loop received to the pending changes after it and what the
//! loop does next; and the decision taken when the daemon is started.
use vstd::prelude::*;

use super::state::DaemonState;
use super::watcher::{
    auto_watch_projects, determine_shelf_for_path, first_containing, group_by_shelf, group_changes, group_views,
    is_relevant_event, relevant_path,
};
use crate::miner::watcher::{find_known, key_index, lemma_key_index, pair_views, unique_keys};
use crate::model::project::{Project, ProjectModel};
use crate::service::project::ProjectManager;

verus! {

/// How long (in nanoseconds) the loop waits after processing changes before
/// it processes the next ones.
pub const DEBOUNCE_NS: u64 = 2_000_000_000;

/// What the daemon's event loop received in one poll.
pub enum DaemonEvent {
    /// A file-system event: whether it creates, modifies or removes
    /// something, and the paths it concerns.
    Changed { is_change: bool, paths: Vec<String> },
    /// The watcher reported an error.
    WatchError,
    /// Nothing arrived within the poll interval; `since_last_ns` nanoseconds
    /// have passed since changes were last processed (or the loop started).
    Idle { since_last_ns: u64 },
    /// The watcher is gone.
    Disconnected,
}

/// What the loop does after a step.
pub enum DaemonAction {
    /// Keep polling.
    Wait,
    /// Report the watcher's error and keep polling.
    ReportError,
    /// Re-index these changed paths, grouped by shelf, then restart the
    /// debounce clock and record the time of the check.
    Process(Vec<(String, Vec<String>)>),
    /// Leave the loop and mark the daemon stopped.
    Stop,
}

/// Changes waiting to be processed: each changed path once, with its shelf.
pub struct PendingChanges {
    changes: Vec<(String, String)>,
}

/// `path` recorded as changed on `shelf`: a path already pending gets the
/// new shelf in place, a new one comes last.
pub open spec fn pending_insert(p: Seq<(Seq<char>, Seq<char>)>, path: Seq<char>, shelf: Seq<char>) -> Seq<(Seq<char>, Seq<char>)> {
    match key_index(p, path) {
        Some(i) => p.update(i, (path, shelf)),
        None => p.push((path, shelf)),
    }
}

/// The pending changes after recording the first `n` of `paths`: each path
/// that a registered project contains is recorded with the shelf of the first
/// such project; the others are dropped.
pub open spec fn record_paths(
    p: Seq<(Seq<char>, Seq<char>)>,
    projects: Seq<ProjectModel>,
    paths: Seq<Seq<char>>,
    n: nat,
) -> Seq<(Seq<char>, Seq<char>)>
    decreases n,
{
    if n == 0 || n > paths.len() {
        p
    } else {
        let q = record_paths(p, projects, paths, (n - 1) as nat);
        match first_containing(projects, paths[n - 1]) {
            Some(i) => pending_insert(q, paths[n - 1], projects[i].shelf),
            None => q,
        }
    }
}

/// An event is recorded when it creates, modifies or removes something and
/// one of its paths is relevant.
pub open spec fn relevant_event(is_change: bool, paths: Seq<Seq<char>>) -> bool {
    is_change && exists|i: int| 0 <= i < paths.len() && relevant_path(#[trigger] paths[i])
}

impl View for PendingChanges {
    type V = Seq<(Seq<char>, Seq<char>)>;

    closed spec fn view(&self) -> Seq<(Seq<char>, Seq<char>)> {
        pair_views(self.changes@)
    }
}

impl PendingChanges {
    /// No pending changes.
    pub fn new() -> (r: Self)
        ensures
            r@ == Seq::<(Seq<char>, Seq<char>)>::empty(),
    {
        PendingChanges { changes: Vec::new() }
    }

    /// The pending (path, shelf) pairs.
    pub fn changes(&self) -> (r: &Vec<(String, String)>)
        ensures
            pair_views(r@) == self@,
    {
        &self.changes
    }

    fn insert(&mut self, path: String, shelf: String)
        ensures
            final(self)@ == pending_insert(old(self)@, path@, shelf@),
    {
        let ghost pre = self@;
        match find_known(&self.changes, path.as_str()) {
            Some(i) => {
                proof {
                    lemma_key_index(pre, path@);
                }
                let ghost pv = path@;
                let ghost sv = shelf@;
                self.changes.set(i, (path, shelf));
                assert(self@ =~= pre.update(i as int, (pv, sv)));
            },
            None => {
                let ghost pv = path@;
                let ghost sv = shelf@;
                self.changes.push((path, shelf));
                assert(self@ =~= pre.push((pv, sv)));
            },
        }
    }
}

/// One step of the daemon's event loop.  A relevant file event records its
/// paths (see `record_paths`); a watch error is reported; when nothing
/// arrives, the pending changes are processed, grouped by shelf (see
/// `group_changes`), once there are some and more than `DEBOUNCE_NS` have
/// passed since the last processing; a lost watcher stops the loop.
pub fn daemon_step(pending: &mut PendingChanges, manager: &ProjectManager, event: DaemonEvent) -> (r: DaemonAction)
    ensures
        match event {
            DaemonEvent::Changed { is_change, paths } => {
                let ps = paths@.map_values(|s: String| s@);
                &&& r is Wait
                &&& final(pending)@ == if relevant_event(is_change, ps) {
                    record_paths(old(pending)@, manager.projects(), ps, ps.len())
                } else {
                    old(pending)@
                }
            },
            DaemonEvent::WatchError => r is ReportError && final(pending)@ == old(pending)@,
            DaemonEvent::Idle { since_last_ns } => if old(pending)@.len() > 0 && since_last_ns > DEBOUNCE_NS {
                &&& r matches DaemonAction::Process(gs) && group_views(gs@) == group_changes(old(pending)@, old(pending)@.len())
                &&& final(pending)@ == Seq::<(Seq<char>, Seq<char>)>::empty()
            } else {
                r is Wait && final(pending)@ == old(pending)@
            },
            DaemonEvent::Disconnected => r is Stop && final(pending)@ == old(pending)@,
        },
{
    match event {
        DaemonEvent::Changed { is_change, paths } => {
            let ghost ps = paths@.map_values(|s: String| s@);
            let relevant = is_relevant_event(is_change, &paths);
            assert(relevant == relevant_event(is_change, ps)) by {
                if relevant {
                    let i = choose|i: int| 0 <= i < paths@.len() && relevant_path(#[trigger] paths@[i]@);
                    assert(ps[i] == paths@[i]@);
                }
                if relevant_event(is_change, ps) {
                    let i = choose|i: int| 0 <= i < ps.len() && relevant_path(#[trigger] ps[i]);
                    assert(ps[i] == paths@[i]@);
                }
            }
            if relevant {
                let ghost start = pending@;
                let n = paths.len();
                for i in 0..n
                    invariant
                        n == paths@.len(),
                        ps == paths@.map_values(|s: String| s@),
                        pending@ == record_paths(start, manager.projects(), ps, i as nat),
                {
                    assert(ps[i as int] == paths@[i as int]@);
                    match determine_shelf_for_path(manager, paths[i].as_str()) {
                        Some(shelf) => {
                            pending.insert(paths[i].clone(), shelf);
                        },
                        None => {},
                    }
                }
            }
            DaemonAction::Wait
        },
        DaemonEvent::WatchError => DaemonAction::ReportError,
        DaemonEvent::Idle { since_last_ns } => {
            if pending.changes.len() > 0 && since_last_ns > DEBOUNCE_NS {
                let groups = group_by_shelf(&pending.changes);
                assert(pending.changes@.map_values(|c: (String, String)| (c.0@, c.1@)) =~= pending@);
                pending.changes = Vec::new();
                DaemonAction::Process(groups)
            } else {
                DaemonAction::Wait
            }
        },
        DaemonEvent::Disconnected => DaemonAction::Stop,
    }
}

proof fn lemma_insert_unique(p: Seq<(Seq<char>, Seq<char>)>, path: Seq<char>, shelf: Seq<char>)
    requires
        unique_keys(p),
    ensures
        unique_keys(pending_insert(p, path, shelf)),
        key_index(pending_insert(p, path, shelf), path) is Some,
{
    lemma_key_index(p, path);
    let q = pending_insert(p, path, shelf);
    match key_index(p, path) {
        Some(i) => {
            assert forall|a: int, b: int| 0 <= a < q.len() && 0 <= b < q.len() && a != b implies #[trigger] q[a].0 != #[trigger] q[b].0 by {
                assert(q[a].0 == p[a].0);
                assert(q[b].0 == p[b].0);
            }
        },
        None => {
            assert forall|a: int, b: int| 0 <= a < q.len() && 0 <= b < q.len() && a != b implies #[trigger] q[a].0 != #[trigger] q[b].0 by {
                if a < p.len() {
                    assert(q[a] == p[a]);
                }
                if b < p.len() {
                    assert(q[b] == p[b]);
                }
            }
        },
    }
    lemma_key_index(q, path);
    if key_index(q, path) is None {
        match key_index(p, path) {
            Some(i) => assert(q[i].0 == path),
            None => assert(q[p.len() as int].0 == path),
        }
    }
}

/// Law: however many events are recorded, each changed path is pending at
/// most once (a path changed again keeps one entry, with its latest shelf).
pub proof fn law_pending_paths_unique(
    p: Seq<(Seq<char>, Seq<char>)>,
    projects: Seq<ProjectModel>,
    paths: Seq<Seq<char>>,
    n: nat,
)
    requires
        unique_keys(p),
    ensures
        unique_keys(record_paths(p, projects, paths, n)),
    decreases n,
{
    if n > 0 && n <= paths.len() {
        law_pending_paths_unique(p, projects, paths, (n - 1) as nat);
        let q = record_paths(p, projects, paths, (n - 1) as nat);
        if let Some(i) = first_containing(projects, paths[n - 1]) {
            lemma_insert_unique(q, paths[n - 1], projects[i].shelf);
        }
    }
}

/// What starting the daemon does.
pub enum StartDecision {
    /// A daemon is already running.
    AlreadyRunning,
    /// No project has auto-watch enabled: nothing to watch.
    NoProjects,
    /// Watch these projects (indices into the registry's list, in order).
    Watch(Vec<usize>),
}

/// The decision on starting the daemon, given its saved state, whether the
/// process that state names is alive, and the registered projects: a running
/// daemon whose process is alive is left alone; otherwise the projects with
/// auto-watch enabled are watched, all of them and in order, if there are any.
pub fn start_decision(state: &DaemonState, process_alive: bool, projects: &[Project]) -> (r: StartDecision)
    ensures
        state.is_running && process_alive ==> r is AlreadyRunning,
        !(state.is_running && process_alive) ==> match r {
            StartDecision::AlreadyRunning => false,
            StartDecision::NoProjects => forall|j: int| 0 <= j < projects@.len() ==> !(#[trigger] projects@[j]).auto_watch,
            StartDecision::Watch(w) => {
                &&& w@.len() > 0
                &&& forall|k: int| 0 <= k < w@.len() ==> (#[trigger] w@[k]) < projects@.len() && projects@[w@[k] as int].auto_watch
                &&& forall|k: int, l: int| 0 <= k < l < w@.len() ==> w@[k] < w@[l]
                &&& forall|j: int| 0 <= j < projects@.len() && projects@[j].auto_watch ==> w@.contains(j as usize)
            },
        },
{
    if state.is_running && process_alive {
        return StartDecision::AlreadyRunning;
    }
    let w = auto_watch_projects(projects);
    if w.len() == 0 {
        proof {
            assert forall|j: int| 0 <= j < projects@.len() implies !(#[trigger] projects@[j]).auto_watch by {
                if projects@[j].auto_watch {
                    assert(w@.contains(j as usize));
                }
            }
        }
        StartDecision::NoProjects
    } else {
        StartDecision::Watch(w)
    }
}

} // verus!
