//! The project manager: the registry and the operations on projects.
use vstd::prelude::*;

use crate::clock::now_rfc3339;
use crate::model::project::{
    added, find_named, lemma_find_named, opt_str, project_views, LocalProjectConfig, Project,
    ProjectModel, ProjectRegistry,
};
use crate::paths::{path_eq, path_join, spec_path_eq, spec_path_join};
use crate::text::clone_opt_string;

verus! {

/// Index of the first project whose root is the path `root`.
pub open spec fn find_root(ps: Seq<ProjectModel>, root: Seq<char>) -> Option<int>
    decreases ps.len(),
{
    if ps.len() == 0 {
        None
    } else {
        match find_root(ps.drop_last(), root) {
            Some(i) => Some(i),
            None => if spec_path_eq(ps.last().root, root) {
                Some(ps.len() - 1)
            } else {
                None
            },
        }
    }
}

proof fn lemma_find_root(ps: Seq<ProjectModel>, root: Seq<char>)
    ensures
        match find_root(ps, root) {
            Some(i) => 0 <= i < ps.len() && spec_path_eq(ps[i].root, root) && forall|j: int| 0 <= j < i ==> !spec_path_eq(#[trigger] ps[j].root, root),
            None => forall|j: int| 0 <= j < ps.len() ==> !spec_path_eq(#[trigger] ps[j].root, root),
        },
    decreases ps.len(),
{
    if ps.len() > 0 {
        lemma_find_root(ps.drop_last(), root);
        match find_root(ps.drop_last(), root) {
            Some(i) => {
                assert forall|j: int| 0 <= j < i implies !spec_path_eq(#[trigger] ps[j].root, root) by {
                    assert(ps[j] == ps.drop_last()[j]);
                }
                assert(ps[i] == ps.drop_last()[i]);
            },
            None => {
                assert forall|j: int| 0 <= j < ps.len() - 1 implies !spec_path_eq(#[trigger] ps[j].root, root) by {
                    assert(ps[j] == ps.drop_last()[j]);
                }
            },
        }
    }
}

proof fn lemma_find_root_char(ps: Seq<ProjectModel>, root: Seq<char>, i: int)
    requires
        0 <= i < ps.len(),
        spec_path_eq(ps[i].root, root),
        forall|j: int| 0 <= j < i ==> !spec_path_eq(#[trigger] ps[j].root, root),
    ensures
        find_root(ps, root) == Some(i),
{
    lemma_find_root(ps, root);
    match find_root(ps, root) {
        Some(k) => {
            if k < i {
                assert(!spec_path_eq(ps[k].root, root));
            }
            if k > i {
                assert(!spec_path_eq(ps[i].root, root));
            }
        },
        None => {
            assert(!spec_path_eq(ps[i].root, root));
        },
    }
}

/// The project a new registration builds: given name, root, shelf (the name
/// when none is given), wing and room, and the default settings otherwise.
pub open spec fn registered_project(
    p: ProjectModel,
    name: Seq<char>,
    root: Seq<char>,
    shelf: Option<Seq<char>>,
    wing: Option<Seq<char>>,
    room: Option<Seq<char>>,
) -> bool {
    &&& p.name == name
    &&& p.root == root
    &&& p.shelf == (match shelf {
        Some(s) => s,
        None => name,
    })
    &&& p.wing == wing
    &&& p.room == room
    &&& crate::model::project::is_default_project(ProjectModel { name: Seq::<char>::empty(), root: "."@, shelf: "default"@, wing: None, room: None, ..p })
}

/// Project manager: the registry file location and the registry itself.
pub struct ProjectManager {
    registry_path: String,
    registry: ProjectRegistry,
}

impl ProjectManager {
    /// The projects under management.
    pub closed spec fn projects(&self) -> Seq<ProjectModel> {
        self.registry@
    }

    /// Where the registry is stored.
    pub closed spec fn path(&self) -> Seq<char> {
        self.registry_path@
    }

    /// A manager for the hypatia home directory `hypatia_home`, holding the
    /// registry read from its `projects.json` (empty when there is none).
    pub fn new(hypatia_home: &str, registry: ProjectRegistry) -> (r: Self)
        ensures
            r.path() == spec_path_join(hypatia_home@, "projects.json"@),
            r.projects() == registry@,
    {
        let registry_path = path_join(hypatia_home, "projects.json");
        Self { registry_path, registry }
    }

    /// The file the registry is saved to.
    pub fn registry_path(&self) -> (r: &str)
        ensures
            r@ == self.path(),
    {
        self.registry_path.as_str()
    }

    /// The registry, for saving.
    pub fn registry(&self) -> (r: &ProjectRegistry)
        ensures
            r@ == self.projects(),
    {
        &self.registry
    }

    /// The local configuration written for a newly registered project.
    pub fn new_local_config(name: &str, wing: &Option<String>, room: &Option<String>) -> (r: LocalProjectConfig)
        ensures
            r.name@ == name@,
            r.wing == *wing,
            r.room == *room,
            r.skip_patterns@.len() == 0,
            r.extensions@.len() == 0,
            r.max_file_size == 1048576,
            r.chunk_size == 512,
    {
        let d = LocalProjectConfig::default();
        LocalProjectConfig { name: name.to_owned(), wing: clone_opt_string(wing), room: clone_opt_string(room), ..d }
    }

    /// Registers a project rooted at the canonical path `root`, replacing any
    /// project of the same name, and returns it.
    pub fn add_project(
        &mut self,
        name: String,
        root: String,
        shelf: Option<String>,
        wing: Option<String>,
        room: Option<String>,
    ) -> (r: Project)
        ensures
            registered_project(r@, name@, root@, opt_str(shelf), opt_str(wing), opt_str(room)),
            final(self).projects() == added(old(self).projects(), r@),
            final(self).path() == old(self).path(),
    {
        let d = Project::default();
        let shelf = match shelf {
            Some(s) => s,
            None => name.clone(),
        };
        let project = Project { name, root, shelf, wing, room, ..d };
        self.registry.add(project.clone());
        project
    }

    /// Removes the first project named `name` and returns it.
    pub fn remove_project(&mut self, name: &str) -> (r: Option<Project>)
        ensures
            match find_named(old(self).projects(), name@) {
                Some(i) => r matches Some(p) && p@ == old(self).projects()[i] && final(self).projects()
                    == old(self).projects().remove(i),
                None => r is None && final(self).projects() == old(self).projects(),
            },
            final(self).path() == old(self).path(),
    {
        self.registry.remove(name)
    }

    /// The first project named `name`.
    pub fn get_project(&self, name: &str) -> (r: Option<&Project>)
        ensures
            match find_named(self.projects(), name@) {
                Some(i) => r matches Some(p) && p@ == self.projects()[i],
                None => r is None,
            },
    {
        self.registry.get(name)
    }

    /// The first project named `name`, for changing it in place.
    pub fn get_mut(&mut self, name: &str) -> (r: Option<&mut Project>)
        ensures
            match find_named(old(self).projects(), name@) {
                Some(i) => r matches Some(p) && p@ == old(self).projects()[i] && final(self).projects()
                    == old(self).projects().update(i, final(p)@),
                None => r is None && final(self).projects() == old(self).projects(),
            },
            final(self).path() == old(self).path(),
    {
        let r = self.registry.get_mut(name);
        r
    }

    /// All projects, in registration order.
    pub fn list_projects(&self) -> (r: &[Project])
        ensures
            project_views(r@) == self.projects(),
    {
        self.registry.list()
    }

    /// Stamps the first project named `name` with the current time as its
    /// last indexing time; returns whether there was such a project.
    pub fn update_last_indexed(&mut self, name: &str) -> (r: bool)
        ensures
            r == (find_named(old(self).projects(), name@) is Some),
            match find_named(old(self).projects(), name@) {
                Some(i) => final(self).projects()[i].last_indexed is Some && final(self).projects() == old(self).projects().update(
                    i,
                    ProjectModel { last_indexed: final(self).projects()[i].last_indexed, ..old(self).projects()[i] },
                ),
                None => final(self).projects() == old(self).projects(),
            },
            final(self).path() == old(self).path(),
    {
        proof {
            lemma_find_named(self.projects(), name@);
        }
        match self.registry.get_mut(name) {
            Some(p) => {
                p.last_indexed = Some(now_rfc3339());
                true
            },
            None => false,
        }
    }

    /// The first project whose root is the canonical path `root`.
    pub fn find_by_root(&self, root: &str) -> (r: Option<&Project>)
        ensures
            match find_root(self.projects(), root@) {
                Some(i) => r matches Some(p) && p@ == self.projects()[i],
                None => r is None,
            },
    {
        let ps = self.registry.list();
        let n = ps.len();
        for i in 0..n
            invariant
                n == ps@.len(),
                project_views(ps@) == self.projects(),
                forall|j: int| 0 <= j < i ==> !spec_path_eq(#[trigger] self.projects()[j].root, root@),
        {
            assert(self.projects()[i as int] == ps@[i as int]@);
            if path_eq(ps[i].root.as_str(), root) {
                proof {
                    lemma_find_root_char(self.projects(), root@, i as int);
                }
                return Some(&ps[i]);
            }
        }
        proof {
            lemma_find_root(self.projects(), root@);
            if let Some(k) = find_root(self.projects(), root@) {
                assert(!spec_path_eq(self.projects()[k].root, root@));
            }
        }
        None
    }

    /// Turns auto-watch on or off for the first project named `name`;
    /// returns whether there was such a project.
    pub fn toggle_auto_watch(&mut self, name: &str, enabled: bool) -> (r: bool)
        ensures
            r == (find_named(old(self).projects(), name@) is Some),
            match find_named(old(self).projects(), name@) {
                Some(i) => final(self).projects() == old(self).projects().update(
                    i,
                    ProjectModel { auto_watch: enabled, ..old(self).projects()[i] },
                ),
                None => final(self).projects() == old(self).projects(),
            },
            final(self).path() == old(self).path(),
    {
        proof {
            lemma_find_named(self.projects(), name@);
        }
        match self.registry.get_mut(name) {
            Some(p) => {
                p.auto_watch = enabled;
                true
            },
            None => false,
        }
    }
}

} // verus!
