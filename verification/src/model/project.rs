//! Registered projects, their hierarchy (wing and room) and local settings.
use vstd::prelude::*;

use crate::clock::now_rfc3339;
use crate::paths::{path_join, spec_path_join};
use crate::text::{clone_opt_string, clone_strings, str_equal, string_views};

verus! {

/// A registered project.
#[derive(Debug)]
pub struct Project {
    /// Project name (unique identifier).
    pub name: String,
    /// Root directory path.
    pub root: String,
    /// Shelf name for this project.
    pub shelf: String,
    /// Wing name (optional, for hierarchical organization).
    pub wing: Option<String>,
    /// Room name (optional, for deeper hierarchy).
    pub room: Option<String>,
    /// Project-specific skip patterns (gitignore-style).
    pub skip_patterns: Vec<String>,
    /// File extensions to include.
    pub extensions: Vec<String>,
    /// Maximum file size in bytes.
    pub max_file_size: usize,
    /// Chunk size in characters.
    pub chunk_size: usize,
    /// Auto-watch enabled.
    pub auto_watch: bool,
    /// Created timestamp.
    pub created_at: String,
    /// Last indexed timestamp.
    pub last_indexed: Option<String>,
}

/// The mathematical value of a project.
pub struct ProjectModel {
    pub name: Seq<char>,
    pub root: Seq<char>,
    pub shelf: Seq<char>,
    pub wing: Option<Seq<char>>,
    pub room: Option<Seq<char>>,
    pub skip_patterns: Seq<Seq<char>>,
    pub extensions: Seq<Seq<char>>,
    pub max_file_size: nat,
    pub chunk_size: nat,
    pub auto_watch: bool,
    pub created_at: Seq<char>,
    pub last_indexed: Option<Seq<char>>,
}

/// The character view of an optional string.
pub open spec fn opt_str(o: Option<String>) -> Option<Seq<char>> {
    match o {
        Some(s) => Some(s@),
        None => None,
    }
}

impl View for Project {
    type V = ProjectModel;

    open spec fn view(&self) -> ProjectModel {
        ProjectModel {
            name: self.name@,
            root: self.root@,
            shelf: self.shelf@,
            wing: opt_str(self.wing),
            room: opt_str(self.room),
            skip_patterns: string_views(self.skip_patterns@),
            extensions: string_views(self.extensions@),
            max_file_size: self.max_file_size as nat,
            chunk_size: self.chunk_size as nat,
            auto_watch: self.auto_watch,
            created_at: self.created_at@,
            last_indexed: opt_str(self.last_indexed),
        }
    }
}

impl Clone for Project {
    fn clone(&self) -> (r: Self)
        ensures
            r@ == self@,
    {
        Project {
            name: self.name.clone(),
            root: self.root.clone(),
            shelf: self.shelf.clone(),
            wing: clone_opt_string(&self.wing),
            room: clone_opt_string(&self.room),
            skip_patterns: clone_strings(&self.skip_patterns),
            extensions: clone_strings(&self.extensions),
            max_file_size: self.max_file_size,
            chunk_size: self.chunk_size,
            auto_watch: self.auto_watch,
            created_at: self.created_at.clone(),
            last_indexed: clone_opt_string(&self.last_indexed),
        }
    }
}

/// Skip patterns a new project starts with.
pub open spec fn default_project_skip_patterns() -> Seq<Seq<char>> {
    seq!["target/**"@, "node_modules/**"@, ".git/**"@, "dist/**"@, "*.lock"@, "*.log"@]
}

/// File extensions indexed by default.
pub open spec fn default_extensions() -> Seq<Seq<char>> {
    seq!["rs"@, "ts"@, "js"@, "py"@, "md"@, "json"@, "yaml"@, "yml"@, "toml"@, "txt"@]
}

/// The default extension list.
pub fn default_extension_list() -> (r: Vec<String>)
    ensures
        string_views(r@) == default_extensions(),
{
    let r = vec![
        "rs".to_owned(),
        "ts".to_owned(),
        "js".to_owned(),
        "py".to_owned(),
        "md".to_owned(),
        "json".to_owned(),
        "yaml".to_owned(),
        "yml".to_owned(),
        "toml".to_owned(),
        "txt".to_owned(),
    ];
    assert(string_views(r@) =~= default_extensions());
    r
}

/// Default maximum file size: 1 MiB.
pub fn default_max_file_size() -> (r: usize)
    ensures
        r == 1048576,
{
    1024 * 1024
}

/// Default chunk size: 512 characters.
pub fn default_chunk_size() -> (r: usize)
    ensures
        r == 512,
{
    512
}

/// A project as `Default` builds it, whatever its creation time.
pub open spec fn is_default_project(p: ProjectModel) -> bool {
    &&& p.name == Seq::<char>::empty()
    &&& p.root == "."@
    &&& p.shelf == "default"@
    &&& p.wing is None
    &&& p.room is None
    &&& p.skip_patterns == default_project_skip_patterns()
    &&& p.extensions == default_extensions()
    &&& p.max_file_size == 1048576
    &&& p.chunk_size == 512
    &&& !p.auto_watch
    &&& p.last_indexed is None
}

impl Default for Project {
    fn default() -> (r: Self)
        ensures
            is_default_project(r@),
    {
        let skip = vec![
            "target/**".to_owned(),
            "node_modules/**".to_owned(),
            ".git/**".to_owned(),
            "dist/**".to_owned(),
            "*.lock".to_owned(),
            "*.log".to_owned(),
        ];
        assert(string_views(skip@) =~= default_project_skip_patterns());
        Project {
            name: String::new(),
            root: ".".to_owned(),
            shelf: "default".to_owned(),
            wing: None,
            room: None,
            skip_patterns: skip,
            extensions: default_extension_list(),
            max_file_size: 1024 * 1024,
            chunk_size: 512,
            auto_watch: false,
            created_at: now_rfc3339(),
            last_indexed: None,
        }
    }
}

impl Project {
    /// A project named `name` at `root`, on the shelf of the same name, with
    /// the default settings otherwise.
    pub fn new(name: String, root: String) -> (r: Self)
        ensures
            r@.name == name@,
            r@.root == root@,
            r@.shelf == name@,
            is_default_project(ProjectModel { name: Seq::<char>::empty(), root: "."@, shelf: "default"@, ..r@ }),
    {
        let d = Self::default();
        Self { name: name.clone(), root, shelf: name, ..d }
    }

    /// The `.hypatia` directory inside the project root.
    pub fn hypatia_dir(&self) -> (r: String)
        ensures
            r@ == spec_path_join(self.root@, ".hypatia"@),
    {
        path_join(self.root.as_str(), ".hypatia")
    }

    /// The project-local config file `.hypatia/project.toml`.
    pub fn config_path(&self) -> (r: String)
        ensures
            r@ == spec_path_join(spec_path_join(self.root@, ".hypatia"@), "project.toml"@),
    {
        let dir = self.hypatia_dir();
        path_join(dir.as_str(), "project.toml")
    }
}

/// Wing: a category within a shelf.
#[derive(Debug, Clone)]
pub struct Wing {
    pub name: String,
    pub shelf: String,
    pub description: Option<String>,
}

impl Wing {
    pub fn new(name: String, shelf: String) -> (r: Self)
        ensures
            r.name == name,
            r.shelf == shelf,
            r.description is None,
    {
        Self { name: name.clone(), shelf, description: None }
    }
}

/// Room: a sub-division within a wing.
#[derive(Debug, Clone)]
pub struct Room {
    pub name: String,
    pub wing: String,
    pub shelf: String,
    pub description: Option<String>,
}

impl Room {
    pub fn new(name: String, wing: String, shelf: String) -> (r: Self)
        ensures
            r.name == name,
            r.wing == wing,
            r.shelf == shelf,
            r.description is None,
    {
        Self { name: name.clone(), wing, shelf, description: None }
    }
}

/// Local project configuration file (`.hypatia/project.toml`).
#[derive(Debug)]
pub struct LocalProjectConfig {
    /// Project name.
    pub name: String,
    /// Skip patterns (extends global defaults).
    pub skip_patterns: Vec<String>,
    /// Extensions (extends global defaults).
    pub extensions: Vec<String>,
    /// Max file size override.
    pub max_file_size: usize,
    /// Chunk size override.
    pub chunk_size: usize,
    /// Wing assignment.
    pub wing: Option<String>,
    /// Room assignment.
    pub room: Option<String>,
}

impl Default for LocalProjectConfig {
    fn default() -> (r: Self)
        ensures
            r.name@ == "default"@,
            r.skip_patterns@.len() == 0,
            r.extensions@.len() == 0,
            r.max_file_size == 1048576,
            r.chunk_size == 512,
            r.wing is None,
            r.room is None,
    {
        Self {
            name: "default".to_owned(),
            skip_patterns: Vec::new(),
            extensions: Vec::new(),
            max_file_size: default_max_file_size(),
            chunk_size: default_chunk_size(),
            wing: None,
            room: None,
        }
    }
}

/// The views of a sequence of projects.
pub open spec fn project_views(ps: Seq<Project>) -> Seq<ProjectModel> {
    ps.map_values(|p: Project| p@)
}

/// Index of the first project named `name`, if any.
pub open spec fn find_named(ps: Seq<ProjectModel>, name: Seq<char>) -> Option<int>
    decreases ps.len(),
{
    if ps.len() == 0 {
        None
    } else {
        match find_named(ps.drop_last(), name) {
            Some(i) => Some(i),
            None => if ps.last().name == name {
                Some(ps.len() - 1)
            } else {
                None
            },
        }
    }
}

/// The projects not named `name`, in order.
pub open spec fn without_named(ps: Seq<ProjectModel>, name: Seq<char>) -> Seq<ProjectModel>
    decreases ps.len(),
{
    if ps.len() == 0 {
        Seq::empty()
    } else if ps.last().name == name {
        without_named(ps.drop_last(), name)
    } else {
        without_named(ps.drop_last(), name).push(ps.last())
    }
}

/// No two projects share a name.
pub open spec fn unique_names(ps: Seq<ProjectModel>) -> bool {
    forall|i: int, j: int| 0 <= i < ps.len() && 0 <= j < ps.len() && i != j ==> #[trigger] ps[i].name != #[trigger] ps[j].name
}

/// `find_named` gives the first matching index.
pub proof fn lemma_find_named(ps: Seq<ProjectModel>, name: Seq<char>)
    ensures
        match find_named(ps, name) {
            Some(i) => 0 <= i < ps.len() && ps[i].name == name && forall|j: int| 0 <= j < i ==> #[trigger] ps[j].name != name,
            None => forall|j: int| 0 <= j < ps.len() ==> #[trigger] ps[j].name != name,
        },
    decreases ps.len(),
{
    if ps.len() > 0 {
        lemma_find_named(ps.drop_last(), name);
        match find_named(ps.drop_last(), name) {
            Some(i) => {
                assert forall|j: int| 0 <= j < i implies #[trigger] ps[j].name != name by {
                    assert(ps[j] == ps.drop_last()[j]);
                }
                assert(ps[i] == ps.drop_last()[i]);
            },
            None => {
                assert forall|j: int| 0 <= j < ps.len() - 1 implies #[trigger] ps[j].name != name by {
                    assert(ps[j] == ps.drop_last()[j]);
                }
            },
        }
    }
}

/// The first index with a given name is determined by the elements.
pub proof fn lemma_find_named_char(ps: Seq<ProjectModel>, name: Seq<char>, i: int)
    requires
        0 <= i < ps.len(),
        ps[i].name == name,
        forall|j: int| 0 <= j < i ==> #[trigger] ps[j].name != name,
    ensures
        find_named(ps, name) == Some(i),
{
    lemma_find_named(ps, name);
    match find_named(ps, name) {
        Some(k) => {
            if k < i {
                assert(ps[k].name != name);
            }
            if k > i {
                assert(ps[i].name != name);
            }
        },
        None => {
            assert(ps[i].name != name);
        },
    }
}

/// `without_named` keeps exactly the other projects, in order.
pub proof fn lemma_without_named(ps: Seq<ProjectModel>, name: Seq<char>)
    ensures
        forall|j: int| 0 <= j < without_named(ps, name).len() ==> #[trigger] without_named(ps, name)[j].name != name,
        forall|p: ProjectModel| #[trigger] without_named(ps, name).contains(p) <==> (ps.contains(p) && p.name != name),
        without_named(ps, name).len() <= ps.len(),
    decreases ps.len(),
{
    if ps.len() > 0 {
        lemma_without_named(ps.drop_last(), name);
        let w = without_named(ps.drop_last(), name);
        if ps.last().name != name {
            assert forall|j: int| 0 <= j < w.push(ps.last()).len() implies #[trigger] w.push(ps.last())[j].name != name by {
                if j < w.len() {
                    assert(w.push(ps.last())[j] == w[j]);
                }
            }
        }
        assert forall|p: ProjectModel| ps.contains(p) <==> (ps.drop_last().contains(p) || p == ps.last()) by {
            if ps.contains(p) {
                let k = choose|k: int| 0 <= k < ps.len() && ps[k] == p;
                if k < ps.len() - 1 {
                    assert(ps.drop_last()[k] == p);
                }
            }
            if ps.drop_last().contains(p) {
                let k = choose|k: int| 0 <= k < ps.drop_last().len() && ps.drop_last()[k] == p;
                assert(ps[k] == p);
            }
            if p == ps.last() {
                assert(ps[ps.len() - 1] == p);
            }
        }
        if ps.last().name != name {
            assert forall|p: ProjectModel| #[trigger] w.push(ps.last()).contains(p) <==> (w.contains(p) || p == ps.last()) by {
                if w.push(ps.last()).contains(p) {
                    let k = choose|k: int| 0 <= k < w.len() + 1 && w.push(ps.last())[k] == p;
                    if k < w.len() {
                        assert(w[k] == p);
                    }
                }
                if w.contains(p) {
                    let k = choose|k: int| 0 <= k < w.len() && w[k] == p;
                    assert(w.push(ps.last())[k] == p);
                }
                if p == ps.last() {
                    assert(w.push(ps.last())[w.len() as int] == p);
                }
            }
        }
        assert forall|p: ProjectModel| #[trigger] without_named(ps, name).contains(p) <==> (ps.contains(p) && p.name != name) by {
            if ps.last().name != name {
                assert(without_named(ps, name) == w.push(ps.last()));
            } else {
                assert(without_named(ps, name) == w);
            }
        }
    }
}

/// Names stay unique when a project is added after removing its namesakes.
pub proof fn lemma_without_named_push_unique(ps: Seq<ProjectModel>, p: ProjectModel)
    requires
        unique_names(ps),
    ensures
        unique_names(without_named(ps, p.name).push(p)),
    decreases ps.len(),
{
    lemma_without_named_unique(ps, p.name);
    lemma_without_named(ps, p.name);
    let w = without_named(ps, p.name);
    let q = w.push(p);
    assert forall|i: int, j: int| 0 <= i < q.len() && 0 <= j < q.len() && i != j implies #[trigger] q[i].name != #[trigger] q[j].name by {
        if i < w.len() && j < w.len() {
            assert(q[i] == w[i] && q[j] == w[j]);
        } else if i < w.len() {
            assert(q[i] == w[i]);
        } else {
            assert(q[j] == w[j]);
        }
    }
}

/// Removing the projects with one name keeps names unique.
pub proof fn lemma_without_named_unique(ps: Seq<ProjectModel>, name: Seq<char>)
    requires
        unique_names(ps),
    ensures
        unique_names(without_named(ps, name)),
    decreases ps.len(),
{
    if ps.len() > 0 {
        let d = ps.drop_last();
        assert(unique_names(d)) by {
            assert forall|i: int, j: int| 0 <= i < d.len() && 0 <= j < d.len() && i != j implies #[trigger] d[i].name != #[trigger] d[j].name by {
                assert(d[i] == ps[i] && d[j] == ps[j]);
            }
        }
        lemma_without_named_unique(d, name);
        lemma_without_named(d, name);
        let w = without_named(d, name);
        if ps.last().name != name {
            let q = w.push(ps.last());
            assert forall|i: int, j: int| 0 <= i < q.len() && 0 <= j < q.len() && i != j implies #[trigger] q[i].name != #[trigger] q[j].name by {
                if i < w.len() && j < w.len() {
                    assert(q[i] == w[i] && q[j] == w[j]);
                } else {
                    let k = if i < w.len() { i } else { j };
                    assert(q[k] == w[k]);
                    assert(w.contains(w[k]));
                    assert(d.contains(w[k]));
                    let m = choose|m: int| 0 <= m < d.len() && d[m] == w[k];
                    assert(ps[m] == d[m]);
                    assert(ps[ps.len() - 1] == ps.last());
                }
            }
        }
    }
}

/// Project registry, in registration order.
#[derive(Debug)]
pub struct ProjectRegistry {
    pub projects: Vec<Project>,
}

impl View for ProjectRegistry {
    type V = Seq<ProjectModel>;

    open spec fn view(&self) -> Seq<ProjectModel> {
        project_views(self.projects@)
    }
}

impl Default for ProjectRegistry {
    fn default() -> (r: Self)
        ensures
            r@ == Seq::<ProjectModel>::empty(),
    {
        Self { projects: Vec::new() }
    }
}

impl ProjectRegistry {
    pub fn new() -> (r: Self)
        ensures
            r@ == Seq::<ProjectModel>::empty(),
    {
        Self { projects: Vec::new() }
    }

    /// Index of the first project named `name`.
    fn position(&self, name: &str) -> (r: Option<usize>)
        ensures
            match r {
                Some(i) => find_named(self@, name@) == Some(i as int),
                None => find_named(self@, name@) is None,
            },
    {
        let n = self.projects.len();
        for i in 0..n
            invariant
                n == self.projects@.len(),
                forall|j: int| 0 <= j < i ==> #[trigger] self@[j].name != name@,
        {
            if str_equal(self.projects[i].name.as_str(), name) {
                proof {
                    lemma_find_named_char(self@, name@, i as int);
                }
                return Some(i);
            }
        }
        proof {
            lemma_find_named(self@, name@);
            if let Some(k) = find_named(self@, name@) {
                assert(self@[k].name != name@);
            }
        }
        None
    }

    /// Registers `project`, replacing every project of the same name.
    pub fn add(&mut self, project: Project)
        ensures
            final(self)@ == without_named(old(self)@, project@.name).push(project@),
    {
        let ghost name = project@.name;
        let mut rest: Vec<Project> = Vec::new();
        std::mem::swap(&mut rest, &mut self.projects);
        let ghost orig = project_views(rest@);
        let n = rest.len();
        let mut kept: Vec<Project> = Vec::new();
        let mut i: usize = 0;
        while i < n
            invariant
                i <= n,
                n == rest@.len() + i,
                orig.len() == n,
                name == project@.name,
                project_views(rest@) == orig.subrange(i as int, n as int),
                project_views(kept@) == without_named(orig.take(i as int), name),
            decreases n - i,
        {
            let ghost r0 = rest@;
            assert(project_views(r0)[0] == orig.subrange(i as int, n as int)[0]);
            let p = rest.remove(0);
            assert(p == r0[0]);
            assert(rest@ =~= r0.subrange(1, r0.len() as int));
            assert(p@ == orig[i as int]);
            assert(orig.take(i + 1).drop_last() =~= orig.take(i as int));
            assert(orig.take(i + 1).last() == orig[i as int]);
            if !str_equal(p.name.as_str(), project.name.as_str()) {
                let ghost pre = project_views(kept@);
                kept.push(p);
                assert(project_views(kept@) =~= pre.push(p@));
            }
            assert(project_views(rest@) =~= project_views(r0).subrange(1, r0.len() as int));
            i = i + 1;
            assert(project_views(rest@) =~= orig.subrange(i as int, n as int));
        }
        assert(orig.take(n as int) =~= orig);
        let ghost pre = project_views(kept@);
        kept.push(project);
        assert(project_views(kept@) =~= pre.push(project@));
        self.projects = kept;
    }

    /// Removes the first project named `name` and returns it.
    pub fn remove(&mut self, name: &str) -> (r: Option<Project>)
        ensures
            match find_named(old(self)@, name@) {
                Some(i) => r matches Some(p) && p@ == old(self)@[i] && final(self)@ == old(self)@.remove(i),
                None => r is None && final(self)@ == old(self)@,
            },
    {
        match self.position(name) {
            Some(i) => {
                proof {
                    lemma_find_named(self@, name@);
                }
                let ghost pre = self.projects@;
                let p = self.projects.remove(i);
                assert(self@ =~= project_views(pre).remove(i as int));
                Some(p)
            },
            None => None,
        }
    }

    /// The first project named `name`.
    pub fn get(&self, name: &str) -> (r: Option<&Project>)
        ensures
            match find_named(self@, name@) {
                Some(i) => r matches Some(p) && p@ == self@[i],
                None => r is None,
            },
    {
        match self.position(name) {
            Some(i) => {
                proof {
                    lemma_find_named(self@, name@);
                }
                Some(&self.projects[i])
            },
            None => None,
        }
    }

    /// The first project named `name`, for changing it in place.
    pub fn get_mut(&mut self, name: &str) -> (r: Option<&mut Project>)
        ensures
            match find_named(old(self)@, name@) {
                Some(i) => r matches Some(p) && p@ == old(self)@[i] && final(self)@ == old(self)@.update(i, final(p)@),
                None => r is None && final(self)@ == old(self)@,
            },
    {
        match self.position(name) {
            Some(i) => {
                proof {
                    lemma_find_named(self@, name@);
                }
                let r = &mut self.projects[i];
                proof {
                    assert(project_views(old(self).projects@.update(i as int, *final(r))) =~= project_views(
                        old(self).projects@,
                    ).update(i as int, final(r)@));
                }
                Some(r)
            },
            None => None,
        }
    }

    /// All registered projects, in registration order.
    pub fn list(&self) -> (r: &[Project])
        ensures
            project_views(r@) == self@,
    {
        self.projects.as_slice()
    }
}

/// The project found under a name, if any.
pub open spec fn lookup(ps: Seq<ProjectModel>, name: Seq<char>) -> Option<ProjectModel> {
    match find_named(ps, name) {
        Some(i) => Some(ps[i]),
        None => None,
    }
}

/// The registry after `add(p)`.
pub open spec fn added(ps: Seq<ProjectModel>, p: ProjectModel) -> Seq<ProjectModel> {
    without_named(ps, p.name).push(p)
}

/// Law: after registering a project, looking up its name finds exactly it.
pub proof fn law_get_after_add(ps: Seq<ProjectModel>, p: ProjectModel)
    ensures
        lookup(added(ps, p), p.name) == Some(p),
        find_named(added(ps, p), p.name) == Some(added(ps, p).len() - 1),
{
    lemma_without_named(ps, p.name);
    let w = without_named(ps, p.name);
    let q = w.push(p);
    assert forall|j: int| 0 <= j < q.len() - 1 implies #[trigger] q[j].name != p.name by {
        assert(q[j] == w[j]);
    }
    lemma_find_named_char(q, p.name, q.len() - 1);
}

/// Law: registering a project leaves what every other name finds unchanged.
pub proof fn law_add_keeps_others(ps: Seq<ProjectModel>, p: ProjectModel, name: Seq<char>)
    requires
        name != p.name,
    ensures
        lookup(added(ps, p), name) == lookup(ps, name),
{
    let w = without_named(ps, p.name);
    assert(added(ps, p).drop_last() =~= w);
    assert(find_named(added(ps, p), name) == find_named(w, name));
    lemma_find_named(w, name);
    if let Some(i) = find_named(w, name) {
        assert(added(ps, p)[i] == w[i]);
    }
    lemma_lookup_without(ps, p.name, name);
}

/// Removing the projects of one name does not change what another name finds.
proof fn lemma_lookup_without(ps: Seq<ProjectModel>, removed: Seq<char>, name: Seq<char>)
    requires
        name != removed,
    ensures
        lookup(without_named(ps, removed), name) == lookup(ps, name),
    decreases ps.len(),
{
    if ps.len() > 0 {
        let d = ps.drop_last();
        lemma_lookup_without(d, removed, name);
        let w = without_named(d, removed);
        lemma_find_named(w, name);
        lemma_find_named(d, name);
        if ps.last().name != removed {
            assert(without_named(ps, removed) == w.push(ps.last()));
            assert(w.push(ps.last()).drop_last() =~= w);
            match find_named(w, name) {
                Some(i) => {
                    assert(w.push(ps.last())[i] == w[i]);
                },
                None => {},
            }
            match find_named(d, name) {
                Some(i) => {
                    assert(ps[i] == d[i]);
                },
                None => {},
            }
        } else {
            assert(without_named(ps, removed) == w);
            match find_named(d, name) {
                Some(i) => {
                    assert(ps[i] == d[i]);
                },
                None => {},
            }
        }
    }
}

/// Law: removing a project right after registering it gives it back and
/// leaves the other projects as they were.
pub proof fn law_remove_after_add(ps: Seq<ProjectModel>, p: ProjectModel)
    ensures
        find_named(added(ps, p), p.name) matches Some(i) && added(ps, p)[i] == p && added(ps, p).remove(i) == without_named(ps, p.name),
{
    law_get_after_add(ps, p);
    let q = added(ps, p);
    assert(q.remove(q.len() - 1) =~= without_named(ps, p.name));
}

/// Law: registering keeps project names unique.
pub proof fn law_add_keeps_names_unique(ps: Seq<ProjectModel>, p: ProjectModel)
    requires
        unique_names(ps),
    ensures
        unique_names(added(ps, p)),
{
    lemma_without_named_push_unique(ps, p);
}

/// Law: in a registry with unique names, nothing is found under a name
/// once its project has been removed.
pub proof fn law_get_after_remove(ps: Seq<ProjectModel>, name: Seq<char>)
    requires
        unique_names(ps),
    ensures
        match find_named(ps, name) {
            Some(i) => find_named(ps.remove(i), name) is None,
            None => true,
        },
{
    lemma_find_named(ps, name);
    if let Some(i) = find_named(ps, name) {
        let q = ps.remove(i);
        lemma_find_named(q, name);
        if let Some(k) = find_named(q, name) {
            if k < i {
                assert(q[k] == ps[k]);
            } else {
                assert(q[k] == ps[k + 1]);
            }
        }
    }
}

} // verus!
