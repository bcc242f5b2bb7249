//! Deciding which files of a tree are indexed, and file metadata.
use ignore::gitignore::{Gitignore, GitignoreBuilder};
use std::time::SystemTime;
use vstd::prelude::*;

use super::{MinerConfig, MinerConfigModel};
use crate::paths::{
    path_extension, path_strip_prefix, spec_path_extension, spec_path_strip_prefix, spec_to_lowercase, to_lowercase,
};
use crate::text::{contains_string, string_views};

verus! {

#[verifier::external_type_specification]
#[verifier::external_body]
pub struct ExSystemTime(SystemTime);

#[verifier::external_type_specification]
#[verifier::external_body]
pub struct ExGitignore(Gitignore);

#[verifier::external_type_specification]
#[verifier::external_body]
pub struct ExGitignoreBuilder(GitignoreBuilder);

#[verifier::external_type_specification]
#[verifier::external_body]
pub struct ExIgnoreError(ignore::Error);

/// The root a gitignore builder was made with.
pub uninterp spec fn builder_root(b: GitignoreBuilder) -> Seq<char>;

/// The lines given to a gitignore builder, in order.
pub uninterp spec fn builder_lines(b: GitignoreBuilder) -> Seq<Seq<char>>;

/// The paths a gitignore matcher ignores, as files or through one of their
/// parent directories (paths taken as `rootless_path`s).
pub uninterp spec fn gitignore_ignored(g: Gitignore) -> Set<Seq<char>>;

/// Building a matcher from gitignore `lines` relative to `root`: the paths it
/// ignores (as files or through a parent directory, see `gitignore_ignored`),
/// or `None` when the build fails.
pub uninterp spec fn spec_gitignore_build(root: Seq<char>, lines: Seq<Seq<char>>) -> Option<Set<Seq<char>>>;

/// Calls `GitignoreBuilder::new`.  Trusted: the builder records `root` and no
/// lines yet.
#[verifier::external_body]
fn gitignore_builder_new(root: &str) -> (b: GitignoreBuilder)
    ensures
        builder_root(b) == root@,
        builder_lines(b) == Seq::<Seq<char>>::empty(),
{
    GitignoreBuilder::new(root)
}

/// Calls `GitignoreBuilder::add_line` with no source file, ignoring its
/// result (a line that is not a valid glob is left out of the matcher, which
/// `spec_gitignore_build` accounts for).  Trusted: the line is recorded after the
/// earlier ones.
#[verifier::external_body]
fn gitignore_add_line(b: &mut GitignoreBuilder, line: &str)
    ensures
        builder_root(*final(b)) == builder_root(*old(b)),
        builder_lines(*final(b)) == builder_lines(*old(b)).push(line@),
{
    let _ = b.add_line(None, line);
}

/// Calls `GitignoreBuilder::build`.  Trusted: the build succeeds exactly when
/// `spec_gitignore_build` of the builder's root and lines is `Some`, and the
/// matcher then ignores that set; with no lines the build succeeds with a
/// matcher that ignores nothing (the source returns `Gitignore::empty()`,
/// for which every match returns `Match::None` at once).
#[verifier::external_body]
fn gitignore_build(b: &GitignoreBuilder) -> (r: Result<Gitignore, ignore::Error>)
    ensures
        (r is Ok) == (spec_gitignore_build(builder_root(*b), builder_lines(*b)) is Some),
        r is Ok ==> Some(gitignore_ignored(r->Ok_0)) == spec_gitignore_build(builder_root(*b), builder_lines(*b)),
        builder_lines(*b).len() == 0 ==> r is Ok && gitignore_ignored(r->Ok_0) == Set::<Seq<char>>::empty(),
{
    b.build()
}

/// A path that the matcher takes as it is: it does not start with `/` and
/// holds no two `/` in a row.
pub open spec fn rootless_path(p: Seq<char>) -> bool {
    &&& (p.len() > 0 ==> p[0] != '/')
    &&& forall|i: int| #![trigger p[i]] 0 <= i < p.len() - 1 ==> !(p[i] == '/' && p[i + 1] == '/')
}

/// Whether `p` is a `rootless_path`.
fn is_rootless(p: &str) -> (r: bool)
    ensures
        r == rootless_path(p@),
{
    let cs = crate::text::str_chars(p);
    let n = cs.len();
    if n > 0 && cs[0] == '/' {
        return false;
    }
    let mut i: usize = 0;
    while i < n
        invariant
            n == cs@.len(),
            cs@ == p@,
            n > 0 ==> p@[0] != '/',
            i <= n,
            forall|k: int| #![trigger p@[k]] 0 <= k < i && k < n - 1 ==> !(p@[k] == '/' && p@[k + 1] == '/'),
        decreases n - i,
    {
        if i + 1 < n && cs[i] == '/' && cs[i + 1] == '/' {
            return false;
        }
        i = i + 1;
    }
    true
}

/// Calls `Gitignore::matched_path_or_any_parents` with `is_dir = false`, then
/// `Match::is_ignore`.  Trusted: the result is whether the matcher ignores
/// `path`, itself or through one of its parent directories.  The call panics
/// when `path`, once the matcher has stripped a leading `./` and then its root
/// and one `/` from it, still starts with `/`; a `rootless_path` never does.
#[verifier::external_body]
fn gitignore_matched(g: &Gitignore, path: &str) -> (r: bool)
    requires
        rootless_path(path@),
    ensures
        r == gitignore_ignored(*g).contains(path@),
{
    g.matched_path_or_any_parents(path, false).is_ignore()
}

/// Metadata of a scanned file.
#[derive(Debug)]
pub struct FileEntry {
    pub path: String,
    pub size: usize,
    pub sha256: String,
    pub modified: SystemTime,
}

/// The mathematical value of a file entry.
pub struct FileEntryModel {
    pub path: Seq<char>,
    pub size: nat,
    pub sha256: Seq<char>,
    pub modified: SystemTime,
}

impl View for FileEntry {
    type V = FileEntryModel;

    open spec fn view(&self) -> FileEntryModel {
        FileEntryModel { path: self.path@, size: self.size as nat, sha256: self.sha256@, modified: self.modified }
    }
}

impl Clone for FileEntry {
    fn clone(&self) -> (r: Self)
        ensures
            r@ == self@,
    {
        FileEntry { path: self.path.clone(), size: self.size, sha256: self.sha256.clone(), modified: self.modified }
    }
}

/// Language of a file, from its extension, lowercased; `"unknown"` without one.
pub open spec fn spec_detect_lang(path: Seq<char>) -> Seq<char> {
    match spec_path_extension(path) {
        Some(e) => spec_to_lowercase(e),
        None => "unknown"@,
    }
}

/// Detects the language of a file from its extension.
pub fn detect_lang(path: &str) -> (r: String)
    ensures
        r@ == spec_detect_lang(path@),
{
    match path_extension(path) {
        Some(e) => to_lowercase(e.as_str()),
        None => "unknown".to_owned(),
    }
}

/// The path that the skip patterns are matched against: `path` itself when it
/// is rootless, else its part below `root` when that is rootless, and none
/// otherwise (a path that is not below the root).
pub open spec fn pattern_path(root: Seq<char>, path: Seq<char>) -> Option<Seq<char>> {
    if rootless_path(path) {
        Some(path)
    } else {
        match spec_path_strip_prefix(path, root) {
            Some(rel) => if rootless_path(rel) {
                Some(rel)
            } else {
                None
            },
            None => None,
        }
    }
}

/// A file is skipped when the skip patterns ignore it or one of its parent
/// directories (relative to `root`), or its lowercased extension is missing
/// or not among `extensions`.
pub open spec fn skips(ignored: Set<Seq<char>>, root: Seq<char>, extensions: Seq<Seq<char>>, path: Seq<char>) -> bool {
    ||| (match pattern_path(root, path) {
        Some(p) => ignored.contains(p),
        None => false,
    })
    ||| match spec_path_extension(path) {
        Some(e) => !extensions.contains(spec_to_lowercase(e)),
        None => true,
    }
}

/// File scanner: the configuration and the matcher built from its skip patterns.
pub struct Scanner {
    config: MinerConfig,
    gitignore: Gitignore,
}

impl Scanner {
    /// The configuration.
    pub closed spec fn config_of(&self) -> MinerConfigModel {
        self.config@
    }

    /// The paths the skip patterns ignore.
    pub closed spec fn ignored(&self) -> Set<Seq<char>> {
        gitignore_ignored(self.gitignore)
    }

    /// A scanner whose matcher is built from the skip patterns relative to the
    /// root; if building fails, the matcher ignores nothing.
    pub fn new(config: MinerConfig) -> (r: Self)
        ensures
            r.config_of() == config@,
            r.ignored() == match spec_gitignore_build(config@.root, config@.skip_patterns) {
                Some(s) => s,
                None => Set::<Seq<char>>::empty(),
            },
    {
        let mut builder = gitignore_builder_new(config.root.as_str());
        let n = config.skip_patterns.len();
        for i in 0..n
            invariant
                n == config.skip_patterns@.len(),
                builder_root(builder) == config.root@,
                builder_lines(builder) == string_views(config.skip_patterns@).take(i as int),
        {
            gitignore_add_line(&mut builder, config.skip_patterns[i].as_str());
            assert(string_views(config.skip_patterns@).take(i + 1) =~= string_views(config.skip_patterns@).take(
                i as int,
            ).push(config.skip_patterns@[i as int]@));
        }
        assert(string_views(config.skip_patterns@).take(n as int) =~= string_views(config.skip_patterns@));
        let gitignore = match gitignore_build(&builder) {
            Ok(g) => g,
            Err(_) => {
                let empty = gitignore_builder_new(config.root.as_str());
                let fallback = gitignore_build(&empty);
                fallback.unwrap()
            },
        };
        Self { config, gitignore }
    }

    /// The configuration.
    pub fn config(&self) -> (r: &MinerConfig)
        ensures
            r@ == self.config_of(),
    {
        &self.config
    }

    /// Whether `path` is skipped (see `skips`).
    pub fn should_skip(&self, path: &str) -> (r: bool)
        ensures
            r == skips(self.ignored(), self.config_of().root, self.config_of().extensions, path@),
    {
        let pattern_hit = if is_rootless(path) {
            gitignore_matched(&self.gitignore, path)
        } else {
            match path_strip_prefix(path, self.config.root.as_str()) {
                Some(rel) => if is_rootless(rel.as_str()) {
                    gitignore_matched(&self.gitignore, rel.as_str())
                } else {
                    false
                },
                None => false,
            }
        };
        if pattern_hit {
            return true;
        }
        match path_extension(path) {
            Some(ext) => {
                let lower = to_lowercase(ext.as_str());
                !contains_string(&self.config.extensions, lower.as_str())
            },
            None => true,
        }
    }

    /// Whether a file of `size` bytes at `path` is indexed: it is not skipped
    /// and not larger than the configured maximum.
    pub fn admits(&self, path: &str, size: u64) -> (r: bool)
        ensures
            r == (!skips(self.ignored(), self.config_of().root, self.config_of().extensions, path@) && size <= self.config_of().max_file_size),
    {
        !self.should_skip(path) && size <= self.config.max_file_size as u64
    }
}

} // verus!
