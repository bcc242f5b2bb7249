//! Global and project-local configuration.
use vstd::prelude::*;

use crate::miner::{default_skip_pattern_list, default_skip_patterns};
use crate::model::project::{default_extension_list, default_extensions, LocalProjectConfig};
use crate::paths::{home_dir, path_join, spec_path_join};
use crate::text::{chars_from, has_prefix, str_chars, string_from_chars, string_views};

verus! {

/// The global config file under a home directory: `home/.hypatia/config.toml`.
pub fn global_config_path_under(home: &str) -> (r: String)
    ensures
        r@ == spec_path_join(spec_path_join(home@, ".hypatia"@), "config.toml"@),
{
    let dir = path_join(home, ".hypatia");
    path_join(dir.as_str(), "config.toml")
}

/// Default global config path: `~/.hypatia/config.toml`, or under `.` when
/// there is no home directory.
pub fn global_config_path() -> (r: String)
    ensures
        exists|home: Seq<char>| r@ == spec_path_join(spec_path_join(home, ".hypatia"@), "config.toml"@),
{
    let home = match home_dir() {
        Some(h) => h,
        None => ".".to_owned(),
    };
    global_config_path_under(home.as_str())
}

/// The template configuration written for a new project named `name`.
pub fn generate_template_config(name: &str) -> (r: LocalProjectConfig)
    ensures
        r.name@ == name@,
        r.wing is None,
        r.room is None,
        string_views(r.skip_patterns@) == default_skip_patterns(),
        string_views(r.extensions@) == default_extensions(),
        r.max_file_size == 1048576,
        r.chunk_size == 512,
{
    LocalProjectConfig {
        name: name.to_owned(),
        wing: None,
        room: None,
        skip_patterns: default_skip_pattern_list(),
        extensions: default_extension_list(),
        max_file_size: 1024 * 1024,
        chunk_size: 512,
    }
}

/// A path starting with `~/` taken relative to `home` (when there is one);
/// any other path unchanged.
pub open spec fn spec_expand_tilde(path: Seq<char>, home: Option<Seq<char>>) -> Seq<char> {
    if has_prefix(path, "~/"@) && home is Some {
        spec_path_join(home->0, path.skip(2))
    } else {
        path
    }
}

/// Expands a leading `~/` against the given home directory.
pub fn expand_tilde_with(path: &str, home: Option<String>) -> (r: String)
    ensures
        r@ == spec_expand_tilde(path@, crate::paths::opt_string_view(home)),
{
    let cs = str_chars(path);
    proof {
        reveal_strlit("~/");
    }
    let starts = cs.len() >= 2 && cs[0] == '~' && cs[1] == '/';
    assert(starts == has_prefix(path@, "~/"@)) by {
        if cs@.len() >= 2 {
            if starts {
                assert(path@.take(2) =~= "~/"@);
            } else if path@.take(2) == "~/"@ {
                assert(path@.take(2)[0] == path@[0]);
                assert(path@.take(2)[1] == path@[1]);
            }
        }
    }
    if starts {
        match home {
            Some(h) => {
                let tail = chars_from(cs.as_slice(), 2);
                let rest = string_from_chars(tail.as_slice());
                assert(rest@ =~= path@.skip(2));
                return path_join(h.as_str(), rest.as_str());
            },
            None => {},
        }
    }
    path.to_owned()
}

/// Expands a leading `~/` against the user's home directory, if known.
pub fn expand_tilde(path: &str) -> (r: String)
    ensures
        exists|home: Option<Seq<char>>| r@ == spec_expand_tilde(path@, home),
{
    let home = home_dir();
    expand_tilde_with(path, home)
}

} // verus!
