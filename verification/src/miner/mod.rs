//! Mining source trees into searchable chunks.
use vstd::prelude::*;

pub mod chunker;
pub mod scanner;
pub mod watcher;

use crate::model::project::{default_extension_list, default_extensions};
use crate::text::{clone_strings, string_views};

verus! {

/// Miner configuration.
#[derive(Debug)]
pub struct MinerConfig {
    /// Root directory to scan.
    pub root: String,
    /// Maximum file size to process (bytes).
    pub max_file_size: usize,
    /// Chunk size limit (characters).
    pub chunk_size: usize,
    /// Chunk overlap (characters).
    pub chunk_overlap: usize,
    /// File extensions to include.
    pub extensions: Vec<String>,
    /// Skip patterns (gitignore-style).
    pub skip_patterns: Vec<String>,
}

/// The mathematical value of a miner configuration.
pub struct MinerConfigModel {
    pub root: Seq<char>,
    pub max_file_size: nat,
    pub chunk_size: nat,
    pub chunk_overlap: nat,
    pub extensions: Seq<Seq<char>>,
    pub skip_patterns: Seq<Seq<char>>,
}

impl View for MinerConfig {
    type V = MinerConfigModel;

    open spec fn view(&self) -> MinerConfigModel {
        MinerConfigModel {
            root: self.root@,
            max_file_size: self.max_file_size as nat,
            chunk_size: self.chunk_size as nat,
            chunk_overlap: self.chunk_overlap as nat,
            extensions: string_views(self.extensions@),
            skip_patterns: string_views(self.skip_patterns@),
        }
    }
}

impl Clone for MinerConfig {
    fn clone(&self) -> (r: Self)
        ensures
            r@ == self@,
    {
        MinerConfig {
            root: self.root.clone(),
            max_file_size: self.max_file_size,
            chunk_size: self.chunk_size,
            chunk_overlap: self.chunk_overlap,
            extensions: clone_strings(&self.extensions),
            skip_patterns: clone_strings(&self.skip_patterns),
        }
    }
}

/// Skip patterns the miner starts with.
pub open spec fn default_skip_patterns() -> Seq<Seq<char>> {
    seq!["target/**"@, "node_modules/**"@, ".git/**"@, "dist/**"@, "*.lock"@]
}

/// The default skip pattern list.
pub fn default_skip_pattern_list() -> (r: Vec<String>)
    ensures
        string_views(r@) == default_skip_patterns(),
{
    let r = vec![
        "target/**".to_owned(),
        "node_modules/**".to_owned(),
        ".git/**".to_owned(),
        "dist/**".to_owned(),
        "*.lock".to_owned(),
    ];
    assert(string_views(r@) =~= default_skip_patterns());
    r
}

impl Default for MinerConfig {
    fn default() -> (r: Self)
        ensures
            r@ == (MinerConfigModel {
                root: "."@,
                max_file_size: 1048576,
                chunk_size: 512,
                chunk_overlap: 64,
                extensions: default_extensions(),
                skip_patterns: default_skip_patterns(),
            }),
    {
        Self {
            root: ".".to_owned(),
            max_file_size: 1024 * 1024,
            chunk_size: 512,
            chunk_overlap: 64,
            extensions: default_extension_list(),
            skip_patterns: default_skip_pattern_list(),
        }
    }
}

} // verus!
