use hypatia::miner::chunker::Chunker;
use hypatia::miner::scanner::detect_lang;
use hypatia::miner::watcher::{hash_changed, Watcher};
use hypatia::miner::MinerConfig;

#[test]
fn test_detect_lang() {
    assert_eq!(detect_lang("foo.rs"), "rs");
    assert_eq!(detect_lang("bar.PY"), "py");
    assert_eq!(detect_lang("noext"), "unknown");
}

#[test]
fn test_watcher_new() {
    let config = MinerConfig::default();
    let _watcher = Watcher::new(config);
}

#[test]
fn chunk_empty_content_gives_no_chunks() {
    let c = Chunker::new(512, 64);
    assert!(c.chunk("a.rs", "rs", "").is_empty());
}

#[test]
fn chunk_small_rust_file_by_function() {
    let c = Chunker::new(512, 64);
    let content = "use x;\nfn alpha() {\n    1\n}\npub fn beta(x: u8) {}\n";
    let chunks = c.chunk("src/lib.rs", "rs", content);
    assert_eq!(chunks.len(), 2);
    assert_eq!(chunks[0].start_line, 2);
    assert_eq!(chunks[0].end_line, 4);
    assert_eq!(chunks[0].text, "fn alpha() {\n    1\n}");
    assert_eq!(chunks[0].symbol.as_deref(), Some("alpha"));
    assert_eq!(chunks[1].start_line, 5);
    assert_eq!(chunks[1].end_line, 5);
    assert_eq!(chunks[1].symbol.as_deref(), Some("beta"));
    assert_eq!(chunks[1].source, "src/lib.rs");
    assert_eq!(chunks[1].lang, "rs");
}

use hypatia::miner::scanner::{FileEntry, Scanner};
use hypatia::digest::sha256_hex_bytes;
use sha2::{Digest, Sha256};
use std::time::SystemTime;

fn sha_hex(s: &str) -> String {
    Sha256::digest(s.as_bytes()).iter().map(|b| format!("{:02x}", b)).collect()
}

#[test]
fn chunk_ids_hash_source_and_lines() {
    let c = Chunker::new(512, 64);
    let chunks = c.chunk("src/lib.rs", "rs", "fn main() {}\n");
    assert_eq!(chunks.len(), 1);
    assert_eq!(chunks[0].id, sha_hex("src/lib.rs:1:1"));
    assert_eq!(chunks[0].id.len(), 64);
}

#[test]
fn chunk_without_block_start_is_whole_file() {
    let c = Chunker::new(512, 64);
    let chunks = c.chunk("notes.md", "md", "# Title\n\nsome text\r\nmore\n");
    assert_eq!(chunks.len(), 1);
    assert_eq!(chunks[0].start_line, 1);
    assert_eq!(chunks[0].end_line, 4);
    assert_eq!(chunks[0].text, "# Title\n\nsome text\nmore");
    assert_eq!(chunks[0].symbol, None);
}

#[test]
fn chunk_oversized_block_splits_with_overlap() {
    let c = Chunker::new(20, 0);
    let chunks = c.chunk("notes.txt", "txt", "aaaaaaaaaa\nbbbbbbbbbb\ncccccccccc");
    let spans: Vec<(usize, usize)> = chunks.iter().map(|c| (c.start_line, c.end_line)).collect();
    assert_eq!(spans, vec![(1, 1), (1, 2), (2, 3)]);
    assert_eq!(chunks[0].text, "aaaaaaaaaa");
    assert_eq!(chunks[1].text, "aaaaaaaaaa\nbbbbbbbbbb");
    assert_eq!(chunks[2].text, "bbbbbbbbbb\ncccccccccc");
    assert_eq!(chunks[2].id, sha_hex("notes.txt:2:3"));
}

#[test]
fn chunk_symbol_only_on_first_piece_of_split_block() {
    let c = Chunker::new(30, 200);
    let content = "def compute(x):\n    a = 1111111111\n    b = 2222222222\n    return a\n";
    let chunks = c.chunk("m.py", "py", content);
    assert!(chunks.len() >= 2);
    assert_eq!(chunks[0].symbol.as_deref(), Some("compute"));
    assert_eq!(chunks[0].start_line, 1);
    for ch in &chunks {
        assert!(ch.start_line >= 1 && ch.start_line <= ch.end_line && ch.end_line <= 4);
    }
}

#[test]
fn chunk_python_classes_and_symbols() {
    let c = Chunker::new(512, 64);
    let content = "import os\nclass Foo:\n    pass\nasync def bar():\n    return 1\n";
    let chunks = c.chunk("a.py", "py", content);
    assert_eq!(chunks.len(), 2);
    assert_eq!(chunks[0].symbol.as_deref(), Some("Foo"));
    assert_eq!((chunks[0].start_line, chunks[0].end_line), (2, 3));
    // "async def " starts a block but names no symbol.
    assert_eq!(chunks[1].symbol, None);
    assert_eq!((chunks[1].start_line, chunks[1].end_line), (4, 5));
}

#[test]
fn chunk_indented_ts_function_with_unicode() {
    let c = Chunker::new(512, 64);
    let content = "  export function héllo() {}\n\tconst x_1 = 2;\n";
    let chunks = c.chunk("a.ts", "ts", content);
    assert_eq!(chunks.len(), 2);
    assert_eq!(chunks[0].symbol, None);
    assert_eq!(chunks[1].symbol.as_deref(), Some("x_1"));
}

#[test]
fn chunk_counts_bytes_not_chars() {
    // "é" takes two bytes: 10 of them are 20 bytes, over a budget of 15.
    let c = Chunker::new(15, 0);
    let chunks = c.chunk("u.txt", "txt", "éééééééééé");
    assert_eq!(chunks.len(), 1);
    assert_eq!(chunks[0].text, "éééééééééé");
    // "ééééé\nab" is 13 bytes: it fits a budget of 13 but not of 12.
    let c = Chunker::new(13, 0);
    let chunks = c.chunk("u.txt", "txt", "ééééé\nab");
    assert_eq!(chunks.len(), 1);
    let c = Chunker::new(12, 0);
    let chunks = c.chunk("u.txt", "txt", "ééééé\nab");
    let spans: Vec<(usize, usize)> = chunks.iter().map(|c| (c.start_line, c.end_line)).collect();
    assert_eq!(spans, vec![(1, 1), (1, 2)]);
}

#[test]
fn detect_lang_edge_cases() {
    assert_eq!(detect_lang("dir.v2/Makefile"), "unknown");
    assert_eq!(detect_lang(".bashrc"), "unknown");
    assert_eq!(detect_lang("a/b/c.TOML"), "toml");
}

#[test]
fn miner_config_default_values() {
    let c = MinerConfig::default();
    assert_eq!(c.root, ".");
    assert_eq!(c.max_file_size, 1048576);
    assert_eq!(c.chunk_size, 512);
    assert_eq!(c.chunk_overlap, 64);
    assert_eq!(c.extensions.len(), 10);
    assert_eq!(c.skip_patterns, vec!["target/**", "node_modules/**", ".git/**", "dist/**", "*.lock"]);
}

fn config_at(root: &str) -> MinerConfig {
    MinerConfig { root: root.to_string(), ..MinerConfig::default() }
}

#[test]
fn scanner_skips_patterns_and_extensions() {
    let s = Scanner::new(config_at("/proj"));
    assert!(s.should_skip("/proj/target/debug/x.rs"));
    assert!(s.should_skip("/proj/Cargo.lock"));
    assert!(!s.should_skip("/proj/src/a.rs"));
    assert!(!s.should_skip("/proj/src/A.RS"));
    assert!(s.should_skip("/proj/src/a.exe"));
    assert!(s.should_skip("/proj/README"));
    assert!(s.admits("/proj/src/a.rs", 1048576));
    assert!(!s.admits("/proj/src/a.rs", 1048577));
}

fn entry(path: &str, sha: &str) -> FileEntry {
    FileEntry { path: path.to_string(), size: 1, sha256: sha.to_string(), modified: SystemTime::UNIX_EPOCH }
}

#[test]
fn watcher_reports_new_modified_deleted() {
    let mut w = Watcher::new(config_at("/r"));
    let (n, m, d) = w.scan_incremental("/r", vec![entry("/r/a.rs", "1"), entry("/r/b.rs", "2")]);
    assert_eq!(n.iter().map(|e| e.path.as_str()).collect::<Vec<_>>(), vec!["/r/a.rs", "/r/b.rs"]);
    assert!(m.is_empty());
    assert!(d.is_empty());
    let (n, m, d) = w.scan_incremental("/r", vec![entry("/r/a.rs", "9"), entry("/r/c.rs", "3")]);
    assert_eq!(n.iter().map(|e| e.path.as_str()).collect::<Vec<_>>(), vec!["/r/c.rs"]);
    assert_eq!(m.iter().map(|e| e.path.as_str()).collect::<Vec<_>>(), vec!["/r/a.rs"]);
    assert_eq!(d, vec!["/r/b.rs".to_string()]);
    let keys: Vec<(String, String)> = w.known().clone();
    assert_eq!(keys, vec![("a.rs".to_string(), "9".to_string()), ("c.rs".to_string(), "3".to_string())]);
}

#[test]
fn watcher_rescan_without_changes_reports_nothing() {
    let mut w = Watcher::new(config_at("/r"));
    let files = || vec![entry("/r/a.rs", "1"), entry("/r/x/b.rs", "2"), entry("/r/a.rs", "1")];
    let _ = w.scan_incremental("/r", files());
    let (n, m, d) = w.scan_incremental("/r", files());
    assert!(n.is_empty() && m.is_empty() && d.is_empty());
}

#[test]
fn chunk_single_empty_line_and_bare_carriage_return() {
    let c = Chunker::new(512, 64);
    let chunks = c.chunk("e.txt", "txt", "\n");
    assert_eq!(chunks.len(), 1);
    assert_eq!(chunks[0].text, "");
    assert_eq!((chunks[0].start_line, chunks[0].end_line), (1, 1));
    let chunks = c.chunk("e.txt", "txt", "a\r\nb\r");
    assert_eq!(chunks.len(), 1);
    assert_eq!(chunks[0].text, "a\nb\r");
    assert_eq!(chunks[0].end_line, 2);
}

#[test]
fn watcher_known_hashes_can_be_restored() {
    let mut w = Watcher::new(config_at("/r"));
    w.load_known_json(r#"{"a.rs":"1"}"#);
    let (n, m, d) = w.scan_incremental("/r", vec![entry("/r/a.rs", "1")]);
    assert!(n.is_empty() && m.is_empty() && d.is_empty());
    let (_, _, d) = w.scan_incremental("/r", vec![]);
    assert_eq!(d, vec!["/r/a.rs".to_string()]);
    assert!(w.known().is_empty());
}

#[test]
fn chunks_cover_every_line_from_first_block() {
    let c = Chunker::new(40, 100);
    let mut content = String::from("// header\nfn long() {\n");
    for i in 0..12 {
        content.push_str(&format!("    let v{} = {};\n", i, i));
    }
    content.push_str("}\nfn short() {}\n");
    let chunks = c.chunk("l.rs", "rs", &content);
    let total = content.lines().count();
    for line in 2..=total {
        assert!(chunks.iter().any(|ch| ch.start_line <= line && line <= ch.end_line), "line {line} not covered");
    }
    assert!(!chunks.iter().any(|ch| ch.start_line <= 1 && 1 <= ch.end_line));
    assert_eq!(chunks[0].symbol.as_deref(), Some("long"));
    assert_eq!(chunks.last().unwrap().symbol.as_deref(), Some("short"));
}

#[test]
fn sha256_hex_bytes_hashes_raw_bytes() {
    let data: Vec<u8> = vec![0xff, 0xfe, 0x00, 0x80, b'a'];
    let expected: String = Sha256::digest(&data).iter().map(|b| format!("{:02x}", b)).collect();
    assert_eq!(sha256_hex_bytes(&data), expected);
    assert_eq!(
        sha256_hex_bytes(b""),
        "e3b0c44298fc1c149afbf4c8996fb92427ae41e4649b934ca495991b7852b855"
    );
    assert_eq!(sha256_hex_bytes(b"abc"), sha_hex("abc"));
}

#[test]
fn scanner_directory_patterns_skip_files_below() {
    let mut c = config_at("/proj");
    c.skip_patterns = vec!["build/".to_string()];
    let s = Scanner::new(c);
    assert!(s.should_skip("/proj/build/a.rs"));
    assert!(s.should_skip("/proj/src/build/deep/b.rs"));
    assert!(!s.should_skip("/proj/src/a.rs"));
    assert!(!s.should_skip("/other/build/a.rs"));
    let s = Scanner::new(config_at("."));
    assert!(s.should_skip("./target/debug/x.rs"));
    assert!(s.should_skip("./node_modules/pkg/index.js"));
    assert!(!s.should_skip("./src/main.rs"));
}

#[test]
fn chunk_end_lines_strictly_increase() {
    let c = Chunker::new(200, 160);
    let mut content = String::from("use std::fmt;\nfn small() {}\nfn big() {\n");
    for i in 0..40 {
        content.push_str(&format!("    let x{} = {};\n", i, i));
    }
    content.push_str("}\nstruct S;\n");
    let chunks = c.chunk("src/big.rs", "rs", &content);
    assert!(chunks.len() > 3);
    for w in chunks.windows(2) {
        assert!(w[0].end_line < w[1].end_line);
        assert_ne!(w[0].id, w[1].id);
    }
    assert_eq!(chunks.last().unwrap().end_line, 45);
    assert_eq!(chunks[0].start_line, 2);
}

#[test]
fn watcher_cache_text_round_trips() {
    let mut w = Watcher::new(config_at("/r"));
    let _ = w.scan_incremental("/r", vec![entry("/r/a.rs", "1"), entry("/r/b/c.rs", "2")]);
    let text = w.known_json();
    let parsed: std::collections::HashMap<String, String> = serde_json::from_str(&text).unwrap();
    assert_eq!(parsed.len(), 2);
    assert_eq!(parsed["a.rs"], "1");
    assert_eq!(parsed["b/c.rs"], "2");
    let mut v = Watcher::new(config_at("/r"));
    v.load_known_json(&text);
    let mut got = v.known().clone();
    got.sort();
    assert_eq!(got, vec![("a.rs".to_string(), "1".to_string()), ("b/c.rs".to_string(), "2".to_string())]);
    v.load_known_json("not json");
    assert_eq!(v.known().len(), 2);
    v.load_known_json(r#"{"x": 1}"#);
    assert_eq!(v.known().len(), 2);
    v.load_known_json("{}");
    assert!(v.known().is_empty());
}

#[test]
fn hash_change_is_a_different_hash() {
    assert!(!hash_changed("abc", "abc"));
    assert!(hash_changed("abc", "abd"));
    assert!(hash_changed("", "abc"));
}
