use hypatia::hybrid::merger::{fuse, make_hit_key, MatchType, Origin};
use hypatia::lab::{chunk_knowledge_name, chunk_tags, doctor_report, mine_file, status_report};
use hypatia::miner::chunker::Chunker;

fn keys(v: &[&str]) -> Vec<String> {
    v.iter().map(|s| s.to_string()).collect()
}

#[test]
fn fuse_merges_by_key() {
    let r = fuse(&keys(&["k1", "k2", "k1"]), &keys(&["k3", "k2", "k3"]));
    assert_eq!(r.len(), 3);
    assert_eq!(r[0].key, "k1");
    assert_eq!(r[0].origin, Origin::Fts(0));
    assert_eq!(r[0].matched_by, MatchType::FtsOnly);
    assert!(r[0].merged.is_empty());
    assert_eq!(r[1].key, "k2");
    assert_eq!(r[1].origin, Origin::Fts(1));
    assert_eq!(r[1].merged, vec![1]);
    assert_eq!(r[1].matched_by, MatchType::Both);
    assert_eq!(r[2].key, "k3");
    assert_eq!(r[2].origin, Origin::Vector(0));
    assert_eq!(r[2].merged, vec![2]);
    assert_eq!(r[2].matched_by, MatchType::VectorOnly);
}

#[test]
fn fuse_repeated_vector_key_stays_vector_only() {
    let r = fuse(&keys(&[]), &keys(&["v", "v"]));
    assert_eq!(r.len(), 1);
    assert_eq!(r[0].origin, Origin::Vector(0));
    assert_eq!(r[0].merged, vec![1]);
    assert_eq!(r[0].matched_by, MatchType::VectorOnly);
    let r = fuse(&keys(&["a"]), &keys(&["b", "b", "a"]));
    assert_eq!(r.len(), 2);
    assert_eq!(r[0].matched_by, MatchType::Both);
    assert_eq!(r[0].merged, vec![2]);
    assert_eq!(r[1].key, "b");
    assert_eq!(r[1].matched_by, MatchType::VectorOnly);
}

#[test]
fn fuse_vector_only_and_empty() {
    let r = fuse(&keys(&[]), &keys(&["v"]));
    assert_eq!(r.len(), 1);
    assert_eq!(r[0].matched_by, MatchType::VectorOnly);
    assert!(fuse(&keys(&[]), &keys(&[])).is_empty());
}

#[test]
fn hit_key_takes_first_fifty_chars() {
    let text: String = std::iter::repeat('x').take(60).collect();
    let k = make_hit_key("src/a.rs", &text);
    assert_eq!(k, format!("src/a.rs:{}", "x".repeat(50)));
    assert_eq!(make_hit_key("s", "ab"), "s:ab");
    let uni: String = std::iter::repeat('é').take(55).collect();
    assert_eq!(make_hit_key("s", &uni).chars().count(), 52);
}

#[test]
fn chunk_names_and_tags() {
    assert_eq!(chunk_knowledge_name("src/lib.rs", 3, 17), "code:src/lib.rs:3-17");
    assert_eq!(chunk_tags("rs", "src/lib.rs"), vec!["code", "rs", "src/lib.rs"]);
}

#[test]
fn status_report_text() {
    let shelves = vec!["default".to_string(), "x".to_string()];
    let r = status_report(&shelves, 3, 1, 2, 0);
    let expected = "════════════════════════\nShelves connected: 2\n  • default\n  • x\nKnowledge entries: 3\nStatements: 1\nFTS documents: 2\nVector entries: 0\n[WARN] FTS count (2) != Knowledge count (3)\n  → Run: hypatia rebuild-fts <shelf>\n[INFO] Vector search: no embeddings yet (run mine to generate)\n════════════════════════";
    assert_eq!(r, expected);
    let r = status_report(&vec![], 5, 0, 5, 12);
    assert!(r.contains("[OK] FTS index matches knowledge count\n"));
    assert!(r.contains("[OK] Vector search: 12 embeddings indexed\n"));
    assert!(r.contains("Shelves connected: 0\n"));
}

#[test]
fn doctor_report_text() {
    let r = doctor_report(-5, -5, 7);
    assert_eq!(r, "═══ Hypatia Doctor ═══\n[OK] FTS index matches knowledge count\n[OK] Vector store: 7 embeddings\n════════════════════════");
    let r = doctor_report(i64::MIN, 0, 0);
    assert!(r.contains("[WARN] FTS count (0) != Knowledge count (-9223372036854775808)\n"));
    assert!(r.contains("[INFO] Vector store: no embeddings (run 'mine' to generate)\n"));
}

#[test]
fn mine_file_records_each_chunk_with_symbol() {
    let c = Chunker::new(512, 64);
    let content = "use x;\nfn alpha() {\n    1\n}\npub fn beta(x: u8) {}\n";
    let recs = mine_file(&c, "/proj", "/proj/src/Lib.RS", content);
    assert_eq!(recs.len(), 2);
    assert_eq!(recs[0].name, "code:src/Lib.RS:2-4");
    assert_eq!(recs[0].text, "fn alpha() {\n    1\n}");
    assert_eq!(recs[0].tags, vec!["code", "rs", "src/Lib.RS"]);
    assert_eq!(recs[0].symbol.as_deref(), Some("alpha"));
    assert_eq!(recs[1].name, "code:src/Lib.RS:5-5");
    assert_eq!(recs[1].symbol.as_deref(), Some("beta"));
    assert!(mine_file(&c, "/proj", "/other/a.md", "").is_empty());
    let recs = mine_file(&c, "/proj", "/other/a.md", "# T\ntext\n");
    assert_eq!(recs.len(), 1);
    assert_eq!(recs[0].name, "code:/other/a.md:1-2");
    assert_eq!(recs[0].symbol, None);
}
