//! What the library computes for mining into a shelf and for reporting on a
//! shelf: knowledge names and tags of chunks, and the status and doctor texts.
use vstd::prelude::*;

use crate::miner::chunker::{chunk_text, chunk_views, opt_view, ChunkModel, Chunker};
use crate::miner::scanner::{detect_lang, spec_detect_lang};
use crate::miner::watcher::rel_path;
use crate::paths::path_strip_prefix;
use crate::text::{clone_opt_string, lines_of, utf8_len};

use crate::text::{
    decimal, push_decimal, push_signed_decimal, push_str, signed_decimal, string_from_chars,
    string_views,
};

verus! {

/// The knowledge entry name of a chunk: `"code:<source>:<start>-<end>"`.
pub open spec fn spec_chunk_name(source_rel: Seq<char>, start: nat, end: nat) -> Seq<char> {
    "code:"@ + source_rel + seq![':'] + decimal(start) + seq!['-'] + decimal(end)
}

/// Names the knowledge entry that stores a mined chunk.
pub fn chunk_knowledge_name(source_rel: &str, start_line: usize, end_line: usize) -> (r: String)
    ensures
        r@ == spec_chunk_name(source_rel@, start_line as nat, end_line as nat),
{
    let mut buf: Vec<char> = Vec::new();
    push_str(&mut buf, "code:");
    push_str(&mut buf, source_rel);
    buf.push(':');
    push_decimal(&mut buf, start_line as u64);
    buf.push('-');
    push_decimal(&mut buf, end_line as u64);
    assert(buf@ =~= spec_chunk_name(source_rel@, start_line as nat, end_line as nat));
    string_from_chars(buf.as_slice())
}

/// The tags of a mined chunk: `code`, its language and its source path.
pub fn chunk_tags(lang: &str, source_rel: &str) -> (r: Vec<String>)
    ensures
        string_views(r@) == seq!["code"@, lang@, source_rel@],
{
    let r = vec!["code".to_owned(), lang.to_owned(), source_rel.to_owned()];
    assert(string_views(r@) =~= seq!["code"@, lang@, source_rel@]);
    r
}

/// The knowledge record made from one mined chunk: its name, its text, its
/// tags, and the symbol the chunk defines, if any.
pub struct MinedRecord {
    pub name: String,
    pub text: String,
    pub tags: Vec<String>,
    pub symbol: Option<String>,
}

/// The mathematical value of a mined record.
pub struct MinedRecordModel {
    pub name: Seq<char>,
    pub text: Seq<char>,
    pub tags: Seq<Seq<char>>,
    pub symbol: Option<Seq<char>>,
}

impl View for MinedRecord {
    type V = MinedRecordModel;

    open spec fn view(&self) -> MinedRecordModel {
        MinedRecordModel { name: self.name@, text: self.text@, tags: string_views(self.tags@), symbol: opt_view(self.symbol) }
    }
}

/// The views of mined records.
pub open spec fn record_views(rs: Seq<MinedRecord>) -> Seq<MinedRecordModel> {
    rs.map_values(|r: MinedRecord| r@)
}

/// The record of chunk `c` of the file at `source_rel` (relative to the mined
/// root) in language `lang`.
pub open spec fn record_of(c: ChunkModel, source_rel: Seq<char>, lang: Seq<char>) -> MinedRecordModel {
    MinedRecordModel {
        name: spec_chunk_name(source_rel, c.start_line, c.end_line),
        text: c.text,
        tags: seq!["code"@, lang, source_rel],
        symbol: c.symbol,
    }
}

/// The records mined from the file at `path` under `root` with contents
/// `content`: one per chunk, in order, the file's language detected from its
/// extension and its path taken relative to the root.
pub open spec fn mined_records(max: nat, overlap: nat, root: Seq<char>, path: Seq<char>, content: Seq<char>) -> Seq<MinedRecordModel> {
    let lang = spec_detect_lang(path);
    let rel = rel_path(root, path);
    chunk_text(max, overlap, path, lang, content).map_values(|c: ChunkModel| record_of(c, rel, lang))
}

/// Mines one file: chunks its contents and makes the record of each chunk
/// (see `mined_records`); the number of records is the number of chunks.
pub fn mine_file(chunker: &Chunker, root: &str, path: &str, content: &str) -> (r: Vec<MinedRecord>)
    requires
        utf8_len(content@) < usize::MAX,
    ensures
        record_views(r@) == mined_records(chunker.max_chars_of(), chunker.overlap_chars_of(), root@, path@, content@),
        r@.len() == 0 <==> lines_of(content@).len() == 0,
{
    let lang = detect_lang(path);
    let rel = match path_strip_prefix(path, root) {
        Some(p) => p,
        None => path.to_owned(),
    };
    assert(rel@ == rel_path(root@, path@));
    let chunks = chunker.chunk(path, lang.as_str(), content);
    let ghost cs = chunk_views(chunks@);
    let mut out: Vec<MinedRecord> = Vec::new();
    let n = chunks.len();
    for i in 0..n
        invariant
            n == chunks@.len(),
            cs == chunk_views(chunks@),
            record_views(out@) == cs.take(i as int).map_values(|c: ChunkModel| record_of(c, rel@, lang@)),
    {
        let c = &chunks[i];
        assert(cs[i as int] == c@);
        let rec = MinedRecord {
            name: chunk_knowledge_name(rel.as_str(), c.start_line, c.end_line),
            text: c.text.clone(),
            tags: chunk_tags(lang.as_str(), rel.as_str()),
            symbol: clone_opt_string(&c.symbol),
        };
        let ghost pre = record_views(out@);
        out.push(rec);
        assert(record_views(out@) =~= pre.push(rec@));
        assert(cs.take(i + 1).map_values(|c: ChunkModel| record_of(c, rel@, lang@)) =~= cs.take(i as int).map_values(
            |c: ChunkModel| record_of(c, rel@, lang@),
        ).push(record_of(cs[i as int], rel@, lang@)));
    }
    assert(cs.take(n as int) =~= cs);
    out
}

/// The rule that frames a report.
pub open spec fn rule() -> Seq<char> {
    "════════════════════════"@
}

/// One `"  • name\n"` line per shelf.
pub open spec fn shelf_lines(shelves: Seq<Seq<char>>) -> Seq<char>
    decreases shelves.len(),
{
    if shelves.len() == 0 {
        Seq::empty()
    } else {
        shelf_lines(shelves.drop_last()) + "  • "@ + shelves.last() + "\n"@
    }
}

/// Whether the full-text index holds as many documents as there are
/// knowledge entries, and what to run when it does not.
pub open spec fn fts_check(knowledge: int, fts: int) -> Seq<char> {
    if knowledge != fts {
        "[WARN] FTS count ("@ + signed_decimal(fts) + ") != Knowledge count ("@ + signed_decimal(knowledge) + ")\n"@
            + "  → Run: hypatia rebuild-fts <shelf>\n"@
    } else {
        "[OK] FTS index matches knowledge count\n"@
    }
}

/// The status report of a shelf.
pub open spec fn status_text(
    shelves: Seq<Seq<char>>,
    knowledge: int,
    statements: int,
    fts: int,
    vectors: int,
) -> Seq<char> {
    rule() + "\n"@ + "Shelves connected: "@ + decimal(shelves.len()) + "\n"@ + shelf_lines(shelves)
        + "Knowledge entries: "@ + signed_decimal(knowledge) + "\n"@ + "Statements: "@ + signed_decimal(
        statements,
    ) + "\n"@ + "FTS documents: "@ + signed_decimal(fts) + "\n"@ + "Vector entries: "@ + signed_decimal(
        vectors,
    ) + "\n"@ + fts_check(knowledge, fts) + (if vectors > 0 {
        "[OK] Vector search: "@ + signed_decimal(vectors) + " embeddings indexed\n"@
    } else {
        "[INFO] Vector search: no embeddings yet (run mine to generate)\n"@
    }) + rule()
}

/// The health report of a shelf.
pub open spec fn doctor_text(knowledge: int, fts: int, vectors: int) -> Seq<char> {
    "═══ Hypatia Doctor ═══\n"@ + fts_check(knowledge, fts) + (if vectors > 0 {
        "[OK] Vector store: "@ + signed_decimal(vectors) + " embeddings\n"@
    } else {
        "[INFO] Vector store: no embeddings (run 'mine' to generate)\n"@
    }) + rule()
}

fn push_fts_check(buf: &mut Vec<char>, knowledge: i64, fts: i64)
    ensures
        final(buf)@ == old(buf)@ + fts_check(knowledge as int, fts as int),
{
    if knowledge != fts {
        push_str(buf, "[WARN] FTS count (");
        push_signed_decimal(buf, fts);
        push_str(buf, ") != Knowledge count (");
        push_signed_decimal(buf, knowledge);
        push_str(buf, ")\n");
        push_str(buf, "  → Run: hypatia rebuild-fts <shelf>\n");
    } else {
        push_str(buf, "[OK] FTS index matches knowledge count\n");
    }
    assert(buf@ =~= old(buf)@ + fts_check(knowledge as int, fts as int));
}

/// Writes the status report of a shelf given the connected shelves and its
/// counts of knowledge entries, statements, full-text documents and vectors.
pub fn status_report(shelves: &Vec<String>, knowledge: i64, statements: i64, fts: i64, vectors: i64) -> (r: String)
    ensures
        r@ == status_text(string_views(shelves@), knowledge as int, statements as int, fts as int, vectors as int),
{
    let ghost sv = string_views(shelves@);
    let mut buf: Vec<char> = Vec::new();
    push_str(&mut buf, "════════════════════════");
    push_str(&mut buf, "\n");
    push_str(&mut buf, "Shelves connected: ");
    push_decimal(&mut buf, shelves.len() as u64);
    push_str(&mut buf, "\n");
    let ghost head = buf@;
    let n = shelves.len();
    for i in 0..n
        invariant
            n == shelves@.len(),
            sv == string_views(shelves@),
            buf@ == head + shelf_lines(sv.take(i as int)),
    {
        push_str(&mut buf, "  • ");
        push_str(&mut buf, shelves[i].as_str());
        push_str(&mut buf, "\n");
        assert(sv.take(i + 1).drop_last() =~= sv.take(i as int));
        assert(sv.take(i + 1).last() == shelves@[i as int]@);
        assert(buf@ =~= head + shelf_lines(sv.take(i + 1)));
    }
    assert(sv.take(n as int) =~= sv);
    push_str(&mut buf, "Knowledge entries: ");
    push_signed_decimal(&mut buf, knowledge);
    push_str(&mut buf, "\n");
    push_str(&mut buf, "Statements: ");
    push_signed_decimal(&mut buf, statements);
    push_str(&mut buf, "\n");
    push_str(&mut buf, "FTS documents: ");
    push_signed_decimal(&mut buf, fts);
    push_str(&mut buf, "\n");
    push_str(&mut buf, "Vector entries: ");
    push_signed_decimal(&mut buf, vectors);
    push_str(&mut buf, "\n");
    push_fts_check(&mut buf, knowledge, fts);
    if vectors > 0 {
        push_str(&mut buf, "[OK] Vector search: ");
        push_signed_decimal(&mut buf, vectors);
        push_str(&mut buf, " embeddings indexed\n");
    } else {
        push_str(&mut buf, "[INFO] Vector search: no embeddings yet (run mine to generate)\n");
    }
    push_str(&mut buf, "════════════════════════");
    assert(buf@ =~= status_text(sv, knowledge as int, statements as int, fts as int, vectors as int));
    string_from_chars(buf.as_slice())
}

/// Writes the health report of a shelf given its counts of knowledge
/// entries, full-text documents and vectors.
pub fn doctor_report(knowledge: i64, fts: i64, vectors: i64) -> (r: String)
    ensures
        r@ == doctor_text(knowledge as int, fts as int, vectors as int),
{
    let mut buf: Vec<char> = Vec::new();
    push_str(&mut buf, "═══ Hypatia Doctor ═══\n");
    push_fts_check(&mut buf, knowledge, fts);
    if vectors > 0 {
        push_str(&mut buf, "[OK] Vector store: ");
        push_signed_decimal(&mut buf, vectors);
        push_str(&mut buf, " embeddings\n");
    } else {
        push_str(&mut buf, "[INFO] Vector store: no embeddings (run 'mine' to generate)\n");
    }
    push_str(&mut buf, "════════════════════════");
    assert(buf@ =~= doctor_text(knowledge as int, fts as int, vectors as int));
    string_from_chars(buf.as_slice())
}

} // verus!
