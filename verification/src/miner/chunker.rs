//! Code-aware splitting of source text into chunks.
use vstd::prelude::*;
use vstd::utf8::encode_utf8;

use crate::digest::{lower_hex, sha256_hex, spec_sha256};
use crate::text::{
    decimal, has_prefix, ident_prefix, ident_prefix_at, join_line_range, join_lines,
    lemma_join_lines_len, lemma_lines_bytes_concat, lemma_lines_bytes_subrange,
    lemma_lines_of_bytes, lines_bytes, lines_of, push_decimal, split_lines, starts_with_at,
    is_ident_char, spec_is_alphanumeric, str_chars, str_equal, string_from_chars, trim_start, trim_start_index, utf8_byte_len,
    utf8_len, views,
};

verus! {

/// A single chunk of text from a source file.
#[derive(Debug, Clone)]
pub struct Chunk {
    /// Lowercase hex SHA-256 of `"source:start_line:end_line"`.
    pub id: String,
    /// Source file path.
    pub source: String,
    /// Language detected from the extension.
    pub lang: String,
    /// First line of the chunk (1-based).
    pub start_line: usize,
    /// Last line of the chunk (1-based, inclusive).
    pub end_line: usize,
    /// The lines of the chunk joined with `'\n'`.
    pub text: String,
    /// Name of the function, type or class that starts the chunk, if any.
    pub symbol: Option<String>,
}

/// The mathematical value of a chunk.
pub struct ChunkModel {
    pub id: Seq<char>,
    pub source: Seq<char>,
    pub lang: Seq<char>,
    pub start_line: nat,
    pub end_line: nat,
    pub text: Seq<char>,
    pub symbol: Option<Seq<char>>,
}

/// The character view of an optional string.
pub open spec fn opt_view(o: Option<String>) -> Option<Seq<char>> {
    match o {
        Some(s) => Some(s@),
        None => None,
    }
}

impl View for Chunk {
    type V = ChunkModel;

    open spec fn view(&self) -> ChunkModel {
        ChunkModel {
            id: self.id@,
            source: self.source@,
            lang: self.lang@,
            start_line: self.start_line as nat,
            end_line: self.end_line as nat,
            text: self.text@,
            symbol: opt_view(self.symbol),
        }
    }
}

/// The views of a sequence of chunks.
pub open spec fn chunk_views(cs: Seq<Chunk>) -> Seq<ChunkModel> {
    cs.map_values(|c: Chunk| c@)
}

/// The text that a chunk identifier hashes: `"source:start:end"`.
pub open spec fn id_input(source: Seq<char>, start: nat, end: nat) -> Seq<char> {
    source + seq![':'] + decimal(start) + seq![':'] + decimal(end)
}

/// A chunk identifier: lowercase hex SHA-256 of the UTF-8 bytes of `id_input`.
pub open spec fn chunk_id(source: Seq<char>, start: nat, end: nat) -> Seq<char> {
    lower_hex(spec_sha256(encode_utf8(id_input(source, start, end))))
}

/// The chunk of `source` covering lines `start..=end` (1-based) with the given text.
pub open spec fn make_chunk(
    source: Seq<char>,
    lang: Seq<char>,
    start: nat,
    end: nat,
    text: Seq<char>,
    symbol: Option<Seq<char>>,
) -> ChunkModel {
    ChunkModel { id: chunk_id(source, start, end), source, lang, start_line: start, end_line: end, text, symbol }
}

/// Line prefixes (after leading white space) that open a code block.
pub open spec fn start_patterns(lang: Seq<char>) -> Seq<Seq<char>> {
    if lang == "rs"@ {
        seq!["fn "@, "pub fn "@, "async fn "@, "struct "@, "pub struct "@, "enum "@, "impl "@, "trait "@]
    } else if lang == "py"@ {
        seq!["def "@, "async def "@, "class "@]
    } else if lang == "ts"@ || lang == "js"@ {
        seq!["function "@, "async function "@, "class "@, "export function "@, "const "@, "let "@]
    } else {
        seq!["fn "@, "function "@, "def "@, "class "@, "struct "@]
    }
}

/// Keywords, tried in this order, after which a symbol name may follow.
pub open spec fn symbol_keywords() -> Seq<Seq<char>> {
    seq!["fn "@, "pub fn "@, "struct "@, "enum "@, "impl "@, "def "@, "class "@, "function "@, "const "@]
}

/// Some pattern is a prefix of the trimmed line.
pub open spec fn starts_block(line: Seq<char>, pats: Seq<Seq<char>>) -> bool {
    exists|k: int| 0 <= k < pats.len() && has_prefix(trim_start(line), #[trigger] pats[k])
}

/// The symbol after the first keyword (from index `k` on) that prefixes `t` and is
/// followed by at least one identifier character.
pub open spec fn symbol_from(t: Seq<char>, kws: Seq<Seq<char>>, k: nat) -> Option<Seq<char>>
    decreases kws.len() - k,
{
    if k >= kws.len() {
        None
    } else if has_prefix(t, kws[k as int]) && ident_prefix(t.skip(kws[k as int].len() as int)).len() > 0 {
        Some(ident_prefix(t.skip(kws[k as int].len() as int)))
    } else {
        symbol_from(t, kws, k + 1)
    }
}

/// The symbol named on a trimmed line, if any.
pub open spec fn extract_symbol(t: Seq<char>) -> Option<Seq<char>> {
    symbol_from(t, symbol_keywords(), 0)
}

/// A run of identifier characters followed by something that is not one is
/// its own identifier prefix.
proof fn lemma_ident_prefix_exact(name: Seq<char>, rest: Seq<char>)
    requires
        forall|i: int| 0 <= i < name.len() ==> is_ident_char(#[trigger] name[i]),
        rest.len() > 0 ==> !is_ident_char(rest[0]),
    ensures
        ident_prefix(name + rest) == name,
    decreases name.len(),
{
    if name.len() == 0 {
        assert(name + rest =~= rest);
    } else {
        lemma_ident_prefix_exact(name.drop_first(), rest);
        assert((name + rest).drop_first() =~= name.drop_first() + rest);
        assert((name + rest)[0] == name[0]);
        assert(name =~= seq![name[0]] + name.drop_first());
    }
}

/// A text that starts with `a` does not start with `b` when the two differ
/// in one of their first three characters.
proof fn lemma_prefix_excludes(t: Seq<char>, a: Seq<char>, b: Seq<char>)
    requires
        has_prefix(t, a),
        a.len() >= 3,
        b.len() >= 3,
        a[0] != b[0] || a[1] != b[1] || a[2] != b[2],
    ensures
        !has_prefix(t, b),
{
    assert(t.take(a.len() as int)[0] == t[0]);
    assert(t.take(a.len() as int)[1] == t[1]);
    assert(t.take(a.len() as int)[2] == t[2]);
    if has_prefix(t, b) {
        assert(t.take(b.len() as int)[0] == t[0]);
        assert(t.take(b.len() as int)[1] == t[1]);
        assert(t.take(b.len() as int)[2] == t[2]);
    }
}

/// Trying keywords from `k` on, the first that prefixes `t` (here the one
/// at `j`) decides the symbol.
proof fn lemma_symbol_from_first(t: Seq<char>, kws: Seq<Seq<char>>, k: int, j: int)
    requires
        0 <= k <= j < kws.len(),
        has_prefix(t, kws[j]),
        ident_prefix(t.skip(kws[j].len() as int)).len() > 0,
        forall|m: int| k <= m < j ==> !has_prefix(t, #[trigger] kws[m]),
    ensures
        symbol_from(t, kws, k as nat) == Some(ident_prefix(t.skip(kws[j].len() as int))),
    decreases j - k,
{
    if k < j {
        lemma_symbol_from_first(t, kws, k + 1, j);
    }
}

/// Law: a trimmed line made of one of the keywords `fn `, `pub fn `,
/// `struct `, `enum `, `impl `, `def `, `class `, `function `, `const `, then
/// a nonempty identifier, then anything that does not continue the
/// identifier, names that identifier as its symbol.
pub proof fn law_symbol_after_keyword(kw: Seq<char>, name: Seq<char>, rest: Seq<char>)
    requires
        kw == "fn "@ || kw == "pub fn "@ || kw == "struct "@ || kw == "enum "@ || kw == "impl "@ || kw == "def "@
            || kw == "class "@ || kw == "function "@ || kw == "const "@,
        name.len() > 0,
        forall|i: int| 0 <= i < name.len() ==> spec_is_alphanumeric(#[trigger] name[i]) || name[i] == '_',
        rest.len() > 0 ==> !spec_is_alphanumeric(rest[0]) && rest[0] != '_',
    ensures
        extract_symbol(kw + name + rest) == Some(name),
{
    reveal_strlit("fn ");
    reveal_strlit("pub fn ");
    reveal_strlit("struct ");
    reveal_strlit("enum ");
    reveal_strlit("impl ");
    reveal_strlit("def ");
    reveal_strlit("class ");
    reveal_strlit("function ");
    reveal_strlit("const ");
    let t = kw + name + rest;
    let kws = symbol_keywords();
    lemma_ident_prefix_exact(name, rest);
    assert(t.take(kw.len() as int) =~= kw);
    assert(t.skip(kw.len() as int) =~= name + rest);
    let j: int = if kw == "fn "@ {
        0
    } else if kw == "pub fn "@ {
        1
    } else if kw == "struct "@ {
        2
    } else if kw == "enum "@ {
        3
    } else if kw == "impl "@ {
        4
    } else if kw == "def "@ {
        5
    } else if kw == "class "@ {
        6
    } else if kw == "function "@ {
        7
    } else {
        8
    };
    assert(kws[j] == kw);
    assert forall|m: int| 0 <= m < j implies !has_prefix(t, #[trigger] kws[m]) by {
        assert(kws[m].len() >= 3);
        assert(kws[m][0] != kw[0] || kws[m][1] != kw[1] || kws[m][2] != kw[2]);
        lemma_prefix_excludes(t, kw, kws[m]);
    }
    lemma_symbol_from_first(t, kws, 0, j);
}

/// A run of lines `start..=end` (0-based) and the symbol that opens it.
pub struct BlockModel {
    pub start: int,
    pub end: int,
    pub symbol: Option<Seq<char>>,
}

/// Reading lines `0..n`: the blocks closed so far and the block still open.
/// A line that starts a block closes the open one and opens a new one; any
/// other line extends the open block; lines before the first block are dropped.
pub open spec fn block_scan(lines: Seq<Seq<char>>, pats: Seq<Seq<char>>, n: nat) -> (Seq<BlockModel>, Option<BlockModel>)
    decreases n,
{
    if n == 0 {
        (Seq::empty(), None)
    } else {
        let (bs, cur) = block_scan(lines, pats, (n - 1) as nat);
        let i = n - 1;
        if starts_block(lines[i], pats) {
            let closed = match cur {
                Some(b) => bs.push(b),
                None => bs,
            };
            (closed, Some(BlockModel { start: i, end: i, symbol: extract_symbol(trim_start(lines[i])) }))
        } else {
            match cur {
                Some(b) => (bs, Some(BlockModel { start: b.start, end: i, symbol: b.symbol })),
                None => (bs, None),
            }
        }
    }
}

/// The code blocks of a file; a file with no block start is one block.
pub open spec fn code_blocks(lines: Seq<Seq<char>>, lang: Seq<char>) -> Seq<BlockModel> {
    let (bs, cur) = block_scan(lines, start_patterns(lang), lines.len());
    let all = match cur {
        Some(b) => bs.push(b),
        None => bs,
    };
    if all.len() == 0 {
        seq![BlockModel { start: 0, end: if lines.len() == 0 { 0 } else { lines.len() - 1 }, symbol: None }]
    } else {
        all
    }
}

/// The joined text of lines `from..to` (0-based, `to` exclusive).
pub open spec fn range_text(lines: Seq<Seq<char>>, from: int, to: int) -> Seq<char> {
    join_lines(lines.subrange(from, to))
}

/// Number of lines an oversized block carries over into the next piece.
pub open spec fn overlap_lines(overlap_chars: nat) -> nat {
    overlap_chars / 80 + 1
}

/// Splitting an oversized block, after reading its first `n` lines: the chunks
/// emitted and the run `start..start + len` of lines being collected.  A line
/// whose bytes (plus one) would push the collected run past `max` closes the
/// run as a chunk (if it is not empty) and restarts it from its last
/// `overlap_lines` lines.
pub open spec fn split_scan(
    source: Seq<char>,
    lang: Seq<char>,
    lines: Seq<Seq<char>>,
    b: BlockModel,
    max: nat,
    overlap: nat,
    n: nat,
) -> (Seq<ChunkModel>, int, int)
    decreases n,
{
    if n == 0 {
        (Seq::empty(), b.start, 0)
    } else {
        let (cs, st, ln) = split_scan(source, lang, lines, b, max, overlap, (n - 1) as nat);
        let i = n - 1;
        let lc = utf8_len(lines[b.start + i]) + 1;
        let chars = lines_bytes(lines.subrange(st, st + ln));
        if chars + lc > max && ln > 0 {
            let c = make_chunk(
                source,
                lang,
                (st + 1) as nat,
                (st + ln) as nat,
                range_text(lines, st, st + ln),
                if st == b.start { b.symbol } else { None },
            );
            let keep = if overlap_lines(overlap) < ln { overlap_lines(overlap) as int } else { ln };
            (cs.push(c), b.start + i - keep, keep + 1)
        } else {
            (cs, st, ln + 1)
        }
    }
}

/// The chunks of an oversized block.
pub open spec fn split_block(
    source: Seq<char>,
    lang: Seq<char>,
    lines: Seq<Seq<char>>,
    b: BlockModel,
    max: nat,
    overlap: nat,
) -> Seq<ChunkModel> {
    let (cs, st, ln) = split_scan(source, lang, lines, b, max, overlap, (b.end - b.start + 1) as nat);
    if ln > 0 {
        cs.push(
            make_chunk(
                source,
                lang,
                (st + 1) as nat,
                (st + ln) as nat,
                range_text(lines, st, st + ln),
                if st == b.start { b.symbol } else { None },
            ),
        )
    } else {
        cs
    }
}

/// The chunks of one block: the whole block if its text fits in `max` bytes,
/// otherwise the pieces of `split_block`.
pub open spec fn block_chunks(
    source: Seq<char>,
    lang: Seq<char>,
    lines: Seq<Seq<char>>,
    b: BlockModel,
    max: nat,
    overlap: nat,
) -> Seq<ChunkModel> {
    let text = range_text(lines, b.start, b.end + 1);
    if utf8_len(text) <= max {
        seq![make_chunk(source, lang, (b.start + 1) as nat, (b.end + 1) as nat, text, b.symbol)]
    } else {
        split_block(source, lang, lines, b, max, overlap)
    }
}

/// The chunks of the first `k` blocks, in order.
pub open spec fn blocks_chunks(
    source: Seq<char>,
    lang: Seq<char>,
    lines: Seq<Seq<char>>,
    blocks: Seq<BlockModel>,
    max: nat,
    overlap: nat,
    k: nat,
) -> Seq<ChunkModel>
    decreases k,
{
    if k == 0 || k > blocks.len() {
        Seq::empty()
    } else {
        blocks_chunks(source, lang, lines, blocks, max, overlap, (k - 1) as nat) + block_chunks(
            source,
            lang,
            lines,
            blocks[k - 1],
            max,
            overlap,
        )
    }
}

/// The chunks of a whole text.
pub open spec fn chunk_text(
    max: nat,
    overlap: nat,
    source: Seq<char>,
    lang: Seq<char>,
    content: Seq<char>,
) -> Seq<ChunkModel> {
    let lines = lines_of(content);
    if lines.len() == 0 {
        Seq::empty()
    } else {
        let blocks = code_blocks(lines, lang);
        blocks_chunks(source, lang, lines, blocks, max, overlap, blocks.len())
    }
}

/// A chunk of `lines` (from `source`, in `lang`) covering lines
/// `start_line..=end_line` (1-based, within the file): its text is those lines
/// joined with `'\n'` and its identifier is the hash of `source:start:end`.
pub open spec fn good_chunk(c: ChunkModel, source: Seq<char>, lang: Seq<char>, lines: Seq<Seq<char>>) -> bool {
    &&& 1 <= c.start_line <= c.end_line <= lines.len()
    &&& c.text == range_text(lines, c.start_line - 1, c.end_line as int)
    &&& c.id == chunk_id(source, c.start_line, c.end_line)
    &&& c.source == source
    &&& c.lang == lang
}

proof fn lemma_split_scan_good(
    source: Seq<char>,
    lang: Seq<char>,
    lines: Seq<Seq<char>>,
    b: BlockModel,
    max: nat,
    overlap: nat,
    n: nat,
)
    requires
        0 <= b.start <= b.end < lines.len(),
        n <= b.end - b.start + 1,
    ensures
        ({
            let (cs, st, ln) = split_scan(source, lang, lines, b, max, overlap, n);
            &&& b.start <= st
            &&& 0 <= ln
            &&& st + ln == b.start + n
            &&& n > 0 ==> ln > 0
            &&& forall|k: int| 0 <= k < cs.len() ==> good_chunk(#[trigger] cs[k], source, lang, lines)
        }),
    decreases n,
{
    if n > 0 {
        lemma_split_scan_good(source, lang, lines, b, max, overlap, (n - 1) as nat);
        let (cs, st, ln) = split_scan(source, lang, lines, b, max, overlap, (n - 1) as nat);
        let i = n - 1;
        let lc = utf8_len(lines[b.start + i]) + 1;
        let chars = lines_bytes(lines.subrange(st, st + ln));
        if chars + lc > max && ln > 0 {
            let c = make_chunk(
                source,
                lang,
                (st + 1) as nat,
                (st + ln) as nat,
                range_text(lines, st, st + ln),
                if st == b.start { b.symbol } else { None },
            );
            assert(good_chunk(c, source, lang, lines));
            assert forall|k: int| 0 <= k < cs.push(c).len() implies good_chunk(#[trigger] cs.push(c)[k], source, lang, lines) by {
                if k < cs.len() {
                    assert(cs.push(c)[k] == cs[k]);
                }
            }
        }
    }
}

/// The pieces of a block are well-formed chunks, and there is at least one.
proof fn lemma_block_chunks_good(
    source: Seq<char>,
    lang: Seq<char>,
    lines: Seq<Seq<char>>,
    b: BlockModel,
    max: nat,
    overlap: nat,
)
    requires
        0 <= b.start <= b.end < lines.len(),
    ensures
        block_chunks(source, lang, lines, b, max, overlap).len() >= 1,
        forall|k: int| 0 <= k < block_chunks(source, lang, lines, b, max, overlap).len() ==> good_chunk(
            #[trigger] block_chunks(source, lang, lines, b, max, overlap)[k],
            source,
            lang,
            lines,
        ),
{
    let text = range_text(lines, b.start, b.end + 1);
    if utf8_len(text) > max {
        let n = (b.end - b.start + 1) as nat;
        lemma_split_scan_good(source, lang, lines, b, max, overlap, n);
        let (cs, st, ln) = split_scan(source, lang, lines, b, max, overlap, n);
        let c = make_chunk(
            source,
            lang,
            (st + 1) as nat,
            (st + ln) as nat,
            range_text(lines, st, st + ln),
            if st == b.start { b.symbol } else { None },
        );
        assert(good_chunk(c, source, lang, lines));
        assert forall|k: int| 0 <= k < cs.push(c).len() implies good_chunk(#[trigger] cs.push(c)[k], source, lang, lines) by {
            if k < cs.len() {
                assert(cs.push(c)[k] == cs[k]);
            }
        }
    }
}

/// Some chunk covers line `idx` (0-based).
pub open spec fn covers(cs: Seq<ChunkModel>, idx: int) -> bool {
    exists|k: int| 0 <= k < cs.len() && (#[trigger] cs[k]).start_line <= idx + 1 <= cs[k].end_line
}

proof fn lemma_covers_push(cs: Seq<ChunkModel>, c: ChunkModel, idx: int)
    requires
        covers(cs, idx),
    ensures
        covers(cs.push(c), idx),
{
    let k = choose|k: int| 0 <= k < cs.len() && (#[trigger] cs[k]).start_line <= idx + 1 <= cs[k].end_line;
    assert(cs.push(c)[k] == cs[k]);
}

proof fn lemma_split_scan_cover(
    source: Seq<char>,
    lang: Seq<char>,
    lines: Seq<Seq<char>>,
    b: BlockModel,
    max: nat,
    overlap: nat,
    n: nat,
)
    requires
        0 <= b.start <= b.end < lines.len(),
        n <= b.end - b.start + 1,
    ensures
        ({
            let (cs, st, ln) = split_scan(source, lang, lines, b, max, overlap, n);
            forall|idx: int| b.start <= idx < st ==> covers(cs, idx)
        }),
    decreases n,
{
    if n > 0 {
        lemma_split_scan_cover(source, lang, lines, b, max, overlap, (n - 1) as nat);
        lemma_split_scan_good(source, lang, lines, b, max, overlap, (n - 1) as nat);
        let (cs, st, ln) = split_scan(source, lang, lines, b, max, overlap, (n - 1) as nat);
        let i = n - 1;
        let lc = utf8_len(lines[b.start + i]) + 1;
        let chars = lines_bytes(lines.subrange(st, st + ln));
        if chars + lc > max && ln > 0 {
            let c = make_chunk(
                source,
                lang,
                (st + 1) as nat,
                (st + ln) as nat,
                range_text(lines, st, st + ln),
                if st == b.start { b.symbol } else { None },
            );
            let keep = if overlap_lines(overlap) < ln { overlap_lines(overlap) as int } else { ln };
            assert forall|idx: int| b.start <= idx < b.start + i - keep implies covers(cs.push(c), idx) by {
                if idx < st {
                    lemma_covers_push(cs, c, idx);
                } else {
                    assert(cs.push(c)[cs.len() as int] == c);
                }
            }
        }
    }
}

/// Law: splitting loses no line: every line of a code block lies in one of
/// the block's chunks.
pub proof fn law_block_chunks_cover(
    source: Seq<char>,
    lang: Seq<char>,
    lines: Seq<Seq<char>>,
    b: BlockModel,
    max: nat,
    overlap: nat,
)
    requires
        0 <= b.start <= b.end < lines.len(),
    ensures
        forall|idx: int| b.start <= idx <= b.end ==> covers(block_chunks(source, lang, lines, b, max, overlap), idx),
{
    let text = range_text(lines, b.start, b.end + 1);
    if utf8_len(text) <= max {
        let cs = block_chunks(source, lang, lines, b, max, overlap);
        assert forall|idx: int| b.start <= idx <= b.end implies covers(cs, idx) by {
            assert(cs[0].start_line <= idx + 1 <= cs[0].end_line);
        }
    } else {
        let n = (b.end - b.start + 1) as nat;
        lemma_split_scan_cover(source, lang, lines, b, max, overlap, n);
        lemma_split_scan_good(source, lang, lines, b, max, overlap, n);
        let (cs, st, ln) = split_scan(source, lang, lines, b, max, overlap, n);
        let c = make_chunk(
            source,
            lang,
            (st + 1) as nat,
            (st + ln) as nat,
            range_text(lines, st, st + ln),
            if st == b.start { b.symbol } else { None },
        );
        assert forall|idx: int| b.start <= idx <= b.end implies covers(cs.push(c), idx) by {
            if idx < st {
                lemma_covers_push(cs, c, idx);
            } else {
                assert(cs.push(c)[cs.len() as int] == c);
            }
        }
    }
}

/// The blocks lie in the file, in order, each starting right after the
/// previous one ends.
pub open spec fn contiguous_blocks(bs: Seq<BlockModel>, n: int) -> bool {
    &&& forall|k: int| 0 <= k < bs.len() ==> 0 <= (#[trigger] bs[k]).start <= bs[k].end < n
    &&& forall|k: int| 0 < k < bs.len() ==> (#[trigger] bs[k]).start == bs[k - 1].end + 1
}

proof fn lemma_block_scan(lines: Seq<Seq<char>>, pats: Seq<Seq<char>>, n: nat)
    requires
        n <= lines.len(),
    ensures
        ({
            let (bs, cur) = block_scan(lines, pats, n);
            &&& contiguous_blocks(bs, n as int)
            &&& match cur {
                Some(c) => c.end == n - 1 && 0 <= c.start <= c.end && (bs.len() > 0 ==> c.start == bs.last().end + 1),
                None => bs.len() == 0,
            }
        }),
    decreases n,
{
    if n > 0 {
        lemma_block_scan(lines, pats, (n - 1) as nat);
        let (bs, cur) = block_scan(lines, pats, (n - 1) as nat);
        let i = n - 1;
        if starts_block(lines[i], pats) {
            match cur {
                Some(b) => {
                    let q = bs.push(b);
                    assert forall|k: int| 0 <= k < q.len() implies 0 <= (#[trigger] q[k]).start <= q[k].end < n by {
                        if k < bs.len() {
                            assert(q[k] == bs[k]);
                        }
                    }
                    assert forall|k: int| 0 < k < q.len() implies (#[trigger] q[k]).start == q[k - 1].end + 1 by {
                        if k < bs.len() {
                            assert(q[k] == bs[k] && q[k - 1] == bs[k - 1]);
                        } else {
                            assert(q[k] == b && q[k - 1] == bs.last());
                        }
                    }
                    assert(q.last() == b);
                },
                None => {},
            }
        }
    }
}

proof fn lemma_code_blocks(lines: Seq<Seq<char>>, lang: Seq<char>)
    requires
        lines.len() > 0,
    ensures
        code_blocks(lines, lang).len() > 0,
        contiguous_blocks(code_blocks(lines, lang), lines.len() as int),
        code_blocks(lines, lang).last().end == lines.len() - 1,
{
    let pats = start_patterns(lang);
    lemma_block_scan(lines, pats, lines.len());
    let (bs, cur) = block_scan(lines, pats, lines.len());
    match cur {
        Some(c) => {
            let q = bs.push(c);
            assert forall|k: int| 0 <= k < q.len() implies 0 <= (#[trigger] q[k]).start <= q[k].end < lines.len() by {
                if k < bs.len() {
                    assert(q[k] == bs[k]);
                }
            }
            assert forall|k: int| 0 < k < q.len() implies (#[trigger] q[k]).start == q[k - 1].end + 1 by {
                if k < bs.len() {
                    assert(q[k] == bs[k] && q[k - 1] == bs[k - 1]);
                } else {
                    assert(q[k] == c && q[k - 1] == bs.last());
                }
            }
            assert(q.last() == c);
        },
        None => {},
    }
}

proof fn lemma_covers_concat(a: Seq<ChunkModel>, b: Seq<ChunkModel>, idx: int)
    requires
        covers(a, idx) || covers(b, idx),
    ensures
        covers(a + b, idx),
{
    if covers(a, idx) {
        let k = choose|k: int| 0 <= k < a.len() && (#[trigger] a[k]).start_line <= idx + 1 <= a[k].end_line;
        assert((a + b)[k] == a[k]);
    } else {
        let k = choose|k: int| 0 <= k < b.len() && (#[trigger] b[k]).start_line <= idx + 1 <= b[k].end_line;
        assert((a + b)[a.len() + k] == b[k]);
    }
}

proof fn lemma_blocks_chunks_cover(
    source: Seq<char>,
    lang: Seq<char>,
    lines: Seq<Seq<char>>,
    bs: Seq<BlockModel>,
    max: nat,
    overlap: nat,
    k: nat,
)
    requires
        0 < k <= bs.len(),
        contiguous_blocks(bs, lines.len() as int),
    ensures
        forall|idx: int| bs[0].start <= idx <= bs[k - 1].end ==> covers(blocks_chunks(source, lang, lines, bs, max, overlap, k), idx),
    decreases k,
{
    let prev = blocks_chunks(source, lang, lines, bs, max, overlap, (k - 1) as nat);
    let last = block_chunks(source, lang, lines, bs[k - 1], max, overlap);
    law_block_chunks_cover(source, lang, lines, bs[k - 1], max, overlap);
    if k > 1 {
        lemma_blocks_chunks_cover(source, lang, lines, bs, max, overlap, (k - 1) as nat);
        assert(bs[k - 1].start == bs[k - 2].end + 1);
    }
    assert forall|idx: int| bs[0].start <= idx <= bs[k - 1].end implies covers(prev + last, idx) by {
        if k > 1 && idx <= bs[k - 2].end {
            lemma_covers_concat(prev, last, idx);
        } else {
            lemma_covers_concat(prev, last, idx);
        }
    }
}

/// Law: chunking a file loses no line from its first code block on: every
/// line from the start of the first block to the last line of the file lies
/// in some chunk.
pub proof fn law_chunks_cover_file(max: nat, overlap: nat, source: Seq<char>, lang: Seq<char>, content: Seq<char>)
    requires
        lines_of(content).len() > 0,
    ensures
        forall|idx: int| code_blocks(lines_of(content), lang)[0].start <= idx < lines_of(content).len() ==> covers(
            chunk_text(max, overlap, source, lang, content),
            idx,
        ),
{
    let lines = lines_of(content);
    let bs = code_blocks(lines, lang);
    lemma_code_blocks(lines, lang);
    lemma_blocks_chunks_cover(source, lang, lines, bs, max, overlap, bs.len());
}

proof fn lemma_block_scan_opens(lines: Seq<Seq<char>>, pats: Seq<Seq<char>>, n: nat, i: int)
    requires
        0 <= i < n <= lines.len(),
        starts_block(lines[i], pats),
    ensures
        block_scan(lines, pats, n).1 matches Some(b) && b.start == i || exists|k: int|
            0 <= k < block_scan(lines, pats, n).0.len() && (#[trigger] block_scan(lines, pats, n).0[k]).start == i,
    decreases n,
{
    let (bs, cur) = block_scan(lines, pats, (n - 1) as nat);
    let (bs2, cur2) = block_scan(lines, pats, n);
    if n > i + 1 {
        lemma_block_scan_opens(lines, pats, (n - 1) as nat, i);
        if starts_block(lines[n - 1], pats) {
            match cur {
                Some(b) => {
                    assert(bs2 == bs.push(b));
                    if b.start == i {
                        assert(bs2[bs.len() as int].start == i);
                    } else {
                        let k = choose|k: int| 0 <= k < bs.len() && (#[trigger] bs[k]).start == i;
                        assert(bs2[k] == bs[k]);
                    }
                },
                None => {
                    assert(bs2 == bs);
                    let k = choose|k: int| 0 <= k < bs.len() && (#[trigger] bs[k]).start == i;
                    assert(bs2[k].start == i);
                },
            }
        } else {
            assert(bs2 == bs);
            match cur {
                Some(b) => {
                    if b.start != i {
                        let k = choose|k: int| 0 <= k < bs.len() && (#[trigger] bs[k]).start == i;
                        assert(bs2[k].start == i);
                    }
                },
                None => {
                    let k = choose|k: int| 0 <= k < bs.len() && (#[trigger] bs[k]).start == i;
                    assert(bs2[k].start == i);
                },
            }
        }
    }
}

/// Some code block of the file starts at line `i` when that line starts one.
proof fn lemma_code_blocks_open(lines: Seq<Seq<char>>, lang: Seq<char>, i: int) -> (kb: int)
    requires
        0 <= i < lines.len(),
        starts_block(lines[i], start_patterns(lang)),
    ensures
        0 <= kb < code_blocks(lines, lang).len(),
        code_blocks(lines, lang)[kb].start == i,
{
    let pats = start_patterns(lang);
    lemma_block_scan_opens(lines, pats, lines.len(), i);
    let (bs, cur) = block_scan(lines, pats, lines.len());
    match cur {
        Some(b) => {
            let all = bs.push(b);
            assert(code_blocks(lines, lang) == all);
            if b.start == i {
                assert(all[bs.len() as int] == b);
                bs.len() as int
            } else {
                let k = choose|k: int| 0 <= k < bs.len() && (#[trigger] bs[k]).start == i;
                assert(all[k] == bs[k]);
                k
            }
        },
        None => {
            let k = choose|k: int| 0 <= k < bs.len() && (#[trigger] bs[k]).start == i;
            assert(code_blocks(lines, lang) == bs);
            k
        },
    }
}

proof fn lemma_split_scan_first(
    source: Seq<char>,
    lang: Seq<char>,
    lines: Seq<Seq<char>>,
    b: BlockModel,
    max: nat,
    overlap: nat,
    n: nat,
)
    requires
        0 <= b.start <= b.end < lines.len(),
        n <= b.end - b.start + 1,
    ensures
        ({
            let (cs, st, ln) = split_scan(source, lang, lines, b, max, overlap, n);
            &&& cs.len() == 0 ==> st == b.start
            &&& cs.len() > 0 ==> cs[0].start_line == b.start + 1
        }),
    decreases n,
{
    if n > 0 {
        lemma_split_scan_first(source, lang, lines, b, max, overlap, (n - 1) as nat);
        lemma_split_scan_good(source, lang, lines, b, max, overlap, (n - 1) as nat);
        let (cs, st, ln) = split_scan(source, lang, lines, b, max, overlap, (n - 1) as nat);
        let i = n - 1;
        let lc = utf8_len(lines[b.start + i]) + 1;
        let chars = lines_bytes(lines.subrange(st, st + ln));
        if chars + lc > max && ln > 0 {
            let c = make_chunk(
                source,
                lang,
                (st + 1) as nat,
                (st + ln) as nat,
                range_text(lines, st, st + ln),
                if st == b.start { b.symbol } else { None },
            );
            assert(cs.push(c)[0] == if cs.len() == 0 { c } else { cs[0] });
        }
    }
}

/// The first chunk of a block starts at the block's first line.
proof fn lemma_block_first_chunk(
    source: Seq<char>,
    lang: Seq<char>,
    lines: Seq<Seq<char>>,
    b: BlockModel,
    max: nat,
    overlap: nat,
)
    requires
        0 <= b.start <= b.end < lines.len(),
    ensures
        block_chunks(source, lang, lines, b, max, overlap).len() > 0,
        block_chunks(source, lang, lines, b, max, overlap)[0].start_line == b.start + 1,
{
    let text = range_text(lines, b.start, b.end + 1);
    if utf8_len(text) > max {
        let n = (b.end - b.start + 1) as nat;
        lemma_split_scan_first(source, lang, lines, b, max, overlap, n);
        lemma_split_scan_good(source, lang, lines, b, max, overlap, n);
        let (cs, st, ln) = split_scan(source, lang, lines, b, max, overlap, n);
        let c = make_chunk(
            source,
            lang,
            (st + 1) as nat,
            (st + ln) as nat,
            range_text(lines, st, st + ln),
            if st == b.start { b.symbol } else { None },
        );
        assert(cs.push(c)[0] == if cs.len() == 0 { c } else { cs[0] });
    }
}

proof fn lemma_blocks_chunks_start(
    source: Seq<char>,
    lang: Seq<char>,
    lines: Seq<Seq<char>>,
    bs: Seq<BlockModel>,
    max: nat,
    overlap: nat,
    k: nat,
    kb: int,
)
    requires
        0 <= kb < k <= bs.len(),
        contiguous_blocks(bs, lines.len() as int),
    ensures
        exists|c: int| 0 <= c < blocks_chunks(source, lang, lines, bs, max, overlap, k).len()
            && (#[trigger] blocks_chunks(source, lang, lines, bs, max, overlap, k)[c]).start_line == bs[kb].start + 1,
    decreases k,
{
    let prev = blocks_chunks(source, lang, lines, bs, max, overlap, (k - 1) as nat);
    let last = block_chunks(source, lang, lines, bs[k - 1], max, overlap);
    assert(blocks_chunks(source, lang, lines, bs, max, overlap, k) == prev + last);
    if kb == k - 1 {
        assert(0 <= bs[kb].start <= bs[kb].end < lines.len());
        lemma_block_first_chunk(source, lang, lines, bs[kb], max, overlap);
        assert((prev + last)[prev.len() as int] == last[0]);
    } else {
        lemma_blocks_chunks_start(source, lang, lines, bs, max, overlap, (k - 1) as nat, kb);
        let c = choose|c: int| 0 <= c < prev.len() && (#[trigger] prev[c]).start_line == bs[kb].start + 1;
        assert((prev + last)[c] == prev[c]);
    }
}

/// A line that starts a code block of `lang` is where some chunk starts.
proof fn lemma_block_line_starts_chunk(max: nat, overlap: nat, source: Seq<char>, lang: Seq<char>, content: Seq<char>, i: int)
    requires
        0 <= i < lines_of(content).len(),
        starts_block(lines_of(content)[i], start_patterns(lang)),
    ensures
        exists|k: int| 0 <= k < chunk_text(max, overlap, source, lang, content).len()
            && (#[trigger] chunk_text(max, overlap, source, lang, content)[k]).start_line == i + 1,
{
    let lines = lines_of(content);
    let kb = lemma_code_blocks_open(lines, lang, i);
    lemma_code_blocks(lines, lang);
    let blocks = code_blocks(lines, lang);
    lemma_blocks_chunks_start(source, lang, lines, blocks, max, overlap, blocks.len(), kb);
    let cs = blocks_chunks(source, lang, lines, blocks, max, overlap, blocks.len());
    assert(chunk_text(max, overlap, source, lang, content) == cs);
    let c = choose|c: int| 0 <= c < cs.len() && (#[trigger] cs[c]).start_line == blocks[kb].start + 1;
    assert(cs[c].start_line == i + 1);
}

/// Law: in a Rust file, every line whose text after leading white space
/// starts with `fn `, `pub fn `, `async fn `, `struct `, `pub struct `,
/// `enum `, `impl ` or `trait ` opens a code block, so some chunk starts at
/// that line (and `law_chunks_cover_file` covers the lines after it).
pub proof fn law_rust_block_lines_start_chunks(max: nat, overlap: nat, source: Seq<char>, content: Seq<char>, i: int)
    requires
        0 <= i < lines_of(content).len(),
        ({
            let t = trim_start(lines_of(content)[i]);
            has_prefix(t, "fn "@) || has_prefix(t, "pub fn "@) || has_prefix(t, "async fn "@) || has_prefix(t, "struct "@)
                || has_prefix(t, "pub struct "@) || has_prefix(t, "enum "@) || has_prefix(t, "impl "@) || has_prefix(
                t,
                "trait "@,
            )
        }),
    ensures
        exists|k: int| 0 <= k < chunk_text(max, overlap, source, "rs"@, content).len()
            && (#[trigger] chunk_text(max, overlap, source, "rs"@, content)[k]).start_line == i + 1,
{
    let t = trim_start(lines_of(content)[i]);
    let pats = start_patterns("rs"@);
    assert(pats == seq!["fn "@, "pub fn "@, "async fn "@, "struct "@, "pub struct "@, "enum "@, "impl "@, "trait "@]);
    assert(starts_block(lines_of(content)[i], pats)) by {
        if has_prefix(t, "fn "@) { assert(has_prefix(t, pats[0])); }
        if has_prefix(t, "pub fn "@) { assert(has_prefix(t, pats[1])); }
        if has_prefix(t, "async fn "@) { assert(has_prefix(t, pats[2])); }
        if has_prefix(t, "struct "@) { assert(has_prefix(t, pats[3])); }
        if has_prefix(t, "pub struct "@) { assert(has_prefix(t, pats[4])); }
        if has_prefix(t, "enum "@) { assert(has_prefix(t, pats[5])); }
        if has_prefix(t, "impl "@) { assert(has_prefix(t, pats[6])); }
        if has_prefix(t, "trait "@) { assert(has_prefix(t, pats[7])); }
    }
    lemma_block_line_starts_chunk(max, overlap, source, "rs"@, content, i);
}

/// Law: in a Python file, every line whose text after leading white space
/// starts with `def `, `async def ` or `class ` is where some chunk starts.
pub proof fn law_python_block_lines_start_chunks(max: nat, overlap: nat, source: Seq<char>, content: Seq<char>, i: int)
    requires
        0 <= i < lines_of(content).len(),
        ({
            let t = trim_start(lines_of(content)[i]);
            has_prefix(t, "def "@) || has_prefix(t, "async def "@) || has_prefix(t, "class "@)
        }),
    ensures
        exists|k: int| 0 <= k < chunk_text(max, overlap, source, "py"@, content).len()
            && (#[trigger] chunk_text(max, overlap, source, "py"@, content)[k]).start_line == i + 1,
{
    reveal_strlit("py");
    reveal_strlit("rs");
    assert("py"@[0] != "rs"@[0]);
    let t = trim_start(lines_of(content)[i]);
    let pats = start_patterns("py"@);
    assert(pats == seq!["def "@, "async def "@, "class "@]);
    assert(starts_block(lines_of(content)[i], pats)) by {
        if has_prefix(t, "def "@) { assert(has_prefix(t, pats[0])); }
        if has_prefix(t, "async def "@) { assert(has_prefix(t, pats[1])); }
        if has_prefix(t, "class "@) { assert(has_prefix(t, pats[2])); }
    }
    lemma_block_line_starts_chunk(max, overlap, source, "py"@, content, i);
}

/// Law: in a TypeScript or JavaScript file, every line whose text after
/// leading white space starts with `function `, `async function `, `class `,
/// `export function `, `const ` or `let ` is where some chunk starts.
pub proof fn law_script_block_lines_start_chunks(
    max: nat,
    overlap: nat,
    source: Seq<char>,
    lang: Seq<char>,
    content: Seq<char>,
    i: int,
)
    requires
        lang == "ts"@ || lang == "js"@,
        0 <= i < lines_of(content).len(),
        ({
            let t = trim_start(lines_of(content)[i]);
            has_prefix(t, "function "@) || has_prefix(t, "async function "@) || has_prefix(t, "class "@) || has_prefix(
                t,
                "export function "@,
            ) || has_prefix(t, "const "@) || has_prefix(t, "let "@)
        }),
    ensures
        exists|k: int| 0 <= k < chunk_text(max, overlap, source, lang, content).len()
            && (#[trigger] chunk_text(max, overlap, source, lang, content)[k]).start_line == i + 1,
{
    reveal_strlit("ts");
    reveal_strlit("js");
    reveal_strlit("py");
    reveal_strlit("rs");
    assert(lang[0] != "rs"@[0] && lang[0] != "py"@[0]);
    let t = trim_start(lines_of(content)[i]);
    let pats = start_patterns(lang);
    assert(pats == seq!["function "@, "async function "@, "class "@, "export function "@, "const "@, "let "@]);
    assert(starts_block(lines_of(content)[i], pats)) by {
        if has_prefix(t, "function "@) { assert(has_prefix(t, pats[0])); }
        if has_prefix(t, "async function "@) { assert(has_prefix(t, pats[1])); }
        if has_prefix(t, "class "@) { assert(has_prefix(t, pats[2])); }
        if has_prefix(t, "export function "@) { assert(has_prefix(t, pats[3])); }
        if has_prefix(t, "const "@) { assert(has_prefix(t, pats[4])); }
        if has_prefix(t, "let "@) { assert(has_prefix(t, pats[5])); }
    }
    lemma_block_line_starts_chunk(max, overlap, source, lang, content, i);
}

/// Law: in a file of any other language, every line whose text after
/// leading white space starts with `fn `, `function `, `def `, `class ` or
/// `struct ` is where some chunk starts.
pub proof fn law_other_block_lines_start_chunks(
    max: nat,
    overlap: nat,
    source: Seq<char>,
    lang: Seq<char>,
    content: Seq<char>,
    i: int,
)
    requires
        lang != "rs"@ && lang != "py"@ && lang != "ts"@ && lang != "js"@,
        0 <= i < lines_of(content).len(),
        ({
            let t = trim_start(lines_of(content)[i]);
            has_prefix(t, "fn "@) || has_prefix(t, "function "@) || has_prefix(t, "def "@) || has_prefix(t, "class "@)
                || has_prefix(t, "struct "@)
        }),
    ensures
        exists|k: int| 0 <= k < chunk_text(max, overlap, source, lang, content).len()
            && (#[trigger] chunk_text(max, overlap, source, lang, content)[k]).start_line == i + 1,
{
    let t = trim_start(lines_of(content)[i]);
    let pats = start_patterns(lang);
    assert(pats == seq!["fn "@, "function "@, "def "@, "class "@, "struct "@]);
    assert(starts_block(lines_of(content)[i], pats)) by {
        if has_prefix(t, "fn "@) { assert(has_prefix(t, pats[0])); }
        if has_prefix(t, "function "@) { assert(has_prefix(t, pats[1])); }
        if has_prefix(t, "def "@) { assert(has_prefix(t, pats[2])); }
        if has_prefix(t, "class "@) { assert(has_prefix(t, pats[3])); }
        if has_prefix(t, "struct "@) { assert(has_prefix(t, pats[4])); }
    }
    lemma_block_line_starts_chunk(max, overlap, source, lang, content, i);
}

/// The chunks' end lines strictly increase, so no two chunks share their
/// line range (and their identifiers hash different texts).
#[verifier::opaque]
pub open spec fn ends_increase(cs: Seq<ChunkModel>) -> bool {
    forall|i: int, j: int| 0 <= i < j < cs.len() ==> #[trigger] cs[i].end_line < #[trigger] cs[j].end_line
}

/// Every chunk ends within lines `lo..=hi` (1-based).
#[verifier::opaque]
pub open spec fn ends_within(cs: Seq<ChunkModel>, lo: int, hi: int) -> bool {
    forall|k: int| 0 <= k < cs.len() ==> lo <= (#[trigger] cs[k]).end_line <= hi
}

proof fn lemma_ends_push(cs: Seq<ChunkModel>, c: ChunkModel, lo: int, hi: int)
    requires
        ends_increase(cs),
        ends_within(cs, lo, c.end_line - 1),
        lo <= c.end_line <= hi,
    ensures
        ends_increase(cs.push(c)),
        ends_within(cs.push(c), lo, hi),
{
    reveal(ends_increase);
    reveal(ends_within);
    let q = cs.push(c);
    assert forall|i: int, j: int| 0 <= i < j < q.len() implies #[trigger] q[i].end_line < #[trigger] q[j].end_line by {
        assert(q[i] == cs[i]);
        if j < cs.len() {
            assert(q[j] == cs[j]);
        }
    }
    assert forall|k: int| 0 <= k < q.len() implies lo <= (#[trigger] q[k]).end_line <= hi by {
        if k < cs.len() {
            assert(q[k] == cs[k]);
        }
    }
}

proof fn lemma_split_scan_ends(
    source: Seq<char>,
    lang: Seq<char>,
    lines: Seq<Seq<char>>,
    b: BlockModel,
    max: nat,
    overlap: nat,
    n: nat,
)
    requires
        0 <= b.start <= b.end < lines.len(),
        n <= b.end - b.start + 1,
    ensures
        ({
            let (cs, st, ln) = split_scan(source, lang, lines, b, max, overlap, n);
            ends_increase(cs) && ends_within(cs, b.start + 1, st + ln - 1)
        }),
    decreases n,
{
    reveal(ends_increase);
    reveal(ends_within);
    lemma_split_scan_good(source, lang, lines, b, max, overlap, n);
    if n > 0 {
        lemma_split_scan_ends(source, lang, lines, b, max, overlap, (n - 1) as nat);
        lemma_split_scan_good(source, lang, lines, b, max, overlap, (n - 1) as nat);
        let (cs, st, ln) = split_scan(source, lang, lines, b, max, overlap, (n - 1) as nat);
        let i = n - 1;
        let lc = utf8_len(lines[b.start + i]) + 1;
        let chars = lines_bytes(lines.subrange(st, st + ln));
        if chars + lc > max && ln > 0 {
            let c = make_chunk(
                source,
                lang,
                (st + 1) as nat,
                (st + ln) as nat,
                range_text(lines, st, st + ln),
                if st == b.start { b.symbol } else { None },
            );
            lemma_ends_push(cs, c, b.start + 1, st + ln);
        } else {
            assert forall|k: int| 0 <= k < cs.len() implies b.start + 1 <= (#[trigger] cs[k]).end_line <= st + ln by {}
        }
    }
}

/// The chunks of a block end within it, in increasing order, the last at the
/// block's last line.
proof fn lemma_block_chunks_ends(
    source: Seq<char>,
    lang: Seq<char>,
    lines: Seq<Seq<char>>,
    b: BlockModel,
    max: nat,
    overlap: nat,
)
    requires
        0 <= b.start <= b.end < lines.len(),
    ensures
        ends_increase(block_chunks(source, lang, lines, b, max, overlap)),
        ends_within(block_chunks(source, lang, lines, b, max, overlap), b.start + 1, b.end + 1),
{
    reveal(ends_increase);
    reveal(ends_within);
    let text = range_text(lines, b.start, b.end + 1);
    if utf8_len(text) > max {
        let n = (b.end - b.start + 1) as nat;
        lemma_split_scan_good(source, lang, lines, b, max, overlap, n);
        lemma_split_scan_ends(source, lang, lines, b, max, overlap, n);
        let (cs, st, ln) = split_scan(source, lang, lines, b, max, overlap, n);
        let c = make_chunk(
            source,
            lang,
            (st + 1) as nat,
            (st + ln) as nat,
            range_text(lines, st, st + ln),
            if st == b.start { b.symbol } else { None },
        );
        lemma_ends_push(cs, c, b.start + 1, b.end + 1);
    }
}

proof fn lemma_blocks_chunks_ends(
    source: Seq<char>,
    lang: Seq<char>,
    lines: Seq<Seq<char>>,
    bs: Seq<BlockModel>,
    max: nat,
    overlap: nat,
    k: nat,
)
    requires
        0 < k <= bs.len(),
        contiguous_blocks(bs, lines.len() as int),
    ensures
        ends_increase(blocks_chunks(source, lang, lines, bs, max, overlap, k)),
        ends_within(blocks_chunks(source, lang, lines, bs, max, overlap, k), bs[0].start + 1, bs[k - 1].end + 1),
    decreases k,
{
    let prev = blocks_chunks(source, lang, lines, bs, max, overlap, (k - 1) as nat);
    let last = block_chunks(source, lang, lines, bs[k - 1], max, overlap);
    assert(0 <= bs[k - 1].start <= bs[k - 1].end < lines.len());
    lemma_block_chunks_ends(source, lang, lines, bs[k - 1], max, overlap);
    if k > 1 {
        lemma_blocks_chunks_ends(source, lang, lines, bs, max, overlap, (k - 1) as nat);
        lemma_contiguous_order(bs, lines.len() as int, (k - 2) as int);
        lemma_ends_concat(prev, last, bs[0].start + 1, bs[k - 2].end + 1, bs[k - 1].end + 1);
    } else {
        assert(prev + last =~= last);
    }
}

/// Contiguous blocks start no later than the `i`-th ends, and the next one
/// starts right after it.
proof fn lemma_contiguous_order(bs: Seq<BlockModel>, n: int, i: int)
    requires
        contiguous_blocks(bs, n),
        0 <= i < bs.len() - 1,
    ensures
        bs[0].start <= bs[i].end,
        bs[i + 1].start == bs[i].end + 1,
        bs[i + 1].start <= bs[i + 1].end,
    decreases i,
{
    if i > 0 {
        lemma_contiguous_order(bs, n, i - 1);
    }
    assert(0 <= bs[i].start <= bs[i].end < n);
    assert(0 <= bs[i + 1].start <= bs[i + 1].end < n);
}

proof fn lemma_ends_concat(a: Seq<ChunkModel>, b: Seq<ChunkModel>, lo: int, mid: int, hi: int)
    requires
        ends_increase(a),
        ends_within(a, lo, mid),
        ends_increase(b),
        ends_within(b, mid + 1, hi),
        lo <= mid < hi,
    ensures
        ends_increase(a + b),
        ends_within(a + b, lo, hi),
{
    reveal(ends_increase);
    reveal(ends_within);
    let q = a + b;
    assert forall|i: int, j: int| 0 <= i < j < q.len() implies #[trigger] q[i].end_line < #[trigger] q[j].end_line by {
        if j < a.len() {
            assert(q[i] == a[i] && q[j] == a[j]);
        } else if i < a.len() {
            assert(q[i] == a[i] && q[j] == b[j - a.len()]);
        } else {
            assert(q[i] == b[i - a.len()] && q[j] == b[j - a.len()]);
        }
    }
    assert forall|m: int| 0 <= m < q.len() implies lo <= (#[trigger] q[m]).end_line <= hi by {
        if m < a.len() {
            assert(q[m] == a[m]);
        } else {
            assert(q[m] == b[m - a.len()]);
        }
    }
}

/// Law: the chunks of a text come in order of their end lines, which
/// strictly increase: no two chunks cover the same line range.
pub proof fn law_chunk_ends_increase(max: nat, overlap: nat, source: Seq<char>, lang: Seq<char>, content: Seq<char>)
    ensures
        ends_increase(chunk_text(max, overlap, source, lang, content)),
{
    let lines = lines_of(content);
    if lines.len() > 0 {
        let bs = code_blocks(lines, lang);
        lemma_code_blocks(lines, lang);
        lemma_blocks_chunks_ends(source, lang, lines, bs, max, overlap, bs.len());
    } else {
        reveal(ends_increase);
    }
}

fn patterns_for(lang: &str) -> (r: Vec<Vec<char>>)
    ensures
        views(r@) == start_patterns(lang@),
{
    if str_equal(lang, "rs") {
        let r = vec![
            str_chars("fn "),
            str_chars("pub fn "),
            str_chars("async fn "),
            str_chars("struct "),
            str_chars("pub struct "),
            str_chars("enum "),
            str_chars("impl "),
            str_chars("trait "),
        ];
        assert(views(r@) =~= start_patterns(lang@));
        r
    } else if str_equal(lang, "py") {
        let r = vec![str_chars("def "), str_chars("async def "), str_chars("class ")];
        assert(views(r@) =~= start_patterns(lang@));
        r
    } else if str_equal(lang, "ts") || str_equal(lang, "js") {
        let r = vec![
            str_chars("function "),
            str_chars("async function "),
            str_chars("class "),
            str_chars("export function "),
            str_chars("const "),
            str_chars("let "),
        ];
        assert(views(r@) =~= start_patterns(lang@));
        r
    } else {
        let r = vec![
            str_chars("fn "),
            str_chars("function "),
            str_chars("def "),
            str_chars("class "),
            str_chars("struct "),
        ];
        assert(views(r@) =~= start_patterns(lang@));
        r
    }
}

fn keywords() -> (r: Vec<Vec<char>>)
    ensures
        views(r@) == symbol_keywords(),
{
    let r = vec![
        str_chars("fn "),
        str_chars("pub fn "),
        str_chars("struct "),
        str_chars("enum "),
        str_chars("impl "),
        str_chars("def "),
        str_chars("class "),
        str_chars("function "),
        str_chars("const "),
    ];
    assert(views(r@) =~= symbol_keywords());
    r
}

/// Whether some pattern prefixes `line[from..]`.
fn any_prefix_at(line: &[char], from: usize, pats: &Vec<Vec<char>>) -> (r: bool)
    requires
        from <= line@.len(),
    ensures
        r == (exists|k: int| 0 <= k < pats@.len() && has_prefix(line@.skip(from as int), #[trigger] views(pats@)[k])),
{
    let n = pats.len();
    for k in 0..n
        invariant
            n == pats@.len(),
            from <= line@.len(),
            forall|j: int| 0 <= j < k ==> !has_prefix(line@.skip(from as int), #[trigger] views(pats@)[j]),
    {
        if starts_with_at(line, from, pats[k].as_slice()) {
            assert(has_prefix(line@.skip(from as int), views(pats@)[k as int]));
            return true;
        }
    }
    false
}

/// Clones an optional string.
fn clone_opt(o: &Option<String>) -> (r: Option<String>)
    ensures
        opt_view(r) == opt_view(*o),
{
    match o {
        Some(s) => Some(s.clone()),
        None => None,
    }
}

/// A code block: lines `start..=end` (0-based) and the symbol that opens it.
struct CodeBlock {
    start: usize,
    end: usize,
    symbol: Option<String>,
}

impl View for CodeBlock {
    type V = BlockModel;

    closed spec fn view(&self) -> BlockModel {
        BlockModel { start: self.start as int, end: self.end as int, symbol: opt_view(self.symbol) }
    }
}

spec fn block_views(bs: Seq<CodeBlock>) -> Seq<BlockModel> {
    bs.map_values(|b: CodeBlock| b@)
}

spec fn opt_block_view(o: Option<CodeBlock>) -> Option<BlockModel> {
    match o {
        Some(b) => Some(b@),
        None => None,
    }
}

/// Code-aware text chunker.
pub struct Chunker {
    max_chars: usize,
    overlap_chars: usize,
}

impl Chunker {
    /// The byte budget of a chunk.
    pub closed spec fn max_chars_of(&self) -> nat {
        self.max_chars as nat
    }

    /// The overlap budget (in characters) between pieces of a large block.
    pub closed spec fn overlap_chars_of(&self) -> nat {
        self.overlap_chars as nat
    }

    pub fn new(max_chars: usize, overlap_chars: usize) -> (r: Self)
        ensures
            r.max_chars_of() == max_chars,
            r.overlap_chars_of() == overlap_chars,
    {
        Self { max_chars, overlap_chars }
    }

    /// The chunk identifier of lines `start..=end` of `source`.
    fn compute_id(source: &str, start: usize, end: usize) -> (r: String)
        ensures
            r@ == chunk_id(source@, start as nat, end as nat),
    {
        let mut buf = str_chars(source);
        buf.push(':');
        push_decimal(&mut buf, start as u64);
        buf.push(':');
        push_decimal(&mut buf, end as u64);
        assert(buf@ =~= id_input(source@, start as nat, end as nat));
        let text = string_from_chars(buf.as_slice());
        sha256_hex(text.as_str())
    }

    /// The symbol named on the trimmed line `line[from..]`.
    fn extract_symbol(&self, line: &[char], from: usize) -> (r: Option<String>)
        requires
            from <= line@.len(),
        ensures
            opt_view(r) == extract_symbol(line@.skip(from as int)),
    {
        let ghost t = line@.skip(from as int);
        let kws = keywords();
        let n = kws.len();
        for k in 0..n
            invariant
                n == kws@.len(),
                views(kws@) == symbol_keywords(),
                from <= line@.len(),
                t == line@.skip(from as int),
                symbol_from(t, symbol_keywords(), k as nat) == extract_symbol(t),
        {
            let kw = &kws[k];
            if starts_with_at(line, from, kw.as_slice()) {
                let ln = line.len();
                assert(line@.skip(from as int).len() == ln - from);
                let name = ident_prefix_at(line, from + kw.len());
                assert(t.skip(kw@.len() as int) =~= line@.skip(from + kw@.len()));
                if name.len() > 0 {
                    return Some(string_from_chars(name.as_slice()));
                }
            }
        }
        None
    }

    /// Splits the lines of a file into code blocks (see `code_blocks`).
    #[verifier::spinoff_prover]
    fn detect_code_blocks(&self, lines: &Vec<Vec<char>>, lang: &str) -> (r: Vec<CodeBlock>)
        requires
            lines@.len() > 0,
        ensures
            block_views(r@) == code_blocks(views(lines@), lang@),
            r@.len() > 0,
            forall|j: int| 0 <= j < r@.len() ==> r@[j].start <= #[trigger] r@[j].end < lines@.len(),
    {
        let ghost vs = views(lines@);
        let pats = patterns_for(lang);
        let ghost pv = start_patterns(lang@);
        let mut blocks: Vec<CodeBlock> = Vec::new();
        let mut current: Option<CodeBlock> = None;
        let n = lines.len();
        for i in 0..n
            invariant
                n == lines@.len(),
                vs == views(lines@),
                views(pats@) == pv,
                (block_views(blocks@), opt_block_view(current)) == block_scan(vs, pv, i as nat),
                forall|j: int| 0 <= j < blocks@.len() ==> blocks@[j].start <= #[trigger] blocks@[j].end < i,
                current matches Some(c) ==> c.start <= c.end < i,
        {
            let line = &lines[i];
            let t = trim_start_index(line.as_slice());
            let is_start = any_prefix_at(line.as_slice(), t, &pats);
            proof {
                assert(vs[i as int] == line@);
                assert(trim_start(line@) == line@.skip(t as int));
                if is_start {
                    let k = choose|k: int| 0 <= k < pats@.len() && has_prefix(line@.skip(t as int), #[trigger] views(pats@)[k]);
                    assert(has_prefix(trim_start(vs[i as int]), pv[k]));
                } else {
                    assert forall|k: int| 0 <= k < pv.len() implies !has_prefix(trim_start(vs[i as int]), #[trigger] pv[k]) by {
                        assert(pv[k] == views(pats@)[k]);
                    }
                }
                assert(is_start == starts_block(vs[i as int], pv));
            }
            if is_start {
                let prev = current;
                match prev {
                    Some(b) => {
                        blocks.push(b);
                    },
                    None => {},
                }
                let symbol = self.extract_symbol(line.as_slice(), t);
                current = Some(CodeBlock { start: i, end: i, symbol });
                proof {
                    assert(block_views(blocks@) =~= block_scan(vs, pv, (i + 1) as nat).0);
                }
            } else {
                let prev = current;
                current = match prev {
                    Some(b) => Some(CodeBlock { start: b.start, end: i, symbol: b.symbol }),
                    None => None,
                };
            }
        }
        match current {
            Some(b) => {
                blocks.push(b);
            },
            None => {},
        }
        proof {
            assert(vs.len() == n);
        }
        if blocks.len() == 0 {
            blocks.push(CodeBlock { start: 0, end: n - 1, symbol: None });
            assert(block_views(blocks@) =~= code_blocks(vs, lang@));
        } else {
            assert(block_views(blocks@) =~= code_blocks(vs, lang@));
        }
        blocks
    }

    /// Splits `content` into chunks: one per code block that fits in
    /// `max_chars` bytes, and overlapping pieces of each block that does not
    /// (see `chunk_text`).
    #[verifier::spinoff_prover]
    pub fn chunk(&self, source: &str, lang: &str, content: &str) -> (r: Vec<Chunk>)
        requires
            utf8_len(content@) < usize::MAX,
        ensures
            chunk_views(r@) == chunk_text(self.max_chars_of(), self.overlap_chars_of(), source@, lang@, content@),
            forall|k: int| 0 <= k < r@.len() ==> good_chunk(#[trigger] r@[k]@, source@, lang@, lines_of(content@)),
            r@.len() == 0 <==> lines_of(content@).len() == 0,
    {
        let cs = str_chars(content);
        let lines = split_lines(cs.as_slice());
        let ghost vs = views(lines@);
        if lines.len() == 0 {
            return Vec::new();
        }
        proof {
            lemma_lines_of_bytes(content@);
        }
        let blocks = self.detect_code_blocks(&lines, lang);
        let ghost bs = code_blocks(vs, lang@);
        let ghost max = self.max_chars_of();
        let ghost ov = self.overlap_chars_of();
        let mut chunks: Vec<Chunk> = Vec::new();
        let nb = blocks.len();
        let nl = lines.len();
        for k in 0..nb
            invariant
                nb == blocks@.len(),
                nl == lines@.len(),
                vs == views(lines@),
                vs == lines_of(content@),
                vs.len() > 0,
                bs == block_views(blocks@),
                max == self.max_chars_of(),
                ov == self.overlap_chars_of(),
                lines_bytes(vs) <= usize::MAX,
                forall|j: int| 0 <= j < blocks@.len() ==> blocks@[j].start <= #[trigger] blocks@[j].end < lines@.len(),
                chunk_views(chunks@) == blocks_chunks(source@, lang@, vs, bs, max, ov, k as nat),
                forall|j: int| 0 <= j < chunks@.len() ==> good_chunk(#[trigger] chunks@[j]@, source@, lang@, vs),
                k > 0 ==> chunks@.len() > 0,
        {
            let block = &blocks[k];
            assert(bs[k as int] == block@);
            let text = join_line_range(&lines, block.start, block.end);
            proof {
                lemma_join_lines_len(vs.subrange(block.start as int, block.end + 1));
                lemma_lines_bytes_subrange(vs, block.start as int, block.end + 1);
            }
            let tl = utf8_byte_len(text.as_slice());
            let ghost pre = chunk_views(chunks@);
            let ghost pre_chunks = chunks@;
            proof {
                lemma_block_chunks_good(source@, lang@, vs, block@, max, ov);
            }
            if tl <= self.max_chars {
                let id = Self::compute_id(source, block.start + 1, block.end + 1);
                let c = Chunk {
                    id,
                    source: source.to_owned(),
                    lang: lang.to_owned(),
                    start_line: block.start + 1,
                    end_line: block.end + 1,
                    text: string_from_chars(text.as_slice()),
                    symbol: clone_opt(&block.symbol),
                };
                chunks.push(c);
                assert(chunk_views(chunks@) =~= pre + seq![c@]);
                assert(chunks@[chunks@.len() - 1]@ == block_chunks(source@, lang@, vs, block@, max, ov)[0]);
                assert forall|j: int| 0 <= j < chunks@.len() implies good_chunk(#[trigger] chunks@[j]@, source@, lang@, vs) by {
                    if j < pre_chunks.len() {
                        assert(chunks@[j] == pre_chunks[j]);
                    }
                }
            } else {
                let mut pieces = self.split_large_block(source, lang, &lines, block);
                let ghost pv = chunk_views(pieces@);
                chunks.append(&mut pieces);
                assert(chunk_views(chunks@) =~= pre + pv);
                assert forall|j: int| 0 <= j < chunks@.len() implies good_chunk(#[trigger] chunks@[j]@, source@, lang@, vs) by {
                    if j < pre_chunks.len() {
                        assert(chunks@[j] == pre_chunks[j]);
                    } else {
                        assert(chunks@[j]@ == chunk_views(chunks@)[j]);
                        assert(pv[j - pre_chunks.len()] == block_chunks(source@, lang@, vs, block@, max, ov)[j - pre_chunks.len()]);
                    }
                }
            }
        }
        chunks
    }

    /// Splits an oversized block into overlapping pieces (see `split_block`).
    #[verifier::spinoff_prover]
    fn split_large_block(&self, source: &str, lang: &str, lines: &Vec<Vec<char>>, block: &CodeBlock) -> (r: Vec<Chunk>)
        requires
            block.start <= block.end < lines@.len(),
            lines_bytes(views(lines@)) <= usize::MAX,
        ensures
            chunk_views(r@) == split_block(source@, lang@, views(lines@), block@, self.max_chars_of(), self.overlap_chars_of()),
    {
        let ghost vs = views(lines@);
        let ghost b = block@;
        let ghost max = self.max_chars_of();
        let ghost ov = self.overlap_chars_of();
        let mut chunks: Vec<Chunk> = Vec::new();
        let mut start = block.start;
        let mut len: usize = 0;
        let mut chars: usize = 0;
        let carry = self.overlap_chars / 80 + 1;
        let nl = lines.len();
        let m = block.end - block.start + 1;
        for i in 0..m
            invariant
                m == block.end - block.start + 1,
                nl == lines@.len(),
                block.start <= block.end < lines@.len(),
                vs == views(lines@),
                b == block@,
                max == self.max_chars_of(),
                ov == self.overlap_chars_of(),
                carry == overlap_lines(ov),
                lines_bytes(vs) <= usize::MAX,
                block.start <= start,
                start + len == block.start + i,
                chars == lines_bytes(vs.subrange(start as int, start + len)),
                (chunk_views(chunks@), start as int, len as int) == split_scan(source@, lang@, vs, b, max, ov, i as nat),
        {
            let ghost pre_start = start;
            let ghost pre_len = len;
            let ghost pre_chunks = chunk_views(chunks@);
            let idx = block.start + i;
            let line = &lines[idx];
            proof {
                assert(vs[idx as int] == line@);
                assert(vs.subrange(idx as int, idx + 1).drop_last() =~= Seq::<Seq<char>>::empty());
                lemma_lines_bytes_subrange(vs, idx as int, idx + 1);
                lemma_lines_bytes_subrange(vs, start as int, idx + 1);
                assert(vs.subrange(start as int, idx + 1).drop_last() =~= vs.subrange(start as int, idx as int));
            }
            let lc = utf8_byte_len(line.as_slice()) + 1;
            if chars + lc > self.max_chars && len > 0 {
                let text = join_line_range(lines, start, start + len - 1);
                let id = Self::compute_id(source, start + 1, start + len);
                let symbol = if start == block.start {
                    clone_opt(&block.symbol)
                } else {
                    None
                };
                let c = Chunk {
                    id,
                    source: source.to_owned(),
                    lang: lang.to_owned(),
                    start_line: start + 1,
                    end_line: start + len,
                    text: string_from_chars(text.as_slice()),
                    symbol,
                };
                chunks.push(c);
                let keep = if carry < len {
                    carry
                } else {
                    len
                };
                start = block.start + i - keep;
                len = keep;
                proof {
                    lemma_lines_bytes_subrange(vs, start as int, start + len);
                }
                chars = range_bytes(lines, start, start + len);
                assert(chunk_views(chunks@) =~= pre_chunks.push(c@));
            }
            proof {
                assert(vs.subrange(start as int, start + len + 1).drop_last() =~= vs.subrange(start as int, start + len));
                lemma_lines_bytes_subrange(vs, start as int, start + len + 1);
            }
            len = len + 1;
            chars = chars + lc;
        }
        if len > 0 {
            let text = join_line_range(lines, start, start + len - 1);
            let id = Self::compute_id(source, start + 1, start + len);
            let symbol = if start == block.start {
                clone_opt(&block.symbol)
            } else {
                None
            };
            let c = Chunk {
                id,
                source: source.to_owned(),
                lang: lang.to_owned(),
                start_line: start + 1,
                end_line: start + len,
                text: string_from_chars(text.as_slice()),
                symbol,
            };
            let ghost pre_chunks = chunk_views(chunks@);
            chunks.push(c);
            assert(chunk_views(chunks@) =~= pre_chunks.push(c@));
        }
        chunks
    }
}

/// Sum of the byte lengths plus one of lines `from..to`.
fn range_bytes(lines: &Vec<Vec<char>>, from: usize, to: usize) -> (r: usize)
    requires
        from <= to <= lines@.len(),
        lines_bytes(views(lines@)) <= usize::MAX,
    ensures
        r == lines_bytes(views(lines@).subrange(from as int, to as int)),
{
    let ghost vs = views(lines@);
    let mut r: usize = 0;
    let mut k = from;
    while k < to
        invariant
            from <= k <= to <= lines@.len(),
            vs == views(lines@),
            lines_bytes(vs) <= usize::MAX,
            r == lines_bytes(vs.subrange(from as int, k as int)),
        decreases to - k,
    {
        proof {
            assert(vs.subrange(from as int, k + 1).drop_last() =~= vs.subrange(from as int, k as int));
            assert(vs[k as int] == lines@[k as int]@);
            lemma_lines_bytes_subrange(vs, from as int, k + 1);
            lemma_lines_bytes_subrange(vs, k as int, k + 1);
            assert(vs.subrange(k as int, k + 1).drop_last() =~= Seq::<Seq<char>>::empty());
        }
        let w = utf8_byte_len(lines[k].as_slice());
        r = r + w + 1;
        k = k + 1;
    }
    r
}

} // verus!
