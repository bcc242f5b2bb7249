//! Reciprocal-rank fusion of full-text and vector hits: which hits are the
//! same result, where each result came from, and how it was matched.
use vstd::prelude::*;

use crate::text::{str_chars, str_equal, string_from_chars};

verus! {

/// How a fused result was matched.
#[derive(Debug, Clone, Copy, PartialEq, Eq)]
pub enum MatchType {
    FtsOnly,
    VectorOnly,
    Both,
}

/// The hit that first produced a fused result.
#[derive(Debug, Clone, Copy, PartialEq, Eq)]
pub enum Origin {
    /// The full-text hit at this rank (0-based).
    Fts(usize),
    /// The vector hit at this rank (0-based).
    Vector(usize),
}

/// One fused result: its key, the hit it came from, the ranks of the vector
/// hits merged into it afterwards, and how it was matched.
#[derive(Debug)]
pub struct Fused {
    pub key: String,
    pub origin: Origin,
    pub merged: Vec<usize>,
    pub matched_by: MatchType,
}

/// The mathematical value of a fused result.
pub struct FusedModel {
    pub key: Seq<char>,
    pub origin: Origin,
    pub merged: Seq<usize>,
    pub matched_by: MatchType,
}

impl View for Fused {
    type V = FusedModel;

    open spec fn view(&self) -> FusedModel {
        FusedModel { key: self.key@, origin: self.origin, merged: self.merged@, matched_by: self.matched_by }
    }
}

/// The views of a sequence of fused results.
pub open spec fn fused_views(es: Seq<Fused>) -> Seq<FusedModel> {
    es.map_values(|e: Fused| e@)
}

/// The key that identifies a hit: its source, `':'`, and the first 50
/// characters of its text.
pub open spec fn hit_key(source: Seq<char>, text: Seq<char>) -> Seq<char> {
    source + seq![':'] + text.take(if text.len() < 50 { text.len() as int } else { 50 })
}

/// Builds the key of a hit (see `hit_key`).
pub fn make_hit_key(source: &str, text: &str) -> (r: String)
    ensures
        r@ == hit_key(source@, text@),
{
    let mut buf = str_chars(source);
    buf.push(':');
    let t = str_chars(text);
    let n = if t.len() < 50 {
        t.len()
    } else {
        50
    };
    for i in 0..n
        invariant
            n <= t@.len(),
            t@ == text@,
            n == (if t@.len() < 50 { t@.len() as int } else { 50 }),
            buf@ == source@ + seq![':'] + t@.take(i as int),
    {
        buf.push(t[i]);
        assert(t@.take(i + 1) =~= t@.take(i as int).push(t@[i as int]));
    }
    string_from_chars(buf.as_slice())
}

/// Index of the result with key `key`, if any.
pub open spec fn find_key(es: Seq<FusedModel>, key: Seq<char>) -> Option<int>
    decreases es.len(),
{
    if es.len() == 0 {
        None
    } else {
        match find_key(es.drop_last(), key) {
            Some(i) => Some(i),
            None => if es.last().key == key {
                Some(es.len() - 1)
            } else {
                None
            },
        }
    }
}

/// Results after the first `n` full-text hits: a hit whose key is new starts
/// a full-text result; a repeated key is ignored.
pub open spec fn fuse_fts(fts: Seq<Seq<char>>, n: nat) -> Seq<FusedModel>
    decreases n,
{
    if n == 0 || n > fts.len() {
        Seq::empty()
    } else {
        let es = fuse_fts(fts, (n - 1) as nat);
        let key = fts[n - 1];
        if find_key(es, key) is Some {
            es
        } else {
            es.push(FusedModel { key, origin: Origin::Fts((n - 1) as usize), merged: Seq::empty(), matched_by: MatchType::FtsOnly })
        }
    }
}

/// The match type of a result once a vector hit has been merged into it:
/// `Both` for a result that came from a full-text hit, unchanged otherwise.
pub open spec fn merged_match(e: FusedModel) -> MatchType {
    if e.origin is Fts {
        MatchType::Both
    } else {
        e.matched_by
    }
}

/// Results after all full-text hits and the first `n` vector hits: a vector
/// hit whose key is known is merged into that result (which becomes `Both`
/// if it came from a full-text hit); otherwise it starts a vector-only result.
pub open spec fn fuse_all(fts: Seq<Seq<char>>, vec: Seq<Seq<char>>, n: nat) -> Seq<FusedModel>
    decreases n,
{
    if n == 0 || n > vec.len() {
        fuse_fts(fts, fts.len())
    } else {
        let es = fuse_all(fts, vec, (n - 1) as nat);
        let key = vec[n - 1];
        match find_key(es, key) {
            Some(i) => es.update(
                i,
                FusedModel { key: es[i].key, origin: es[i].origin, merged: es[i].merged.push((n - 1) as usize), matched_by: merged_match(es[i]) },
            ),
            None => es.push(
                FusedModel { key, origin: Origin::Vector((n - 1) as usize), merged: Seq::empty(), matched_by: MatchType::VectorOnly },
            ),
        }
    }
}

proof fn lemma_find_key(es: Seq<FusedModel>, key: Seq<char>)
    ensures
        match find_key(es, key) {
            Some(i) => 0 <= i < es.len() && es[i].key == key && forall|j: int| 0 <= j < i ==> #[trigger] es[j].key != key,
            None => forall|j: int| 0 <= j < es.len() ==> #[trigger] es[j].key != key,
        },
    decreases es.len(),
{
    if es.len() > 0 {
        lemma_find_key(es.drop_last(), key);
        match find_key(es.drop_last(), key) {
            Some(i) => {
                assert forall|j: int| 0 <= j < i implies #[trigger] es[j].key != key by {
                    assert(es[j] == es.drop_last()[j]);
                }
                assert(es[i] == es.drop_last()[i]);
            },
            None => {
                assert forall|j: int| 0 <= j < es.len() - 1 implies #[trigger] es[j].key != key by {
                    assert(es[j] == es.drop_last()[j]);
                }
            },
        }
    }
}

proof fn lemma_find_key_char(es: Seq<FusedModel>, key: Seq<char>, i: int)
    requires
        0 <= i < es.len(),
        es[i].key == key,
        forall|j: int| 0 <= j < i ==> #[trigger] es[j].key != key,
    ensures
        find_key(es, key) == Some(i),
{
    lemma_find_key(es, key);
    match find_key(es, key) {
        Some(k) => {
            if k < i {
                assert(es[k].key != key);
            }
            if k > i {
                assert(es[i].key != key);
            }
        },
        None => {
            assert(es[i].key != key);
        },
    }
}

/// Index of the result with key `key`.
fn position_of(es: &Vec<Fused>, key: &str) -> (r: Option<usize>)
    ensures
        match r {
            Some(i) => find_key(fused_views(es@), key@) == Some(i as int),
            None => find_key(fused_views(es@), key@) is None,
        },
{
    let n = es.len();
    for i in 0..n
        invariant
            n == es@.len(),
            forall|j: int| 0 <= j < i ==> #[trigger] fused_views(es@)[j].key != key@,
    {
        if str_equal(es[i].key.as_str(), key) {
            proof {
                lemma_find_key_char(fused_views(es@), key@, i as int);
            }
            return Some(i);
        }
    }
    proof {
        lemma_find_key(fused_views(es@), key@);
        if let Some(k) = find_key(fused_views(es@), key@) {
            assert(fused_views(es@)[k].key != key@);
        }
    }
    None
}

/// Groups full-text hits and vector hits (given by their keys, best first)
/// into results, one per distinct key, in order of first appearance (see
/// `fuse_all`).
pub fn fuse(fts_keys: &Vec<String>, vector_keys: &Vec<String>) -> (r: Vec<Fused>)
    ensures
        fused_views(r@) == fuse_all(
            fts_keys@.map_values(|k: String| k@),
            vector_keys@.map_values(|k: String| k@),
            vector_keys@.len(),
        ),
{
    let ghost fk = fts_keys@.map_values(|k: String| k@);
    let ghost vk = vector_keys@.map_values(|k: String| k@);
    let mut es: Vec<Fused> = Vec::new();
    let nf = fts_keys.len();
    for i in 0..nf
        invariant
            nf == fts_keys@.len(),
            fk == fts_keys@.map_values(|k: String| k@),
            fused_views(es@) == fuse_fts(fk, i as nat),
    {
        let key = &fts_keys[i];
        assert(fk[i as int] == key@);
        match position_of(&es, key.as_str()) {
            Some(_) => {},
            None => {
                let ghost pre = fused_views(es@);
                let e = Fused { key: key.clone(), origin: Origin::Fts(i), merged: Vec::new(), matched_by: MatchType::FtsOnly };
                es.push(e);
                assert(fused_views(es@) =~= pre.push(e@));
            },
        }
    }
    let nv = vector_keys.len();
    for j in 0..nv
        invariant
            nf == fts_keys@.len(),
            nv == vector_keys@.len(),
            fk == fts_keys@.map_values(|k: String| k@),
            vk == vector_keys@.map_values(|k: String| k@),
            fused_views(es@) == fuse_all(fk, vk, j as nat),
    {
        let key = &vector_keys[j];
        assert(vk[j as int] == key@);
        let ghost pre = fused_views(es@);
        match position_of(&es, key.as_str()) {
            Some(i) => {
                proof {
                    lemma_find_key(pre, key@);
                }
                let e = &mut es[i];
                e.merged.push(j);
                if let Origin::Fts(_) = e.origin {
                    e.matched_by = MatchType::Both;
                }
                assert(fused_views(es@) =~= pre.update(
                    i as int,
                    FusedModel { key: pre[i as int].key, origin: pre[i as int].origin, merged: pre[i as int].merged.push(j), matched_by: merged_match(pre[i as int]) },
                ));
            },
            None => {
                let e = Fused { key: key.clone(), origin: Origin::Vector(j), merged: Vec::new(), matched_by: MatchType::VectorOnly };
                es.push(e);
                assert(fused_views(es@) =~= pre.push(e@));
            },
        }
    }
    es
}

/// A result's match type follows from where it came from: a result that came
/// from a full-text hit is `Both` once a vector hit was merged into it and
/// `FtsOnly` before; a result that came from a vector hit is `VectorOnly`.
pub open spec fn match_follows(e: FusedModel) -> bool {
    match e.origin {
        Origin::Fts(_) => e.matched_by == (if e.merged.len() > 0 { MatchType::Both } else { MatchType::FtsOnly }),
        Origin::Vector(_) => e.matched_by == MatchType::VectorOnly,
    }
}

/// No two results share a key, and each result's match type follows from
/// its origin and merges.
pub open spec fn well_fused(es: Seq<FusedModel>) -> bool {
    &&& forall|i: int, j: int| 0 <= i < es.len() && 0 <= j < es.len() && i != j ==> #[trigger] es[i].key != #[trigger] es[j].key
    &&& forall|i: int| 0 <= i < es.len() ==> match_follows(#[trigger] es[i])
}

/// Each result's key is the key of the hit it came from and of every vector
/// hit merged into it.
pub open spec fn sourced(es: Seq<FusedModel>, fts: Seq<Seq<char>>, vec: Seq<Seq<char>>) -> bool {
    &&& forall|i: int| 0 <= i < es.len() ==> match (#[trigger] es[i]).origin {
        Origin::Fts(j) => j < fts.len() && fts[j as int] == es[i].key,
        Origin::Vector(j) => j < vec.len() && vec[j as int] == es[i].key,
    }
    &&& forall|i: int, m: int| 0 <= i < es.len() && 0 <= m < es[i].merged.len() ==> (#[trigger] es[i].merged[m]) < vec.len() && vec[es[i].merged[m] as int] == es[i].key
}

/// The keys present among the results.
pub open spec fn has_key(es: Seq<FusedModel>, k: Seq<char>) -> bool {
    find_key(es, k) is Some
}

/// What the results record of the hits seen so far (all full-text hits and
/// the first `n` vector hits): a result that came from a vector hit has a key
/// that no full-text hit has, and a result that came from a full-text hit had
/// a vector hit merged into it exactly when one of those vector hits has its key.
pub open spec fn tracks_hits(es: Seq<FusedModel>, fts: Seq<Seq<char>>, vec: Seq<Seq<char>>, n: int) -> bool {
    &&& forall|i: int| 0 <= i < es.len() && (#[trigger] es[i]).origin is Vector ==> !fts.contains(es[i].key)
    &&& forall|i: int| 0 <= i < es.len() && (#[trigger] es[i]).origin is Fts ==> (es[i].merged.len() > 0 <==> vec.take(n).contains(es[i].key))
}

proof fn lemma_fuse_fts(fts: Seq<Seq<char>>, n: nat)
    requires
        n <= fts.len(),
        fts.len() <= usize::MAX,
    ensures
        well_fused(fuse_fts(fts, n)),
        forall|i: int| 0 <= i < n ==> has_key(fuse_fts(fts, n), #[trigger] fts[i]),
        forall|vec: Seq<Seq<char>>| sourced(#[trigger] fuse_fts(fts, n), fts, vec),
        forall|i: int| 0 <= i < fuse_fts(fts, n).len() ==> (#[trigger] fuse_fts(fts, n)[i]).origin is Fts && fuse_fts(fts, n)[i].merged.len() == 0,
    decreases n,
{
    if n > 0 {
        lemma_fuse_fts(fts, (n - 1) as nat);
        let es = fuse_fts(fts, (n - 1) as nat);
        let key = fts[n - 1];
        lemma_find_key(es, key);
        if find_key(es, key) is None {
            let e = FusedModel { key, origin: Origin::Fts((n - 1) as usize), merged: Seq::empty(), matched_by: MatchType::FtsOnly };
            lemma_push_fresh(es, e);
            assert forall|i: int| 0 <= i < es.push(e).len() implies (#[trigger] es.push(e)[i]).origin is Fts && es.push(e)[i].merged.len() == 0 by {
                if i < es.len() {
                    assert(es.push(e)[i] == es[i]);
                }
            }
            assert forall|vec: Seq<Seq<char>>| sourced(#[trigger] es.push(e), fts, vec) by {
                assert(sourced(es, fts, vec));
                assert forall|i: int| 0 <= i < es.push(e).len() implies match (#[trigger] es.push(e)[i]).origin {
                    Origin::Fts(j) => j < fts.len() && fts[j as int] == es.push(e)[i].key,
                    Origin::Vector(j) => j < vec.len() && vec[j as int] == es.push(e)[i].key,
                } by {
                    if i < es.len() {
                        assert(es.push(e)[i] == es[i]);
                    }
                }
                assert forall|i: int, m: int| 0 <= i < es.push(e).len() && 0 <= m < es.push(e)[i].merged.len() implies (#[trigger] es.push(e)[i].merged[m]) < vec.len() && vec[es.push(e)[i].merged[m] as int] == es.push(e)[i].key by {
                    assert(es.push(e)[i] == es[i]);
                }
            }
            assert forall|i: int| 0 <= i < n implies has_key(es.push(e), #[trigger] fts[i]) by {
                if i < n - 1 {
                    lemma_has_key_push(es, e, fts[i]);
                } else {
                    lemma_find_key(es.push(e), key);
                    if find_key(es.push(e), key) is None {
                        assert(es.push(e)[es.len() as int].key == key);
                    }
                }
            }
        }
    }
}

proof fn lemma_has_key_push(es: Seq<FusedModel>, e: FusedModel, k: Seq<char>)
    requires
        has_key(es, k),
    ensures
        has_key(es.push(e), k),
{
    lemma_find_key(es, k);
    lemma_find_key(es.push(e), k);
    let i = find_key(es, k)->0;
    if find_key(es.push(e), k) is None {
        assert(es.push(e)[i] == es[i]);
    }
}

proof fn lemma_has_key_update(es: Seq<FusedModel>, i: int, e: FusedModel, k: Seq<char>)
    requires
        has_key(es, k),
        0 <= i < es.len(),
        e.key == es[i].key,
    ensures
        has_key(es.update(i, e), k),
{
    lemma_find_key(es, k);
    lemma_find_key(es.update(i, e), k);
    let m = find_key(es, k)->0;
    if find_key(es.update(i, e), k) is None {
        assert(es.update(i, e)[m].key == es[m].key);
    }
}

proof fn lemma_push_fresh(es: Seq<FusedModel>, e: FusedModel)
    requires
        well_fused(es),
        find_key(es, e.key) is None,
        match_follows(e),
    ensures
        well_fused(es.push(e)),
{
    lemma_find_key(es, e.key);
    let q = es.push(e);
    assert forall|i: int, j: int| 0 <= i < q.len() && 0 <= j < q.len() && i != j implies #[trigger] q[i].key != #[trigger] q[j].key by {
        if i < es.len() {
            assert(q[i] == es[i]);
        }
        if j < es.len() {
            assert(q[j] == es[j]);
        }
    }
    assert forall|i: int| 0 <= i < q.len() implies match_follows(#[trigger] q[i]) by {
        if i < es.len() {
            assert(q[i] == es[i]);
        }
    }
}

/// A key other than the newest vector hit's is among the first `n` vector
/// hits exactly when it is among the first `n - 1`.
proof fn lemma_take_contains(vec: Seq<Seq<char>>, n: int, k: Seq<char>)
    requires
        0 < n <= vec.len(),
        k != vec[n - 1],
    ensures
        vec.take(n).contains(k) <==> vec.take(n - 1).contains(k),
{
    assert(vec.take(n) =~= vec.take(n - 1).push(vec[n - 1]));
    vstd::seq_lib::lemma_seq_contains_after_push(vec.take(n - 1), vec[n - 1], k);
}

proof fn lemma_fuse_all(fts: Seq<Seq<char>>, vec: Seq<Seq<char>>, n: nat)
    requires
        n <= vec.len(),
        fts.len() <= usize::MAX,
        vec.len() <= usize::MAX,
    ensures
        well_fused(fuse_all(fts, vec, n)),
        forall|i: int| 0 <= i < fts.len() ==> has_key(fuse_all(fts, vec, n), #[trigger] fts[i]),
        forall|i: int| 0 <= i < n ==> has_key(fuse_all(fts, vec, n), #[trigger] vec[i]),
        sourced(fuse_all(fts, vec, n), fts, vec),
        tracks_hits(fuse_all(fts, vec, n), fts, vec, n as int),
    decreases n,
{
    if n == 0 {
        lemma_fuse_fts(fts, fts.len());
        let es = fuse_fts(fts, fts.len());
        assert(sourced(es, fts, vec));
        assert(vec.take(0) =~= Seq::<Seq<char>>::empty());
        assert forall|i: int| 0 <= i < es.len() && (#[trigger] es[i]).origin is Fts implies (es[i].merged.len() > 0 <==> vec.take(0).contains(es[i].key)) by {
            vstd::seq_lib::lemma_seq_empty_contains_nothing(es[i].key);
        }
    } else {
        lemma_fuse_all(fts, vec, (n - 1) as nat);
        let es = fuse_all(fts, vec, (n - 1) as nat);
        let key = vec[n - 1];
        lemma_find_key(es, key);
        match find_key(es, key) {
            Some(m) => {
                let e = FusedModel { key: es[m].key, origin: es[m].origin, merged: es[m].merged.push((n - 1) as usize), matched_by: merged_match(es[m]) };
                let q = es.update(m, e);
                assert forall|i: int, j: int| 0 <= i < q.len() && 0 <= j < q.len() && i != j implies #[trigger] q[i].key != #[trigger] q[j].key by {
                    assert(q[i].key == es[i].key);
                    assert(q[j].key == es[j].key);
                }
                assert forall|i: int| 0 <= i < q.len() implies match_follows(#[trigger] q[i]) by {
                    if i != m {
                        assert(q[i] == es[i]);
                    } else {
                        assert(match_follows(es[m]));
                    }
                }
                assert forall|i: int| 0 <= i < fts.len() implies has_key(q, #[trigger] fts[i]) by {
                    lemma_has_key_update(es, m, e, fts[i]);
                }
                assert forall|i: int| 0 <= i < q.len() implies match (#[trigger] q[i]).origin {
                    Origin::Fts(j) => j < fts.len() && fts[j as int] == q[i].key,
                    Origin::Vector(j) => j < vec.len() && vec[j as int] == q[i].key,
                } by {
                    assert(q[i].key == es[i].key && q[i].origin == es[i].origin);
                }
                assert forall|i: int, t: int| 0 <= i < q.len() && 0 <= t < q[i].merged.len() implies (#[trigger] q[i].merged[t]) < vec.len() && vec[q[i].merged[t] as int] == q[i].key by {
                    if i != m {
                        assert(q[i] == es[i]);
                    } else if t < es[m].merged.len() {
                        assert(q[i].merged[t] == es[m].merged[t]);
                    }
                }
                assert forall|i: int| 0 <= i < n implies has_key(q, #[trigger] vec[i]) by {
                    if i < n - 1 {
                        lemma_has_key_update(es, m, e, vec[i]);
                    } else {
                        lemma_has_key_update(es, m, e, key);
                    }
                }
                assert forall|i: int| 0 <= i < q.len() && (#[trigger] q[i]).origin is Vector implies !fts.contains(q[i].key) by {
                    assert(q[i].key == es[i].key && q[i].origin == es[i].origin);
                }
                assert forall|i: int| 0 <= i < q.len() && (#[trigger] q[i]).origin is Fts implies (q[i].merged.len() > 0 <==> vec.take(n as int).contains(q[i].key)) by {
                    if i != m {
                        assert(q[i] == es[i]);
                        assert(es[i].key != es[m].key);
                        lemma_take_contains(vec, n as int, es[i].key);
                    } else {
                        assert(vec.take(n as int)[n - 1] == key);
                    }
                }
            },
            None => {
                let e = FusedModel { key, origin: Origin::Vector((n - 1) as usize), merged: Seq::empty(), matched_by: MatchType::VectorOnly };
                let q = es.push(e);
                lemma_push_fresh(es, e);
                assert forall|i: int| 0 <= i < fts.len() implies has_key(q, #[trigger] fts[i]) by {
                    lemma_has_key_push(es, e, fts[i]);
                }
                assert forall|i: int| 0 <= i < q.len() implies match (#[trigger] q[i]).origin {
                    Origin::Fts(j) => j < fts.len() && fts[j as int] == q[i].key,
                    Origin::Vector(j) => j < vec.len() && vec[j as int] == q[i].key,
                } by {
                    if i < es.len() {
                        assert(q[i] == es[i]);
                    }
                }
                assert forall|i: int, t: int| 0 <= i < q.len() && 0 <= t < q[i].merged.len() implies (#[trigger] q[i].merged[t]) < vec.len() && vec[q[i].merged[t] as int] == q[i].key by {
                    assert(q[i] == es[i]);
                }
                assert forall|i: int| 0 <= i < n implies has_key(q, #[trigger] vec[i]) by {
                    if i < n - 1 {
                        lemma_has_key_push(es, e, vec[i]);
                    } else {
                        lemma_find_key(q, key);
                        if find_key(q, key) is None {
                            assert(q[es.len() as int].key == key);
                        }
                    }
                }
                assert(!fts.contains(key)) by {
                    if fts.contains(key) {
                        let j = choose|j: int| 0 <= j < fts.len() && fts[j] == key;
                        assert(has_key(es, fts[j]));
                    }
                }
                assert forall|i: int| 0 <= i < q.len() && (#[trigger] q[i]).origin is Vector implies !fts.contains(q[i].key) by {
                    if i < es.len() {
                        assert(q[i] == es[i]);
                    }
                }
                assert forall|i: int| 0 <= i < q.len() && (#[trigger] q[i]).origin is Fts implies (q[i].merged.len() > 0 <==> vec.take(n as int).contains(q[i].key)) by {
                    assert(q[i] == es[i]);
                    assert(es[i].key != key);
                    lemma_take_contains(vec, n as int, es[i].key);
                }
            },
        }
    }
}

/// Law: fusing gives one result per distinct key, every full-text and every
/// vector hit's key among them and no other, each result made only of hits
/// with its key; a result is `Both` exactly when its key is among the
/// full-text hits and among the vector hits, `FtsOnly` when it is among the
/// full-text hits only, and `VectorOnly` when it is among the vector hits only.
pub proof fn law_fusion(fts: Seq<Seq<char>>, vec: Seq<Seq<char>>)
    requires
        fts.len() <= usize::MAX,
        vec.len() <= usize::MAX,
    ensures
        well_fused(fuse_all(fts, vec, vec.len())),
        sourced(fuse_all(fts, vec, vec.len()), fts, vec),
        forall|i: int| 0 <= i < fts.len() ==> has_key(fuse_all(fts, vec, vec.len()), #[trigger] fts[i]),
        forall|i: int| 0 <= i < vec.len() ==> has_key(fuse_all(fts, vec, vec.len()), #[trigger] vec[i]),
        forall|i: int| 0 <= i < fuse_all(fts, vec, vec.len()).len() ==> {
            let e = #[trigger] fuse_all(fts, vec, vec.len())[i];
            &&& (e.matched_by == MatchType::Both <==> fts.contains(e.key) && vec.contains(e.key))
            &&& (e.matched_by == MatchType::FtsOnly <==> fts.contains(e.key) && !vec.contains(e.key))
            &&& (e.matched_by == MatchType::VectorOnly <==> !fts.contains(e.key) && vec.contains(e.key))
        },
{
    lemma_fuse_all(fts, vec, vec.len());
    let es = fuse_all(fts, vec, vec.len());
    assert(vec.take(vec.len() as int) =~= vec);
    assert forall|i: int| 0 <= i < es.len() implies {
        let e = #[trigger] es[i];
        &&& (e.matched_by == MatchType::Both <==> fts.contains(e.key) && vec.contains(e.key))
        &&& (e.matched_by == MatchType::FtsOnly <==> fts.contains(e.key) && !vec.contains(e.key))
        &&& (e.matched_by == MatchType::VectorOnly <==> !fts.contains(e.key) && vec.contains(e.key))
    } by {
        assert(match_follows(es[i]));
        match es[i].origin {
            Origin::Fts(j) => {
                assert(fts[j as int] == es[i].key);
            },
            Origin::Vector(j) => {
                assert(vec[j as int] == es[i].key);
            },
        }
    }
}

/// What the results record of the first `n` vector hits: every such hit with
/// a result's key is that result's origin or among its merged ranks, the
/// merged ranks are increasing and below `n`, and a result that came from a
/// vector hit merges only later ones.
pub open spec fn accounts_hits(es: Seq<FusedModel>, vec: Seq<Seq<char>>, n: int) -> bool {
    &&& forall|i: int, j: int|
        0 <= i < es.len() && 0 <= j < n && #[trigger] vec[j] == #[trigger] es[i].key ==> es[i].origin == Origin::Vector(
            j as usize,
        ) || es[i].merged.contains(j as usize)
    &&& forall|i: int, a: int, b: int|
        0 <= i < es.len() && 0 <= a < b < es[i].merged.len() ==> #[trigger] es[i].merged[a] < #[trigger] es[i].merged[b]
    &&& forall|i: int, a: int| 0 <= i < es.len() && 0 <= a < es[i].merged.len() ==> #[trigger] es[i].merged[a] < n
    &&& forall|i: int, a: int|
        0 <= i < es.len() && 0 <= a < es[i].merged.len() && (#[trigger] es[i]).origin is Vector ==> es[i].origin->Vector_0
            < #[trigger] es[i].merged[a]
    &&& forall|i: int| 0 <= i < es.len() && (#[trigger] es[i]).origin is Vector ==> es[i].origin->Vector_0 < n
}

proof fn lemma_fuse_accounts(fts: Seq<Seq<char>>, vec: Seq<Seq<char>>, n: nat)
    requires
        n <= vec.len(),
        fts.len() <= usize::MAX,
        vec.len() <= usize::MAX,
    ensures
        accounts_hits(fuse_all(fts, vec, n), vec, n as int),
    decreases n,
{
    if n == 0 {
        lemma_fuse_fts(fts, fts.len());
    } else {
        lemma_fuse_accounts(fts, vec, (n - 1) as nat);
        lemma_fuse_all(fts, vec, (n - 1) as nat);
        let es = fuse_all(fts, vec, (n - 1) as nat);
        let key = vec[n - 1];
        lemma_find_key(es, key);
        match find_key(es, key) {
            Some(m) => {
                let e = FusedModel { key: es[m].key, origin: es[m].origin, merged: es[m].merged.push((n - 1) as usize), matched_by: merged_match(es[m]) };
                let q = es.update(m, e);
                assert(q == fuse_all(fts, vec, n));
                assert forall|i: int, j: int|
                    0 <= i < q.len() && 0 <= j < n && #[trigger] vec[j] == #[trigger] q[i].key implies q[i].origin == Origin::Vector(
                        j as usize,
                    ) || q[i].merged.contains(j as usize) by {
                    if i != m {
                        assert(q[i] == es[i]);
                        if j == n - 1 {
                            assert(es[i].key != es[m].key);
                        } else {
                            assert(vec[j] == es[i].key);
                        }
                    } else if j == n - 1 {
                        assert(q[m].merged[es[m].merged.len() as int] == (n - 1) as usize);
                    } else {
                        assert(vec[j] == es[m].key);
                        if es[m].merged.contains(j as usize) {
                            let a = choose|a: int| 0 <= a < es[m].merged.len() && es[m].merged[a] == j as usize;
                            assert(q[m].merged[a] == j as usize);
                        }
                    }
                }
                assert forall|i: int, a: int, b: int|
                    0 <= i < q.len() && 0 <= a < b < q[i].merged.len() implies #[trigger] q[i].merged[a] < #[trigger] q[i].merged[b] by {
                    if i != m {
                        assert(q[i] == es[i]);
                    } else {
                        assert(es[m].merged[a] < n - 1);
                        if b < es[m].merged.len() {
                            assert(es[m].merged[a] < es[m].merged[b]);
                        }
                    }
                }
                assert forall|i: int, a: int| 0 <= i < q.len() && 0 <= a < q[i].merged.len() implies #[trigger] q[i].merged[a] < n by {
                    if i != m {
                        assert(q[i] == es[i]);
                    } else if a < es[m].merged.len() {
                        assert(es[m].merged[a] < n - 1);
                    }
                }
                assert forall|i: int, a: int|
                    0 <= i < q.len() && 0 <= a < q[i].merged.len() && (#[trigger] q[i]).origin is Vector implies q[i].origin->Vector_0
                        < #[trigger] q[i].merged[a] by {
                    if i != m {
                        assert(q[i] == es[i]);
                    } else if a < es[m].merged.len() {
                        assert(es[m].origin->Vector_0 < es[m].merged[a]);
                    } else {
                        assert(es[m].origin->Vector_0 < n - 1);
                    }
                }
                assert forall|i: int| 0 <= i < q.len() && (#[trigger] q[i]).origin is Vector implies q[i].origin->Vector_0 < n by {
                    assert(q[i].origin == es[i].origin);
                }
            },
            None => {
                let e = FusedModel { key, origin: Origin::Vector((n - 1) as usize), merged: Seq::empty(), matched_by: MatchType::VectorOnly };
                let q = es.push(e);
                assert(q == fuse_all(fts, vec, n));
                assert forall|i: int, j: int|
                    0 <= i < q.len() && 0 <= j < n && #[trigger] vec[j] == #[trigger] q[i].key implies q[i].origin == Origin::Vector(
                        j as usize,
                    ) || q[i].merged.contains(j as usize) by {
                    if i < es.len() {
                        assert(q[i] == es[i]);
                        if j == n - 1 {
                            assert(es[i].key != key);
                        } else {
                            assert(vec[j] == es[i].key);
                        }
                    } else if j < n - 1 {
                        assert(has_key(es, vec[j]));
                        assert(vec[j] == key);
                    }
                }
                assert forall|i: int, a: int, b: int|
                    0 <= i < q.len() && 0 <= a < b < q[i].merged.len() implies #[trigger] q[i].merged[a] < #[trigger] q[i].merged[b] by {
                    assert(q[i] == es[i]);
                }
                assert forall|i: int, a: int| 0 <= i < q.len() && 0 <= a < q[i].merged.len() implies #[trigger] q[i].merged[a] < n by {
                    assert(q[i] == es[i]);
                }
                assert forall|i: int, a: int|
                    0 <= i < q.len() && 0 <= a < q[i].merged.len() && (#[trigger] q[i]).origin is Vector implies q[i].origin->Vector_0
                        < #[trigger] q[i].merged[a] by {
                    assert(q[i] == es[i]);
                }
                assert forall|i: int| 0 <= i < q.len() && (#[trigger] q[i]).origin is Vector implies q[i].origin->Vector_0 < n by {
                    if i < es.len() {
                        assert(q[i] == es[i]);
                    }
                }
            },
        }
    }
}

/// Law: every vector hit is accounted for exactly once: each vector hit with
/// a result's key is either the hit the result came from or among the ranks
/// merged into it; the merged ranks come in increasing order, and a result
/// that came from a vector hit never merges that hit again.
pub proof fn law_fusion_accounts_every_vector_hit(fts: Seq<Seq<char>>, vec: Seq<Seq<char>>)
    requires
        fts.len() <= usize::MAX,
        vec.len() <= usize::MAX,
    ensures
        ({
            let es = fuse_all(fts, vec, vec.len());
            &&& forall|i: int, j: int|
                0 <= i < es.len() && 0 <= j < vec.len() && #[trigger] vec[j] == #[trigger] es[i].key ==> es[i].origin
                    == Origin::Vector(j as usize) || es[i].merged.contains(j as usize)
            &&& forall|i: int, a: int, b: int|
                0 <= i < es.len() && 0 <= a < b < es[i].merged.len() ==> #[trigger] es[i].merged[a] < #[trigger] es[i].merged[b]
            &&& forall|i: int, a: int|
                0 <= i < es.len() && 0 <= a < es[i].merged.len() ==> es[i].origin != Origin::Vector(#[trigger] es[i].merged[a])
        }),
{
    lemma_fuse_accounts(fts, vec, vec.len());
    let es = fuse_all(fts, vec, vec.len());
    assert forall|i: int, a: int|
        0 <= i < es.len() && 0 <= a < es[i].merged.len() implies es[i].origin != Origin::Vector(#[trigger] es[i].merged[a]) by {
        if es[i].origin is Vector {
            assert(es[i].origin->Vector_0 < es[i].merged[a]);
        }
    }
}

} // verus!
