//! Quality assignment: for each column of an alignment that yields an output byte, the
//! cigar context, centred on the column, that the quality model knows.

use vstd::prelude::*;
use crate::alignment::{is_op, DEL, INS, MATCH, SUBST};
use crate::error::Model;

verus! {

/// ASCII offset of quality bytes.
pub const QUALITY_OFFSET: u8 = 33;

/// rustc_hash's hasher, carried opaque inside the context table.
#[verifier::external_type_specification]
#[verifier::external_body]
pub struct ExFxHasher(rustc_hash::FxHasher);

/// std's `BuildHasherDefault`, carried opaque inside the context table.
#[verifier::external_type_specification]
#[verifier::external_body]
#[verifier::reject_recursive_types(H)]
pub struct ExBuildHasherDefault<H>(std::hash::BuildHasherDefault<H>);

/// Table from a cigar context to its index in the quality model.
pub type ContextTable = rustc_hash::FxHashMap<Vec<u8>, usize>;

/// What a context table holds: each context and its index.
pub uninterp spec fn table_contents(m: ContextTable) -> Map<Seq<u8>, usize>;

/// Relies on `HashMap::default`: an empty table.
#[verifier::external_body]
fn table_new() -> (r: ContextTable)
    ensures
        table_contents(r).dom() == Set::<Seq<u8>>::empty(),
{
    ContextTable::default()
}

/// Relies on `HashMap::insert`: afterwards `k` maps to `v`, the other keys as before
/// (keys are compared by their bytes).
#[verifier::external_body]
fn table_insert(m: &mut ContextTable, k: Vec<u8>, v: usize)
    ensures
        table_contents(*final(m)) == table_contents(*old(m)).insert(k@, v),
{
    m.insert(k, v);
}

/// Relies on `HashMap::get`, looking a key up by its bytes.
#[verifier::external_body]
fn table_get(m: &ContextTable, k: &[u8]) -> (r: Option<usize>)
    ensures
        r == (if table_contents(*m).contains_key(k@) { Some(table_contents(*m)[k@]) } else { None }),
{
    m.get(k).copied()
}

/// `w` is a context of `keys`.
pub open spec fn has_key(keys: Map<Seq<u8>, usize>, w: Seq<u8>) -> bool {
    keys.contains_key(w)
}

/// Each of `keys` mapped to its index; a repeated key keeps its last index.
pub open spec fn index_map(keys: Seq<Seq<u8>>) -> Map<Seq<u8>, usize>
    decreases keys.len(),
{
    if keys.len() == 0 {
        Map::empty()
    } else {
        index_map(keys.drop_last()).insert(keys.last(), (keys.len() - 1) as usize)
    }
}

/// `w` shrunk by one byte at both ends until it is one of `keys` (or at most one byte long).
pub open spec fn matched(keys: Map<Seq<u8>, usize>, w: Seq<u8>) -> Seq<u8>
    decreases w.len(),
{
    if has_key(keys, w) || w.len() <= 1 {
        w
    } else {
        matched(keys, w.subrange(1, w.len() - 1))
    }
}

/// Half width of the window at column `i` of a cigar of length `n`: `margin`, reduced so
/// that the window stays within the cigar and centred on `i`.
pub open spec fn half_width(n: int, i: int, margin: int) -> int {
    let a = if margin < i { margin } else { i };
    if a < n - 1 - i { a } else { n - 1 - i }
}

/// The window of `cigar` centred on column `i`.
pub open spec fn window(cigar: Seq<u8>, i: int, margin: int) -> Seq<u8> {
    let h = half_width(cigar.len() as int, i, margin);
    cigar.subrange(i - h, i + h + 1)
}

/// Contexts of the first `n` columns: one per column that is not a deletion.
pub open spec fn contexts(keys: Map<Seq<u8>, usize>, cigar: Seq<u8>, margin: int, n: int) -> Seq<Seq<u8>>
    decreases n,
{
    if n <= 0 {
        Seq::empty()
    } else if cigar[n - 1] == DEL {
        contexts(keys, cigar, margin, n - 1)
    } else {
        contexts(keys, cigar, margin, n - 1).push(matched(keys, window(cigar, n - 1, margin)))
    }
}

/// Number of bytes of `s` that are not deletions.
pub open spec fn count_non_del(s: Seq<u8>) -> nat
    decreases s.len(),
{
    if s.len() == 0 {
        0
    } else {
        count_non_del(s.drop_last()) + if s.last() == DEL { 0nat } else { 1nat }
    }
}

/// Length of the longest of `keys`, and at least one.
pub open spec fn max_key_len(keys: Seq<Seq<u8>>) -> int
    decreases keys.len(),
{
    if keys.len() == 0 {
        1
    } else {
        let m = max_key_len(keys.drop_last());
        if keys.last().len() > m { keys.last().len() as int } else { m }
    }
}

/// The cigar contexts a quality model knows, each with its index in the model, and the
/// width of the longest.
pub struct QualityContexts {
    pub table: ContextTable,
    pub max_k: usize,
}

impl QualityContexts {
    /// The contexts and their indices.
    pub open spec fn contexts_map(&self) -> Map<Seq<u8>, usize> {
        table_contents(self.table)
    }

    /// The three one-column contexts `=`, `X` and `I` are known, and `max_k` is at least one.
    pub open spec fn wf(&self) -> bool {
        &&& has_key(self.contexts_map(), seq![MATCH])
        &&& has_key(self.contexts_map(), seq![SUBST])
        &&& has_key(self.contexts_map(), seq![INS])
        &&& self.max_k >= 1
    }

    /// Contexts `keys`, each with its index in the list (a repeated context keeps its last
    /// index); `max_k` is the length of the longest. Fails with
    /// `QualityNotMinimalCigarString` unless `=`, `X` and `I` are among them.
    pub fn new(keys: Vec<Vec<u8>>) -> (r: Result<QualityContexts, Model>)
        ensures
            r matches Ok(q) ==> q.wf()
                && q.contexts_map() == index_map(keys@.map_values(|k: Vec<u8>| k@))
                && q.max_k == max_key_len(keys@.map_values(|k: Vec<u8>| k@)),
            r is Err <==> !(keys@.map_values(|k: Vec<u8>| k@).contains(seq![MATCH])
                && keys@.map_values(|k: Vec<u8>| k@).contains(seq![SUBST])
                && keys@.map_values(|k: Vec<u8>| k@).contains(seq![INS])),
            r matches Err(e) ==> e == Model::QualityNotMinimalCigarString,
    {
        let ghost ks = keys@.map_values(|k: Vec<u8>| k@);
        let mut table = table_new();
        let mut max_k: usize = 1;
        let mut i: usize = 0;
        while i < keys.len()
            invariant
                i <= keys@.len(),
                ks == keys@.map_values(|k: Vec<u8>| k@),
                max_k == max_key_len(ks.take(i as int)),
                table_contents(table) == index_map(ks.take(i as int)),
            decreases keys@.len() - i,
        {
            proof {
                assert(ks.take(i + 1).drop_last() =~= ks.take(i as int));
                assert(ks.take(i + 1).last() == keys@[i as int]@);
            }
            if keys[i].len() > max_k {
                max_k = keys[i].len();
            }
            let k = vstd::slice::slice_to_vec(keys[i].as_slice());
            table_insert(&mut table, k, i);
            i = i + 1;
        }
        proof {
            assert(ks.take(i as int) =~= ks);
            lemma_max_key_len_pos(ks);
            lemma_index_map_domain(ks, seq![MATCH]);
            lemma_index_map_domain(ks, seq![SUBST]);
            lemma_index_map_domain(ks, seq![INS]);
        }
        let q = QualityContexts { table, max_k };
        let m = vec![MATCH];
        let x = vec![SUBST];
        let ins = vec![INS];
        let has_m = q.find_key(m.as_slice()).is_some();
        let has_x = q.find_key(x.as_slice()).is_some();
        let has_i = q.find_key(ins.as_slice()).is_some();
        proof {
            assert(m@ =~= seq![MATCH]);
            assert(x@ =~= seq![SUBST]);
            assert(ins@ =~= seq![INS]);
        }
        if has_m && has_x && has_i {
            Ok(q)
        } else {
            Err(Model::QualityNotMinimalCigarString)
        }
    }

    /// Index of the context `w`, if the model knows it.
    pub fn find_key(&self, w: &[u8]) -> (r: Option<usize>)
        ensures
            r == (if self.contexts_map().contains_key(w@) { Some(self.contexts_map()[w@]) } else { None }),
    {
        table_get(&self.table, w)
    }

    /// For each column of `cigar` that is not a deletion, in order, the index of the context
    /// it gets: the window centred on the column, `max_k` wide or narrower near the ends,
    /// shrunk by one byte at both ends until the model knows it.
    pub fn assign(&self, cigar: &[u8]) -> (r: Vec<usize>)
        requires
            self.wf(),
            forall|i: int| 0 <= i < cigar@.len() ==> is_op(#[trigger] cigar@[i]),
        ensures
            r@.len() == count_non_del(cigar@),
            r@.len() == contexts(self.contexts_map(), cigar@, (self.max_k - 1) / 2, cigar@.len() as int).len(),
            forall|j: int| 0 <= j < r@.len() ==> self.contexts_map().contains_key(
                contexts(self.contexts_map(), cigar@, (self.max_k - 1) / 2, cigar@.len() as int)[j])
                && #[trigger] r@[j] == self.contexts_map()[
                contexts(self.contexts_map(), cigar@, (self.max_k - 1) / 2, cigar@.len() as int)[j]],
    {
        let ghost keys = self.contexts_map();
        let margin = (self.max_k - 1) / 2;
        let n = cigar.len();
        let mut r: Vec<usize> = Vec::new();
        let mut i: usize = 0;
        while i < n
            invariant
                n == cigar@.len(),
                i <= n,
                keys == self.contexts_map(),
                self.wf(),
                forall|t: int| 0 <= t < cigar@.len() ==> is_op(#[trigger] cigar@[t]),
                r@.len() == count_non_del(cigar@.subrange(0, i as int)),
                r@.len() == contexts(keys, cigar@, margin as int, i as int).len(),
                forall|j: int| 0 <= j < r@.len() ==> #[trigger] keys.contains_key(contexts(keys, cigar@, margin as int, i as int)[j]),
                forall|j: int| 0 <= j < r@.len() ==> #[trigger] r@[j] == keys[contexts(keys, cigar@, margin as int, i as int)[j]],
            decreases n - i,
        {
            proof {
                assert(cigar@.subrange(0, i + 1).drop_last() =~= cigar@.subrange(0, i as int));
            }
            let ghost before = r@;
            if cigar[i] != DEL {
                let idx = self.context_at(cigar, i, margin);
                r.push(idx);
                proof {
                    let prev = contexts(keys, cigar@, margin as int, i as int);
                    let next = contexts(keys, cigar@, margin as int, i + 1);
                    assert(next == prev.push(matched(keys, window(cigar@, i as int, margin as int))));
                    assert forall|j: int| 0 <= j < r@.len() implies #[trigger] keys.contains_key(next[j]) by {
                        if j < before.len() {
                            assert(next[j] == prev[j]);
                            assert(keys.contains_key(prev[j]));
                        }
                    }
                    assert forall|j: int| 0 <= j < r@.len() implies #[trigger] r@[j] == keys[next[j]] by {
                        if j < before.len() {
                            assert(r@[j] == before[j]);
                            assert(next[j] == prev[j]);
                        }
                    }
                }
            } else {
                proof {
                    let prev = contexts(keys, cigar@, margin as int, i as int);
                    let next = contexts(keys, cigar@, margin as int, i + 1);
                    assert(next == prev);
                    assert forall|j: int| 0 <= j < r@.len() implies #[trigger] keys.contains_key(next[j]) by {
                        assert(keys.contains_key(prev[j]));
                    }
                }
            }
            i = i + 1;
        }
        proof {
            assert(cigar@.subrange(0, i as int) =~= cigar@);
        }
        r
    }

    /// Index of the context of column `i`, which is not a deletion.
    fn context_at(&self, cigar: &[u8], i: usize, margin: usize) -> (r: usize)
        requires
            self.wf(),
            i < cigar@.len(),
            cigar@[i as int] != DEL,
            is_op(cigar@[i as int]),
        ensures
            self.contexts_map().contains_key(matched(self.contexts_map(), window(cigar@, i as int, margin as int))),
            r == self.contexts_map()[matched(self.contexts_map(), window(cigar@, i as int, margin as int))],
    {
        let ghost keys = self.contexts_map();
        let n = cigar.len();
        let a = if margin < i { margin } else { i };
        let h = if a < n - 1 - i { a } else { n - 1 - i };
        let mut lo: usize = i - h;
        let mut hi: usize = i + h + 1;
        while lo < i
            invariant
                lo <= i < hi <= cigar@.len(),
                i - lo == hi - 1 - i,
                keys == self.contexts_map(),
                matched(keys, cigar@.subrange(lo as int, hi as int))
                    == matched(keys, window(cigar@, i as int, margin as int)),
            decreases i - lo,
        {
            let w = vstd::slice::slice_subrange(cigar, lo, hi);
            if let Some(j) = self.find_key(w) {
                return j;
            }
            proof {
                assert(cigar@.subrange(lo as int, hi as int).subrange(1, (hi - lo) - 1)
                    =~= cigar@.subrange(lo + 1, hi - 1));
            }
            lo = lo + 1;
            hi = hi - 1;
        }
        let w = vstd::slice::slice_subrange(cigar, lo, hi);
        proof {
            assert(w@ =~= seq![cigar@[i as int]]);
        }
        match self.find_key(w) {
            Some(j) => j,
            None => {
                proof {
                    assert(false);
                }
                0
            },
        }
    }
}

/// A context is in the index map exactly when it is one of the keys.
proof fn lemma_index_map_domain(keys: Seq<Seq<u8>>, w: Seq<u8>)
    ensures
        index_map(keys).contains_key(w) <==> keys.contains(w),
    decreases keys.len(),
{
    if keys.len() > 0 {
        let t = keys.drop_last();
        lemma_index_map_domain(t, w);
        if t.contains(w) {
            let j = choose|j: int| 0 <= j < t.len() && t[j] == w;
            assert(keys[j] == w);
        }
        if keys.contains(w) && w != keys.last() {
            let j = choose|j: int| 0 <= j < keys.len() && keys[j] == w;
            assert(j < t.len());
            assert(t[j] == w);
        }
        if w == keys.last() {
            assert(keys[keys.len() - 1] == w);
        }
    }
}

/// The longest length is at least one.
proof fn lemma_max_key_len_pos(keys: Seq<Seq<u8>>)
    ensures
        max_key_len(keys) >= 1,
    decreases keys.len(),
{
    if keys.len() > 0 {
        lemma_max_key_len_pos(keys.drop_last());
    }
}

/// Quality byte of a score: the score plus the ASCII offset.
pub fn quality_byte(score: u8) -> (r: u8)
    requires
        score <= 255 - QUALITY_OFFSET,
    ensures
        r == score + QUALITY_OFFSET,
{
    score + QUALITY_OFFSET
}

} // verus!
