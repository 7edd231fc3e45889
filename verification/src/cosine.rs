use vstd::prelude::*;
use vstd::multiset::Multiset;

use crate::counts::{
    construct_item_user_matrix, pair_count, tb_count, tb_distinct, tb_index_of, tb_row, tb_seen,
    tb_wf, target_present, CountTable, ItemUserMatrix, TbModel,
};
use crate::math::{spec_dot, spec_norm_sq};
use crate::model::{EngineError, Event, RecommendationResponse};
use crate::score::{
    cosine_similarity, lemma_score_le_total, score_le, spec_score_is_zero, spec_score_le, Score,
};

verus! {

broadcast use vstd::seq_lib::group_to_multiset_ensures;

/// The model of one similarity-table row: neighbouring items with their
/// scores, best first.
pub type RowModel = Seq<(Seq<char>, Score)>;

/// The model of a whole similarity table.
pub type TableModel = Seq<(Seq<char>, RowModel)>;

/// Do all three exact sums behind the score of the pair `(k1, k2)` fit the
/// 64 bits they are kept in?
pub open spec fn pair_fits(m: TbModel, k1: Seq<char>, k2: Seq<char>) -> bool {
    &&& spec_dot(tb_row(m, k1), tb_row(m, k2)) <= u64::MAX
    &&& spec_norm_sq(tb_row(m, k1)) <= u64::MAX
    &&& spec_norm_sq(tb_row(m, k2)) <= u64::MAX
}

/// The exact cosine score of the pair `(k1, k2)` of the co-occurrence
/// matrix `m`; meaningful when `pair_fits(m, k1, k2)` holds.
pub open spec fn pair_score(m: TbModel, k1: Seq<char>, k2: Seq<char>) -> Score {
    Score {
        dot: spec_dot(tb_row(m, k1), tb_row(m, k2)) as u64,
        norm_sq_a: spec_norm_sq(tb_row(m, k1)) as u64,
        norm_sq_b: spec_norm_sq(tb_row(m, k2)) as u64,
    }
}

/// Every distinct pair of items in `m` has a score whose sums fit.
pub open spec fn all_pairs_fit(m: TbModel) -> bool {
    forall|i: int, j: int|
        0 <= i < m.len() && 0 <= j < m.len() && i != j ==> pair_fits(
            m,
            #[trigger] m[i].0,
            #[trigger] m[j].0,
        )
}

/// Does the row hold an entry for item `k2`?
pub open spec fn row_has_key(es: RowModel, k2: Seq<char>) -> bool {
    exists|i: int| 0 <= i < es.len() && es[i].0 == k2
}

/// One kept neighbour of item `k`: a different item that was observed, with
/// its true, non-zero score.
pub open spec fn good_entry(m: TbModel, k: Seq<char>, e: (Seq<char>, Score)) -> bool {
    &&& tb_seen(m, e.0)
    &&& e.0 != k
    &&& e.1 == pair_score(m, k, e.0)
    &&& !spec_score_is_zero(e.1)
}

/// A trained row for item `k`: at most ten true neighbours, no self pair,
/// no zero score, no duplicate, sorted by descending score — and complete:
/// any non-zero neighbour left out only lost against a full row of at least
/// equal scores.
pub open spec fn good_row(m: TbModel, k: Seq<char>, es: RowModel) -> bool {
    &&& es.len() <= 10
    &&& forall|i: int| 0 <= i < es.len() ==> good_entry(m, k, #[trigger] es[i])
    &&& forall|i: int, j: int| 0 <= i < j < es.len() ==> es[i].0 != es[j].0
    &&& forall|i: int, j: int|
        0 <= i <= j < es.len() ==> spec_score_le(#[trigger] es[j].1, #[trigger] es[i].1)
    &&& forall|k2: Seq<char>|
        tb_seen(m, k2) && k2 != k && !spec_score_is_zero(#[trigger] pair_score(m, k, k2))
            && !row_has_key(es, k2) ==> es.len() == 10 && spec_score_le(
            pair_score(m, k, k2),
            es[es.len() - 1].1,
        )
}

/// A trained table over the co-occurrence matrix `m`: one row per item, in
/// the matrix's own order, each row good.
pub open spec fn good_table(m: TbModel, t: TableModel) -> bool {
    &&& t.len() == m.len()
    &&& forall|i: int| 0 <= i < t.len() ==> (#[trigger] t[i].0) == m[i].0
    &&& forall|i: int| 0 <= i < t.len() ==> good_row(m, m[i].0, #[trigger] t[i].1)
}

/// The model of a candidate or row vector held in executable form.
pub open spec fn row_model(v: Seq<(String, Score)>) -> RowModel {
    v.map_values(|e: (String, Score)| (e.0@, e.1))
}

/// Sorts neighbour candidates by descending score. The result holds exactly
/// the input entries (as a multiset); ties keep no promised order. When the
/// input keys are distinct the output keys are distinct too.
fn sort_entries_desc(input: Vec<(String, Score)>) -> (r: Vec<(String, Score)>)
    ensures
        r@.to_multiset() == input@.to_multiset(),
        r@.len() == input@.len(),
        forall|i: int, j: int|
            0 <= i <= j < r@.len() ==> spec_score_le(#[trigger] r@[j].1, #[trigger] r@[i].1),
        (forall|i: int, j: int| 0 <= i < j < input@.len() ==> input@[i].0@ != input@[j].0@)
            ==> (forall|i: int, j: int| 0 <= i < j < r@.len() ==> r@[i].0@ != r@[j].0@),
{
    let ghost orig = input@;
    let ghost hyp = forall|i: int, j: int| 0 <= i < j < orig.len() ==> orig[i].0@ != orig[j].0@;
    let mut src = input;
    let mut out: Vec<(String, Score)> = Vec::new();
    proof {
        assert(out@.to_multiset().add(src@.to_multiset()) =~= orig.to_multiset());
    }
    while src.len() > 0
        invariant
            hyp == (forall|i: int, j: int|
                0 <= i < j < orig.len() ==> orig[i].0@ != orig[j].0@),
            out@.to_multiset().add(src@.to_multiset()) == orig.to_multiset(),
            out@.len() + src@.len() == orig.len(),
            forall|i: int, j: int|
                0 <= i <= j < out@.len() ==> spec_score_le(
                    #[trigger] out@[j].1,
                    #[trigger] out@[i].1,
                ),
            forall|i: int, j: int|
                0 <= i < out@.len() && 0 <= j < src@.len() ==> spec_score_le(
                    #[trigger] src@[j].1,
                    #[trigger] out@[i].1,
                ),
            hyp ==> forall|i: int, j: int|
                0 <= i < j < out@.len() ==> out@[i].0@ != out@[j].0@,
            hyp ==> forall|i: int, j: int|
                0 <= i < j < src@.len() ==> src@[i].0@ != src@[j].0@,
            hyp ==> forall|i: int, j: int|
                0 <= i < out@.len() && 0 <= j < src@.len() ==> out@[i].0@ != src@[j].0@,
        decreases src@.len(),
    {
        let n = src.len();
        let mut best: usize = 0;
        let mut k: usize = 1;
        while k < n
            invariant
                n == src@.len(),
                0 <= best < k <= n,
                forall|j: int| 0 <= j < k ==> spec_score_le(#[trigger] src@[j].1, src@[best as int].1),
            decreases n - k,
        {
            if !score_le(&src[k].1, &src[best].1) {
                proof {
                    lemma_score_le_total(src@[k as int].1, src@[best as int].1);
                    assert forall|j: int| 0 <= j < k + 1 implies spec_score_le(
                        #[trigger] src@[j].1,
                        src@[k as int].1,
                    ) by {
                        if j < k {
                            crate::score::lemma_score_le_trans(
                                src@[j].1,
                                src@[best as int].1,
                                src@[k as int].1,
                            );
                        }
                    }
                }
                best = k;
            }
            k = k + 1;
        }
        let ghost old_src = src@;
        let ghost old_out = out@;
        let elem = src.remove(best);
        out.push(elem);
        proof {
            assert(elem == old_src[best as int]);
            assert(src@ == old_src.remove(best as int));
            assert(forall|w: int| 0 <= w < best ==> src@[w] == old_src[w]);
            assert(forall|w: int|
                best <= w < src@.len() ==> src@[w] == old_src[w + 1]);
            assert(old_src.remove(best as int).to_multiset() =~= old_src.to_multiset().remove(
                elem,
            ));
            assert(out@.to_multiset() =~= old_out.to_multiset().insert(elem));
            assert(old_src.to_multiset().count(elem) > 0) by {
                assert(old_src.contains(elem));
            }
            assert(out@.to_multiset().add(src@.to_multiset()) =~= orig.to_multiset());
            assert(forall|j: int|
                0 <= j < src@.len() ==> spec_score_le(#[trigger] src@[j].1, elem.1));
            assert(forall|i: int|
                0 <= i < old_out.len() ==> out@[i] == old_out[i]);
            assert(out@[out@.len() - 1] == elem);
        }
    }
    proof {
        assert(src@.to_multiset() =~= Multiset::<(String, Score)>::empty()) by {
            assert(src@ =~= Seq::<(String, Score)>::empty());
        }
        assert(out@.to_multiset() =~= orig.to_multiset());
    }
    out
}

/// Builds the candidate neighbour list of the row at `ia`: every other
/// item's true score, kept when it is not zero. `None` from the score
/// computation aborts with `NumericInstability`.
fn build_row_candidates(m: &CountTable, ia: usize) -> (r: Result<
    Vec<(String, Score)>,
    EngineError,
>)
    requires
        m.wf(),
        ia < m.model().len(),
    ensures
        match r {
            Ok(c) => {
                &&& forall|idx: int|
                    0 <= idx < c@.len() ==> good_entry(
                        m.model(),
                        m.model()[ia as int].0,
                        #[trigger] row_model(c@)[idx],
                    )
                &&& forall|i: int, j: int| 0 <= i < j < c@.len() ==> c@[i].0@ != c@[j].0@
                &&& forall|ib: int|
                    0 <= ib < m.model().len() && ib != ia ==> pair_fits(
                        m.model(),
                        m.model()[ia as int].0,
                        #[trigger] m.model()[ib].0,
                    )
                &&& forall|ib: int|
                    0 <= ib < m.model().len() && ib != ia && !spec_score_is_zero(
                        pair_score(m.model(), m.model()[ia as int].0, #[trigger] m.model()[ib].0),
                    ) ==> row_has_key(row_model(c@), m.model()[ib].0)
            },
            Err(e) => e == EngineError::NumericInstability && !all_pairs_fit(m.model()),
        },
{
    let ghost mm = m.model();
    let ghost k = mm[ia as int].0;
    proof {
        assert(tb_seen(mm, k));
        let w = tb_index_of(mm, k);
        assert(0 <= w < mm.len() && mm[w].0 == k);
        assert(w == ia as int);
        assert(tb_row(mm, k) == mm[ia as int].1);
    }
    let va = m.row_vec(ia);
    let n = m.len();
    let mut c: Vec<(String, Score)> = Vec::new();
    let mut ib: usize = 0;
    while ib < n
        invariant
            m.wf(),
            mm == m.model(),
            n == mm.len(),
            ia < n,
            k == mm[ia as int].0,
            tb_row(mm, k) == mm[ia as int].1,
            va.sv() == mm[ia as int].1,
            va.wf(),
            0 <= ib <= n,
            forall|idx: int|
                0 <= idx < c@.len() ==> good_entry(mm, k, #[trigger] row_model(c@)[idx]),
            forall|idx: int, w: int|
                0 <= idx < c@.len() && ib <= w < n ==> (#[trigger] c@[idx].0@) != (
                #[trigger] mm[w].0),
            forall|i: int, j: int| 0 <= i < j < c@.len() ==> c@[i].0@ != c@[j].0@,
            forall|w: int|
                0 <= w < ib && w != ia ==> pair_fits(mm, k, #[trigger] mm[w].0),
            forall|w: int|
                0 <= w < ib && w != ia && !spec_score_is_zero(
                    pair_score(mm, k, #[trigger] mm[w].0),
                ) ==> row_has_key(row_model(c@), mm[w].0),
        decreases n - ib,
    {
        if ib != ia {
            proof {
                assert(tb_seen(mm, mm[ib as int].0));
                let w = tb_index_of(mm, mm[ib as int].0);
                assert(0 <= w < mm.len() && mm[w].0 == mm[ib as int].0);
                assert(w == ib as int);
                assert(tb_row(mm, mm[ib as int].0) == mm[ib as int].1);
                assert(mm[ib as int].0 != k);
            }
            let vb = m.row_vec(ib);
            match cosine_similarity(va, vb) {
                None => {
                    proof {
                        assert(!pair_fits(mm, k, mm[ib as int].0));
                        assert(!all_pairs_fit(mm)) by {
                            if all_pairs_fit(mm) {
                                assert(pair_fits(mm, mm[ia as int].0, mm[ib as int].0));
                            }
                        }
                    }
                    return Err(EngineError::NumericInstability);
                },
                Some(s) => {
                    proof {
                        assert(s == pair_score(mm, k, mm[ib as int].0));
                        assert(pair_fits(mm, k, mm[ib as int].0));
                    }
                    if !s.is_zero() {
                        let ghost old_c = c@;
                        let key2 = m.row_key(ib).clone();
                        c.push((key2, s));
                        proof {
                            assert(key2@ == mm[ib as int].0);
                            assert(row_model(c@) =~= row_model(old_c).push((key2@, s)));
                            assert(forall|idx: int|
                                0 <= idx < old_c.len() ==> c@[idx] == old_c[idx]);
                            assert(forall|idx: int|
                                0 <= idx < old_c.len() ==> row_model(c@)[idx] == row_model(
                                    old_c,
                                )[idx]);
                            assert(row_model(c@)[old_c.len() as int] == (key2@, s));
                            assert(good_entry(mm, k, (key2@, s)));
                            assert(c@[old_c.len() as int].0@ == mm[ib as int].0);
                            assert forall|i: int, j: int|
                                0 <= i < j < c@.len() implies c@[i].0@ != c@[j].0@ by {
                                if j == old_c.len() as int {
                                    assert(old_c[i].0@ != mm[ib as int].0);
                                }
                            }
                            assert forall|idx: int, w: int|
                                0 <= idx < c@.len() && ib + 1 <= w < n implies (
                            #[trigger] c@[idx].0@) != (#[trigger] mm[w].0) by {
                                if idx == old_c.len() as int {
                                    assert(mm[ib as int].0 != mm[w].0);
                                }
                            }
                        }
                    }
                },
            }
        }
        ib = ib + 1;
    }
    Ok(c)
}

/// A trained similarity table: for every observed item, its closest other
/// items by cosine similarity, best first, at most ten, zero scores and the
/// item itself left out.
#[derive(Debug)]
pub struct SimilarityTable {
    rows: Vec<(String, Vec<(String, Score)>)>,
}

/// Does the table hold a row for item `k`?
pub open spec fn t_seen(t: TableModel, k: Seq<char>) -> bool {
    exists|i: int| 0 <= i < t.len() && t[i].0 == k
}

/// The position of the row for item `k`.
pub open spec fn t_index_of(t: TableModel, k: Seq<char>) -> int {
    choose|i: int| 0 <= i < t.len() && t[i].0 == k
}

/// The neighbour list of item `k`, empty for an absent key.
pub open spec fn t_row_of(t: TableModel, k: Seq<char>) -> RowModel {
    if t_seen(t, k) {
        t[t_index_of(t, k)].1
    } else {
        Seq::empty()
    }
}

impl SimilarityTable {
    /// The mathematical content of the table.
    pub closed spec fn model(self) -> TableModel {
        self.rows@.map_values(
            |r: (String, Vec<(String, Score)>)| (r.0@, row_model(r.1@)),
        )
    }

    pub fn len(&self) -> (r: usize)
        ensures
            r == self.model().len(),
    {
        self.rows.len()
    }

    pub fn row_key(&self, i: usize) -> (r: &String)
        requires
            i < self.model().len(),
        ensures
            r@ == self.model()[i as int].0,
    {
        &self.rows[i].0
    }

    pub fn row(&self, i: usize) -> (r: &Vec<(String, Score)>)
        requires
            i < self.model().len(),
        ensures
            row_model(r@) == self.model()[i as int].1,
    {
        &self.rows[i].1
    }

    /// The position of the row for `key`, if the table holds one. Meaningful
    /// when the table's keys are distinct.
    pub fn find_row(&self, key: &String) -> (r: Option<usize>)
        requires
            forall|i: int, j: int|
                0 <= i < j < self.model().len() ==> self.model()[i].0 != self.model()[j].0,
        ensures
            t_seen(self.model(), key@) ==> r == Some(t_index_of(self.model(), key@) as usize),
            !t_seen(self.model(), key@) ==> r is None,
    {
        let ghost t = self.model();
        let n = self.rows.len();
        let mut i: usize = 0;
        while i < n
            invariant
                n == t.len(),
                0 <= i <= n,
                self.model() == t,
                forall|w1: int, w2: int| 0 <= w1 < w2 < t.len() ==> t[w1].0 != t[w2].0,
                forall|j: int| 0 <= j < i ==> t[j].0 != key@,
            decreases n - i,
        {
            if self.rows[i].0 == *key {
                proof {
                    assert(t[i as int].0 == key@);
                    let w = t_index_of(t, key@);
                    assert(0 <= w < t.len() && t[w].0 == key@);
                    assert(w == i as int);
                }
                return Some(i);
            }
            i = i + 1;
        }
        None
    }
}

/// Builds the similarity table of the item-to-user co-occurrence matrix:
/// one row per item in matrix order, each row that item's top neighbours by
/// exact cosine similarity. Fails with `NumericInstability` exactly when
/// some pair's exact sums leave 64 bits, leaving no table behind.
pub fn build_similarity_table(m: &CountTable) -> (r: Result<SimilarityTable, EngineError>)
    requires
        m.wf(),
    ensures
        match r {
            Ok(t) => good_table(m.model(), t.model()) && all_pairs_fit(m.model()),
            Err(e) => e == EngineError::NumericInstability && !all_pairs_fit(m.model()),
        },
{
    let ghost mm = m.model();
    let n = m.len();
    let mut rows: Vec<(String, Vec<(String, Score)>)> = Vec::new();
    let mut ia: usize = 0;
    while ia < n
        invariant
            m.wf(),
            mm == m.model(),
            n == mm.len(),
            0 <= ia <= n,
            rows@.len() == ia,
            forall|i: int| 0 <= i < ia ==> (#[trigger] rows@[i].0@) == mm[i].0,
            forall|i: int|
                0 <= i < ia ==> good_row(mm, mm[i].0, row_model(#[trigger] rows@[i].1@)),
            forall|w: int, j: int|
                0 <= w < ia && 0 <= j < n && j != w ==> pair_fits(
                    mm,
                    #[trigger] mm[w].0,
                    #[trigger] mm[j].0,
                ),
        decreases n - ia,
    {
        let cands = match build_row_candidates(m, ia) {
            Ok(c) => c,
            Err(e) => {
                return Err(e);
            },
        };
        let ghost gcands = cands@;
        let mut sorted = sort_entries_desc(cands);
        let ghost gsorted = sorted@;
        sorted.truncate(crate::TOP_K);
        proof {
            if gsorted.len() <= 10 {
                assert(sorted@ == gsorted);
                assert(sorted@ =~= gsorted.take(if gsorted.len() < 10 {
                    gsorted.len() as int
                } else {
                    10
                }));
            } else {
                assert(sorted@ == gsorted.subrange(0, 10));
            }
            assert(forall|i: int| 0 <= i < sorted@.len() ==> sorted@[i] == gsorted[i]);
            lemma_kept_row_good(mm, mm[ia as int].0, gcands, gsorted, sorted@);
        }
        let key = m.row_key(ia).clone();
        let ghost old_rows = rows@;
        rows.push((key, sorted));
        proof {
            assert(forall|i: int| 0 <= i < old_rows.len() ==> rows@[i] == old_rows[i]);
            assert(rows@[ia as int].0@ == mm[ia as int].0);
            assert(row_model(rows@[ia as int].1@) == row_model(sorted@));
        }
        ia = ia + 1;
    }
    let t = SimilarityTable { rows };
    proof {
        assert(t.model().len() == mm.len());
        assert(forall|i: int|
            0 <= i < t.model().len() ==> (#[trigger] t.model()[i].0) == mm[i].0);
        assert(forall|i: int|
            0 <= i < t.model().len() ==> (#[trigger] t.model()[i].1) == row_model(rows@[i].1@));
        assert(all_pairs_fit(mm)) by {
            assert forall|i: int, j: int|
                0 <= i < mm.len() && 0 <= j < mm.len() && i != j implies pair_fits(
                mm,
                #[trigger] mm[i].0,
                #[trigger] mm[j].0,
            ) by {}
        }
    }
    Ok(t)
}

/// The candidate list survives sorting and truncation as a good row: every
/// kept entry is a true candidate, order is by descending score, and any
/// candidate left out lost against a full row of at least equal scores.
proof fn lemma_kept_row_good(
    mm: TbModel,
    k: Seq<char>,
    gcands: Seq<(String, Score)>,
    gsorted: Seq<(String, Score)>,
    kept: Seq<(String, Score)>,
)
    requires
        forall|idx: int|
            0 <= idx < gcands.len() ==> good_entry(mm, k, #[trigger] row_model(gcands)[idx]),
        forall|i: int, j: int| 0 <= i < j < gcands.len() ==> gcands[i].0@ != gcands[j].0@,
        forall|ib: int|
            0 <= ib < mm.len() && mm[ib].0 != k && !spec_score_is_zero(
                pair_score(mm, k, #[trigger] mm[ib].0),
            ) ==> row_has_key(row_model(gcands), mm[ib].0),
        gsorted.to_multiset() == gcands.to_multiset(),
        gsorted.len() == gcands.len(),
        forall|i: int, j: int|
            0 <= i <= j < gsorted.len() ==> spec_score_le(
                #[trigger] gsorted[j].1,
                #[trigger] gsorted[i].1,
            ),
        forall|i: int, j: int| 0 <= i < j < gsorted.len() ==> gsorted[i].0@ != gsorted[j].0@,
        kept.len() == if gsorted.len() < 10 {
            gsorted.len() as int
        } else {
            10
        },
        forall|i: int| 0 <= i < kept.len() ==> (#[trigger] kept[i]) == gsorted[i],
        tb_distinct(mm),
    ensures
        good_row(mm, k, row_model(kept)),
{
    let km = row_model(kept);
    assert(km.len() == kept.len());
    assert forall|i: int| 0 <= i < km.len() implies good_entry(mm, k, #[trigger] km[i]) by {
        let e = kept[i];
        assert(gsorted.contains(e)) by {
            assert(gsorted[i] == e);
        }
        assert(gcands.to_multiset().count(e) > 0);
        assert(gcands.contains(e));
        let widx = choose|w: int| 0 <= w < gcands.len() && gcands[w] == e;
        assert(row_model(gcands)[widx] == (e.0@, e.1));
        assert(km[i] == (e.0@, e.1));
    }
    assert(forall|i: int, j: int| 0 <= i < j < km.len() ==> km[i].0 != km[j].0);
    assert(forall|i: int, j: int|
        0 <= i <= j < km.len() ==> spec_score_le(#[trigger] km[j].1, #[trigger] km[i].1));
    assert forall|k2: Seq<char>|
        tb_seen(mm, k2) && k2 != k && !spec_score_is_zero(#[trigger] pair_score(mm, k, k2))
            && !row_has_key(km, k2) implies km.len() == 10 && spec_score_le(
        pair_score(mm, k, k2),
        km[km.len() - 1].1,
    ) by {
        let ib = choose|i: int| 0 <= i < mm.len() && mm[i].0 == k2;
        assert(row_has_key(row_model(gcands), mm[ib].0));
        let widx = choose|w: int|
            0 <= w < row_model(gcands).len() && (#[trigger] row_model(gcands)[w]).0 == k2;
        let e = gcands[widx];
        assert(e.0@ == k2);
        assert(gcands.contains(e)) by {
            assert(gcands[widx] == e);
        }
        assert(gsorted.to_multiset().count(e) > 0);
        assert(gsorted.contains(e));
        let pos = choose|p: int| 0 <= p < gsorted.len() && gsorted[p] == e;
        assert(pos >= kept.len()) by {
            if pos < kept.len() {
                assert(kept[pos] == e);
                assert(km[pos].0 == k2);
                assert(row_has_key(km, k2));
            }
        }
        assert(kept.len() == 10) by {
            if gsorted.len() < 10 {
                assert(kept.len() == gsorted.len());
                assert(pos < gsorted.len());
            }
        }
        assert(good_entry(mm, k, row_model(gcands)[widx]));
        assert(e.1 == pair_score(mm, k, k2));
        assert(spec_score_le(gsorted[pos].1, gsorted[9].1));
        assert(km[9] == (gsorted[9].0@, gsorted[9].1));
        assert(kept[9] == gsorted[9]);
    }
    assert(km.len() <= 10);
}

/// Does the matrix model `mm` hold exactly the item-to-user counts of the
/// events `es`?
pub open spec fn matrix_matches(mm: TbModel, es: Seq<Event>) -> bool {
    &&& tb_wf(mm)
    &&& forall|u: Seq<char>, t: Seq<char>| #![trigger tb_count(mm, t, u)]
        tb_count(mm, t, u) == pair_count(es, u, t)
    &&& forall|t: Seq<char>| #![trigger tb_seen(mm, t)] tb_seen(mm, t) == target_present(es, t)
}

/// Does some row of the item-to-user matrix hold a positive count for user
/// `u` — that is, did `u` interact at all?
pub open spec fn user_known(mm: TbModel, u: Seq<char>) -> bool {
    exists|i: int| 0 <= i < mm.len() && crate::math::sv_lookup(#[trigger] mm[i].1, u) > 0
}

/// Law: a user is known to the trained matrix exactly when some event names
/// that user.
pub proof fn lemma_user_known_iff(mm: TbModel, es: Seq<Event>, u: Seq<char>)
    requires
        matrix_matches(mm, es),
    ensures
        user_known(mm, u) == crate::counts::user_present(es, u),
{
    if user_known(mm, u) {
        let i = choose|i: int|
            0 <= i < mm.len() && crate::math::sv_lookup(#[trigger] mm[i].1, u) > 0;
        assert(tb_seen(mm, mm[i].0)) by {
            assert(mm[i].0 == mm[i].0);
        }
        let w = tb_index_of(mm, mm[i].0);
        assert(0 <= w < mm.len() && mm[w].0 == mm[i].0);
        assert(w == i);
        assert(tb_row(mm, mm[i].0) == mm[i].1);
        assert(tb_count(mm, mm[i].0, u) > 0);
        assert(pair_count(es, u, mm[i].0) > 0);
        crate::counts::lemma_pair_count_exists(es, u, mm[i].0);
    }
    if crate::counts::user_present(es, u) {
        let j = choose|j: int| 0 <= j < es.len() && (#[trigger] es[j]).user() == u;
        crate::counts::lemma_pair_count_pos(es, j);
        assert(target_present(es, es[j].target()));
        assert(tb_seen(mm, es[j].target()));
        let i = tb_index_of(mm, es[j].target());
        assert(0 <= i < mm.len() && mm[i].0 == es[j].target());
        assert(tb_row(mm, es[j].target()) == mm[i].1);
        assert(tb_count(mm, es[j].target(), u) == pair_count(es, u, es[j].target()));
        assert(crate::math::sv_lookup(mm[i].1, u) > 0);
    }
}

/// Was `id` handed out because it neighbours some item the user `u`
/// interacted with?
pub open spec fn recommended_from(
    mm: TbModel,
    tm: TableModel,
    u: Seq<char>,
    id: Seq<char>,
) -> bool {
    exists|ia: int|
        0 <= ia < mm.len() && crate::math::sv_lookup(#[trigger] mm[ia].1, u) > 0 && ia
            < tm.len() && row_has_key(tm[ia].1, id)
}

/// Sorts aggregate counts descending. The result holds exactly the input
/// entries; when the input keys are distinct, so are the output keys.
fn sort_counts_desc(input: Vec<(String, u32)>) -> (r: Vec<(String, u32)>)
    ensures
        r@.to_multiset() == input@.to_multiset(),
        r@.len() == input@.len(),
        forall|i: int, j: int| 0 <= i <= j < r@.len() ==> r@[j].1 <= r@[i].1,
        (forall|i: int, j: int| 0 <= i < j < input@.len() ==> input@[i].0@ != input@[j].0@)
            ==> (forall|i: int, j: int| 0 <= i < j < r@.len() ==> r@[i].0@ != r@[j].0@),
{
    let ghost orig = input@;
    let ghost hyp = forall|i: int, j: int| 0 <= i < j < orig.len() ==> orig[i].0@ != orig[j].0@;
    let mut src = input;
    let mut out: Vec<(String, u32)> = Vec::new();
    proof {
        assert(out@.to_multiset().add(src@.to_multiset()) =~= orig.to_multiset());
    }
    while src.len() > 0
        invariant
            hyp == (forall|i: int, j: int|
                0 <= i < j < orig.len() ==> orig[i].0@ != orig[j].0@),
            out@.to_multiset().add(src@.to_multiset()) == orig.to_multiset(),
            out@.len() + src@.len() == orig.len(),
            forall|i: int, j: int| 0 <= i <= j < out@.len() ==> out@[j].1 <= out@[i].1,
            forall|i: int, j: int|
                0 <= i < out@.len() && 0 <= j < src@.len() ==> src@[j].1 <= out@[i].1,
            hyp ==> forall|i: int, j: int|
                0 <= i < j < out@.len() ==> out@[i].0@ != out@[j].0@,
            hyp ==> forall|i: int, j: int|
                0 <= i < j < src@.len() ==> src@[i].0@ != src@[j].0@,
            hyp ==> forall|i: int, j: int|
                0 <= i < out@.len() && 0 <= j < src@.len() ==> out@[i].0@ != src@[j].0@,
        decreases src@.len(),
    {
        let n = src.len();
        let mut best: usize = 0;
        let mut k: usize = 1;
        while k < n
            invariant
                n == src@.len(),
                0 <= best < k <= n,
                forall|j: int| 0 <= j < k ==> src@[j].1 <= src@[best as int].1,
            decreases n - k,
        {
            if src[k].1 > src[best].1 {
                best = k;
            }
            k = k + 1;
        }
        let ghost old_src = src@;
        let ghost old_out = out@;
        let elem = src.remove(best);
        out.push(elem);
        proof {
            assert(elem == old_src[best as int]);
            assert(forall|w: int| 0 <= w < best ==> src@[w] == old_src[w]);
            assert(forall|w: int| best <= w < src@.len() ==> src@[w] == old_src[w + 1]);
            assert(old_src.remove(best as int).to_multiset() =~= old_src.to_multiset().remove(
                elem,
            ));
            assert(out@.to_multiset() =~= old_out.to_multiset().insert(elem));
            assert(old_src.to_multiset().count(elem) > 0) by {
                assert(old_src.contains(elem));
            }
            assert(out@.to_multiset().add(src@.to_multiset()) =~= orig.to_multiset());
            assert(forall|i: int| 0 <= i < old_out.len() ==> out@[i] == old_out[i]);
            assert(out@[out@.len() - 1] == elem);
        }
    }
    proof {
        assert(src@.to_multiset() =~= Multiset::<(String, u32)>::empty()) by {
            assert(src@ =~= Seq::<(String, u32)>::empty());
        }
        assert(out@.to_multiset() =~= orig.to_multiset());
    }
    out
}

/// The in-memory cosine-similarity engine: accumulates interaction events,
/// derives the item-to-user co-occurrence matrix from them once per
/// training run, and keeps the trained similarity table until the next
/// successful run replaces it.
pub struct CosineSimilarityEngineInMemory {
    events: Vec<Event>,
    item_user_matrix: Option<ItemUserMatrix>,
    model_state: Option<(ItemUserMatrix, SimilarityTable)>,
}

impl CosineSimilarityEngineInMemory {
    /// The events ingested so far, in arrival order.
    pub closed spec fn evs(self) -> Seq<Event> {
        self.events@
    }

    /// Has a training run completed?
    pub closed spec fn trained(self) -> bool {
        self.model_state is Some
    }

    /// The co-occurrence matrix the current table was trained from.
    pub closed spec fn trained_model(self) -> TbModel {
        self.model_state->Some_0.0.model()
    }

    /// The trained similarity table.
    pub closed spec fn table_model(self) -> TableModel {
        self.model_state->Some_0.1.model()
    }

    /// Well-formedness: no more events than the counts can hold, the cached
    /// matrix (when built) reflects the current events, and the trained
    /// state (when present) is a good table over its own matrix.
    pub closed spec fn wf(self) -> bool {
        &&& self.events@.len() <= u32::MAX
        &&& match self.item_user_matrix {
            Some(m) => m.wf() && matrix_matches(m.model(), self.events@),
            None => true,
        }
        &&& match self.model_state {
            Some(p) => p.0.wf() && good_table(p.0.model(), p.1.model()) && all_pairs_fit(
                p.0.model(),
            ),
            None => true,
        }
    }

    pub fn new() -> (r: CosineSimilarityEngineInMemory)
        ensures
            r.wf(),
            r.evs() == Seq::<Event>::empty(),
            !r.trained(),
    {
        let r = CosineSimilarityEngineInMemory {
            events: Vec::new(),
            item_user_matrix: None,
            model_state: None,
        };
        proof {
            assert(r.evs() =~= Seq::<Event>::empty());
        }
        r
    }

    /// Ingests one interaction event. The cached co-occurrence matrix is
    /// dropped (it no longer reflects the events); a trained table is kept
    /// until the next training run replaces it.
    pub fn add_event(&mut self, event: Event)
        requires
            old(self).wf(),
            old(self).evs().len() < u32::MAX,
        ensures
            final(self).wf(),
            final(self).evs() == old(self).evs().push(event),
            final(self).trained() == old(self).trained(),
            final(self).trained_model() == old(self).trained_model(),
            final(self).table_model() == old(self).table_model(),
    {
        self.events.push(event);
        self.item_user_matrix = None;
    }

    /// The item-to-user co-occurrence matrix of the current events,
    /// computed once and cached until the events change.
    pub fn item_user_matrix(&mut self) -> (r: &ItemUserMatrix)
        requires
            old(self).wf(),
        ensures
            final(self).wf(),
            final(self).evs() == old(self).evs(),
            final(self).trained() == old(self).trained(),
            final(self).trained_model() == old(self).trained_model(),
            final(self).table_model() == old(self).table_model(),
            r.wf(),
            matrix_matches(r.model(), old(self).evs()),
    {
        if self.item_user_matrix.is_none() {
            let m = construct_item_user_matrix(&self.events);
            self.item_user_matrix = Some(m);
        }
        match &self.item_user_matrix {
            Some(m) => m,
            None => vstd::pervasive::unreached(),
        }
    }

    /// Trains the similarity table from the events seen so far. Fails fast
    /// with `EmptyCorpus` on no events; fails with `NumericInstability`
    /// exactly when some item pair's exact sums leave 64 bits, leaving any
    /// prior trained table intact. On success the new table atomically
    /// replaces the old one.
    pub fn train(&mut self) -> (r: Result<(), EngineError>)
        requires
            old(self).wf(),
        ensures
            final(self).wf(),
            final(self).evs() == old(self).evs(),
            match r {
                Ok(()) => {
                    &&& old(self).evs().len() > 0
                    &&& final(self).trained()
                    &&& matrix_matches(final(self).trained_model(), old(self).evs())
                    &&& good_table(final(self).trained_model(), final(self).table_model())
                    &&& all_pairs_fit(final(self).trained_model())
                },
                Err(EngineError::EmptyCorpus) => {
                    &&& old(self).evs().len() == 0
                    &&& final(self).trained() == old(self).trained()
                    &&& final(self).trained_model() == old(self).trained_model()
                    &&& final(self).table_model() == old(self).table_model()
                },
                Err(EngineError::NumericInstability) => {
                    &&& old(self).evs().len() > 0
                    &&& exists|mm: TbModel|
                        matrix_matches(mm, old(self).evs()) && !all_pairs_fit(mm)
                    &&& final(self).trained() == old(self).trained()
                    &&& final(self).trained_model() == old(self).trained_model()
                    &&& final(self).table_model() == old(self).table_model()
                },
                _ => false,
            },
    {
        if self.events.is_empty() {
            return Err(EngineError::EmptyCorpus);
        }
        let m = match self.item_user_matrix.take() {
            Some(m) => m,
            None => construct_item_user_matrix(&self.events),
        };
        let built = build_similarity_table(&m);
        match built {
            Ok(t) => {
                self.model_state = Some((m, t));
                Ok(())
            },
            Err(e) => {
                proof {
                    assert(matrix_matches(m.model(), self.events@) && !all_pairs_fit(m.model()));
                }
                self.item_user_matrix = Some(m);
                Err(e)
            },
        }
    }

    /// The trained neighbours of `target_id` with their exact scores, best
    /// first, at most `n_items` of them: the prefix of the trained row.
    pub fn similar_items(&self, target_id: &String, n_items: usize) -> (r: Result<
        Vec<(String, Score)>,
        EngineError,
    >)
        requires
            self.wf(),
        ensures
            !self.trained() ==> r == Result::<Vec<(String, Score)>, EngineError>::Err(
                EngineError::NotTrained,
            ),
            self.trained() && !tb_seen(self.trained_model(), target_id@) ==> r == Result::<
                Vec<(String, Score)>,
                EngineError,
            >::Err(EngineError::UnknownIdentifier),
            self.trained() && tb_seen(self.trained_model(), target_id@) ==> r is Ok && ({
                let row = t_row_of(self.table_model(), target_id@);
                let n = if (n_items as int) < row.len() {
                    n_items as int
                } else {
                    row.len() as int
                };
                row_model(r->Ok_0@) == row.take(n)
            }),
    {
        let (m, t) = match &self.model_state {
            None => {
                return Err(EngineError::NotTrained);
            },
            Some(p) => (&p.0, &p.1),
        };
        let ghost mm = m.model();
        let ghost tm = t.model();
        let tn = t.len();
        proof {
            assert(tm.len() == tn);
            assert forall|i: int, j: int| 0 <= i < j < tm.len() implies tm[i].0 != tm[j].0 by {
                assert(tm[i].0 == mm[i].0 && tm[j].0 == mm[j].0);
            }
        }
        let found = t.find_row(target_id);
        match found {
            None => {
                proof {
                    assert(!t_seen(tm, target_id@));
                    if tb_seen(mm, target_id@) {
                        let w = tb_index_of(mm, target_id@);
                        assert(0 <= w < mm.len() && mm[w].0 == target_id@);
                        assert(tm[w].0 == target_id@);
                        assert(t_seen(tm, target_id@));
                    }
                }
                Err(EngineError::UnknownIdentifier)
            },
            Some(i) => {
                proof {
                    assert(t_seen(tm, target_id@));
                    let w = t_index_of(tm, target_id@);
                    assert(0 <= w < tm.len() && tm[w].0 == target_id@);
                    assert(w == i as int);
                    assert(t_row_of(tm, target_id@) == tm[i as int].1);
                    assert(mm[i as int].0 == target_id@);
                    assert(tb_seen(mm, target_id@));
                }
                let row = t.row(i);
                let limit = if n_items < row.len() {
                    n_items
                } else {
                    row.len()
                };
                let mut v: Vec<(String, Score)> = Vec::new();
                let mut j: usize = 0;
                while j < limit
                    invariant
                        limit <= row@.len(),
                        0 <= j <= limit,
                        row_model(row@) == t_row_of(tm, target_id@),
                        v@.len() == j,
                        forall|w: int| 0 <= w < j ==> (#[trigger] v@[w]).0@ == row@[w].0@,
                        forall|w: int| 0 <= w < j ==> (#[trigger] v@[w]).1 == row@[w].1,
                    decreases limit - j,
                {
                    let e = (row[j].0.clone(), row[j].1);
                    v.push(e);
                    j = j + 1;
                }
                proof {
                    let rm = t_row_of(tm, target_id@);
                    let n = if (n_items as int) < rm.len() {
                        n_items as int
                    } else {
                        rm.len() as int
                    };
                    assert(row_model(v@) =~= rm.take(n)) by {
                        assert(row_model(v@).len() == n);
                        assert(forall|w: int|
                            0 <= w < n ==> (#[trigger] row_model(v@)[w]) == (
                            v@[w].0@,
                            v@[w].1,
                            ));
                        assert(forall|w: int|
                            0 <= w < n ==> (#[trigger] row_model(row@)[w]) == (
                            row@[w].0@,
                            row@[w].1,
                            ));
                        assert(forall|w: int| 0 <= w < n ==> rm.take(n)[w] == rm[w]);
                    }
                }
                Ok(v)
            },
        }
    }

    /// The neighbours of `target_id` as a ranked identifier list, best
    /// first: the item-query surface of the capability contract.
    pub fn find_similar_by_target_id(&self, target_id: String, n_items: usize) -> (r: Result<
        RecommendationResponse,
        EngineError,
    >)
        requires
            self.wf(),
        ensures
            !self.trained() ==> r is Err && r->Err_0 == EngineError::NotTrained,
            self.trained() && !tb_seen(self.trained_model(), target_id@) ==> r is Err
                && r->Err_0 == EngineError::UnknownIdentifier,
            self.trained() && tb_seen(self.trained_model(), target_id@) ==> r is Ok && ({
                let row = t_row_of(self.table_model(), target_id@);
                let n = if (n_items as int) < row.len() {
                    n_items as int
                } else {
                    row.len() as int
                };
                r->Ok_0.ids() == row.take(n).map_values(|e: (Seq<char>, Score)| e.0)
            }),
    {
        let detailed = match self.similar_items(&target_id, n_items) {
            Ok(v) => v,
            Err(e) => {
                return Err(e);
            },
        };
        let mut ids: Vec<String> = Vec::new();
        let n = detailed.len();
        let mut j: usize = 0;
        while j < n
            invariant
                n == detailed@.len(),
                0 <= j <= n,
                ids@.len() == j,
                forall|w: int| 0 <= w < j ==> (#[trigger] ids@[w])@ == detailed@[w].0@,
            decreases n - j,
        {
            ids.push(detailed[j].0.clone());
            j = j + 1;
        }
        let resp = RecommendationResponse::new(ids);
        proof {
            let row = t_row_of(self.table_model(), target_id@);
            let nn = if (n_items as int) < row.len() {
                n_items as int
            } else {
                row.len() as int
            };
            assert(resp.ids() =~= row.take(nn).map_values(|e: (Seq<char>, Score)| e.0)) by {
                assert(row_model(detailed@) == row.take(nn));
                assert(forall|w: int|
                    0 <= w < nn ==> (#[trigger] resp.ids()[w]) == ids@[w]@);
                assert(forall|w: int|
                    0 <= w < nn ==> (#[trigger] row_model(detailed@)[w]) == (
                    detailed@[w].0@,
                    detailed@[w].1,
                    ));
            }
        }
        Ok(resp)
    }

    /// How many of the first `n` items both saw an interaction from user
    /// `u` and name `id` in their trained neighbour list: the aggregate that
    /// ranks pooled recommendations.
    pub open spec fn rec_freq(
        mm: TbModel,
        tm: TableModel,
        u: Seq<char>,
        id: Seq<char>,
        n: int,
    ) -> int
        decreases n,
    {
        if n <= 0 {
            0
        } else {
            Self::rec_freq(mm, tm, u, id, n - 1) + if crate::math::sv_lookup(mm[n - 1].1, u) > 0
                && row_has_key(tm[n - 1].1, id) {
                1int
            } else {
                0int
            }
        }
    }

    /// The aggregate count as the accumulator holds it: saturating at the
    /// counter's capacity.
    pub open spec fn clamped_freq(
        mm: TbModel,
        tm: TableModel,
        u: Seq<char>,
        id: Seq<char>,
        n: int,
    ) -> int {
        if Self::rec_freq(mm, tm, u, id, n) > u32::MAX {
            u32::MAX as int
        } else {
            Self::rec_freq(mm, tm, u, id, n)
        }
    }

    /// Recommends items for `user_id` by the documented generalization of
    /// the item-similarity table: the neighbour lists of every item the
    /// user interacted with are pooled and re-ranked by an aggregate. The
    /// aggregate used is how many of those lists name the candidate
    /// (saturating; ties keep first-seen order) — a deliberate, exactly
    /// computable surrogate for a summed similarity score, whose real
    /// value has no exact integer representation in this design. The best
    /// `n_items` distinct candidates are returned, and any pooled
    /// candidate left out ranks no higher than the last one returned.
    pub fn find_similar_by_user_id(&self, user_id: String, n_items: usize) -> (r: Result<
        RecommendationResponse,
        EngineError,
    >)
        requires
            self.wf(),
        ensures
            !self.trained() ==> r is Err && r->Err_0 == EngineError::NotTrained,
            self.trained() && !user_known(self.trained_model(), user_id@) ==> r is Err
                && r->Err_0 == EngineError::UnknownIdentifier,
            self.trained() && user_known(self.trained_model(), user_id@) ==> r is Ok && ({
                let ids = r->Ok_0.ids();
                &&& ids.len() <= n_items
                &&& forall|i: int, j: int| 0 <= i < j < ids.len() ==> ids[i] != ids[j]
                &&& forall|i: int|
                    0 <= i < ids.len() ==> recommended_from(
                        self.trained_model(),
                        self.table_model(),
                        user_id@,
                        #[trigger] ids[i],
                    )
                &&& forall|p: int, q: int|
                    0 <= p < q < ids.len() ==> Self::clamped_freq(
                        self.trained_model(),
                        self.table_model(),
                        user_id@,
                        #[trigger] ids[q],
                        self.trained_model().len() as int,
                    ) <= Self::clamped_freq(
                        self.trained_model(),
                        self.table_model(),
                        user_id@,
                        #[trigger] ids[p],
                        self.trained_model().len() as int,
                    )
                &&& forall|p: int|
                    0 <= p < ids.len() ==> Self::clamped_freq(
                        self.trained_model(),
                        self.table_model(),
                        user_id@,
                        #[trigger] ids[p],
                        self.trained_model().len() as int,
                    ) >= 1
                &&& forall|k2: Seq<char>|
                    Self::clamped_freq(
                        self.trained_model(),
                        self.table_model(),
                        user_id@,
                        k2,
                        self.trained_model().len() as int,
                    ) >= 1 && !ids.contains(k2) ==> ids.len() == n_items && (n_items > 0
                        ==> #[trigger] Self::clamped_freq(
                        self.trained_model(),
                        self.table_model(),
                        user_id@,
                        k2,
                        self.trained_model().len() as int,
                    ) <= Self::clamped_freq(
                        self.trained_model(),
                        self.table_model(),
                        user_id@,
                        ids[ids.len() - 1],
                        self.trained_model().len() as int,
                    ))
            }),
    {
        let (m, t) = match &self.model_state {
            None => {
                return Err(EngineError::NotTrained);
            },
            Some(p) => (&p.0, &p.1),
        };
        let ghost mm = m.model();
        let ghost tm = t.model();
        let n = m.len();
        let mut freq = crate::math::SparseVector::new();
        let mut interacted = false;
        let mut ia: usize = 0;
        while ia < n
            invariant
                m.wf(),
                mm == m.model(),
                tm == t.model(),
                tm.len() == mm.len(),
                good_table(mm, tm),
                n == mm.len(),
                0 <= ia <= n,
                freq.wf(),
                interacted == exists|i: int|
                    0 <= i < ia && crate::math::sv_lookup(#[trigger] mm[i].1, user_id@) > 0,
                forall|k: Seq<char>|
                    crate::math::sv_seen(freq.sv(), k) ==> recommended_from(mm, tm, user_id@, k),
                forall|k: Seq<char>| #![trigger crate::math::sv_lookup(freq.sv(), k)]
                    crate::math::sv_lookup(freq.sv(), k) == Self::clamped_freq(
                        mm,
                        tm,
                        user_id@,
                        k,
                        ia as int,
                    ),
                forall|w: int| 0 <= w < freq.sv().len() ==> (#[trigger] freq.sv()[w]).1 >= 1,
            decreases n - ia,
        {
            proof {
                assert(crate::math::sv_distinct(mm[ia as int].1));
            }
            let rv = m.row_vec(ia);
            let cnt = rv.get(&user_id);
            if cnt > 0 {
                proof {
                    assert(crate::math::sv_lookup(mm[ia as int].1, user_id@) > 0);
                }
                interacted = true;
                let row = t.row(ia);
                let rn = row.len();
                let mut j: usize = 0;
                proof {
                    assert(tm[ia as int].1.take(0) =~= Seq::<(Seq<char>, Score)>::empty());
                    assert(good_row(mm, mm[ia as int].0, tm[ia as int].1));
                }
                while j < rn
                    invariant
                        mm == m.model(),
                        tm == t.model(),
                        tm.len() == mm.len(),
                        n == mm.len(),
                        0 <= ia < n,
                        rn == row@.len(),
                        0 <= j <= rn,
                        row_model(row@) == tm[ia as int].1,
                        crate::math::sv_lookup(mm[ia as int].1, user_id@) > 0,
                        freq.wf(),
                        good_row(mm, mm[ia as int].0, tm[ia as int].1),
                        forall|k: Seq<char>|
                            crate::math::sv_seen(freq.sv(), k) ==> recommended_from(
                                mm,
                                tm,
                                user_id@,
                                k,
                            ),
                        forall|k: Seq<char>| #![trigger crate::math::sv_lookup(freq.sv(), k)]
                            crate::math::sv_lookup(freq.sv(), k) == ({
                                let base = Self::rec_freq(mm, tm, user_id@, k, ia as int) + (
                                if row_has_key(tm[ia as int].1.take(j as int), k) {
                                    1int
                                } else {
                                    0int
                                });
                                if base > u32::MAX {
                                    u32::MAX as int
                                } else {
                                    base
                                }
                            }),
                        forall|w: int|
                            0 <= w < freq.sv().len() ==> (#[trigger] freq.sv()[w]).1 >= 1,
                    decreases rn - j,
                {
                    let key = row[j].0.clone();
                    let ghost oldfreq = freq.sv();
                    let ghost kk = row@[j as int].0@;
                    proof {
                        assert(row_model(row@)[j as int].0 == kk);
                        assert(tm[ia as int].1[j as int].0 == kk);
                        assert(!row_has_key(tm[ia as int].1.take(j as int), kk)) by {
                            if row_has_key(tm[ia as int].1.take(j as int), kk) {
                                let w = choose|w: int|
                                    0 <= w < tm[ia as int].1.take(j as int).len() && (
                                    #[trigger] tm[ia as int].1.take(j as int)[w]).0 == kk;
                                assert(tm[ia as int].1[w].0 == kk);
                            }
                        }
                        assert forall|k: Seq<char>|
                            #![trigger row_has_key(tm[ia as int].1.take(j as int + 1), k)]
                            row_has_key(tm[ia as int].1.take(j as int + 1), k) == (row_has_key(
                            tm[ia as int].1.take(j as int),
                            k,
                        ) || k == kk) by {
                            let pre = tm[ia as int].1.take(j as int);
                            let pre1 = tm[ia as int].1.take(j as int + 1);
                            if row_has_key(pre1, k) {
                                let w = choose|w: int|
                                    0 <= w < pre1.len() && (#[trigger] pre1[w]).0 == k;
                                if w < j as int {
                                    assert(pre[w].0 == k);
                                } else {
                                    assert(pre1[w] == tm[ia as int].1[j as int]);
                                }
                            }
                            if row_has_key(pre, k) {
                                let w = choose|w: int|
                                    0 <= w < pre.len() && (#[trigger] pre[w]).0 == k;
                                assert(pre1[w].0 == k);
                            }
                            if k == kk {
                                assert(pre1[j as int].0 == k);
                            }
                        }
                    }
                    let cur = freq.get(&key);
                    if cur < u32::MAX {
                        freq.increment(key);
                        proof {
                            assert(freq.sv() == crate::math::sv_set(
                                oldfreq,
                                kk,
                                (crate::math::sv_lookup(oldfreq, kk) + 1) as u32,
                            ));
                            crate::math::lemma_sv_set_frame(
                                oldfreq,
                                kk,
                                (crate::math::sv_lookup(oldfreq, kk) + 1) as u32,
                            );
                            assert(forall|w: int|
                                0 <= w < freq.sv().len() ==> (#[trigger] freq.sv()[w]).1 >= 1);
                            assert(recommended_from(mm, tm, user_id@, kk)) by {
                                assert((ia as int) < mm.len());
                                assert(crate::math::sv_lookup(mm[ia as int].1, user_id@) > 0);
                                assert((ia as int) < tm.len());
                                assert(row_has_key(tm[ia as int].1, kk)) by {
                                    assert(tm[ia as int].1[j as int].0 == kk);
                                }
                            }
                            assert forall|k: Seq<char>|
                                crate::math::sv_seen(freq.sv(), k) implies recommended_from(
                                mm,
                                tm,
                                user_id@,
                                k,
                            ) by {
                                crate::math::lemma_sv_set(
                                    oldfreq,
                                    kk,
                                    (crate::math::sv_lookup(oldfreq, kk) + 1) as u32,
                                    k,
                                );
                            }
                            assert forall|k: Seq<char>|
                                #![trigger crate::math::sv_lookup(freq.sv(), k)]
                                crate::math::sv_lookup(freq.sv(), k) == ({
                                    let base = Self::rec_freq(mm, tm, user_id@, k, ia as int) + (
                                    if row_has_key(tm[ia as int].1.take(j as int + 1), k) {
                                        1int
                                    } else {
                                        0int
                                    });
                                    if base > u32::MAX {
                                        u32::MAX as int
                                    } else {
                                        base
                                    }
                                }) by {
                                crate::math::lemma_sv_set(
                                    oldfreq,
                                    kk,
                                    (crate::math::sv_lookup(oldfreq, kk) + 1) as u32,
                                    k,
                                );
                            }
                        }
                    } else {
                        proof {
                            assert forall|k: Seq<char>|
                                #![trigger crate::math::sv_lookup(freq.sv(), k)]
                                crate::math::sv_lookup(freq.sv(), k) == ({
                                    let base = Self::rec_freq(mm, tm, user_id@, k, ia as int) + (
                                    if row_has_key(tm[ia as int].1.take(j as int + 1), k) {
                                        1int
                                    } else {
                                        0int
                                    });
                                    if base > u32::MAX {
                                        u32::MAX as int
                                    } else {
                                        base
                                    }
                                }) by {
                                assert(crate::math::sv_lookup(freq.sv(), k) == ({
                                    let base = Self::rec_freq(mm, tm, user_id@, k, ia as int) + (
                                    if row_has_key(tm[ia as int].1.take(j as int), k) {
                                        1int
                                    } else {
                                        0int
                                    });
                                    if base > u32::MAX {
                                        u32::MAX as int
                                    } else {
                                        base
                                    }
                                }));
                            }
                        }
                    }
                    j = j + 1;
                }
                proof {
                    assert(tm[ia as int].1.take(rn as int) =~= tm[ia as int].1);
                    assert forall|k: Seq<char>|
                        #![trigger crate::math::sv_lookup(freq.sv(), k)]
                        crate::math::sv_lookup(freq.sv(), k) == Self::clamped_freq(
                        mm,
                        tm,
                        user_id@,
                        k,
                        ia as int + 1,
                    ) by {
                        assert(Self::rec_freq(mm, tm, user_id@, k, ia as int + 1)
                            == Self::rec_freq(mm, tm, user_id@, k, ia as int) + (if row_has_key(
                            tm[ia as int].1,
                            k,
                        ) {
                            1int
                        } else {
                            0int
                        }));
                    }
                }
            } else {
                proof {
                    assert(crate::math::sv_lookup(mm[ia as int].1, user_id@) == 0);
                    assert forall|k: Seq<char>|
                        #![trigger crate::math::sv_lookup(freq.sv(), k)]
                        crate::math::sv_lookup(freq.sv(), k) == Self::clamped_freq(
                        mm,
                        tm,
                        user_id@,
                        k,
                        ia as int + 1,
                    ) by {
                        assert(Self::rec_freq(mm, tm, user_id@, k, ia as int + 1)
                            == Self::rec_freq(mm, tm, user_id@, k, ia as int));
                    }
                    assert((exists|i: int|
                        0 <= i < ia + 1 && crate::math::sv_lookup(#[trigger] mm[i].1, user_id@)
                            > 0) == (exists|i: int|
                        0 <= i < ia && crate::math::sv_lookup(#[trigger] mm[i].1, user_id@)
                            > 0)) by {
                        if exists|i: int|
                            0 <= i < ia + 1 && crate::math::sv_lookup(
                                #[trigger] mm[i].1,
                                user_id@,
                            ) > 0 {
                            let i = choose|i: int|
                                0 <= i < ia + 1 && crate::math::sv_lookup(
                                    #[trigger] mm[i].1,
                                    user_id@,
                                ) > 0;
                            assert(i != ia as int);
                        }
                    }
                }
            }
            ia = ia + 1;
        }
        if !interacted {
            proof {
                assert(!user_known(mm, user_id@));
            }
            return Err(EngineError::UnknownIdentifier);
        }
        let fl = freq.len();
        let mut pairs: Vec<(String, u32)> = Vec::new();
        let mut i: usize = 0;
        while i < fl
            invariant
                freq.wf(),
                fl == freq.sv().len(),
                0 <= i <= fl,
                pairs@.len() == i,
                forall|w: int| 0 <= w < i ==> (#[trigger] pairs@[w]).0@ == freq.sv()[w].0,
                forall|w: int| 0 <= w < i ==> (#[trigger] pairs@[w]).1 == freq.sv()[w].1,
                forall|k: Seq<char>|
                    crate::math::sv_seen(freq.sv(), k) ==> recommended_from(mm, tm, user_id@, k),
                forall|k: Seq<char>| #![trigger crate::math::sv_lookup(freq.sv(), k)]
                    crate::math::sv_lookup(freq.sv(), k) == Self::clamped_freq(
                        mm,
                        tm,
                        user_id@,
                        k,
                        n as int,
                    ),
                forall|w: int| 0 <= w < freq.sv().len() ==> (#[trigger] freq.sv()[w]).1 >= 1,
            decreases fl - i,
        {
            let key = freq.key_at(i).clone();
            let cnt = freq.count_at(i);
            pairs.push((key, cnt));
            i = i + 1;
        }
        proof {
            assert(forall|i2: int, j2: int|
                0 <= i2 < j2 < pairs@.len() ==> pairs@[i2].0@ != pairs@[j2].0@);
            assert forall|w: int|
                0 <= w < pairs@.len() implies recommended_from(
                mm,
                tm,
                user_id@,
                #[trigger] pairs@[w].0@,
            ) by {
                assert(freq.sv()[w].0 == pairs@[w].0@);
                assert(crate::math::sv_seen(freq.sv(), pairs@[w].0@));
            }
            assert forall|w: int|
                0 <= w < pairs@.len() implies (#[trigger] pairs@[w]).1 == Self::clamped_freq(
                mm,
                tm,
                user_id@,
                pairs@[w].0@,
                n as int,
            ) by {
                assert(forall|x: int| 0 <= x < w ==> freq.sv()[x].0 != freq.sv()[w].0);
                crate::math::lemma_lookup_at_index(freq.sv(), w, pairs@[w].0@);
            }
            assert(forall|w: int| 0 <= w < pairs@.len() ==> (#[trigger] pairs@[w]).1 >= 1);
        }
        let ghost gpairs = pairs@;
        let mut kept = sort_counts_desc(pairs);
        let ghost gsorted = kept@;
        kept.truncate(n_items);
        proof {
            assert(forall|w: int| 0 <= w < kept@.len() ==> kept@[w] == gsorted[w]);
            assert(kept@.len() <= n_items);
            assert forall|w: int|
                0 <= w < kept@.len() implies recommended_from(
                mm,
                tm,
                user_id@,
                #[trigger] kept@[w].0@,
            ) && kept@[w].1 == Self::clamped_freq(mm, tm, user_id@, kept@[w].0@, n as int)
                && kept@[w].1 >= 1 by {
                let e = kept@[w];
                assert(gsorted.contains(e)) by {
                    assert(gsorted[w] == e);
                }
                assert(gpairs.to_multiset().count(e) > 0);
                assert(gpairs.contains(e));
                let widx = choose|x: int| 0 <= x < gpairs.len() && gpairs[x] == e;
                assert(gpairs[widx].0@ == e.0@);
                assert(gpairs[widx].1 == e.1);
            }
        }
        let mut ids: Vec<String> = Vec::new();
        let kn = kept.len();
        let mut j: usize = 0;
        while j < kn
            invariant
                kn == kept@.len(),
                0 <= j <= kn,
                ids@.len() == j,
                forall|w: int| 0 <= w < j ==> (#[trigger] ids@[w])@ == kept@[w].0@,
            decreases kn - j,
        {
            ids.push(kept[j].0.clone());
            j = j + 1;
        }
        let resp = RecommendationResponse::new(ids);
        proof {
            assert(resp.ids().len() == kept@.len());
            assert(forall|w: int| 0 <= w < kept@.len() ==> (#[trigger] resp.ids()[w]) == kept@[w].0@);
            assert forall|p: int, q: int|
                0 <= p < q < resp.ids().len() implies Self::clamped_freq(
                mm,
                tm,
                user_id@,
                resp.ids()[q],
                mm.len() as int,
            ) <= Self::clamped_freq(mm, tm, user_id@, resp.ids()[p], mm.len() as int) by {
                assert(kept@[q].1 <= kept@[p].1);
                assert(kept@[p].1 == Self::clamped_freq(mm, tm, user_id@, kept@[p].0@, n as int));
                assert(kept@[q].1 == Self::clamped_freq(mm, tm, user_id@, kept@[q].0@, n as int));
            }
            assert forall|p: int|
                0 <= p < resp.ids().len() implies Self::clamped_freq(
                mm,
                tm,
                user_id@,
                #[trigger] resp.ids()[p],
                mm.len() as int,
            ) >= 1 by {
                assert(kept@[p].1 == Self::clamped_freq(mm, tm, user_id@, kept@[p].0@, n as int));
                assert(kept@[p].1 >= 1);
            }
            assert forall|k2: Seq<char>|
                Self::clamped_freq(mm, tm, user_id@, k2, mm.len() as int) >= 1
                    && !resp.ids().contains(k2) implies resp.ids().len() == n_items && (n_items
                    > 0 ==> #[trigger] Self::clamped_freq(mm, tm, user_id@, k2, mm.len() as int)
                    <= Self::clamped_freq(
                    mm,
                    tm,
                    user_id@,
                    resp.ids()[resp.ids().len() - 1],
                    mm.len() as int,
                )) by {
                assert(crate::math::sv_lookup(freq.sv(), k2) == Self::clamped_freq(
                    mm,
                    tm,
                    user_id@,
                    k2,
                    n as int,
                ));
                assert(crate::math::sv_seen(freq.sv(), k2)) by {
                    if !crate::math::sv_seen(freq.sv(), k2) {
                        crate::math::lemma_lookup_absent(freq.sv(), k2);
                    }
                }
                let w = choose|w: int|
                    0 <= w < freq.sv().len() && (#[trigger] freq.sv()[w]).0 == k2;
                assert(gpairs[w].0@ == k2);
                assert(gpairs[w].1 == freq.sv()[w].1);
                let e = gpairs[w];
                assert(gpairs.contains(e)) by {
                    assert(gpairs[w] == e);
                }
                assert(gsorted.to_multiset().count(e) > 0);
                assert(gsorted.contains(e));
                let pos = choose|p: int| 0 <= p < gsorted.len() && gsorted[p] == e;
                assert(pos >= kept@.len()) by {
                    if pos < kept@.len() {
                        assert(kept@[pos] == e);
                        assert(resp.ids()[pos] == k2);
                        assert(resp.ids().contains(k2));
                    }
                }
                assert(kept@.len() == n_items) by {
                    if kept@.len() < n_items {
                        assert(kept@.len() == gsorted.len());
                    }
                }
                if n_items > 0 {
                    assert(gsorted[pos].1 <= gsorted[kept@.len() - 1].1);
                    assert(kept@[kept@.len() - 1] == gsorted[kept@.len() - 1]);
                    assert(forall|j: int| 0 <= j < w ==> freq.sv()[j].0 != k2);
                    crate::math::lemma_lookup_at_index(freq.sv(), w, k2);
                    assert(e.1 == Self::clamped_freq(mm, tm, user_id@, k2, n as int));
                    assert(kept@[kept@.len() - 1].1 == Self::clamped_freq(
                        mm,
                        tm,
                        user_id@,
                        resp.ids()[kept@.len() - 1],
                        n as int,
                    ));
                }
            }
        }
        Ok(resp)
    }

    /// The trained similarity table, for export; absent before training.
    pub fn table(&self) -> (r: Option<&SimilarityTable>)
        ensures
            (r is Some) == self.trained(),
            r is Some ==> r->Some_0.model() == self.table_model(),
    {
        match &self.model_state {
            Some(p) => Some(&p.1),
            None => None,
        }
    }
}

impl crate::similarity::SimilarityEngine for CosineSimilarityEngineInMemory {
    open spec fn inv(&self) -> bool {
        self.wf()
    }

    fn train(&mut self) -> Result<(), EngineError> {
        let r = CosineSimilarityEngineInMemory::train(self);
        match r {
            Ok(()) => Ok(()),
            Err(e) => Err(e),
        }
    }

    fn find_similar_by_user_id(&self, user_id: String, n_items: usize) -> Result<
        RecommendationResponse,
        EngineError,
    > {
        CosineSimilarityEngineInMemory::find_similar_by_user_id(self, user_id, n_items)
    }

    fn find_similar_by_target_id(&self, target_id: String, n_items: usize) -> Result<
        RecommendationResponse,
        EngineError,
    > {
        CosineSimilarityEngineInMemory::find_similar_by_target_id(self, target_id, n_items)
    }
}

} // verus!
