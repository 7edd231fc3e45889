use vstd::prelude::*;

use crate::math::{
    lemma_sv_set, sv_distinct, sv_lookup, sv_set, SparseVector, SvModel,
};
use crate::model::Event;

verus! {

/// The mathematical model of a count table: an association sequence from a
/// key to a sparse count vector, with distinct keys.
pub type TbModel = Seq<(Seq<char>, SvModel)>;

/// Does `m` hold a row for key `k`?
pub open spec fn tb_seen(m: TbModel, k: Seq<char>) -> bool {
    exists|i: int| 0 <= i < m.len() && m[i].0 == k
}

/// All row keys of `m` are distinct.
pub open spec fn tb_distinct(m: TbModel) -> bool {
    forall|i: int, j: int| 0 <= i < j < m.len() ==> m[i].0 != m[j].0
}

/// The position of the row for key `k`; meaningful only when `tb_seen(m, k)`
/// holds and the row keys are distinct.
pub open spec fn tb_index_of(m: TbModel, k: Seq<char>) -> int {
    choose|i: int| 0 <= i < m.len() && m[i].0 == k
}

/// The row stored under key `k`, taking an absent key as the empty vector.
pub open spec fn tb_row(m: TbModel, k: Seq<char>) -> SvModel {
    if tb_seen(m, k) {
        m[tb_index_of(m, k)].1
    } else {
        Seq::empty()
    }
}

/// Row keys distinct, and every row's keys distinct.
pub open spec fn tb_wf(m: TbModel) -> bool {
    &&& tb_distinct(m)
    &&& forall|i: int| 0 <= i < m.len() ==> sv_distinct(#[trigger] m[i].1)
}

/// The count stored under row `rk` and column `ck`, absent cells as zero.
pub open spec fn tb_count(m: TbModel, rk: Seq<char>, ck: Seq<char>) -> int {
    sv_lookup(tb_row(m, rk), ck)
}

/// The model of storing `row` under key `k`: overwrite the existing row, or
/// append a fresh one.
pub open spec fn tb_set(m: TbModel, k: Seq<char>, row: SvModel) -> TbModel {
    if tb_seen(m, k) {
        m.update(tb_index_of(m, k), (k, row))
    } else {
        m.push((k, row))
    }
}

/// How `tb_set` reads back: the stored key reads the stored row, every other
/// key is untouched, and well-formedness is preserved.
pub proof fn lemma_tb_set(m: TbModel, k: Seq<char>, row: SvModel, x: Seq<char>)
    requires
        tb_distinct(m),
    ensures
        tb_distinct(tb_set(m, k, row)),
        tb_row(tb_set(m, k, row), x) == if x == k {
            row
        } else {
            tb_row(m, x)
        },
        tb_seen(tb_set(m, k, row), x) == (x == k || tb_seen(m, x)),
        tb_wf(m) && sv_distinct(row) ==> tb_wf(tb_set(m, k, row)),
{
    let m2 = tb_set(m, k, row);
    if tb_seen(m, k) {
        let i = tb_index_of(m, k);
        assert(0 <= i < m.len() && m[i].0 == k);
        assert(forall|w: int| 0 <= w < m.len() && w != i ==> m2[w] == m[w]);
        assert(m2[i] == (k, row));
        assert(forall|w: int| 0 <= w < m.len() ==> m2[w].0 == m[w].0);
        assert(tb_distinct(m2));
        if x == k {
            assert(m2[i].0 == x);
            assert(tb_seen(m2, x));
            let w = tb_index_of(m2, x);
            assert(0 <= w < m2.len() && m2[w].0 == x);
            assert(w == i);
        } else {
            if tb_seen(m, x) {
                let w = tb_index_of(m, x);
                assert(0 <= w < m.len() && m[w].0 == x);
                assert(w != i);
                assert(m2[w].0 == x);
                assert(tb_seen(m2, x));
                let w2 = tb_index_of(m2, x);
                assert(0 <= w2 < m2.len() && m2[w2].0 == x);
                assert(w2 == w);
                assert(m2[w2].1 == m[w].1);
            }
            if tb_seen(m2, x) {
                let w = choose|w: int| 0 <= w < m2.len() && m2[w].0 == x;
                assert(m[w].0 == x);
                assert(tb_seen(m, x));
            }
        }
    } else {
        assert(m2 == m.push((k, row)));
        assert(forall|w: int| 0 <= w < m.len() ==> m2[w] == m[w]);
        assert(m2[m.len() as int] == (k, row));
        assert forall|w1: int, w2: int| 0 <= w1 < w2 < m2.len() implies m2[w1].0 != m2[w2].0 by {
            if w2 == m.len() as int {
                if m2[w1].0 == k {
                    assert(m[w1].0 == k);
                    assert(tb_seen(m, k));
                }
            }
        }
        if x == k {
            assert(m2[m.len() as int].0 == x);
            assert(tb_seen(m2, x));
            let w = tb_index_of(m2, x);
            assert(0 <= w < m2.len() && m2[w].0 == x);
            assert(w == m.len() as int) by {
                if w < m.len() as int {
                    assert(m[w].0 == k);
                    assert(tb_seen(m, k));
                }
            }
        } else {
            if tb_seen(m, x) {
                let w = tb_index_of(m, x);
                assert(0 <= w < m.len() && m[w].0 == x);
                assert(m2[w].0 == x);
                assert(tb_seen(m2, x));
                let w2 = tb_index_of(m2, x);
                assert(0 <= w2 < m2.len() && m2[w2].0 == x);
                assert(w2 < m.len() as int);
                assert(w2 == w);
            }
            if tb_seen(m2, x) {
                let w = choose|w: int| 0 <= w < m2.len() && m2[w].0 == x;
                assert(w < m.len() as int);
                assert(tb_seen(m, x));
            }
        }
    }
}

/// How many of the events pair user `u` with item `t`. Multiple identical
/// events accumulate; nothing caps the count at one.
pub open spec fn pair_count(es: Seq<Event>, u: Seq<char>, t: Seq<char>) -> int
    decreases es.len(),
{
    if es.len() == 0 {
        0
    } else {
        pair_count(es.drop_last(), u, t) + if es.last().user() == u && es.last().target() == t {
            1int
        } else {
            0int
        }
    }
}

/// Does some event name user `u`?
pub open spec fn user_present(es: Seq<Event>, u: Seq<char>) -> bool {
    exists|j: int| 0 <= j < es.len() && es[j].user() == u
}

/// Does some event name item `t`?
pub open spec fn target_present(es: Seq<Event>, t: Seq<char>) -> bool {
    exists|j: int| 0 <= j < es.len() && es[j].target() == t
}

/// A pair count is bounded by the number of events.
pub proof fn lemma_pair_count_bounds(es: Seq<Event>, u: Seq<char>, t: Seq<char>)
    ensures
        0 <= pair_count(es, u, t) <= es.len(),
    decreases es.len(),
{
    if es.len() > 0 {
        lemma_pair_count_bounds(es.drop_last(), u, t);
    }
}

/// Extending the consumed prefix by one event raises exactly the count of
/// that event's pair by one.
pub proof fn lemma_pair_count_snoc(es: Seq<Event>, i: int, u: Seq<char>, t: Seq<char>)
    requires
        0 <= i < es.len(),
    ensures
        pair_count(es.take(i + 1), u, t) == pair_count(es.take(i), u, t) + if es[i].user() == u
            && es[i].target() == t {
            1int
        } else {
            0int
        },
{
    assert(es.take(i + 1).drop_last() =~= es.take(i));
    assert(es.take(i + 1).last() == es[i]);
}

/// An event's own pair always counts at least once.
pub proof fn lemma_pair_count_pos(es: Seq<Event>, j: int)
    requires
        0 <= j < es.len(),
    ensures
        pair_count(es, es[j].user(), es[j].target()) >= 1,
    decreases es.len(),
{
    lemma_pair_count_bounds(es.drop_last(), es[j].user(), es[j].target());
    if j < es.len() - 1 {
        assert(es.drop_last()[j] == es[j]);
        lemma_pair_count_pos(es.drop_last(), j);
    }
}

/// A positive pair count names an actual event.
pub proof fn lemma_pair_count_exists(es: Seq<Event>, u: Seq<char>, t: Seq<char>)
    requires
        pair_count(es, u, t) > 0,
    ensures
        exists|j: int| 0 <= j < es.len() && es[j].user() == u && es[j].target() == t,
    decreases es.len(),
{
    if es.len() > 0 {
        if es.last().user() == u && es.last().target() == t {
            assert(es[es.len() - 1].user() == u && es[es.len() - 1].target() == t);
        } else {
            lemma_pair_count_exists(es.drop_last(), u, t);
            let j = choose|j: int|
                0 <= j < es.drop_last().len() && (#[trigger] es.drop_last()[j]).user() == u
                    && es.drop_last()[j].target() == t;
            assert(es[j] == es.drop_last()[j]);
        }
    }
}

/// A sparse count table keyed by identifier: each row is a sparse count
/// vector. This is the in-memory form of both the user-to-item and the
/// item-to-user interaction matrices.
#[derive(Debug)]
pub struct CountTable {
    rows: Vec<(String, SparseVector)>,
}

/// Rows are users, columns are items, cells count interactions.
pub type UserItemMatrix = CountTable;

/// Rows are items, columns are users, cells count interactions.
pub type ItemUserMatrix = CountTable;

impl CountTable {
    /// The mathematical content of the table.
    pub closed spec fn model(self) -> TbModel {
        self.rows@.map_values(|r: (String, SparseVector)| (r.0@, r.1.sv()))
    }

    pub open spec fn wf(self) -> bool {
        tb_wf(self.model())
    }

    pub fn new() -> (r: CountTable)
        ensures
            r.model() == TbModel::empty(),
            r.wf(),
    {
        let r = CountTable { rows: Vec::new() };
        proof {
            assert(r.model() =~= TbModel::empty());
        }
        r
    }

    /// The number of rows.
    pub fn len(&self) -> (r: usize)
        ensures
            r == self.model().len(),
    {
        self.rows.len()
    }

    /// The key of the row at position `i`, in first-seen order.
    pub fn row_key(&self, i: usize) -> (r: &String)
        requires
            i < self.model().len(),
        ensures
            r@ == self.model()[i as int].0,
    {
        &self.rows[i].0
    }

    /// The count vector of the row at position `i`.
    pub fn row_vec(&self, i: usize) -> (r: &SparseVector)
        requires
            i < self.model().len(),
        ensures
            r.sv() == self.model()[i as int].1,
    {
        &self.rows[i].1
    }

    /// The position of the row for `key`, if the table holds one.
    pub fn find_row(&self, key: &String) -> (r: Option<usize>)
        requires
            self.wf(),
        ensures
            tb_seen(self.model(), key@) ==> r == Some(tb_index_of(self.model(), key@) as usize),
            !tb_seen(self.model(), key@) ==> r is None,
    {
        let ghost m = self.model();
        let n = self.rows.len();
        let mut i: usize = 0;
        while i < n
            invariant
                n == m.len(),
                0 <= i <= n,
                self.model() == m,
                tb_distinct(m),
                forall|j: int| 0 <= j < i ==> m[j].0 != key@,
            decreases n - i,
        {
            if self.rows[i].0 == *key {
                proof {
                    assert(m[i as int].0 == key@);
                    let w = tb_index_of(m, key@);
                    assert(0 <= w < m.len() && m[w].0 == key@);
                    assert(w == i as int);
                }
                return Some(i);
            }
            i = i + 1;
        }
        None
    }

    /// The count stored under row `row_key` and column `col_key`, taking
    /// absent cells as zero.
    pub fn count(&self, row_key: &String, col_key: &String) -> (r: u32)
        requires
            self.wf(),
        ensures
            r == tb_count(self.model(), row_key@, col_key@),
    {
        let nrows = self.rows.len();
        let found = self.find_row(row_key);
        match found {
            Some(i) => {
                proof {
                    assert(tb_seen(self.model(), row_key@));
                    assert(self.model().len() == nrows);
                    let w = tb_index_of(self.model(), row_key@);
                    assert(0 <= w < self.model().len() && self.model()[w].0 == row_key@);
                    assert(w == i as int);
                    assert(self.model()[i as int].1 == self.rows@[i as int].1.sv());
                    assert(sv_distinct(self.model()[i as int].1));
                }
                self.rows[i].1.get(col_key)
            },
            None => {
                proof {
                    crate::math::lemma_lookup_absent(Seq::empty(), col_key@);
                }
                0
            },
        }
    }

    /// Adds one interaction to the cell at `(row_key, col_key)`, creating
    /// the row and the cell as needed.
    pub fn inc(&mut self, row_key: String, col_key: String)
        requires
            old(self).wf(),
            tb_count(old(self).model(), row_key@, col_key@) < u32::MAX,
        ensures
            final(self).wf(),
            final(self).model() == tb_set(
                old(self).model(),
                row_key@,
                sv_set(
                    tb_row(old(self).model(), row_key@),
                    col_key@,
                    (tb_count(old(self).model(), row_key@, col_key@) + 1) as u32,
                ),
            ),
    {
        let ghost m = old(self).model();
        let nrows = self.rows.len();
        let found = self.find_row(&row_key);
        match found {
            Some(i) => {
                proof {
                    assert(tb_seen(m, row_key@));
                    assert(m.len() == nrows);
                    let w = tb_index_of(m, row_key@);
                    assert(0 <= w < m.len() && m[w].0 == row_key@);
                    assert(w == i as int);
                    assert(tb_row(m, row_key@) == m[i as int].1);
                    assert(sv_distinct(m[i as int].1));
                    crate::math::lemma_lookup_nonneg(tb_row(m, row_key@), col_key@);
                }
                let row = &mut self.rows[i];
                row.1.increment(col_key);
                proof {
                    let newrow = sv_set(
                        tb_row(m, row_key@),
                        col_key@,
                        (tb_count(m, row_key@, col_key@) + 1) as u32,
                    );
                    assert(self.rows@[i as int].0@ == row_key@);
                    assert(self.rows@[i as int].1.sv() == newrow);
                    assert(self.model() =~= m.update(i as int, (row_key@, newrow)));
                    lemma_tb_set(m, row_key@, newrow, row_key@);
                    lemma_sv_set(
                        tb_row(m, row_key@),
                        col_key@,
                        (tb_count(m, row_key@, col_key@) + 1) as u32,
                        col_key@,
                    );
                }
            },
            None => {
                proof {
                    assert(!tb_seen(m, row_key@));
                    assert(tb_row(m, row_key@) =~= Seq::empty());
                    crate::math::lemma_lookup_absent(Seq::empty(), col_key@);
                    assert(tb_count(m, row_key@, col_key@) == 0);
                }
                let ghost rk = row_key@;
                let mut v = SparseVector::new();
                v.increment(col_key);
                proof {
                    let newrow = sv_set(
                        tb_row(m, row_key@),
                        col_key@,
                        (tb_count(m, row_key@, col_key@) + 1) as u32,
                    );
                    assert(v.sv() == newrow);
                    lemma_sv_set(
                        tb_row(m, row_key@),
                        col_key@,
                        (tb_count(m, row_key@, col_key@) + 1) as u32,
                        col_key@,
                    );
                }
                self.rows.push((row_key, v));
                proof {
                    let newrow = sv_set(
                        tb_row(m, rk),
                        col_key@,
                        (tb_count(m, rk, col_key@) + 1) as u32,
                    );
                    assert(self.model() =~= m.push((rk, newrow)));
                    lemma_tb_set(m, rk, newrow, rk);
                }
            },
        }
    }
}

/// Builds the user-to-item interaction matrix: the cell at `(u, t)` counts
/// exactly the events pairing user `u` with item `t`, and a row exists for a
/// user exactly when some event names that user.
pub fn construct_user_item_matrix(events: &Vec<Event>) -> (m: UserItemMatrix)
    requires
        events@.len() <= u32::MAX,
    ensures
        m.wf(),
        forall|u: Seq<char>, t: Seq<char>| #![trigger tb_count(m.model(), u, t)]
            tb_count(m.model(), u, t) == pair_count(events@, u, t),
        forall|u: Seq<char>| #![trigger tb_seen(m.model(), u)]
            tb_seen(m.model(), u) == user_present(events@, u),
{
    let ghost es = events@;
    let n = events.len();
    let mut m = CountTable::new();
    let mut i: usize = 0;
    proof {
        assert(es.take(0) =~= Seq::<Event>::empty());
        assert forall|u: Seq<char>, t: Seq<char>|
            tb_count(m.model(), u, t) == pair_count(es.take(0), u, t) by {
            crate::math::lemma_lookup_absent(Seq::empty(), t);
        }
    }
    while i < n
        invariant
            es == events@,
            n == es.len(),
            n <= u32::MAX,
            0 <= i <= n,
            m.wf(),
            forall|u: Seq<char>, t: Seq<char>| #![trigger tb_count(m.model(), u, t)]
                tb_count(m.model(), u, t) == pair_count(es.take(i as int), u, t),
            forall|u: Seq<char>| #![trigger tb_seen(m.model(), u)]
                tb_seen(m.model(), u) == user_present(es.take(i as int), u),
        decreases n - i,
    {
        let ghost prev = m.model();
        let ev = &events[i];
        let rk = ev.user_id().to_owned();
        let ck = ev.target_id().to_owned();
        proof {
            lemma_pair_count_bounds(es.take(i as int), rk@, ck@);
            crate::math::lemma_lookup_nonneg(tb_row(prev, rk@), ck@);
        }
        m.inc(rk, ck);
        proof {
            let newrow = sv_set(
                tb_row(prev, es[i as int].user()),
                es[i as int].target(),
                (tb_count(prev, es[i as int].user(), es[i as int].target()) + 1) as u32,
            );
            assert forall|u: Seq<char>, t: Seq<char>|
                tb_count(m.model(), u, t) == pair_count(es.take(i as int + 1), u, t) by {
                lemma_tb_set(prev, es[i as int].user(), newrow, u);
                lemma_sv_set(
                    tb_row(prev, es[i as int].user()),
                    es[i as int].target(),
                    (tb_count(prev, es[i as int].user(), es[i as int].target()) + 1) as u32,
                    t,
                );
                lemma_pair_count_snoc(es, i as int, u, t);
                assert(tb_count(prev, u, t) == pair_count(es.take(i as int), u, t));
                crate::math::lemma_lookup_nonneg(tb_row(prev, es[i as int].user()), es[i as int].target());
                if u == es[i as int].user() {
                    assert(tb_row(m.model(), u) == newrow);
                    if t != es[i as int].target() {
                        assert(sv_lookup(newrow, t) == sv_lookup(tb_row(prev, u), t));
                    }
                } else {
                    assert(tb_row(m.model(), u) == tb_row(prev, u));
                }
            }
            assert forall|u: Seq<char>|
                tb_seen(m.model(), u) == user_present(es.take(i as int + 1), u) by {
                lemma_tb_set(prev, es[i as int].user(), newrow, u);
                if user_present(es.take(i as int + 1), u) {
                    let j = choose|j: int|
                        0 <= j < es.take(i as int + 1).len() && #[trigger] es.take(
                            i as int + 1,
                        )[j].user() == u;
                    if j < i as int {
                        assert(es.take(i as int)[j].user() == u);
                    }
                }
                if user_present(es.take(i as int), u) {
                    let j = choose|j: int|
                        0 <= j < es.take(i as int).len() && #[trigger] es.take(
                            i as int,
                        )[j].user() == u;
                    assert(es.take(i as int + 1)[j].user() == u);
                }
                if u == es[i as int].user() {
                    assert(es.take(i as int + 1)[i as int].user() == u);
                }
            }
        }
        i = i + 1;
    }
    proof {
        assert(es.take(n as int) =~= es);
    }
    m
}

/// Builds the item-to-user interaction matrix: the transpose orientation of
/// `construct_user_item_matrix` over the same events.
pub fn construct_item_user_matrix(events: &Vec<Event>) -> (m: ItemUserMatrix)
    requires
        events@.len() <= u32::MAX,
    ensures
        m.wf(),
        forall|u: Seq<char>, t: Seq<char>| #![trigger tb_count(m.model(), t, u)]
            tb_count(m.model(), t, u) == pair_count(events@, u, t),
        forall|t: Seq<char>| #![trigger tb_seen(m.model(), t)]
            tb_seen(m.model(), t) == target_present(events@, t),
{
    let ghost es = events@;
    let n = events.len();
    let mut m = CountTable::new();
    let mut i: usize = 0;
    proof {
        assert(es.take(0) =~= Seq::<Event>::empty());
        assert forall|u: Seq<char>, t: Seq<char>|
            tb_count(m.model(), t, u) == pair_count(es.take(0), u, t) by {
            crate::math::lemma_lookup_absent(Seq::empty(), u);
        }
    }
    while i < n
        invariant
            es == events@,
            n == es.len(),
            n <= u32::MAX,
            0 <= i <= n,
            m.wf(),
            forall|u: Seq<char>, t: Seq<char>| #![trigger tb_count(m.model(), t, u)]
                tb_count(m.model(), t, u) == pair_count(es.take(i as int), u, t),
            forall|t: Seq<char>| #![trigger tb_seen(m.model(), t)]
                tb_seen(m.model(), t) == target_present(es.take(i as int), t),
        decreases n - i,
    {
        let ghost prev = m.model();
        let ev = &events[i];
        let rk = ev.target_id().to_owned();
        let ck = ev.user_id().to_owned();
        proof {
            lemma_pair_count_bounds(es.take(i as int), ck@, rk@);
            crate::math::lemma_lookup_nonneg(tb_row(prev, rk@), ck@);
        }
        m.inc(rk, ck);
        proof {
            let newrow = sv_set(
                tb_row(prev, es[i as int].target()),
                es[i as int].user(),
                (tb_count(prev, es[i as int].target(), es[i as int].user()) + 1) as u32,
            );
            assert forall|u: Seq<char>, t: Seq<char>|
                tb_count(m.model(), t, u) == pair_count(es.take(i as int + 1), u, t) by {
                lemma_tb_set(prev, es[i as int].target(), newrow, t);
                lemma_sv_set(
                    tb_row(prev, es[i as int].target()),
                    es[i as int].user(),
                    (tb_count(prev, es[i as int].target(), es[i as int].user()) + 1) as u32,
                    u,
                );
                lemma_pair_count_snoc(es, i as int, u, t);
                assert(tb_count(prev, t, u) == pair_count(es.take(i as int), u, t));
                crate::math::lemma_lookup_nonneg(tb_row(prev, es[i as int].target()), es[i as int].user());
                if t == es[i as int].target() {
                    assert(tb_row(m.model(), t) == newrow);
                    if u != es[i as int].user() {
                        assert(sv_lookup(newrow, u) == sv_lookup(tb_row(prev, t), u));
                    }
                } else {
                    assert(tb_row(m.model(), t) == tb_row(prev, t));
                }
            }
            assert forall|t: Seq<char>|
                tb_seen(m.model(), t) == target_present(es.take(i as int + 1), t) by {
                lemma_tb_set(prev, es[i as int].target(), newrow, t);
                if target_present(es.take(i as int + 1), t) {
                    let j = choose|j: int|
                        0 <= j < es.take(i as int + 1).len() && #[trigger] es.take(
                            i as int + 1,
                        )[j].target() == t;
                    if j < i as int {
                        assert(es.take(i as int)[j].target() == t);
                    }
                }
                if target_present(es.take(i as int), t) {
                    let j = choose|j: int|
                        0 <= j < es.take(i as int).len() && #[trigger] es.take(
                            i as int,
                        )[j].target() == t;
                    assert(es.take(i as int + 1)[j].target() == t);
                }
                if t == es[i as int].target() {
                    assert(es.take(i as int + 1)[i as int].target() == t);
                }
            }
        }
        i = i + 1;
    }
    proof {
        assert(es.take(n as int) =~= es);
    }
    m
}

} // verus!
