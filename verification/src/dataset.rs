use vstd::prelude::*;

use crate::counts::{lemma_pair_count_bounds, pair_count};
use crate::item_index::{
    distinct_ids, index_of_id, model_index, model_insert, seen, ItemIndex,
};
use crate::model::Event;

verus! {

/// Holds a `sprs` triplet accumulation matrix. The struct is opaque to the
/// verifier; what it holds is spoken of through `tri_triplets` and
/// `tri_shape`.
#[verifier::external_body]
pub struct TriBuilder {
    inner: sprs::TriMat<u32>,
}

/// Holds a `sprs` compressed sparse row matrix. The struct is opaque to
/// the verifier; what it stores is spoken of through `csr_entries` and
/// `csr_shape`.
#[verifier::external_body]
pub struct CsrMatrix {
    inner: sprs::CsMat<u32>,
}

/// The triplets held by the builder, in insertion order.
pub uninterp spec fn tri_triplets(m: TriBuilder) -> Seq<(usize, usize, u32)>;

/// The shape the builder was created with.
pub uninterp spec fn tri_shape(m: TriBuilder) -> (usize, usize);

/// The stored entries of the compressed matrix, in storage order.
pub uninterp spec fn csr_entries(m: CsrMatrix) -> Seq<(usize, usize, u32)>;

/// The shape of the compressed matrix.
pub uninterp spec fn csr_shape(m: CsrMatrix) -> (usize, usize);

/// The sum of the values stored at cell `(i, j)` across a triplet sequence.
pub open spec fn sum_at(ts: Seq<(usize, usize, u32)>, i: int, j: int) -> int
    decreases ts.len(),
{
    if ts.len() == 0 {
        0
    } else {
        sum_at(ts.drop_last(), i, j) + if ts.last().0 == i && ts.last().1 == j {
            ts.last().2 as int
        } else {
            0int
        }
    }
}

/// Entries sorted strictly by row then column (hence unique per cell) and
/// in bounds for the given shape.
pub open spec fn entries_ok(ts: Seq<(usize, usize, u32)>, rows: int, cols: int) -> bool {
    &&& forall|p: int, q: int|
        0 <= p < q < ts.len() ==> (#[trigger] ts[p]).0 < (#[trigger] ts[q]).0 || (ts[p].0
            == ts[q].0 && ts[p].1 < ts[q].1)
    &&& forall|p: int| 0 <= p < ts.len() ==> (#[trigger] ts[p]).0 < rows && ts[p].1 < cols
}

/// Relies on `sprs::TriMat::new`: a fresh triplet matrix of the given
/// shape, holding no triplets.
#[verifier::external_body]
fn tri_new(rows: usize, cols: usize) -> (r: TriBuilder)
    ensures
        tri_shape(r) == (rows, cols),
        tri_triplets(r) == Seq::<(usize, usize, u32)>::empty(),
{
    TriBuilder { inner: sprs::TriMat::new((rows, cols)) }
}

/// Relies on `sprs::TriMat::add_triplet`: appends one triplet to the
/// backing vectors; it panics on an out-of-shape index, so that is
/// required away.
#[verifier::external_body]
fn tri_add(m: &mut TriBuilder, row: usize, col: usize, val: u32)
    requires
        row < tri_shape(*old(m)).0,
        col < tri_shape(*old(m)).1,
    ensures
        tri_shape(*final(m)) == tri_shape(*old(m)),
        tri_triplets(*final(m)) == tri_triplets(*old(m)).push((row, col, val)),
{
    m.inner.add_triplet(row, col, val);
}

/// Relies on `sprs::TriMat::to_csr`: triplets are sorted by row then
/// column, duplicates summed with `+`, and the result stores one entry per
/// occupied cell in that order, so every stored entry sits at some
/// triplet's position. The summing `+` can overflow, so cell sums are
/// required to fit.
#[verifier::external_body]
fn tri_to_csr(m: &TriBuilder) -> (r: CsrMatrix)
    requires
        forall|i: int, j: int|
            0 <= i < tri_shape(*m).0 && 0 <= j < tri_shape(*m).1 ==> sum_at(
                tri_triplets(*m),
                i,
                j,
            ) <= u32::MAX,
    ensures
        csr_shape(r) == tri_shape(*m),
        entries_ok(csr_entries(r), tri_shape(*m).0 as int, tri_shape(*m).1 as int),
        forall|i: int, j: int|
            sum_at(csr_entries(r), i, j) == sum_at(tri_triplets(*m), i, j),
        forall|p: int|
            0 <= p < csr_entries(r).len() ==> exists|q: int|
                0 <= q < tri_triplets(*m).len() && (#[trigger] tri_triplets(*m)[q]).0 == (
                #[trigger] csr_entries(r)[p]).0 && tri_triplets(*m)[q].1 == csr_entries(r)[p].1,
{
    CsrMatrix { inner: m.inner.to_csr() }
}

/// Relies on `sprs::CsMat::iter`: yields each stored entry once, in
/// storage order, as the value and its row and column.
#[verifier::external_body]
fn csr_collect(m: &CsrMatrix) -> (r: Vec<(usize, usize, u32)>)
    ensures
        r@ == csr_entries(*m),
{
    m.inner.iter().map(|(v, (i, j))| (i, j, *v)).collect()
}

/// The distinct user identifiers of the events, in first-seen order: the
/// contents of the user index after the learning pass.
pub open spec fn user_ids(es: Seq<Event>) -> Seq<Seq<char>>
    decreases es.len(),
{
    if es.len() == 0 {
        Seq::empty()
    } else {
        model_insert(user_ids(es.drop_last()), es.last().user())
    }
}

/// The distinct item identifiers of the events, in first-seen order.
pub open spec fn item_ids(es: Seq<Event>) -> Seq<Seq<char>>
    decreases es.len(),
{
    if es.len() == 0 {
        Seq::empty()
    } else {
        model_insert(item_ids(es.drop_last()), es.last().target())
    }
}

/// The triplet list the population pass hands to the sparse builder: one
/// `(user index, item index, 1)` triplet per event, in event order.
pub open spec fn event_triplets(
    es: Seq<Event>,
    users: Seq<Seq<char>>,
    items: Seq<Seq<char>>,
) -> Seq<(usize, usize, u32)> {
    Seq::new(
        es.len(),
        |k: int|
            (
                index_of_id(users, es[k].user()) as usize,
                index_of_id(items, es[k].target()) as usize,
                1u32,
            ),
    )
}

/// The transposed triplet list: one `(item index, user index, 1)` triplet
/// per event.
pub open spec fn event_triplets_t(
    es: Seq<Event>,
    users: Seq<Seq<char>>,
    items: Seq<Seq<char>>,
) -> Seq<(usize, usize, u32)> {
    Seq::new(
        es.len(),
        |k: int|
            (
                index_of_id(items, es[k].target()) as usize,
                index_of_id(users, es[k].user()) as usize,
                1u32,
            ),
    )
}

/// Growing the consumed prefix by one event inserts that event's
/// identifiers into the learned vocabularies.
pub proof fn lemma_ids_snoc(es: Seq<Event>, i: int)
    requires
        0 <= i < es.len(),
    ensures
        user_ids(es.take(i + 1)) == model_insert(user_ids(es.take(i)), es[i].user()),
        item_ids(es.take(i + 1)) == model_insert(item_ids(es.take(i)), es[i].target()),
{
    assert(es.take(i + 1).drop_last() =~= es.take(i));
    assert(es.take(i + 1).last() == es[i]);
}

/// The learned vocabularies hold no duplicate identifiers.
pub proof fn lemma_ids_distinct(es: Seq<Event>)
    ensures
        distinct_ids(user_ids(es)),
        distinct_ids(item_ids(es)),
    decreases es.len(),
{
    if es.len() > 0 {
        lemma_ids_distinct(es.drop_last());
        let p = user_ids(es.drop_last());
        let u = es.last().user();
        if !seen(p, u) {
            assert(forall|w: int| 0 <= w < p.len() ==> p.push(u)[w] == p[w]);
            assert(distinct_ids(p.push(u)));
        }
        let q = item_ids(es.drop_last());
        let t = es.last().target();
        if !seen(q, t) {
            assert(forall|w: int| 0 <= w < q.len() ==> q.push(t)[w] == q[w]);
            assert(distinct_ids(q.push(t)));
        }
    }
}

/// Inserting never removes: an identifier once seen stays seen.
proof fn lemma_insert_monotone(p: Seq<Seq<char>>, y: Seq<char>, x: Seq<char>)
    requires
        seen(p, x),
    ensures
        seen(model_insert(p, y), x),
{
    let w = choose|w: int| 0 <= w < p.len() && p[w] == x;
    assert(model_insert(p, y)[w] == x);
}

/// Every event's identifiers end up in the learned vocabularies.
pub proof fn lemma_ids_complete(es: Seq<Event>, k: int)
    requires
        0 <= k < es.len(),
    ensures
        seen(user_ids(es), es[k].user()),
        seen(item_ids(es), es[k].target()),
    decreases es.len(),
{
    if k == es.len() - 1 {
        let p = user_ids(es.drop_last());
        if seen(p, es.last().user()) {
            lemma_insert_monotone(p, es.last().user(), es.last().user());
        } else {
            assert(model_insert(p, es.last().user())[p.len() as int] == es.last().user());
        }
        let q = item_ids(es.drop_last());
        if seen(q, es.last().target()) {
            lemma_insert_monotone(q, es.last().target(), es.last().target());
        } else {
            assert(model_insert(q, es.last().target())[q.len() as int] == es.last().target());
        }
    } else {
        lemma_ids_complete(es.drop_last(), k);
        assert(es.drop_last()[k] == es[k]);
        lemma_insert_monotone(user_ids(es.drop_last()), es.last().user(), es[k].user());
        lemma_insert_monotone(item_ids(es.drop_last()), es.last().target(), es[k].target());
    }
}

/// The triplet list the population pass builds accumulates, cell by cell,
/// exactly the event pair counts.
pub proof fn lemma_triplet_sum(
    es: Seq<Event>,
    users: Seq<Seq<char>>,
    items: Seq<Seq<char>>,
    uu: int,
    ii: int,
)
    requires
        distinct_ids(users),
        distinct_ids(items),
        forall|k: int| 0 <= k < es.len() ==> seen(users, (#[trigger] es[k]).user()),
        forall|k: int| 0 <= k < es.len() ==> seen(items, (#[trigger] es[k]).target()),
        users.len() <= usize::MAX,
        items.len() <= usize::MAX,
        0 <= uu < users.len(),
        0 <= ii < items.len(),
    ensures
        sum_at(event_triplets(es, users, items), uu, ii) == pair_count(es, users[uu], items[ii]),
        sum_at(event_triplets_t(es, users, items), ii, uu) == pair_count(
            es,
            users[uu],
            items[ii],
        ),
    decreases es.len(),
{
    let ts = event_triplets(es, users, items);
    let tst = event_triplets_t(es, users, items);
    if es.len() == 0 {
        assert(ts =~= Seq::<(usize, usize, u32)>::empty());
        assert(tst =~= Seq::<(usize, usize, u32)>::empty());
    } else {
        let es2 = es.drop_last();
        assert(forall|k: int| 0 <= k < es2.len() ==> es2[k] == es[k]);
        lemma_triplet_sum(es2, users, items, uu, ii);
        assert(ts.drop_last() =~= event_triplets(es2, users, items));
        assert(tst.drop_last() =~= event_triplets_t(es2, users, items));
        let lu = es.last().user();
        let lt = es.last().target();
        let wu = index_of_id(users, lu);
        let wt = index_of_id(items, lt);
        assert(es[es.len() - 1] == es.last());
        assert(seen(users, lu) && seen(items, lt));
        assert(0 <= wu < users.len() && users[wu] == lu);
        assert(0 <= wt < items.len() && items[wt] == lt);
        assert(ts.last() == (wu as usize, wt as usize, 1u32));
        assert(tst.last() == (wt as usize, wu as usize, 1u32));
        if lu == users[uu] && lt == items[ii] {
            assert(wu == uu && wt == ii);
        } else {
            assert(!(wu == uu && wt == ii)) by {
                if wu == uu && wt == ii {
                    assert(users[uu] == lu && items[ii] == lt);
                }
            }
        }
    }
}

/// The dataset: the two identifier indices and the user-by-item count
/// matrix with its genuine transpose, built once from a replayable event
/// sequence.
pub struct Dataset {
    /// The user-by-item interaction count matrix, compressed sparse row.
    pub cui: CsrMatrix,
    ciu: CsrMatrix,
    /// Maps user identifiers to dense row indices.
    pub user_idx: ItemIndex,
    /// Maps item identifiers to dense column indices.
    pub item_idx: ItemIndex,
}

impl Dataset {
    /// The user identifiers, position = dense index.
    pub closed spec fn users(self) -> Seq<Seq<char>> {
        self.user_idx.ids()
    }

    /// The item identifiers, position = dense index.
    pub closed spec fn items(self) -> Seq<Seq<char>> {
        self.item_idx.ids()
    }

    /// The stored cells of the user-by-item matrix, row-major.
    pub closed spec fn cells(self) -> Seq<(usize, usize, u32)> {
        csr_entries(self.cui)
    }

    /// The stored cells of the item-by-user transpose, row-major.
    pub closed spec fn cells_t(self) -> Seq<(usize, usize, u32)> {
        csr_entries(self.ciu)
    }

    /// Well-formedness: bijective indices, matrices shaped by the index
    /// sizes, entries sorted and in bounds, and the transpose holding the
    /// same counts with the axes swapped.
    pub open spec fn wf(self) -> bool {
        &&& distinct_ids(self.users())
        &&& distinct_ids(self.items())
        &&& entries_ok(self.cells(), self.users().len() as int, self.items().len() as int)
        &&& entries_ok(self.cells_t(), self.items().len() as int, self.users().len() as int)
        &&& forall|u: int, i: int|
            0 <= u < self.users().len() && 0 <= i < self.items().len() ==> sum_at(
                self.cells_t(),
                i,
                u,
            ) == sum_at(self.cells(), u, i)
    }

    /// Assembles a dataset from parts already at hand. Nothing is checked
    /// of the parts; `build` is the constructor that establishes
    /// well-formedness.
    pub fn new(cui: CsrMatrix, ciu: CsrMatrix, user_idx: ItemIndex, item_idx: ItemIndex) -> (r:
        Dataset)
        ensures
            r.cells() == csr_entries(cui),
            r.cells_t() == csr_entries(ciu),
            r.users() == user_idx.ids(),
            r.items() == item_idx.ids(),
    {
        Dataset { cui, ciu, user_idx, item_idx }
    }

    pub fn user_idx(&self) -> (r: &ItemIndex)
        ensures
            r.ids() == self.users(),
    {
        &self.user_idx
    }

    pub fn item_idx(&self) -> (r: &ItemIndex)
        ensures
            r.ids() == self.items(),
    {
        &self.item_idx
    }

    pub fn n_users(&self) -> (r: usize)
        ensures
            r == self.users().len(),
    {
        self.user_idx.size()
    }

    pub fn n_items(&self) -> (r: usize)
        ensures
            r == self.items().len(),
    {
        self.item_idx.size()
    }

    /// The stored cells of the user-by-item matrix as plain triplets, in
    /// storage order.
    pub fn cells_vec(&self) -> (r: Vec<(usize, usize, u32)>)
        ensures
            r@ == self.cells(),
    {
        csr_collect(&self.cui)
    }

    /// The stored cells of the transpose as plain triplets.
    pub fn cells_t_vec(&self) -> (r: Vec<(usize, usize, u32)>)
        ensures
            r@ == self.cells_t(),
    {
        csr_collect(&self.ciu)
    }

    /// Builds the dataset in two passes over the same events: the first
    /// learns the vocabularies (the matrix needs its final shape before
    /// insertion), the second replays the events into the sparse builder,
    /// one `+1` per event. The cell at `(u, i)` then counts exactly the
    /// events pairing that user with that item, and the transpose is
    /// computed genuinely, not copied.
    pub fn build(events: &Vec<Event>) -> (r: Dataset)
        requires
            events@.len() <= u32::MAX,
        ensures
            r.wf(),
            r.users() == user_ids(events@),
            r.items() == item_ids(events@),
            forall|uu: int, ii: int|
                0 <= uu < r.users().len() && 0 <= ii < r.items().len() ==> sum_at(
                    r.cells(),
                    uu,
                    ii,
                ) == pair_count(events@, r.users()[uu], r.items()[ii]),
    {
        let ghost es = events@;
        let n = events.len();
        let mut user_idx = ItemIndex::new();
        let mut item_idx = ItemIndex::new();
        let mut i: usize = 0;
        proof {
            assert(es.take(0) =~= Seq::<Event>::empty());
        }
        while i < n
            invariant
                es == events@,
                n == es.len(),
                0 <= i <= n,
                user_idx.wf(),
                item_idx.wf(),
                user_idx.ids() == user_ids(es.take(i as int)),
                item_idx.ids() == item_ids(es.take(i as int)),
            decreases n - i,
        {
            let ev = &events[i];
            let _u: usize = user_idx.get_idx(ev.user_id().to_owned());
            let _t: usize = item_idx.get_idx(ev.target_id().to_owned());
            proof {
                lemma_ids_snoc(es, i as int);
            }
            i = i + 1;
        }
        proof {
            assert(es.take(n as int) =~= es);
            lemma_ids_distinct(es);
        }
        let ghost users = user_ids(es);
        let ghost items = item_ids(es);
        let users_n = user_idx.size();
        let items_n = item_idx.size();
        proof {
            assert forall|k: int| 0 <= k < es.len() implies seen(users, (#[trigger] es[k]).user())
                && seen(items, es[k].target()) by {
                lemma_ids_complete(es, k);
            }
        }
        let mut tri = tri_new(users_n, items_n);
        let mut tri_t = tri_new(items_n, users_n);
        let mut j: usize = 0;
        proof {
            assert(tri_triplets(tri) =~= event_triplets(es.take(0), users, items));
            assert(tri_triplets(tri_t) =~= event_triplets_t(es.take(0), users, items));
        }
        while j < n
            invariant
                es == events@,
                n == es.len(),
                0 <= j <= n,
                user_idx.wf(),
                item_idx.wf(),
                user_idx.ids() == users,
                item_idx.ids() == items,
                users == user_ids(es),
                items == item_ids(es),
                distinct_ids(users),
                distinct_ids(items),
                users_n == users.len(),
                items_n == items.len(),
                tri_shape(tri) == (users_n, items_n),
                tri_shape(tri_t) == (items_n, users_n),
                tri_triplets(tri) == event_triplets(es.take(j as int), users, items),
                tri_triplets(tri_t) == event_triplets_t(es.take(j as int), users, items),
            decreases n - j,
        {
            let ev = &events[j];
            proof {
                lemma_ids_complete(es, j as int);
            }
            let uidx = user_idx.get_idx(ev.user_id().to_owned());
            let iidx = item_idx.get_idx(ev.target_id().to_owned());
            proof {
                assert(seen(users, es[j as int].user()));
                assert(model_insert(users, es[j as int].user()) == users);
                assert(model_index(users, es[j as int].user()) == index_of_id(
                    users,
                    es[j as int].user(),
                ));
                let wu = index_of_id(users, es[j as int].user());
                assert(0 <= wu < users.len() && users[wu] == es[j as int].user());
                assert(uidx == wu);
                assert(seen(items, es[j as int].target()));
                let wt = index_of_id(items, es[j as int].target());
                assert(0 <= wt < items.len() && items[wt] == es[j as int].target());
                assert(iidx == wt);
            }
            tri_add(&mut tri, uidx, iidx, 1);
            tri_add(&mut tri_t, iidx, uidx, 1);
            proof {
                assert(es.take(j as int + 1)[j as int] == es[j as int]);
                assert(forall|k: int|
                    0 <= k < j ==> es.take(j as int + 1)[k] == es.take(j as int)[k]);
                assert(event_triplets(es.take(j as int + 1), users, items) =~= event_triplets(
                    es.take(j as int),
                    users,
                    items,
                ).push((uidx, iidx, 1u32)));
                assert(event_triplets_t(es.take(j as int + 1), users, items) =~= event_triplets_t(
                    es.take(j as int),
                    users,
                    items,
                ).push((iidx, uidx, 1u32)));
            }
            j = j + 1;
        }
        proof {
            assert(es.take(n as int) =~= es);
            assert forall|uu: int, ii: int|
                0 <= uu < tri_shape(tri).0 && 0 <= ii < tri_shape(tri).1 implies sum_at(
                tri_triplets(tri),
                uu,
                ii,
            ) <= u32::MAX by {
                lemma_triplet_sum(es, users, items, uu, ii);
                lemma_pair_count_bounds(es, users[uu], items[ii]);
            }
            assert forall|ii: int, uu: int|
                0 <= ii < tri_shape(tri_t).0 && 0 <= uu < tri_shape(tri_t).1 implies sum_at(
                tri_triplets(tri_t),
                ii,
                uu,
            ) <= u32::MAX by {
                lemma_triplet_sum(es, users, items, uu, ii);
                lemma_pair_count_bounds(es, users[uu], items[ii]);
            }
        }
        let cui = tri_to_csr(&tri);
        let ciu = tri_to_csr(&tri_t);
        let r = Dataset { cui, ciu, user_idx, item_idx };
        proof {
            assert forall|uu: int, ii: int|
                0 <= uu < r.users().len() && 0 <= ii < r.items().len() implies sum_at(
                r.cells(),
                uu,
                ii,
            ) == pair_count(events@, r.users()[uu], r.items()[ii]) by {
                lemma_triplet_sum(es, users, items, uu, ii);
            }
            assert forall|u: int, i2: int|
                0 <= u < r.users().len() && 0 <= i2 < r.items().len() implies sum_at(
                r.cells_t(),
                i2,
                u,
            ) == sum_at(r.cells(), u, i2) by {
                lemma_triplet_sum(es, users, items, u, i2);
            }
        }
        r
    }
}

} // verus!
