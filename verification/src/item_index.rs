use vstd::prelude::*;

use crate::model::EngineError;

verus! {

/// Does the sequence of identifiers `m` contain `id`?
pub open spec fn seen(m: Seq<Seq<char>>, id: Seq<char>) -> bool {
    exists|i: int| 0 <= i < m.len() && m[i] == id
}

/// The position of `id` in `m`; meaningful only when `seen(m, id)` holds and
/// the entries of `m` are distinct.
pub open spec fn index_of_id(m: Seq<Seq<char>>, id: Seq<char>) -> int {
    choose|i: int| 0 <= i < m.len() && m[i] == id
}

/// All identifiers in `m` are distinct.
pub open spec fn distinct_ids(m: Seq<Seq<char>>) -> bool {
    forall|i: int, j: int| 0 <= i < j < m.len() ==> m[i] != m[j]
}

/// The index that `get_idx` assigns to `id` against the mapping `m`:
/// the existing position when seen, the next fresh integer otherwise.
pub open spec fn model_index(m: Seq<Seq<char>>, id: Seq<char>) -> int {
    if seen(m, id) {
        index_of_id(m, id)
    } else {
        m.len() as int
    }
}

/// The mapping after `get_idx(id)`: unchanged when seen, grown by `id`
/// otherwise.
pub open spec fn model_insert(m: Seq<Seq<char>>, id: Seq<char>) -> Seq<Seq<char>> {
    if seen(m, id) {
        m
    } else {
        m.push(id)
    }
}

/// A bijective mapping between opaque string identifiers and dense integer
/// positions. Indices are assigned in first-seen order, are contiguous, and
/// are never reused or removed.
#[derive(Debug)]
pub struct ItemIndex {
    index_to_item: Vec<String>,
}

impl ItemIndex {
    /// The ordered sequence of identifiers; the identifier at position `i`
    /// has dense index `i`.
    pub closed spec fn ids(self) -> Seq<Seq<char>> {
        self.index_to_item@.map_values(|s: String| s@)
    }

    /// Well-formedness: the mapping is bijective, that is, no identifier
    /// occurs at two positions.
    pub open spec fn wf(self) -> bool {
        distinct_ids(self.ids())
    }

    pub fn new() -> (r: ItemIndex)
        ensures
            r.ids() == Seq::<Seq<char>>::empty(),
            r.wf(),
    {
        let r = ItemIndex { index_to_item: Vec::new() };
        proof {
            assert(r.ids() =~= Seq::<Seq<char>>::empty());
        }
        r
    }

    /// Returns the dense index of `item`, assigning the next fresh index if
    /// `item` has not been seen before.
    pub fn get_idx(&mut self, item: String) -> (idx: usize)
        requires
            old(self).wf(),
        ensures
            final(self).wf(),
            final(self).ids() == model_insert(old(self).ids(), item@),
            idx == model_index(old(self).ids(), item@),
            idx < final(self).ids().len(),
            final(self).ids()[idx as int] == item@,
    {
        let ghost m = self.ids();
        let n = self.index_to_item.len();
        let mut i: usize = 0;
        while i < n
            invariant
                n == m.len(),
                0 <= i <= n,
                self.ids() == m,
                distinct_ids(m),
                forall|j: int| 0 <= j < i ==> m[j] != item@,
            decreases n - i,
        {
            if self.index_to_item[i] == item {
                proof {
                    assert(m[i as int] == item@);
                    assert(seen(m, item@));
                    let k = index_of_id(m, item@);
                    assert(0 <= k < m.len() && m[k] == item@);
                    assert(k == i as int);
                }
                return i;
            }
            i = i + 1;
        }
        proof {
            assert(!seen(m, item@));
        }
        self.index_to_item.push(item);
        proof {
            assert(self.ids() =~= m.push(item@));
            assert(distinct_ids(m.push(item@))) by {
                assert(forall|j: int| 0 <= j < m.len() ==> m.push(item@)[j] == m[j]);
            }
        }
        n
    }

    /// Returns the identifier at dense index `idx`, or `OutOfRange` when
    /// `idx` is at or beyond the size of the mapping.
    pub fn get_item(&self, idx: usize) -> (r: Result<String, EngineError>)
        ensures
            idx < self.ids().len() ==> r is Ok && r->Ok_0@ == self.ids()[idx as int],
            idx >= self.ids().len() ==> r == Result::<String, EngineError>::Err(
                EngineError::OutOfRange,
            ),
    {
        if idx < self.index_to_item.len() {
            Ok(self.index_to_item[idx].clone())
        } else {
            Err(EngineError::OutOfRange)
        }
    }

    /// Looks an identifier up without assigning a fresh index: the
    /// non-mutating counterpart of `get_idx`, used by query paths that must
    /// fail on unknown identifiers rather than grow the mapping.
    pub fn find(&self, item: &String) -> (r: Option<usize>)
        requires
            self.wf(),
        ensures
            seen(self.ids(), item@) ==> r == Some(index_of_id(self.ids(), item@) as usize),
            !seen(self.ids(), item@) ==> r is None,
    {
        let ghost m = self.ids();
        let n = self.index_to_item.len();
        let mut i: usize = 0;
        while i < n
            invariant
                n == m.len(),
                0 <= i <= n,
                self.ids() == m,
                distinct_ids(m),
                forall|j: int| 0 <= j < i ==> m[j] != item@,
            decreases n - i,
        {
            if self.index_to_item[i] == *item {
                proof {
                    assert(m[i as int] == item@);
                    let k = index_of_id(m, item@);
                    assert(0 <= k < m.len() && m[k] == item@);
                    assert(k == i as int);
                }
                return Some(i);
            }
            i = i + 1;
        }
        None
    }

    /// The count of distinct identifiers seen so far.
    pub fn size(&self) -> (r: usize)
        ensures
            r == self.ids().len(),
    {
        self.index_to_item.len()
    }
}

/// Law: assigning an index is idempotent per identifier — a second
/// `get_idx` of the same identifier returns the same index and leaves the
/// mapping unchanged.
pub proof fn lemma_get_idx_idempotent(m: Seq<Seq<char>>, id: Seq<char>)
    requires
        distinct_ids(m),
    ensures
        model_insert(model_insert(m, id), id) == model_insert(m, id),
        model_index(model_insert(m, id), id) == model_index(m, id),
{
    if seen(m, id) {
    } else {
        let m2 = m.push(id);
        assert(m2[m.len() as int] == id);
        assert(seen(m2, id));
        let k = index_of_id(m2, id);
        assert(0 <= k < m2.len() && m2[k] == id);
        assert forall|j: int| 0 <= j < m.len() implies m2[j] != id by {
            assert(m2[j] == m[j]);
        }
        assert(k == m.len() as int);
    }
}

/// Law: looking the assigned index back up returns the identifier —
/// `lookup(get_or_create(x)) == x` — and the assigned index is always
/// within the contiguous range `0 .. size`.
pub proof fn lemma_get_idx_roundtrip(m: Seq<Seq<char>>, id: Seq<char>)
    requires
        distinct_ids(m),
    ensures
        0 <= model_index(m, id) < model_insert(m, id).len(),
        model_insert(m, id)[model_index(m, id)] == id,
{
    if seen(m, id) {
        let k = index_of_id(m, id);
        assert(0 <= k < m.len() && m[k] == id);
    } else {
        assert(model_insert(m, id)[m.len() as int] == id);
    }
}

} // verus!
