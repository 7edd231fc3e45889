use vstd::prelude::*;

verus! {

/// The mathematical model of a sparse count vector: an association sequence
/// from identifier to count, with distinct keys.
pub type SvModel = Seq<(Seq<char>, u32)>;

/// Does `s` hold an entry for key `k`?
pub open spec fn sv_seen(s: SvModel, k: Seq<char>) -> bool {
    exists|i: int| 0 <= i < s.len() && s[i].0 == k
}

/// All keys of `s` are distinct.
pub open spec fn sv_distinct(s: SvModel) -> bool {
    forall|i: int, j: int| 0 <= i < j < s.len() ==> s[i].0 != s[j].0
}

/// The count stored under key `k`, taking absent keys as zero.
pub open spec fn sv_lookup(s: SvModel, k: Seq<char>) -> int
    decreases s.len(),
{
    if s.len() == 0 {
        0
    } else if s[0].0 == k {
        s[0].1 as int
    } else {
        sv_lookup(s.drop_first(), k)
    }
}

/// The dot product of two sparse count vectors: the sum over the entries of
/// `a` of the entry's count times the count stored in `b` under the same key.
pub open spec fn spec_dot(a: SvModel, b: SvModel) -> int
    decreases a.len(),
{
    if a.len() == 0 {
        0
    } else {
        a[0].1 * sv_lookup(b, a[0].0) + spec_dot(a.drop_first(), b)
    }
}

/// The squared Euclidean norm of a sparse count vector: the sum of the
/// squares of its counts.
pub open spec fn spec_norm_sq(a: SvModel) -> int
    decreases a.len(),
{
    if a.len() == 0 {
        0
    } else {
        a[0].1 * a[0].1 + spec_norm_sq(a.drop_first())
    }
}

/// A count read from a vector is never negative.
pub proof fn lemma_lookup_nonneg(s: SvModel, k: Seq<char>)
    ensures
        sv_lookup(s, k) >= 0,
    decreases s.len(),
{
    if s.len() > 0 && s[0].0 != k {
        lemma_lookup_nonneg(s.drop_first(), k);
    }
}

/// Both sums are sums of products of counts, so they are never negative.
pub proof fn lemma_dot_nonneg(a: SvModel, b: SvModel)
    ensures
        spec_dot(a, b) >= 0,
        spec_norm_sq(a) >= 0,
    decreases a.len(),
{
    if a.len() > 0 {
        lemma_lookup_nonneg(b, a[0].0);
        assert(a[0].1 * sv_lookup(b, a[0].0) >= 0) by (nonlinear_arith)
            requires
                a[0].1 >= 0,
                sv_lookup(b, a[0].0) >= 0,
        ;
        assert(a[0].1 * a[0].1 >= 0) by (nonlinear_arith);
        lemma_dot_nonneg(a.drop_first(), b);
    }
}

/// An absent key reads as zero.
pub proof fn lemma_lookup_absent(s: SvModel, k: Seq<char>)
    requires
        !sv_seen(s, k),
    ensures
        sv_lookup(s, k) == 0,
    decreases s.len(),
{
    if s.len() > 0 {
        assert(s[0].0 != k);
        assert(forall|i: int| 0 <= i < s.drop_first().len() ==> s.drop_first()[i] == s[i + 1]);
        lemma_lookup_absent(s.drop_first(), k);
    }
}

/// Dropping the head of a distinct vector keeps the keys distinct, and the
/// head's key does not occur in the tail.
pub proof fn lemma_distinct_drop(s: SvModel)
    requires
        sv_distinct(s),
        s.len() > 0,
    ensures
        sv_distinct(s.drop_first()),
        !sv_seen(s.drop_first(), s[0].0),
{
    assert(forall|i: int| 0 <= i < s.drop_first().len() ==> s.drop_first()[i] == s[i + 1]);
}

/// A dot product against an empty vector is zero.
pub proof fn lemma_dot_empty_right(b: SvModel, e: SvModel)
    requires
        e.len() == 0,
    ensures
        spec_dot(b, e) == 0,
    decreases b.len(),
{
    if b.len() > 0 {
        assert(sv_lookup(e, b[0].0) == 0);
        lemma_dot_empty_right(b.drop_first(), e);
        assert(spec_dot(b, e) == b[0].1 * sv_lookup(e, b[0].0) + spec_dot(b.drop_first(), e));
    }
}

/// Peeling one entry off the right argument of a dot product: when the
/// peeled key occurs nowhere else in `a`, its contribution is the product of
/// the two counts stored under it.
proof fn lemma_dot_peel_right(a: SvModel, b: SvModel)
    requires
        a.len() > 0,
        sv_distinct(b),
        !sv_seen(a.drop_first(), a[0].0),
    ensures
        spec_dot(b, a) == a[0].1 * sv_lookup(b, a[0].0) + spec_dot(b, a.drop_first()),
    decreases b.len(),
{
    let a0 = a[0];
    let t = a.drop_first();
    if b.len() == 0 {
        assert(spec_dot(b, a) == 0);
        assert(sv_lookup(b, a0.0) == 0);
        assert(spec_dot(b, t) == 0);
    } else {
        let b0 = b[0];
        let bt = b.drop_first();
        lemma_distinct_drop(b);
        lemma_dot_peel_right(a, bt);
        assert(spec_dot(b, a) == b0.1 * sv_lookup(a, b0.0) + spec_dot(bt, a));
        assert(spec_dot(b, t) == b0.1 * sv_lookup(t, b0.0) + spec_dot(bt, t));
        if b0.0 == a0.0 {
            assert(sv_lookup(a, b0.0) == a0.1);
            lemma_lookup_absent(bt, a0.0);
            lemma_lookup_absent(t, b0.0);
            assert(sv_lookup(b, a0.0) == b0.1);
            assert((b0.1 as int) * (a0.1 as int) == (a0.1 as int) * (b0.1 as int)) by (nonlinear_arith);
        } else {
            assert(sv_lookup(a, b0.0) == sv_lookup(t, b0.0));
            assert(sv_lookup(b, a0.0) == sv_lookup(bt, a0.0));
        }
    }
}

/// Law: the dot product of sparse count vectors is symmetric.
pub proof fn lemma_dot_symmetric(a: SvModel, b: SvModel)
    requires
        sv_distinct(a),
        sv_distinct(b),
    ensures
        spec_dot(a, b) == spec_dot(b, a),
    decreases a.len(),
{
    if a.len() == 0 {
        lemma_dot_empty_right(b, a);
    } else {
        lemma_distinct_drop(a);
        lemma_dot_symmetric(a.drop_first(), b);
        lemma_dot_peel_right(a, b);
    }
}

/// Entries whose keys avoid the head of `a` read the same against `a` as
/// against its tail.
proof fn lemma_dot_skip_head(x: SvModel, a: SvModel)
    requires
        a.len() > 0,
        !sv_seen(x, a[0].0),
    ensures
        spec_dot(x, a) == spec_dot(x, a.drop_first()),
    decreases x.len(),
{
    if x.len() > 0 {
        assert(x[0].0 != a[0].0);
        assert(forall|i: int| 0 <= i < x.drop_first().len() ==> x.drop_first()[i] == x[i + 1]);
        lemma_dot_skip_head(x.drop_first(), a);
    }
}

/// Law: the dot product of a vector with itself is its squared norm.
pub proof fn lemma_dot_self(a: SvModel)
    requires
        sv_distinct(a),
    ensures
        spec_dot(a, a) == spec_norm_sq(a),
    decreases a.len(),
{
    if a.len() > 0 {
        let t = a.drop_first();
        lemma_distinct_drop(a);
        lemma_dot_skip_head(t, a);
        lemma_dot_self(t);
    }
}

/// Reading a vector at the first position whose key matches gives the count
/// stored there.
pub proof fn lemma_lookup_at_index(s: SvModel, i: int, k: Seq<char>)
    requires
        0 <= i < s.len(),
        s[i].0 == k,
        forall|j: int| 0 <= j < i ==> s[j].0 != k,
    ensures
        sv_lookup(s, k) == s[i].1,
    decreases s.len(),
{
    if i > 0 {
        assert(forall|j: int| 0 <= j < s.drop_first().len() ==> s.drop_first()[j] == s[j + 1]);
        lemma_lookup_at_index(s.drop_first(), i - 1, k);
    }
}

/// Overwriting the count at a position changes the reading of that
/// position's key alone.
pub proof fn lemma_lookup_update(s: SvModel, i: int, v: u32, k: Seq<char>)
    requires
        sv_distinct(s),
        0 <= i < s.len(),
    ensures
        sv_lookup(s.update(i, (s[i].0, v)), k) == if k == s[i].0 {
            v as int
        } else {
            sv_lookup(s, k)
        },
    decreases s.len(),
{
    let s2 = s.update(i, (s[i].0, v));
    if i == 0 {
        if s2[0].0 != k {
            assert(s2.drop_first() =~= s.drop_first());
        }
    } else {
        lemma_distinct_drop(s);
        assert(s2.drop_first() =~= s.drop_first().update(i - 1, (s[i].0, v)));
        assert(s.drop_first()[i - 1] == s[i]);
        lemma_lookup_update(s.drop_first(), i - 1, v, k);
        if s[0].0 == k {
            assert(s[i].0 != k);
        }
    }
}

/// Appending an entry under a fresh key leaves every other key's reading
/// unchanged and makes the fresh key read the appended count.
pub proof fn lemma_lookup_push(s: SvModel, key: Seq<char>, v: u32, k: Seq<char>)
    requires
        !sv_seen(s, key),
    ensures
        sv_lookup(s.push((key, v)), k) == if k == key {
            v as int
        } else {
            sv_lookup(s, k)
        },
    decreases s.len(),
{
    let s2 = s.push((key, v));
    if s.len() == 0 {
        assert(s2[0] == (key, v));
        if k != key {
            assert(s2.drop_first() =~= Seq::<(Seq<char>, u32)>::empty());
            assert(sv_lookup(s2.drop_first(), k) == 0);
        }
    } else {
        assert(forall|i: int| 0 <= i < s.drop_first().len() ==> s.drop_first()[i] == s[i + 1]);
        assert(s2.drop_first() =~= s.drop_first().push((key, v)));
        lemma_lookup_push(s.drop_first(), key, v, k);
        if s[0].0 == key {
            assert(sv_seen(s, key));
        }
    }
}

/// The position of the entry for key `k`; meaningful only when
/// `sv_seen(s, k)` holds and the keys of `s` are distinct.
pub open spec fn sv_index_of(s: SvModel, k: Seq<char>) -> int {
    choose|i: int| 0 <= i < s.len() && s[i].0 == k
}

/// The model of storing `count` under `key`: overwrite the existing entry,
/// or append a fresh one.
pub open spec fn sv_set(s: SvModel, key: Seq<char>, count: u32) -> SvModel {
    if sv_seen(s, key) {
        s.update(sv_index_of(s, key), (key, count))
    } else {
        s.push((key, count))
    }
}

/// How `sv_set` reads back: the stored key reads the stored count, every
/// other key is untouched, and distinctness of keys is preserved.
pub proof fn lemma_sv_set(s: SvModel, key: Seq<char>, count: u32, k: Seq<char>)
    requires
        sv_distinct(s),
    ensures
        sv_distinct(sv_set(s, key, count)),
        sv_lookup(sv_set(s, key, count), k) == if k == key {
            count as int
        } else {
            sv_lookup(s, k)
        },
        sv_seen(sv_set(s, key, count), k) == (k == key || sv_seen(s, k)),
        sv_set(s, key, count).len() == if sv_seen(s, key) {
            s.len() as int
        } else {
            s.len() + 1int
        },
{
    let s2 = sv_set(s, key, count);
    if sv_seen(s, key) {
        let i = sv_index_of(s, key);
        assert(0 <= i < s.len() && s[i].0 == key);
        assert(s2 =~= s.update(i, (s[i].0, count)));
        lemma_lookup_update(s, i, count, k);
        assert(forall|w: int| 0 <= w < s.len() ==> s2[w].0 == s[w].0);
        assert(sv_distinct(s2));
        if sv_seen(s2, k) {
            let w = choose|w: int| 0 <= w < s2.len() && s2[w].0 == k;
            assert(s[w].0 == k);
        }
        if sv_seen(s, k) {
            let w = choose|w: int| 0 <= w < s.len() && s[w].0 == k;
            assert(s2[w].0 == k);
        }
        if k == key {
            assert(s2[i].0 == k);
        }
    } else {
        lemma_lookup_push(s, key, count, k);
        if sv_seen(s2, k) && k != key {
            let w = choose|w: int| 0 <= w < s2.len() && s2[w].0 == k;
            assert(s[w].0 == k);
        }
        if k == key {
            assert(s2[s.len() as int].0 == k);
        }
        if sv_seen(s, k) {
            let w = choose|w: int| 0 <= w < s.len() && s[w].0 == k;
            assert(s2[w].0 == k);
        }
        assert forall|w1: int, w2: int| 0 <= w1 < w2 < s2.len() implies s2[w1].0 != s2[w2].0 by {
            if w2 == s.len() as int {
                if s2[w1].0 == key {
                    assert(s[w1].0 == key);
                    assert(sv_seen(s, key));
                }
            }
        }
    }
}

/// Storing into a vector touches one entry: every position of the result
/// holds either the old entry or the stored pair.
pub proof fn lemma_sv_set_frame(s: SvModel, key: Seq<char>, count: u32)
    requires
        sv_distinct(s),
    ensures
        forall|w: int|
            0 <= w < sv_set(s, key, count).len() ==> (#[trigger] sv_set(s, key, count)[w])
                == s[w] || sv_set(s, key, count)[w] == (key, count),
{
    if sv_seen(s, key) {
        let i = sv_index_of(s, key);
        assert(0 <= i < s.len() && s[i].0 == key);
        assert(sv_set(s, key, count)[i] == (key, count));
    }
}

/// A sparse count vector: how often each identifier was involved in an
/// interaction. The executable counterpart of `SvModel`.
#[derive(Debug)]
pub struct SparseVector {
    entries: Vec<(String, u32)>,
}

impl SparseVector {
    /// The mathematical content: an association sequence with distinct keys.
    pub closed spec fn sv(self) -> SvModel {
        self.entries@.map_values(|p: (String, u32)| (p.0@, p.1))
    }

    pub open spec fn wf(self) -> bool {
        sv_distinct(self.sv())
    }

    pub fn new() -> (r: SparseVector)
        ensures
            r.sv() == SvModel::empty(),
            r.wf(),
    {
        let r = SparseVector { entries: Vec::new() };
        proof {
            assert(r.sv() =~= SvModel::empty());
        }
        r
    }

    pub fn len(&self) -> (r: usize)
        ensures
            r == self.sv().len(),
    {
        self.entries.len()
    }

    /// The key stored at position `i`, in insertion order.
    pub fn key_at(&self, i: usize) -> (r: &String)
        requires
            i < self.sv().len(),
        ensures
            r@ == self.sv()[i as int].0,
    {
        &self.entries[i].0
    }

    /// The count stored at position `i`.
    pub fn count_at(&self, i: usize) -> (r: u32)
        requires
            i < self.sv().len(),
        ensures
            r == self.sv()[i as int].1,
    {
        self.entries[i].1
    }

    /// The count stored under `key`, taking absent keys as zero.
    pub fn get(&self, key: &String) -> (r: u32)
        requires
            self.wf(),
        ensures
            r == sv_lookup(self.sv(), key@),
    {
        let ghost s = self.sv();
        let n = self.entries.len();
        let mut i: usize = 0;
        while i < n
            invariant
                n == s.len(),
                0 <= i <= n,
                self.sv() == s,
                forall|j: int| 0 <= j < i ==> s[j].0 != key@,
            decreases n - i,
        {
            if self.entries[i].0 == *key {
                proof {
                    lemma_lookup_at_index(s, i as int, key@);
                }
                return self.entries[i].1;
            }
            i = i + 1;
        }
        proof {
            lemma_lookup_absent(s, key@);
        }
        0
    }

    /// Stores `count` under `key`, overwriting any prior count.
    pub fn insert(&mut self, key: String, count: u32)
        requires
            old(self).wf(),
        ensures
            final(self).wf(),
            final(self).sv() == sv_set(old(self).sv(), key@, count),
    {
        let ghost s = old(self).sv();
        let n = self.entries.len();
        let mut i: usize = 0;
        while i < n
            invariant
                s == old(self).sv(),
                n == s.len(),
                0 <= i <= n,
                self.sv() == s,
                sv_distinct(s),
                forall|j: int| 0 <= j < i ==> s[j].0 != key@,
            decreases n - i,
        {
            if self.entries[i].0 == key {
                proof {
                    assert(s[i as int].0 == key@);
                    assert(sv_seen(s, key@));
                    let w = sv_index_of(s, key@);
                    assert(0 <= w < s.len() && s[w].0 == key@);
                    assert(w == i as int);
                }
                self.entries[i] = (key, count);
                proof {
                    assert(self.sv() =~= s.update(i as int, (key@, count)));
                    lemma_sv_set(s, key@, count, key@);
                    assert(sv_set(s, key@, count) == s.update(i as int, (key@, count)));
                }
                return ;
            }
            i = i + 1;
        }
        proof {
            assert(!sv_seen(s, key@));
        }
        self.entries.push((key, count));
        proof {
            assert(self.sv() =~= s.push((key@, count)));
            lemma_sv_set(s, key@, count, key@);
        }
    }

    /// Adds one to the count stored under `key`, starting from zero for a
    /// key not seen before.
    pub fn increment(&mut self, key: String)
        requires
            old(self).wf(),
            sv_lookup(old(self).sv(), key@) < u32::MAX,
        ensures
            final(self).wf(),
            final(self).sv() == sv_set(
                old(self).sv(),
                key@,
                (sv_lookup(old(self).sv(), key@) + 1) as u32,
            ),
    {
        let current = self.get(&key);
        self.insert(key, current + 1);
    }
}

/// The largest count product of one shared key: both factors are counts,
/// so the product always fits the accumulator type.
proof fn lemma_count_product_fits(x: u32, y: u32)
    ensures
        (x as int) * (y as int) <= 0xffff_fffe_0000_0001,
{
    assert((x as int) * (y as int) <= 0xffff_ffff * 0xffff_ffff) by (nonlinear_arith)
        requires
            0 <= x <= 0xffff_ffff,
            0 <= y <= 0xffff_ffff,
    ;
}

/// The dot product of two sparse count vectors, summed exactly in 64 bits.
/// `None` reports that the exact value does not fit, never a wrapped sum.
pub fn dot(a: &SparseVector, b: &SparseVector) -> (r: Option<u64>)
    requires
        a.wf(),
        b.wf(),
    ensures
        match r {
            Some(v) => v == spec_dot(a.sv(), b.sv()),
            None => spec_dot(a.sv(), b.sv()) > u64::MAX,
        },
{
    let ghost sa = a.sv();
    let ghost sb = b.sv();
    let n = a.len();
    let mut acc: u64 = 0;
    let mut i: usize = 0;
    proof {
        assert(sa.skip(0) =~= sa);
    }
    while i < n
        invariant
            a.wf(),
            b.wf(),
            sa == a.sv(),
            sb == b.sv(),
            n == sa.len(),
            0 <= i <= n,
            acc + spec_dot(sa.skip(i as int), sb) == spec_dot(sa, sb),
        decreases n - i,
    {
        let ghost rest = sa.skip(i as int);
        proof {
            assert(rest.len() > 0);
            assert(rest[0] == sa[i as int]);
            assert(rest.drop_first() =~= sa.skip(i as int + 1));
        }
        let av = a.count_at(i);
        let key = a.key_at(i);
        let bv = b.get(key);
        proof {
            lemma_count_product_fits(av, bv);
            assert(spec_dot(rest, sb) == av * bv + spec_dot(sa.skip(i as int + 1), sb));
        }
        let term: u64 = (av as u64) * (bv as u64);
        match acc.checked_add(term) {
            Some(next) => {
                acc = next;
            },
            None => {
                proof {
                    lemma_dot_nonneg(sa.skip(i as int + 1), sb);
                    assert(spec_dot(sa, sb) >= acc + term);
                }
                return None;
            },
        }
        i = i + 1;
    }
    proof {
        assert(sa.skip(n as int) =~= SvModel::empty());
    }
    Some(acc)
}

/// The squared Euclidean norm of a sparse count vector, summed exactly in 64
/// bits. `None` reports that the exact value does not fit.
pub fn norm_sq(a: &SparseVector) -> (r: Option<u64>)
    requires
        a.wf(),
    ensures
        match r {
            Some(v) => v == spec_norm_sq(a.sv()),
            None => spec_norm_sq(a.sv()) > u64::MAX,
        },
{
    let ghost sa = a.sv();
    let n = a.len();
    let mut acc: u64 = 0;
    let mut i: usize = 0;
    proof {
        assert(sa.skip(0) =~= sa);
    }
    while i < n
        invariant
            a.wf(),
            sa == a.sv(),
            n == sa.len(),
            0 <= i <= n,
            acc + spec_norm_sq(sa.skip(i as int)) == spec_norm_sq(sa),
        decreases n - i,
    {
        let ghost rest = sa.skip(i as int);
        proof {
            assert(rest.len() > 0);
            assert(rest[0] == sa[i as int]);
            assert(rest.drop_first() =~= sa.skip(i as int + 1));
        }
        let av = a.count_at(i);
        proof {
            lemma_count_product_fits(av, av);
            assert(spec_norm_sq(rest) == av * av + spec_norm_sq(sa.skip(i as int + 1)));
        }
        let term: u64 = (av as u64) * (av as u64);
        match acc.checked_add(term) {
            Some(next) => {
                acc = next;
            },
            None => {
                proof {
                    lemma_dot_nonneg(sa.skip(i as int + 1), sa);
                    assert(spec_norm_sq(sa) >= acc + term);
                }
                return None;
            },
        }
        i = i + 1;
    }
    proof {
        assert(sa.skip(n as int) =~= SvModel::empty());
    }
    Some(acc)
}

} // verus!
