use vstd::prelude::*;
use vstd::multiset::Multiset;

use crate::dataset::Dataset;
use crate::fixed::{fx_fits, fx_mul, isqrt_u128, spec_fx_mul};
use crate::item_index::{distinct_ids, index_of_id, seen};
use crate::model::{EngineError, RecommendationResponse};

verus! {

broadcast use vstd::seq_lib::group_to_multiset_ensures;

/// The latent dimensionality of the factor matrices.
pub const LATENT_K: usize = 30;

/// The learning rate, 0.01, in fixed-point representation.
pub const ETA_FX: i64 = 10_000;

/// The L2 regularization weight, 0.01, in fixed-point representation.
pub const LAMBDA_FX: i64 = 10_000;

/// The improvement tolerance on the RMSE, 0.001, in fixed-point
/// representation.
pub const TOL_FX: u64 = 1_000;

/// The cap on training epochs.
pub const MAX_EPOCHS: usize = 100;

/// How many consecutive non-improving epochs are tolerated before training
/// stops early.
pub const PATIENCE: usize = 5;

/// The mathematical content of a dense factor matrix.
pub open spec fn mat_model(m: Seq<Vec<i64>>) -> Seq<Seq<i64>> {
    m.map_values(|r: Vec<i64>| r@)
}

/// A factor matrix of `rows` rows, each of the latent dimensionality.
pub open spec fn mat_wf(m: Seq<Seq<i64>>, rows: int) -> bool {
    &&& m.len() == rows
    &&& forall|i: int| 0 <= i < m.len() ==> (#[trigger] m[i]).len() == LATENT_K
}

/// The ideal fixed-point dot product of the first `n` coordinates of two
/// rows: the sum of the coordinatewise fixed-point products.
pub open spec fn spec_fx_dot(a: Seq<i64>, b: Seq<i64>, n: int) -> int
    decreases n,
{
    if n <= 0 {
        0
    } else {
        spec_fx_dot(a, b, n - 1) + spec_fx_mul(a[n - 1] as int, b[n - 1] as int)
    }
}

/// The prediction error of one observed cell: the observed count, scaled
/// into fixed point, minus the predicted affinity.
pub open spec fn spec_err(u_row: Seq<i64>, v_row: Seq<i64>, val: u32) -> int {
    val * 1_000_000 - spec_fx_dot(u_row, v_row, LATENT_K as int)
}

/// One coordinate of the simultaneous gradient step:
/// `own - eta * (-2 * err * other + 2 * lambda * own)`, each product taken
/// in fixed point.
pub open spec fn spec_upd(own: i64, other: i64, e: int) -> int {
    own - spec_fx_mul(
        ETA_FX as int,
        2 * spec_fx_mul(LAMBDA_FX as int, own as int) - 2 * spec_fx_mul(e, other as int),
    )
}


/// Do all the checked steps of one gradient coordinate stay inside the
/// 64-bit carrier? The conjuncts mirror the executable chain: the two
/// fixed-point products, their doublings, the gradient, the scaled step,
/// and the updated coordinate.
pub open spec fn coord_fits(own: i64, other: i64, e: int) -> bool {
    let a = spec_fx_mul(e, other as int);
    let b = spec_fx_mul(LAMBDA_FX as int, own as int);
    let delta = 2 * b - 2 * a;
    let step = spec_fx_mul(ETA_FX as int, delta);
    &&& fx_fits(a)
    &&& fx_fits(2 * a)
    &&& fx_fits(b)
    &&& fx_fits(2 * b)
    &&& fx_fits(delta)
    &&& fx_fits(step)
    &&& fx_fits(own - step)
}

/// Do all the checked steps of the dot product over the first `n`
/// coordinates stay inside the carrier: each coordinate product, and each
/// running sum?
pub open spec fn dot_fits(a: Seq<i64>, b: Seq<i64>, n: int) -> bool
    decreases n,
{
    if n <= 0 {
        true
    } else {
        &&& dot_fits(a, b, n - 1)
        &&& fx_fits(spec_fx_mul(a[n - 1] as int, b[n - 1] as int))
        &&& fx_fits(spec_fx_dot(a, b, n))
    }
}

/// Fitting a longer prefix fits every shorter one.
pub proof fn lemma_dot_fits_mono(a: Seq<i64>, b: Seq<i64>, m: int, n: int)
    requires
        m <= n,
        dot_fits(a, b, n),
    ensures
        dot_fits(a, b, m),
    decreases n,
{
    if m < n && n > 0 {
        lemma_dot_fits_mono(a, b, m, n - 1);
    }
}

/// Do all the checked steps of one cell visit stay inside their carriers:
/// the prediction's dot product, the error, and every coordinate of both
/// row updates?
pub open spec fn cell_fits(u_row: Seq<i64>, v_row: Seq<i64>, val: u32) -> bool {
    let e = spec_err(u_row, v_row, val);
    &&& dot_fits(u_row, v_row, LATENT_K as int)
    &&& fx_fits(e)
    &&& forall|t: int|
        0 <= t < LATENT_K ==> coord_fits(#[trigger] u_row[t], v_row[t], e) && coord_fits(
            v_row[t],
            u_row[t],
            e,
        )
}

/// Do all the checked steps of the first `n` cell visits of one epoch stay
/// inside their carriers, including the running squared-error sum?
pub open spec fn epoch_fits(
    u: Seq<Seq<i64>>,
    v: Seq<Seq<i64>>,
    sse: int,
    ts: Seq<(usize, usize, u32)>,
    n: int,
) -> bool
    decreases n,
{
    if n <= 0 {
        true
    } else {
        &&& epoch_fits(u, v, sse, ts, n - 1)
        &&& ({
            let prev = epoch_fold(u, v, sse, ts, n - 1);
            let cell = ts[n - 1];
            let e = spec_err(prev.0[cell.0 as int], prev.1[cell.1 as int], cell.2);
            &&& cell_fits(prev.0[cell.0 as int], prev.1[cell.1 as int], cell.2)
            &&& prev.2 + e * e <= u128::MAX
        })
    }
}

/// Fitting a longer run of cell visits fits every shorter one.
pub proof fn lemma_epoch_fits_mono(
    u: Seq<Seq<i64>>,
    v: Seq<Seq<i64>>,
    sse: int,
    ts: Seq<(usize, usize, u32)>,
    m: int,
    n: int,
)
    requires
        m <= n,
        epoch_fits(u, v, sse, ts, n),
    ensures
        epoch_fits(u, v, sse, ts, m),
    decreases n,
{
    if m < n && n > 0 {
        lemma_epoch_fits_mono(u, v, sse, ts, m, n - 1);
    }
}

/// Relies on rand's `random_range` (through the `ndarray_rand` re-export):
/// a sample from the inclusive range handed to it. Which value comes back
/// depends on the thread's generator, so only the range is stated: the
/// initial factors lie in `[-0.1, 0.1]` in fixed point.
#[verifier::external_body]
fn random_factor() -> (r: i64)
    ensures
        -100_000 <= r <= 100_000,
{
    ndarray_rand::rand::random_range(-100_000i64..=100_000i64)
}

/// A fresh factor matrix with every coordinate drawn from `[-0.1, 0.1]`.
fn random_matrix(rows: usize) -> (r: Vec<Vec<i64>>)
    ensures
        mat_wf(mat_model(r@), rows as int),
        forall|i: int, t: int|
            0 <= i < rows && 0 <= t < LATENT_K ==> -100_000 <= (#[trigger] mat_model(r@)[i][t])
                <= 100_000,
{
    let mut m: Vec<Vec<i64>> = Vec::new();
    let mut i: usize = 0;
    while i < rows
        invariant
            0 <= i <= rows,
            m@.len() == i,
            forall|w: int| 0 <= w < i ==> (#[trigger] m@[w])@.len() == LATENT_K,
            forall|w: int, t: int|
                0 <= w < i && 0 <= t < LATENT_K ==> -100_000 <= (#[trigger] m@[w]@[t]) <= 100_000,
        decreases rows - i,
    {
        let mut row: Vec<i64> = Vec::new();
        let mut t: usize = 0;
        while t < LATENT_K
            invariant
                0 <= t <= LATENT_K,
                row@.len() == t,
                forall|w: int| 0 <= w < t ==> -100_000 <= (#[trigger] row@[w]) <= 100_000,
            decreases LATENT_K - t,
        {
            row.push(random_factor());
            t = t + 1;
        }
        m.push(row);
        i = i + 1;
    }
    proof {
        assert(forall|w: int| 0 <= w < rows ==> mat_model(m@)[w] == m@[w]@);
    }
    m
}

/// A deep copy of a factor matrix.
fn copy_matrix(m: &Vec<Vec<i64>>) -> (r: Vec<Vec<i64>>)
    ensures
        mat_model(r@) == mat_model(m@),
{
    let n = m.len();
    let mut out: Vec<Vec<i64>> = Vec::new();
    let mut i: usize = 0;
    while i < n
        invariant
            n == m@.len(),
            0 <= i <= n,
            out@.len() == i,
            forall|w: int| 0 <= w < i ==> (#[trigger] out@[w])@ == m@[w]@,
        decreases n - i,
    {
        let src = &m[i];
        let k = src.len();
        let mut row: Vec<i64> = Vec::new();
        let mut t: usize = 0;
        while t < k
            invariant
                k == src@.len(),
                0 <= t <= k,
                row@.len() == t,
                forall|w: int| 0 <= w < t ==> (#[trigger] row@[w]) == src@[w],
            decreases k - t,
        {
            row.push(src[t]);
            t = t + 1;
        }
        proof {
            assert(row@ =~= src@);
        }
        out.push(row);
        i = i + 1;
    }
    proof {
        assert(mat_model(out@) =~= mat_model(m@));
    }
    out
}

/// The fixed-point dot product of two factor rows, every step checked:
/// `Some` with the exact value exactly when every product and every
/// running sum fits the carrier.
fn dot_fx(a: &Vec<i64>, b: &Vec<i64>) -> (r: Option<i64>)
    requires
        a@.len() == LATENT_K,
        b@.len() == LATENT_K,
    ensures
        (r is Some) == dot_fits(a@, b@, LATENT_K as int),
        r is Some ==> r->Some_0 == spec_fx_dot(a@, b@, LATENT_K as int),
{
    let mut acc: i64 = 0;
    let mut t: usize = 0;
    while t < LATENT_K
        invariant
            a@.len() == LATENT_K,
            b@.len() == LATENT_K,
            0 <= t <= LATENT_K,
            acc == spec_fx_dot(a@, b@, t as int),
            dot_fits(a@, b@, t as int),
        decreases LATENT_K - t,
    {
        let p = match fx_mul(a[t], b[t]) {
            Some(v) => v,
            None => {
                proof {
                    assert(!dot_fits(a@, b@, t as int + 1));
                    if dot_fits(a@, b@, LATENT_K as int) {
                        lemma_dot_fits_mono(a@, b@, t as int + 1, LATENT_K as int);
                    }
                }
                return None;
            },
        };
        acc = match acc.checked_add(p) {
            Some(v) => v,
            None => {
                proof {
                    assert(!fx_fits(spec_fx_dot(a@, b@, t as int + 1)));
                    assert(!dot_fits(a@, b@, t as int + 1));
                    if dot_fits(a@, b@, LATENT_K as int) {
                        lemma_dot_fits_mono(a@, b@, t as int + 1, LATENT_K as int);
                    }
                }
                return None;
            },
        };
        t = t + 1;
    }
    Some(acc)
}

/// One SGD step on one observed cell: the simultaneous update of the
/// user's and the item's factor rows by the exact fixed-point gradient
/// formulas, and the squared error of the cell. `Some` exactly when every
/// checked step fits its carrier.
fn sgd_cell_update(u_row: &Vec<i64>, v_row: &Vec<i64>, val: u32) -> (r: Option<
    (Vec<i64>, Vec<i64>, u128),
>)
    requires
        u_row@.len() == LATENT_K,
        v_row@.len() == LATENT_K,
    ensures
        (r is Some) == cell_fits(u_row@, v_row@, val),
        r is Some ==> ({
            let e = spec_err(u_row@, v_row@, val);
            let nu = r->Some_0.0;
            let nv = r->Some_0.1;
            &&& nu@.len() == LATENT_K
            &&& nv@.len() == LATENT_K
            &&& forall|t: int|
                0 <= t < LATENT_K ==> (#[trigger] nu@[t]) == spec_upd(u_row@[t], v_row@[t], e)
            &&& forall|t: int|
                0 <= t < LATENT_K ==> (#[trigger] nv@[t]) == spec_upd(v_row@[t], u_row@[t], e)
            &&& r->Some_0.2 == e * e
        }),
{
    let pred = match dot_fx(u_row, v_row) {
        Some(v) => v,
        None => {
            proof {
                assert(!cell_fits(u_row@, v_row@, val));
            }
            return None;
        },
    };
    proof {
        assert((val as int) * 1_000_000 <= 0xffff_ffff * 1_000_000) by (nonlinear_arith)
            requires
                0 <= val <= 0xffff_ffff,
        ;
    }
    let val_fx: i64 = (val as i64) * 1_000_000;
    let e: i64 = match val_fx.checked_sub(pred) {
        Some(v) => v,
        None => {
            proof {
                assert(!fx_fits(spec_err(u_row@, v_row@, val)));
                assert(!cell_fits(u_row@, v_row@, val));
            }
            return None;
        },
    };
    proof {
        assert(e == spec_err(u_row@, v_row@, val));
    }
    proof {
        assert((e as int) * (e as int) >= 0) by (nonlinear_arith);
        assert((e as int) * (e as int) <= 0x8000_0000_0000_0000 * 0x8000_0000_0000_0000)
            by (nonlinear_arith)
            requires
                -0x8000_0000_0000_0000 <= e <= 0x8000_0000_0000_0000,
        ;
    }
    let sq_i: i128 = (e as i128) * (e as i128);
    let sq: u128 = sq_i as u128;
    let mut nu: Vec<i64> = Vec::new();
    let mut nv: Vec<i64> = Vec::new();
    let mut t: usize = 0;
    while t < LATENT_K
        invariant
            u_row@.len() == LATENT_K,
            v_row@.len() == LATENT_K,
            0 <= t <= LATENT_K,
            e == spec_err(u_row@, v_row@, val),
            nu@.len() == t,
            nv@.len() == t,
            forall|w: int|
                0 <= w < t ==> (#[trigger] nu@[w]) == spec_upd(u_row@[w], v_row@[w], e as int),
            forall|w: int|
                0 <= w < t ==> (#[trigger] nv@[w]) == spec_upd(v_row@[w], u_row@[w], e as int),
            dot_fits(u_row@, v_row@, LATENT_K as int),
            fx_fits(spec_err(u_row@, v_row@, val)),
            forall|w: int|
                0 <= w < t ==> coord_fits(#[trigger] u_row@[w], v_row@[w], e as int)
                    && coord_fits(v_row@[w], u_row@[w], e as int),
        decreases LATENT_K - t,
    {
        let un = match sgd_coord(u_row[t], v_row[t], e) {
            Some(v) => v,
            None => {
                proof {
                    assert(!coord_fits(u_row@[t as int], v_row@[t as int], e as int));
                    assert(!cell_fits(u_row@, v_row@, val));
                }
                return None;
            },
        };
        let vn = match sgd_coord(v_row[t], u_row[t], e) {
            Some(v) => v,
            None => {
                proof {
                    assert(!coord_fits(v_row@[t as int], u_row@[t as int], e as int));
                    assert(!cell_fits(u_row@, v_row@, val));
                }
                return None;
            },
        };
        nu.push(un);
        nv.push(vn);
        t = t + 1;
    }
    proof {
        assert(cell_fits(u_row@, v_row@, val));
    }
    Some((nu, nv, sq))
}

/// One coordinate of the gradient step, every operation checked: `Some`
/// exactly when every step fits the carrier, and then the exact value.
fn sgd_coord(own: i64, other: i64, e: i64) -> (r: Option<i64>)
    ensures
        (r is Some) == coord_fits(own, other, e as int),
        r is Some ==> r->Some_0 == spec_upd(own, other, e as int),
{
    let a = match fx_mul(e, other) {
        Some(v) => v,
        None => {
            return None;
        },
    };
    let a2 = match a.checked_mul(2) {
        Some(v) => v,
        None => {
            return None;
        },
    };
    let b = match fx_mul(LAMBDA_FX, own) {
        Some(v) => v,
        None => {
            return None;
        },
    };
    let b2 = match b.checked_mul(2) {
        Some(v) => v,
        None => {
            return None;
        },
    };
    let delta = match b2.checked_sub(a2) {
        Some(v) => v,
        None => {
            return None;
        },
    };
    let step = match fx_mul(ETA_FX, delta) {
        Some(v) => v,
        None => {
            return None;
        },
    };
    match own.checked_sub(step) {
        Some(v) => Some(v),
        None => None,
    }
}

/// Did this epoch's RMSE improve on the best seen by more than the
/// tolerance? The first epoch always improves.
pub open spec fn rmse_improved(best: Option<u64>, cur: u64) -> bool {
    match best {
        Option::None => true,
        Option::Some(b) => cur + TOL_FX < b,
    }
}

/// The early-stopping controller as a pure fold over the epoch RMSE
/// values: the retained best and the count of consecutive non-improving
/// epochs since it was retained.
pub open spec fn ctrl_fold(h: Seq<u64>) -> (Option<u64>, int)
    decreases h.len(),
{
    if h.len() == 0 {
        (Option::None, 0int)
    } else {
        let prev = ctrl_fold(h.drop_last());
        if rmse_improved(prev.0, h.last()) {
            (Option::Some(h.last()), 0int)
        } else {
            (prev.0, prev.1 + 1)
        }
    }
}

/// Ordering on retained bests, an absent best reading as infinitely bad.
pub open spec fn best_le(a: Option<u64>, b: Option<u64>) -> bool {
    match (a, b) {
        (Option::Some(x), Option::Some(y)) => x <= y,
        (Option::Some(_), Option::None) => true,
        (Option::None, Option::None) => true,
        (Option::None, Option::Some(_)) => false,
    }
}

/// Law: under the best-snapshot policy the retained best RMSE never
/// regresses — across any run of epoch errors, the best retained after
/// the whole run is at most the best retained after any prefix.
pub proof fn lemma_best_monotone(h: Seq<u64>, i: int)
    requires
        0 <= i <= h.len(),
    ensures
        best_le(ctrl_fold(h).0, ctrl_fold(h.take(i)).0),
    decreases h.len() - i,
{
    if i == h.len() {
        assert(h.take(i) =~= h);
    } else {
        lemma_best_monotone(h, i + 1);
        assert(h.take(i + 1).drop_last() =~= h.take(i));
        assert(h.take(i + 1).last() == h[i]);
        let prev = ctrl_fold(h.take(i));
        let next = ctrl_fold(h.take(i + 1));
        assert(best_le(next.0, prev.0)) by {
            if rmse_improved(prev.0, h[i]) {
                assert(next.0 == Option::Some(h[i]));
            }
        }
    }
}

/// The latent-factor recommendation engine: learns dense user and item
/// factor matrices from the dataset's sparse counts by fixed-point SGD
/// with L2 regularization and patience-based early stopping.
pub struct MatrixFactorizationEngine {
    dataset: Dataset,
    u_matrix: Option<Vec<Vec<i64>>>,
    v_matrix: Option<Vec<Vec<i64>>>,
}

/// What a training run reports: the per-epoch RMSE values in fixed point,
/// how many epochs ran, and the retained best RMSE.
pub struct TrainReport {
    pub epochs_run: usize,
    pub rmse_history: Vec<u64>,
    pub best_rmse: u64,
}

impl MatrixFactorizationEngine {
    /// The dataset the engine was given.
    pub closed spec fn ds(self) -> Dataset {
        self.dataset
    }

    /// Has a training run retained factor matrices?
    pub closed spec fn trained(self) -> bool {
        self.u_matrix is Some && self.v_matrix is Some
    }

    /// The retained user factor matrix.
    pub closed spec fn u_model(self) -> Seq<Seq<i64>> {
        mat_model(self.u_matrix->Some_0@)
    }

    /// The retained item factor matrix.
    pub closed spec fn v_model(self) -> Seq<Seq<i64>> {
        mat_model(self.v_matrix->Some_0@)
    }

    /// Well-formedness: the dataset is well formed and retained matrices
    /// have the dataset's dimensions.
    pub closed spec fn wf(self) -> bool {
        &&& self.dataset.wf()
        &&& (self.u_matrix is Some) == (self.v_matrix is Some)
        &&& self.trained() ==> mat_wf(self.u_model(), self.ds().users().len() as int) && mat_wf(
            self.v_model(),
            self.ds().items().len() as int,
        )
    }

    pub fn new(dataset: Dataset) -> (r: MatrixFactorizationEngine)
        requires
            dataset.wf(),
        ensures
            r.wf(),
            !r.trained(),
            r.ds() == dataset,
    {
        MatrixFactorizationEngine { dataset, u_matrix: None, v_matrix: None }
    }

    /// Trains the factor matrices by SGD over the stored cells, visited in
    /// storage order, with the best-snapshot early-stopping policy: an
    /// epoch whose RMSE improves the best by more than the tolerance
    /// becomes the new snapshot; after `PATIENCE` non-improving epochs in
    /// a row, or `MAX_EPOCHS` in total, training stops and the snapshot is
    /// retained. A checked step leaving the carrier aborts with
    /// `NumericInstability`, leaving any prior model intact.
    pub fn train(&mut self) -> (r: Result<TrainReport, EngineError>)
        requires
            old(self).wf(),
        ensures
            final(self).wf(),
            final(self).ds() == old(self).ds(),
            match r {
                Ok(rep) => {
                    &&& old(self).ds().users().len() > 0
                    &&& old(self).ds().items().len() > 0
                    &&& old(self).ds().cells().len() > 0
                    &&& final(self).trained()
                    &&& rep.epochs_run == rep.rmse_history@.len()
                    &&& 1 <= rep.rmse_history@.len() <= MAX_EPOCHS
                    &&& ctrl_fold(rep.rmse_history@).0 == Option::Some(rep.best_rmse)
                    &&& rep.rmse_history@.len() < MAX_EPOCHS ==> ctrl_fold(
                        rep.rmse_history@,
                    ).1 >= PATIENCE
                    &&& forall|e: int|
                        0 <= e < rep.rmse_history@.len() ==> ctrl_fold(
                            #[trigger] rep.rmse_history@.take(e),
                        ).1 < PATIENCE
                    &&& exists|u0: Seq<Seq<i64>>, v0: Seq<Seq<i64>>|
                        {
                            &&& init_ok(u0, old(self).ds().users().len() as int)
                            &&& init_ok(v0, old(self).ds().items().len() as int)
                            &&& forall|e: int|
                                0 <= e < rep.rmse_history@.len() ==> rmse_of(
                                    epoch_sse(u0, v0, old(self).ds().cells(), e),
                                    old(self).ds().cells().len() as int,
                                    #[trigger] rep.rmse_history@[e],
                                )
                            &&& (final(self).u_model(), final(self).v_model()) == run_epochs(
                                u0,
                                v0,
                                old(self).ds().cells(),
                                best_epoch(rep.rmse_history@) + 1,
                            )
                        }
                },
                Err(EngineError::EmptyCorpus) => {
                    &&& (old(self).ds().users().len() == 0 || old(self).ds().items().len() == 0
                        || old(self).ds().cells().len() == 0)
                    &&& final(self).trained() == old(self).trained()
                    &&& final(self).u_model() == old(self).u_model()
                    &&& final(self).v_model() == old(self).v_model()
                },
                Err(EngineError::NumericInstability) => {
                    &&& old(self).ds().cells().len() > 0
                    &&& final(self).trained() == old(self).trained()
                    &&& final(self).u_model() == old(self).u_model()
                    &&& final(self).v_model() == old(self).v_model()
                    &&& exists|u0: Seq<Seq<i64>>, v0: Seq<Seq<i64>>, k: int|
                        #![trigger run_epochs(u0, v0, old(self).ds().cells(), k)]
                        {
                            &&& init_ok(u0, old(self).ds().users().len() as int)
                            &&& init_ok(v0, old(self).ds().items().len() as int)
                            &&& 0 <= k < MAX_EPOCHS
                            &&& !epoch_fits(
                                run_epochs(u0, v0, old(self).ds().cells(), k).0,
                                run_epochs(u0, v0, old(self).ds().cells(), k).1,
                                0,
                                old(self).ds().cells(),
                                old(self).ds().cells().len() as int,
                            )
                        }
                },
                _ => false,
            },
    {
        let nu = self.dataset.n_users();
        let ni = self.dataset.n_items();
        let cells = self.dataset.cells_vec();
        let nnz = cells.len();
        if nu == 0 || ni == 0 || nnz == 0 {
            return Err(EngineError::EmptyCorpus);
        }
        proof {
            assert(forall|p: int|
                0 <= p < cells@.len() ==> (#[trigger] cells@[p]).0 < nu && cells@[p].1 < ni);
        }
        let mut u = random_matrix(nu);
        let mut v = random_matrix(ni);
        let ghost gu0 = mat_model(u@);
        let ghost gv0 = mat_model(v@);
        proof {
            assert(init_ok(gu0, nu as int));
            assert(init_ok(gv0, ni as int));
        }
        let mut history: Vec<u64> = Vec::new();
        let mut best: Option<(u64, Vec<Vec<i64>>, Vec<Vec<i64>>)> = None;
        let mut patience: usize = 0;
        let mut ep: usize = 0;
        while ep < MAX_EPOCHS && patience < PATIENCE
            invariant
                old(self).wf(),
                *self == *old(self),
                cells@ == old(self).ds().cells(),
                nnz == cells@.len(),
                nnz > 0,
                forall|p: int|
                    0 <= p < cells@.len() ==> (#[trigger] cells@[p]).0 < nu && cells@[p].1 < ni,
                mat_wf(mat_model(u@), nu as int),
                mat_wf(mat_model(v@), ni as int),
                nu == old(self).ds().users().len(),
                ni == old(self).ds().items().len(),
                init_ok(gu0, nu as int),
                init_ok(gv0, ni as int),
                (mat_model(u@), mat_model(v@)) == run_epochs(gu0, gv0, cells@, ep as int),
                forall|e: int|
                    0 <= e < ep ==> rmse_of(
                        epoch_sse(gu0, gv0, cells@, e),
                        nnz as int,
                        #[trigger] history@[e],
                    ),
                history@.len() == ep,
                0 <= ep <= MAX_EPOCHS,
                0 <= patience,
                forall|e: int|
                    0 <= e < ep ==> ctrl_fold(#[trigger] history@.take(e)).1 < PATIENCE,
                best is None ==> ep == 0 && patience == 0,
                match best {
                    Option::Some(b) => ctrl_fold(history@).0 == Option::Some(b.0) && ctrl_fold(
                        history@,
                    ).1 == patience && (mat_model(b.1@), mat_model(b.2@)) == run_epochs(
                        gu0,
                        gv0,
                        cells@,
                        best_epoch(history@) + 1,
                    ) && mat_wf(mat_model(b.1@), nu as int) && mat_wf(mat_model(b.2@), ni as int),
                    Option::None => history@.len() == 0,
                },
            decreases MAX_EPOCHS - ep,
        {
            let ghost old_hist = history@;
            let ghost before_u = mat_model(u@);
            let ghost before_v = mat_model(v@);
            let sse = match sgd_epoch(&mut u, &mut v, &cells) {
                Some(s) => s,
                None => {
                    proof {
                        assert(!epoch_fits(
                            run_epochs(gu0, gv0, cells@, ep as int).0,
                            run_epochs(gu0, gv0, cells@, ep as int).1,
                            0,
                            cells@,
                            cells@.len() as int,
                        ));
                    }
                    return Err(EngineError::NumericInstability);
                },
            };
            proof {
                assert((mat_model(u@), mat_model(v@)) == run_epochs(gu0, gv0, cells@, ep + 1));
                assert(sse as int == epoch_sse(gu0, gv0, cells@, ep as int));
            }
            let mse: u128 = sse / (nnz as u128);
            let rmse: u64 = isqrt_u128(mse);
            history.push(rmse);
            proof {
                assert(history@.drop_last() =~= old_hist);
                assert(history@.last() == rmse);
                assert(mse == (sse as int) / (nnz as int));
                assert(rmse_of(epoch_sse(gu0, gv0, cells@, ep as int), nnz as int, rmse));
                assert forall|e: int|
                    0 <= e < ep + 1 implies rmse_of(
                    epoch_sse(gu0, gv0, cells@, e),
                    nnz as int,
                    #[trigger] history@[e],
                ) by {
                    if e < ep {
                        assert(history@[e] == old_hist[e]);
                    }
                }
            }
            let ghost gprev = ctrl_fold(old_hist);
            let ghost gbest0 = if best is Some {
                Option::Some(best->Some_0.0)
            } else {
                Option::<u64>::None
            };
            proof {
                assert(gprev.0 == gbest0);
            }
            let better: bool = match &best {
                None => true,
                Some(b) => rmse < b.0 && b.0 - rmse > TOL_FX,
            };
            proof {
                assert(better == rmse_improved(gbest0, rmse));
                assert(ctrl_fold(history@) == if rmse_improved(gprev.0, rmse) {
                    (Option::Some(rmse), 0int)
                } else {
                    (gprev.0, gprev.1 + 1)
                });
            }
            proof {
                assert forall|e: int|
                    0 <= e < ep + 1 implies ctrl_fold(#[trigger] history@.take(e)).1
                    < PATIENCE by {
                    if e < ep as int {
                        assert(history@.take(e) =~= old_hist.take(e));
                    } else {
                        assert(history@.take(e) =~= old_hist);
                    }
                }
            }
            if better {
                proof {
                    assert(best_epoch(history@) == ep as int);
                }
                best = Some((rmse, copy_matrix(&u), copy_matrix(&v)));
                patience = 0;
            } else {
                proof {
                    assert(best_epoch(history@) == best_epoch(old_hist));
                }
                patience = patience + 1;
            }
            ep = ep + 1;
        }
        match best {
            Some(b) => {
                let epochs_run = history.len();
                self.u_matrix = Some(b.1);
                self.v_matrix = Some(b.2);
                Ok(TrainReport { epochs_run, rmse_history: history, best_rmse: b.0 })
            },
            None => vstd::pervasive::unreached(),
        }
    }
}

/// One row after the simultaneous gradient step, each coordinate clipped
/// into the carrier; the executable path checks that every coordinate
/// fits, so on a successful run the clip changes nothing.
pub open spec fn upd_row(own: Seq<i64>, other: Seq<i64>, e: int) -> Seq<i64> {
    Seq::new(own.len(), |t: int| spec_upd(own[t], other[t], e) as i64)
}

/// One cell visit at the model level: the prediction error of the cell,
/// the simultaneous update of the two touched rows, and the squared error
/// added to the running sum.
pub open spec fn cell_step(
    u: Seq<Seq<i64>>,
    v: Seq<Seq<i64>>,
    sse: int,
    cell: (usize, usize, u32),
) -> (Seq<Seq<i64>>, Seq<Seq<i64>>, int) {
    let urow = u[cell.0 as int];
    let vrow = v[cell.1 as int];
    let e = spec_err(urow, vrow, cell.2);
    (
        u.update(cell.0 as int, upd_row(urow, vrow, e)),
        v.update(cell.1 as int, upd_row(vrow, urow, e)),
        sse + e * e,
    )
}

/// The first `n` cell visits of one epoch, folded in storage order.
pub open spec fn epoch_fold(
    u: Seq<Seq<i64>>,
    v: Seq<Seq<i64>>,
    sse: int,
    ts: Seq<(usize, usize, u32)>,
    n: int,
) -> (Seq<Seq<i64>>, Seq<Seq<i64>>, int)
    decreases n,
{
    if n <= 0 {
        (u, v, sse)
    } else {
        let prev = epoch_fold(u, v, sse, ts, n - 1);
        cell_step(prev.0, prev.1, prev.2, ts[n - 1])
    }
}

/// A valid random initialization: the right shape, every coordinate drawn
/// from `[-0.1, 0.1]` in fixed point.
pub open spec fn init_ok(m: Seq<Seq<i64>>, rows: int) -> bool {
    &&& mat_wf(m, rows)
    &&& forall|i: int, t: int|
        0 <= i < m.len() && 0 <= t < m[i].len() ==> -100_000 <= (#[trigger] m[i][t]) <= 100_000
}

/// The factor matrices after `k` full epochs from the given initialization.
pub open spec fn run_epochs(
    u0: Seq<Seq<i64>>,
    v0: Seq<Seq<i64>>,
    ts: Seq<(usize, usize, u32)>,
    k: int,
) -> (Seq<Seq<i64>>, Seq<Seq<i64>>)
    decreases k,
{
    if k <= 0 {
        (u0, v0)
    } else {
        let prev = run_epochs(u0, v0, ts, k - 1);
        let f = epoch_fold(prev.0, prev.1, 0, ts, ts.len() as int);
        (f.0, f.1)
    }
}

/// The summed squared error of epoch `k`, counted from zero.
pub open spec fn epoch_sse(
    u0: Seq<Seq<i64>>,
    v0: Seq<Seq<i64>>,
    ts: Seq<(usize, usize, u32)>,
    k: int,
) -> int {
    let prev = run_epochs(u0, v0, ts, k);
    epoch_fold(prev.0, prev.1, 0, ts, ts.len() as int).2
}

/// `r` is the reported RMSE of an epoch with squared-error sum `sse` over
/// `nnz` cells: the integer square root of the mean squared error, both in
/// fixed point.
pub open spec fn rmse_of(sse: int, nnz: int, r: u64) -> bool {
    &&& (r as int) * (r as int) <= sse / nnz
    &&& sse / nnz < ((r as int) + 1) * ((r as int) + 1)
}

/// The epoch whose snapshot the policy retains: the last improving one.
pub open spec fn best_epoch(h: Seq<u64>) -> int
    decreases h.len(),
{
    if h.len() == 0 {
        -1
    } else if rmse_improved(ctrl_fold(h.drop_last()).0, h.last()) {
        h.len() - 1
    } else {
        best_epoch(h.drop_last())
    }
}

/// One SGD epoch: every stored cell visited in storage order, the two
/// touched factor rows updated simultaneously, the squared errors summed.
/// `None` reports a checked step leaving the carrier; the matrices keep
/// their dimensions either way.
fn sgd_epoch(u: &mut Vec<Vec<i64>>, v: &mut Vec<Vec<i64>>, cells: &Vec<(usize, usize, u32)>) -> (r:
    Option<u128>)
    requires
        mat_wf(mat_model(old(u)@), old(u)@.len() as int),
        mat_wf(mat_model(old(v)@), old(v)@.len() as int),
        forall|p: int|
            0 <= p < cells@.len() ==> (#[trigger] cells@[p]).0 < old(u)@.len() && cells@[p].1
                < old(v)@.len(),
    ensures
        final(u)@.len() == old(u)@.len(),
        final(v)@.len() == old(v)@.len(),
        mat_wf(mat_model(final(u)@), old(u)@.len() as int),
        mat_wf(mat_model(final(v)@), old(v)@.len() as int),
        (r is Some) == epoch_fits(
            mat_model(old(u)@),
            mat_model(old(v)@),
            0,
            cells@,
            cells@.len() as int,
        ),
        r is Some ==> ({
            let f = epoch_fold(
                mat_model(old(u)@),
                mat_model(old(v)@),
                0,
                cells@,
                cells@.len() as int,
            );
            &&& mat_model(final(u)@) == f.0
            &&& mat_model(final(v)@) == f.1
            &&& r->Some_0 == f.2
        }),
{
    let ghost gu0 = mat_model(old(u)@);
    let ghost gv0 = mat_model(old(v)@);
    let un = u.len();
    let vn = v.len();
    let n = cells.len();
    let mut sse: u128 = 0;
    let mut p: usize = 0;
    while p < n
        invariant
            n == cells@.len(),
            un == u@.len(),
            vn == v@.len(),
            un == old(u)@.len(),
            vn == old(v)@.len(),
            gu0 == mat_model(old(u)@),
            gv0 == mat_model(old(v)@),
            0 <= p <= n,
            mat_wf(mat_model(u@), un as int),
            mat_wf(mat_model(v@), vn as int),
            (mat_model(u@), mat_model(v@), sse as int) == epoch_fold(gu0, gv0, 0, cells@, p as int),
            epoch_fits(gu0, gv0, 0, cells@, p as int),
            forall|q: int|
                0 <= q < cells@.len() ==> (#[trigger] cells@[q]).0 < un && cells@[q].1 < vn,
        decreases n - p,
    {
        let cell = cells[p];
        let i = cell.0;
        let j = cell.1;
        let val = cell.2;
        proof {
            assert(mat_model(u@)[i as int] == u@[i as int]@);
            assert(mat_model(v@)[j as int] == v@[j as int]@);
        }
        let upd = match sgd_cell_update(&u[i], &v[j], val) {
            Some(x) => x,
            None => {
                proof {
                    assert(!cell_fits(u@[i as int]@, v@[j as int]@, val));
                    let prev = epoch_fold(gu0, gv0, 0, cells@, p as int);
                    assert(prev.0[i as int] == u@[i as int]@);
                    assert(prev.1[j as int] == v@[j as int]@);
                    assert(!epoch_fits(gu0, gv0, 0, cells@, p as int + 1));
                    if epoch_fits(gu0, gv0, 0, cells@, n as int) {
                        lemma_epoch_fits_mono(gu0, gv0, 0, cells@, p as int + 1, n as int);
                    }
                }
                return None;
            },
        };
        let (nu2, nv2, sq) = upd;
        let ghost gu = u@;
        let ghost gv = v@;
        let ghost ge = spec_err(gu[i as int]@, gv[j as int]@, val);
        u[i] = nu2;
        v[j] = nv2;
        proof {
            assert(u@ == gu.update(i as int, nu2));
            assert(v@ == gv.update(j as int, nv2));
            assert(nu2@ =~= upd_row(gu[i as int]@, gv[j as int]@, ge)) by {
                assert forall|t: int|
                    0 <= t < LATENT_K implies upd_row(gu[i as int]@, gv[j as int]@, ge)[t]
                    == nu2@[t] by {
                    assert(nu2@[t] == spec_upd(gu[i as int]@[t], gv[j as int]@[t], ge));
                }
            }
            assert(nv2@ =~= upd_row(gv[j as int]@, gu[i as int]@, ge)) by {
                assert forall|t: int|
                    0 <= t < LATENT_K implies upd_row(gv[j as int]@, gu[i as int]@, ge)[t]
                    == nv2@[t] by {
                    assert(nv2@[t] == spec_upd(gv[j as int]@[t], gu[i as int]@[t], ge));
                }
            }
            assert forall|w: int|
                0 <= w < u@.len() implies (#[trigger] mat_model(u@)[w]).len() == LATENT_K by {
                assert(mat_model(u@)[w] == u@[w]@);
                if w == i as int {
                    assert(u@[w] == nu2);
                } else {
                    assert(u@[w] == gu[w]);
                    assert(mat_model(gu)[w] == gu[w]@);
                }
            }
            assert forall|w: int|
                0 <= w < v@.len() implies (#[trigger] mat_model(v@)[w]).len() == LATENT_K by {
                assert(mat_model(v@)[w] == v@[w]@);
                if w == j as int {
                    assert(v@[w] == nv2);
                } else {
                    assert(v@[w] == gv[w]);
                    assert(mat_model(gv)[w] == gv[w]@);
                }
            }
            assert(mat_wf(mat_model(u@), un as int));
            assert(mat_wf(mat_model(v@), vn as int));
        }
        let ghost old_sse = sse;
        sse = match sse.checked_add(sq) {
            Some(s) => s,
            None => {
                proof {
                    let prev = epoch_fold(gu0, gv0, 0, cells@, p as int);
                    assert(prev.2 == old_sse as int);
                    assert(prev.0[i as int] == gu[i as int]@);
                    assert(prev.1[j as int] == gv[j as int]@);
                    assert(old_sse + ge * ge > u128::MAX);
                    assert(!epoch_fits(gu0, gv0, 0, cells@, p as int + 1));
                    if epoch_fits(gu0, gv0, 0, cells@, n as int) {
                        lemma_epoch_fits_mono(gu0, gv0, 0, cells@, p as int + 1, n as int);
                    }
                }
                return None;
            },
        };
        proof {
            assert(epoch_fits(gu0, gv0, 0, cells@, p as int + 1)) by {
                let prev = epoch_fold(gu0, gv0, 0, cells@, p as int);
                assert(prev.0[i as int] == gu[i as int]@);
                assert(prev.1[j as int] == gv[j as int]@);
                assert(prev.2 == old_sse as int);
                assert(cell_fits(gu[i as int]@, gv[j as int]@, val));
            }
        }
        proof {
            let prev = epoch_fold(gu0, gv0, 0, cells@, p as int);
            let stepped = cell_step(prev.0, prev.1, prev.2, cells@[p as int]);
            assert(prev.0[i as int] == mat_model(gu)[i as int]);
            assert(mat_model(gu)[i as int] == gu[i as int]@);
            assert(prev.1[j as int] == gv[j as int]@);
            assert(mat_model(u@) =~= prev.0.update(i as int, upd_row(gu[i as int]@,
                gv[j as int]@, ge)));
            assert(mat_model(v@) =~= prev.1.update(j as int, upd_row(gv[j as int]@,
                gu[i as int]@, ge)));
            assert(sse as int == old_sse + ge * ge);
            assert((mat_model(u@), mat_model(v@), sse as int) == epoch_fold(gu0, gv0, 0, cells@,
                p + 1));
        }
        p = p + 1;
    }
    Some(sse)
}

/// Does prediction `a` strictly precede `b` in a ranking: higher score
/// first, ties broken by the lower item index?
pub open spec fn pred_before(a: (usize, i64), b: (usize, i64)) -> bool {
    a.1 > b.1 || (a.1 == b.1 && a.0 < b.0)
}

/// Do all the dot products of one user's full prediction fit the carrier?
pub open spec fn predict_fits(um: Seq<Seq<i64>>, vm: Seq<Seq<i64>>, uu: int) -> bool {
    forall|i: int|
        0 <= i < vm.len() ==> dot_fits(um[uu], #[trigger] vm[i], LATENT_K as int)
}

/// Do all the dot products of one item's latent-space comparison against
/// every other item fit the carrier?
pub open spec fn target_fits(vm: Seq<Seq<i64>>, t: int) -> bool {
    forall|i: int|
        0 <= i < vm.len() && i != t ==> dot_fits(vm[t], #[trigger] vm[i], LATENT_K as int)
}

/// Does the ranking hand out item `idx` somewhere?
pub open spec fn ranking_has(v: Seq<(usize, i64)>, idx: int) -> bool {
    exists|p: int| 0 <= p < v.len() && (#[trigger] v[p]).0 == idx
}

/// `v` is the full predicted ranking for a user row `urow` against the
/// item matrix `vm`: every item exactly once, its score the fixed-point
/// dot product of the two factor rows, ordered by descending score with
/// ties broken by ascending item index.
pub open spec fn ranking_of(v: Seq<(usize, i64)>, urow: Seq<i64>, vm: Seq<Seq<i64>>) -> bool {
    &&& v.len() == vm.len()
    &&& forall|p: int| 0 <= p < v.len() ==> (#[trigger] v[p]).0 < vm.len()
    &&& forall|p: int, q: int| 0 <= p < q < v.len() ==> v[p].0 != v[q].0
    &&& forall|p: int|
        0 <= p < v.len() ==> (#[trigger] v[p]).1 == spec_fx_dot(
            urow,
            vm[v[p].0 as int],
            LATENT_K as int,
        )
    &&& forall|p: int, q: int| 0 <= p < q < v.len() ==> pred_before(#[trigger] v[p], #[trigger] v[q])
    &&& forall|idx: int| 0 <= idx < vm.len() ==> #[trigger] ranking_has(v, idx)
}

/// Sorts predictions into ranking order: descending score, ties by
/// ascending item index. Distinct indices make the order strict and total.
fn sort_predictions(input: Vec<(usize, i64)>) -> (r: Vec<(usize, i64)>)
    requires
        forall|i: int, j: int| 0 <= i < j < input@.len() ==> input@[i].0 != input@[j].0,
    ensures
        r@.to_multiset() == input@.to_multiset(),
        r@.len() == input@.len(),
        forall|p: int, q: int|
            0 <= p < q < r@.len() ==> pred_before(#[trigger] r@[p], #[trigger] r@[q]),
        forall|i: int, j: int| 0 <= i < j < r@.len() ==> r@[i].0 != r@[j].0,
{
    let ghost orig = input@;
    let mut src = input;
    let mut out: Vec<(usize, i64)> = Vec::new();
    proof {
        assert(out@.to_multiset().add(src@.to_multiset()) =~= orig.to_multiset());
    }
    while src.len() > 0
        invariant
            out@.to_multiset().add(src@.to_multiset()) == orig.to_multiset(),
            out@.len() + src@.len() == orig.len(),
            forall|p: int, q: int|
                0 <= p < q < out@.len() ==> pred_before(#[trigger] out@[p], #[trigger] out@[q]),
            forall|i: int, j: int|
                0 <= i < out@.len() && 0 <= j < src@.len() ==> pred_before(
                    #[trigger] out@[i],
                    #[trigger] src@[j],
                ),
            forall|i: int, j: int| 0 <= i < j < out@.len() ==> out@[i].0 != out@[j].0,
            forall|i: int, j: int| 0 <= i < j < src@.len() ==> src@[i].0 != src@[j].0,
            forall|i: int, j: int|
                0 <= i < out@.len() && 0 <= j < src@.len() ==> out@[i].0 != src@[j].0,
        decreases src@.len(),
    {
        let n = src.len();
        let mut best: usize = 0;
        let mut k: usize = 1;
        while k < n
            invariant
                n == src@.len(),
                0 <= best < k <= n,
                forall|i: int, j: int| 0 <= i < j < src@.len() ==> src@[i].0 != src@[j].0,
                forall|j: int|
                    0 <= j < k && j != best ==> pred_before(src@[best as int], #[trigger] src@[j]),
            decreases n - k,
        {
            let better = src[k].1 > src[best].1 || (src[k].1 == src[best].1 && src[k].0
                < src[best].0);
            if better {
                proof {
                    assert forall|j: int|
                        0 <= j < k + 1 && j != k implies pred_before(
                        src@[k as int],
                        #[trigger] src@[j],
                    ) by {
                        if j != best as int {
                            assert(pred_before(src@[best as int], src@[j]));
                        }
                    }
                }
                best = k;
            }
            k = k + 1;
        }
        let ghost old_src = src@;
        let ghost old_out = out@;
        let elem = src.remove(best);
        out.push(elem);
        proof {
            assert(elem == old_src[best as int]);
            assert(forall|w: int| 0 <= w < best ==> src@[w] == old_src[w]);
            assert(forall|w: int| best <= w < src@.len() ==> src@[w] == old_src[w + 1]);
            assert(old_src.remove(best as int).to_multiset() =~= old_src.to_multiset().remove(
                elem,
            ));
            assert(out@.to_multiset() =~= old_out.to_multiset().insert(elem));
            assert(old_src.to_multiset().count(elem) > 0) by {
                assert(old_src.contains(elem));
            }
            assert(out@.to_multiset().add(src@.to_multiset()) =~= orig.to_multiset());
            assert(forall|i: int| 0 <= i < old_out.len() ==> out@[i] == old_out[i]);
            assert(out@[out@.len() - 1] == elem);
            assert forall|j: int| 0 <= j < src@.len() implies pred_before(
                elem,
                #[trigger] src@[j],
            ) by {
                if j < best as int {
                    assert(src@[j] == old_src[j]);
                } else {
                    assert(src@[j] == old_src[j + 1]);
                }
            }
        }
    }
    proof {
        assert(src@.to_multiset() =~= Multiset::<(usize, i64)>::empty()) by {
            assert(src@ =~= Seq::<(usize, i64)>::empty());
        }
        assert(out@.to_multiset() =~= orig.to_multiset());
    }
    out
}

impl MatrixFactorizationEngine {
    /// The full predicted ranking for the user at `user_index`: every
    /// item's fixed-point affinity, best first, ties by ascending index.
    /// `NumericInstability` reports a dot product leaving the carrier.
    fn internal_predict(&self, user_index: usize) -> (r: Result<Vec<(usize, i64)>, EngineError>)
        requires
            self.wf(),
            self.trained(),
            user_index < self.ds().users().len(),
        ensures
            (r is Ok) == predict_fits(self.u_model(), self.v_model(), user_index as int),
            match r {
                Ok(v) => ranking_of(v@, self.u_model()[user_index as int], self.v_model()),
                Err(e) => e == EngineError::NumericInstability,
            },
    {
        let ghost um = self.u_model();
        let ghost vm = self.v_model();
        let (umat, vmat) = match (&self.u_matrix, &self.v_matrix) {
            (Some(a), Some(b)) => (a, b),
            _ => {
                return Err(EngineError::NumericInstability);
            },
        };
        let u_row = &umat[user_index];
        let ni = vmat.len();
        proof {
            assert(mat_model(umat@)[user_index as int] == umat@[user_index as int]@);
            assert(u_row@ == um[user_index as int]);
            assert(u_row@.len() == LATENT_K);
        }
        let mut pairs: Vec<(usize, i64)> = Vec::new();
        let mut i: usize = 0;
        while i < ni
            invariant
                self.wf(),
                self.trained(),
                um == self.u_model(),
                vm == self.v_model(),
                ni == vm.len(),
                u_row@ == um[user_index as int],
                u_row@.len() == LATENT_K,
                vmat@.len() == ni,
                mat_model(vmat@) == vm,
                0 <= i <= ni,
                pairs@.len() == i,
                forall|p: int| 0 <= p < i ==> (#[trigger] pairs@[p]).0 == p,
                forall|p: int|
                    0 <= p < i ==> (#[trigger] pairs@[p]).1 == spec_fx_dot(
                        um[user_index as int],
                        vm[p],
                        LATENT_K as int,
                    ),
                forall|p: int|
                    0 <= p < i ==> dot_fits(um[user_index as int], #[trigger] vm[p], LATENT_K as int),
            decreases ni - i,
        {
            proof {
                assert(mat_model(vmat@)[i as int] == vmat@[i as int]@);
                assert(vmat@[i as int]@.len() == LATENT_K);
            }
            let s = match dot_fx(u_row, &vmat[i]) {
                Some(x) => x,
                None => {
                    proof {
                        assert(!dot_fits(um[user_index as int], vm[i as int], LATENT_K as int));
                    }
                    return Err(EngineError::NumericInstability);
                },
            };
            pairs.push((i, s));
            i = i + 1;
        }
        let ghost gpairs = pairs@;
        let ranked = sort_predictions(pairs);
        proof {
            assert forall|p: int| 0 <= p < ranked@.len() implies (#[trigger] ranked@[p]).0
                < vm.len() by {
                let e = ranked@[p];
                assert(ranked@.contains(e)) by {
                    assert(ranked@[p] == e);
                }
                assert(gpairs.to_multiset().count(e) > 0);
                assert(gpairs.contains(e));
                let w = choose|w: int| 0 <= w < gpairs.len() && gpairs[w] == e;
                assert(gpairs[w].0 == w);
            }
            assert forall|p: int| 0 <= p < ranked@.len() implies (#[trigger] ranked@[p]).1
                == spec_fx_dot(um[user_index as int], vm[ranked@[p].0 as int], LATENT_K as int) by {
                let e = ranked@[p];
                assert(ranked@.contains(e)) by {
                    assert(ranked@[p] == e);
                }
                assert(gpairs.to_multiset().count(e) > 0);
                assert(gpairs.contains(e));
                let w = choose|w: int| 0 <= w < gpairs.len() && gpairs[w] == e;
                assert(gpairs[w].0 == w);
            }
            assert forall|idx: int| 0 <= idx < vm.len() implies #[trigger] ranking_has(
                ranked@,
                idx,
            ) by {
                let e = gpairs[idx];
                assert(gpairs.contains(e)) by {
                    assert(gpairs[idx] == e);
                }
                assert(ranked@.to_multiset().count(e) > 0);
                assert(ranked@.contains(e));
                let p = choose|p: int| 0 <= p < ranked@.len() && ranked@[p] == e;
                assert(ranked@[p].0 == idx);
            }
        }
        proof {
            assert(ranking_of(ranked@, um[user_index as int], vm));
        }
        Ok(ranked)
    }
}


/// The position of `item` in a ranking with distinct indices.
pub open spec fn spec_pos(rk: Seq<(usize, i64)>, item: usize) -> int {
    choose|p: int| 0 <= p < rk.len() && rk[p].0 == item
}

/// The sum of `position + 1` over a user's interacted items, against that
/// user's predicted ranking.
pub open spec fn spec_psum(rk: Seq<(usize, i64)>, items: Seq<usize>) -> int
    decreases items.len(),
{
    if items.len() == 0 {
        0
    } else {
        spec_psum(rk, items.drop_last()) + spec_pos(rk, items.last()) + 1
    }
}

/// The items a user interacted with, read off the stored cells in storage
/// order.
pub open spec fn user_items(cells: Seq<(usize, usize, u32)>, uu: usize) -> Seq<usize>
    decreases cells.len(),
{
    if cells.len() == 0 {
        Seq::empty()
    } else {
        let prev = user_items(cells.drop_last(), uu);
        if cells.last().0 == uu {
            prev.push(cells.last().1)
        } else {
            prev
        }
    }
}

/// The Mean Percentile Rank accumulated over the first `k` users as an
/// unreduced rational: a numerator, a denominator, and how many users with
/// interactions contributed. Users without interactions contribute
/// nothing.
pub open spec fn mpr_fold(
    rks: Seq<Seq<(usize, i64)>>,
    cells: Seq<(usize, usize, u32)>,
    ni: int,
    k: int,
) -> (int, int, int)
    decreases k,
{
    if k <= 0 {
        (0, 1, 0)
    } else {
        let prev = mpr_fold(rks, cells, ni, k - 1);
        let items = user_items(cells, (k - 1) as usize);
        if items.len() == 0 {
            prev
        } else {
            let psum = spec_psum(rks[k - 1], items);
            let du = ni * items.len();
            (prev.0 * du + psum * prev.1, prev.1 * du, prev.2 + 1)
        }
    }
}

/// A stored cell's own row always contributes at least one interacted
/// item.
pub proof fn lemma_user_items_hit(cells: Seq<(usize, usize, u32)>, p: int)
    requires
        0 <= p < cells.len(),
    ensures
        user_items(cells, cells[p].0).len() > 0,
    decreases cells.len(),
{
    if p < cells.len() - 1 {
        lemma_user_items_hit(cells.drop_last(), p);
        assert(cells.drop_last()[p] == cells[p]);
    }
}

/// Do all the checked steps of accumulating the first `k` users' rational
/// contributions stay inside the 128-bit carrier?
pub open spec fn mpr_fits(
    rks: Seq<Seq<(usize, i64)>>,
    cells: Seq<(usize, usize, u32)>,
    ni: int,
    k: int,
) -> bool
    decreases k,
{
    if k <= 0 {
        true
    } else {
        &&& mpr_fits(rks, cells, ni, k - 1)
        &&& ({
            let prev = mpr_fold(rks, cells, ni, k - 1);
            let items = user_items(cells, (k - 1) as usize);
            items.len() == 0 || ({
                let psum = spec_psum(rks[k - 1], items);
                let du = ni * items.len();
                &&& prev.0 * du <= u128::MAX
                &&& psum * prev.1 <= u128::MAX
                &&& prev.0 * du + psum * prev.1 <= u128::MAX
                &&& prev.1 * du <= u128::MAX
            })
        })
    }
}

/// One concrete way the mean-percentile-rank computation leaves its
/// carriers: rankings for the first `k` users, and either the next user's
/// prediction, the accumulation over those users, or the final denominator
/// does not fit.
pub open spec fn mpr_failure_witness(
    um: Seq<Seq<i64>>,
    vm: Seq<Seq<i64>>,
    cells: Seq<(usize, usize, u32)>,
    nusers: int,
    rks: Seq<Seq<(usize, i64)>>,
    k: int,
) -> bool {
    &&& 0 <= k <= nusers
    &&& rks.len() == k
    &&& forall|w: int|
        0 <= w < k && user_items(cells, w as usize).len() > 0 ==> ranking_of(
            #[trigger] rks[w],
            um[w],
            vm,
        )
    &&& {
        ||| (k < nusers && user_items(cells, k as usize).len() > 0 && !predict_fits(um, vm, k))
        ||| !mpr_fits(rks, cells, vm.len() as int, k)
        ||| (k == nusers && ({
            let m = mpr_fold(rks, cells, vm.len() as int, k);
            m.1 * m.2 > u128::MAX
        }))
    }
}

/// The fold only reads rankings of users it has reached, so appending a
/// ranking for a later user changes nothing.
pub proof fn lemma_mpr_fold_push(
    rks: Seq<Seq<(usize, i64)>>,
    x: Seq<(usize, i64)>,
    cells: Seq<(usize, usize, u32)>,
    ni: int,
    k: int,
)
    requires
        0 <= k <= rks.len(),
    ensures
        mpr_fold(rks.push(x), cells, ni, k) == mpr_fold(rks, cells, ni, k),
    decreases k,
{
    if k > 0 {
        lemma_mpr_fold_push(rks, x, cells, ni, k - 1);
        assert(rks.push(x)[k - 1] == rks[k - 1]);
    }
}

/// The position of `item` in a ranking that is known to hand it out.
fn position_of(ranking: &Vec<(usize, i64)>, item: usize) -> (r: usize)
    requires
        ranking_has(ranking@, item as int),
    ensures
        r < ranking@.len(),
        ranking@[r as int].0 == item,
{
    let n = ranking.len();
    let mut p: usize = 0;
    while p < n
        invariant
            n == ranking@.len(),
            0 <= p <= n,
            ranking_has(ranking@, item as int),
            forall|q: int| 0 <= q < p ==> (#[trigger] ranking@[q]).0 != item,
        decreases n - p,
    {
        if ranking[p].0 == item {
            return p;
        }
        p = p + 1;
    }
    proof {
        let w = choose|w: int| 0 <= w < ranking@.len() && (#[trigger] ranking@[w]).0 == item as int;
        assert(false);
    }
    vstd::pervasive::unreached()
}

impl MatrixFactorizationEngine {
    /// The Mean Percentile Rank of the trained model over its own training
    /// data, as an exact rational `(numerator, denominator)`: for every
    /// user with at least one interaction, each interacted item's
    /// percentile rank `(position + 1) / item_count` in that user's
    /// predicted ranking is averaged, and those per-user means are averaged
    /// over the users with interactions. Lower is better; the value always
    /// lies in `(0, 1]`. Users with no interactions are excluded from the
    /// denominator rather than dividing by zero.
    pub fn calculate_mpr(&self) -> (r: Result<(u128, u128), EngineError>)
        requires
            self.wf(),
        ensures
            !self.trained() ==> r == Result::<(u128, u128), EngineError>::Err(
                EngineError::NotTrained,
            ),
            match r {
                Err(EngineError::NotTrained) => !self.trained(),
                Err(EngineError::EmptyCorpus) => self.trained() && self.ds().cells().len() == 0,
                Err(EngineError::NumericInstability) => self.trained() && self.ds().cells().len()
                    > 0 && exists|rks: Seq<Seq<(usize, i64)>>, k: int|
                    #[trigger] mpr_failure_witness(
                        self.u_model(),
                        self.v_model(),
                        self.ds().cells(),
                        self.ds().users().len() as int,
                        rks,
                        k,
                    ),
                Ok(f) => self.trained() && self.ds().cells().len() > 0 && 0 < f.0 <= f.1
                    && exists|rks: Seq<Seq<(usize, i64)>>|
                    #![trigger mpr_fold(rks, self.ds().cells(), self.ds().items().len() as int, self.ds().users().len() as int)]
                    {
                        &&& rks.len() == self.ds().users().len()
                        &&& forall|w: int|
                            0 <= w < rks.len() && user_items(
                                self.ds().cells(),
                                w as usize,
                            ).len() > 0 ==> ranking_of(
                                #[trigger] rks[w],
                                self.u_model()[w],
                                self.v_model(),
                            )
                        &&& ({
                            let m = mpr_fold(
                                rks,
                                self.ds().cells(),
                                self.ds().items().len() as int,
                                self.ds().users().len() as int,
                            );
                            f.0 == m.0 && f.1 == m.1 * m.2 && m.2 >= 1
                        })
                    },
                _ => false,
            },
    {
        match (&self.u_matrix, &self.v_matrix) {
            (Some(_), Some(_)) => {
            },
            _ => {
                return Err(EngineError::NotTrained);
            },
        }
        let nu = self.dataset.n_users();
        let ni = self.dataset.n_items();
        let cells = self.dataset.cells_vec();
        let cn = cells.len();
        proof {
            assert(forall|w: int|
                0 <= w < cells@.len() ==> (#[trigger] cells@[w]).0 < nu && cells@[w].1 < ni);
        }
        let mut tn: u128 = 0;
        let mut td: u128 = 1;
        let mut counted: u128 = 0;
        let mut uu: usize = 0;
        let ghost mut rks: Seq<Seq<(usize, i64)>> = Seq::empty();
        while uu < nu
            invariant
                self.wf(),
                self.trained(),
                nu == self.ds().users().len(),
                ni == self.ds().items().len(),
                cn == cells@.len(),
                cells@ == self.ds().cells(),
                forall|w: int|
                    0 <= w < cells@.len() ==> (#[trigger] cells@[w]).0 < nu && cells@[w].1 < ni,
                0 <= uu <= nu,
                td >= 1,
                tn <= counted * td,
                counted >= 1 ==> tn >= 1,
                counted <= uu,
                cells@.len() > 0 && cells@[0].0 < uu ==> counted >= 1,
                counted >= 1 ==> cells@.len() > 0,
                rks.len() == uu,
                forall|w: int|
                    0 <= w < rks.len() && user_items(cells@, w as usize).len() > 0
                        ==> ranking_of(#[trigger] rks[w], self.u_model()[w], self.v_model()),
                (tn as int, td as int, counted as int) == mpr_fold(
                    rks,
                    cells@,
                    ni as int,
                    uu as int,
                ),
            decreases nu - uu,
        {
            let mut items_u: Vec<usize> = Vec::new();
            let mut c: usize = 0;
            proof {
                assert(cells@.take(0) =~= Seq::<(usize, usize, u32)>::empty());
            }
            while c < cn
                invariant
                    cn == cells@.len(),
                    0 <= c <= cn,
                    forall|w: int|
                        0 <= w < cells@.len() ==> (#[trigger] cells@[w]).0 < nu && cells@[w].1
                            < ni,
                    forall|w: int| 0 <= w < items_u@.len() ==> (#[trigger] items_u@[w]) < ni,
                    items_u@ == user_items(cells@.take(c as int), uu),
                decreases cn - c,
            {
                let cell = cells[c];
                proof {
                    assert(cells@.take(c as int + 1).drop_last() =~= cells@.take(c as int));
                    assert(cells@.take(c as int + 1).last() == cells@[c as int]);
                }
                if cell.0 == uu {
                    items_u.push(cell.1);
                }
                c = c + 1;
            }
            proof {
                assert(cells@.take(cn as int) =~= cells@);
                assert(items_u@ == user_items(cells@, uu));
            }
            let ku = items_u.len();
            if ku > 0 {
                proof {
                    assert(cells@.len() > 0) by {
                        if cells@.len() == 0 {
                            assert(user_items(cells@, uu).len() == 0);
                        }
                    }
                }
                let ranking = match self.internal_predict(uu) {
                    Ok(x) => x,
                    Err(_) => {
                        proof {
                            assert(!predict_fits(self.u_model(), self.v_model(), uu as int));
                            assert(user_items(cells@, uu).len() > 0);
                            assert(((uu as int) as usize) == uu);
                            assert(mpr_failure_witness(
                                self.u_model(),
                                self.v_model(),
                                cells@,
                                nu as int,
                                rks,
                                uu as int,
                            ));
                        }
                        return Err(EngineError::NumericInstability);
                    },
                };
                let ghost urow = self.u_model()[uu as int];
                proof {
                    assert(ranking_of(ranking@, urow, self.v_model()));
                    assert(ranking@.len() == self.v_model().len());
                    assert(self.v_model().len() == ni);
                }
                let mut psum: u128 = 0;
                let mut w: usize = 0;
                proof {
                    assert(items_u@.take(0) =~= Seq::<usize>::empty());
                }
                while w < ku
                    invariant
                        ku == items_u@.len(),
                        0 <= w <= ku,
                        ni == ranking@.len(),
                        forall|x: int| 0 <= x < items_u@.len() ==> (#[trigger] items_u@[x]) < ni,
                        forall|idx: int|
                            0 <= idx < ni ==> #[trigger] ranking_has(ranking@, idx),
                        forall|p: int, q: int|
                            0 <= p < q < ranking@.len() ==> ranking@[p].0 != ranking@[q].0,
                        psum <= w * ni,
                        w >= 1 ==> psum >= 1,
                        psum == spec_psum(ranking@, items_u@.take(w as int)),
                    decreases ku - w,
                {
                    let it = items_u[w];
                    proof {
                        assert(ranking_has(ranking@, it as int));
                        assert((w as int) * ni + ni <= ku * ni) by (nonlinear_arith)
                            requires
                                w < ku,
                                ni >= 0,
                        ;
                        assert((ku as int) * (ni as int) < 0x1_0000_0000_0000_0000
                            * 0x1_0000_0000_0000_0000) by (nonlinear_arith)
                            requires
                                0 <= ku < 0x1_0000_0000_0000_0000,
                                0 <= ni < 0x1_0000_0000_0000_0000,
                        ;
                        assert((w as int + 1) * ni == w * ni + ni) by (nonlinear_arith);
                    }
                    let pos = position_of(&ranking, it);
                    proof {
                        let sp = spec_pos(ranking@, it);
                        assert(0 <= sp < ranking@.len() && ranking@[sp].0 == it);
                        assert(sp == pos as int);
                        assert(items_u@.take(w as int + 1).drop_last() =~= items_u@.take(
                            w as int,
                        ));
                        assert(items_u@.take(w as int + 1).last() == items_u@[w as int]);
                    }
                    psum = psum + (pos as u128) + 1;
                    w = w + 1;
                }
                proof {
                    assert((ni as int) * (ku as int) < 0x1_0000_0000_0000_0000
                        * 0x1_0000_0000_0000_0000) by (nonlinear_arith)
                        requires
                            0 <= ku < 0x1_0000_0000_0000_0000,
                            0 <= ni < 0x1_0000_0000_0000_0000,
                    ;
                    assert(items_u@[0] < ni);
                    assert(ni >= 1);
                    assert((ni as int) * (ku as int) >= 1) by (nonlinear_arith)
                        requires
                            ni >= 1,
                            ku >= 1,
                    ;
                    assert(psum <= (ni as int) * (ku as int)) by (nonlinear_arith)
                        requires
                            psum <= ku * ni,
                    ;
                }
                let du: u128 = (ni as u128) * (ku as u128);
                let ghost grks2 = rks.push(ranking@);
                proof {
                    assert(items_u@.take(ku as int) =~= items_u@);
                    assert(psum == spec_psum(ranking@, items_u@));
                    lemma_mpr_fold_push(rks, ranking@, cells@, ni as int, uu as int);
                    assert(mpr_fold(grks2, cells@, ni as int, uu as int) == (tn as int,
                        td as int, counted as int));
                    assert(grks2[uu as int] == ranking@);
                    assert(forall|w: int| 0 <= w < uu ==> grks2[w] == rks[w]);
                }
                let a = match tn.checked_mul(du) {
                    Some(x) => x,
                    None => {
                        proof {
                            assert(self.v_model().len() == ni);
                            assert(!mpr_fits(grks2, cells@, ni as int, uu as int + 1));
                            assert(mpr_failure_witness(self.u_model(), self.v_model(), cells@,
                                nu as int, grks2, uu as int + 1));
                        }
                        return Err(EngineError::NumericInstability);
                    },
                };
                let b = match psum.checked_mul(td) {
                    Some(x) => x,
                    None => {
                        proof {
                            assert(self.v_model().len() == ni);
                            assert(!mpr_fits(grks2, cells@, ni as int, uu as int + 1));
                            assert(mpr_failure_witness(self.u_model(), self.v_model(), cells@,
                                nu as int, grks2, uu as int + 1));
                        }
                        return Err(EngineError::NumericInstability);
                    },
                };
                let tn2 = match a.checked_add(b) {
                    Some(x) => x,
                    None => {
                        proof {
                            assert(self.v_model().len() == ni);
                            assert(!mpr_fits(grks2, cells@, ni as int, uu as int + 1));
                            assert(mpr_failure_witness(self.u_model(), self.v_model(), cells@,
                                nu as int, grks2, uu as int + 1));
                        }
                        return Err(EngineError::NumericInstability);
                    },
                };
                let td2 = match td.checked_mul(du) {
                    Some(x) => x,
                    None => {
                        proof {
                            assert(self.v_model().len() == ni);
                            assert(!mpr_fits(grks2, cells@, ni as int, uu as int + 1));
                            assert(mpr_failure_witness(self.u_model(), self.v_model(), cells@,
                                nu as int, grks2, uu as int + 1));
                        }
                        return Err(EngineError::NumericInstability);
                    },
                };
                proof {
                    assert(tn2 <= (counted + 1) * td2) by (nonlinear_arith)
                        requires
                            tn2 == tn * du + psum * td,
                            td2 == td * du,
                            tn <= counted * td,
                            psum <= du,
                            td >= 1,
                            du >= 1,
                            counted >= 0,
                            tn >= 0,
                            psum >= 0,
                    ;
                    assert(tn2 >= 1) by (nonlinear_arith)
                        requires
                            tn2 == tn * du + psum * td,
                            psum >= 1,
                            td >= 1,
                            tn >= 0,
                            du >= 1,
                    ;
                    assert(td2 >= 1) by (nonlinear_arith)
                        requires
                            td2 == td * du,
                            td >= 1,
                            du >= 1,
                    ;
                }
                proof {
                    assert(items_u@.take(ku as int) =~= items_u@);
                    assert(psum == spec_psum(ranking@, items_u@));
                    lemma_mpr_fold_push(rks, ranking@, cells@, ni as int, uu as int);
                    rks = rks.push(ranking@);
                    assert(rks[uu as int] == ranking@);
                    assert((tn2 as int, td2 as int, counted + 1 as int) == mpr_fold(
                        rks,
                        cells@,
                        ni as int,
                        uu + 1,
                    ));
                }
                tn = tn2;
                td = td2;
                counted = counted + 1;
            } else {
                proof {
                    lemma_mpr_fold_push(rks, Seq::empty(), cells@, ni as int, uu as int);
                    rks = rks.push(Seq::empty());
                    assert(user_items(cells@, uu).len() == 0);
                    assert((tn as int, td as int, counted as int) == mpr_fold(
                        rks,
                        cells@,
                        ni as int,
                        uu + 1,
                    ));
                    if cells@.len() > 0 && cells@[0].0 == uu {
                        lemma_user_items_hit(cells@, 0);
                    }
                }
            }
            uu = uu + 1;
        }
        if counted == 0 {
            proof {
                assert(cells@.len() == 0) by {
                    if cells@.len() > 0 {
                        assert(cells@[0].0 < nu);
                    }
                }
            }
            return Err(EngineError::EmptyCorpus);
        }
        let fd = match td.checked_mul(counted) {
            Some(x) => x,
            None => {
                proof {
                    assert(self.v_model().len() == ni);
                    let m = mpr_fold(rks, cells@, self.v_model().len() as int, nu as int);
                    assert(m == (tn as int, td as int, counted as int));
                    assert(m.1 * m.2 > u128::MAX);
                    assert(mpr_failure_witness(self.u_model(), self.v_model(), cells@,
                        nu as int, rks, nu as int));
                }
                return Err(EngineError::NumericInstability);
            },
        };
        proof {
            assert(tn <= fd) by (nonlinear_arith)
                requires
                    fd == td * counted,
                    tn <= counted * td,
            ;
            let m = mpr_fold(rks, cells@, ni as int, nu as int);
            assert(m == (tn as int, td as int, counted as int));
            assert(fd as int == m.1 * m.2);
        }
        Ok((tn, fd))
    }

    /// Recommends items for `user_id`: the user's dense row is resolved
    /// (failing on identifiers never indexed, rather than growing the
    /// index), every item is scored by the fixed-point affinity, and the
    /// best `n_items` identifiers are returned, best first.
    pub fn find_similar_by_user_id(&self, user_id: String, n_items: usize) -> (r: Result<
        RecommendationResponse,
        EngineError,
    >)
        requires
            self.wf(),
        ensures
            !self.trained() ==> r is Err && r->Err_0 == EngineError::NotTrained,
            self.trained() && !seen(self.ds().users(), user_id@) ==> r is Err && r->Err_0
                == EngineError::UnknownIdentifier,
            self.trained() && seen(self.ds().users(), user_id@) ==> (r is Ok) == predict_fits(
                self.u_model(),
                self.v_model(),
                index_of_id(self.ds().users(), user_id@),
            ),
            self.trained() && seen(self.ds().users(), user_id@) ==> match r {
                Ok(resp) => exists|rk: Seq<(usize, i64)>|
                    {
                        &&& ranking_of(
                            rk,
                            self.u_model()[index_of_id(self.ds().users(), user_id@)],
                            self.v_model(),
                        )
                        &&& resp.ids().len() == (if (n_items as int) <= rk.len() {
                            n_items as int
                        } else {
                            rk.len() as int
                        })
                        &&& forall|w: int|
                            0 <= w < resp.ids().len() ==> (#[trigger] resp.ids()[w])
                                == self.ds().items()[rk[w].0 as int]
                    },
                Err(e) => e == EngineError::NumericInstability,
            },
    {
        match (&self.u_matrix, &self.v_matrix) {
            (Some(_), Some(_)) => {
            },
            _ => {
                return Err(EngineError::NotTrained);
            },
        }
        let nu = self.dataset.n_users();
        proof {
            assert(distinct_ids(self.ds().users()));
        }
        let found = self.dataset.user_idx().find(&user_id);
        let ui = match found {
            None => {
                return Err(EngineError::UnknownIdentifier);
            },
            Some(x) => x,
        };
        proof {
            assert(seen(self.ds().users(), user_id@));
            let w = index_of_id(self.ds().users(), user_id@);
            assert(0 <= w < self.ds().users().len() && self.ds().users()[w] == user_id@);
            assert(ui == w);
        }
        let ranking = match self.internal_predict(ui) {
            Ok(x) => x,
            Err(_) => {
                return Err(EngineError::NumericInstability);
            },
        };
        let limit = if n_items < ranking.len() {
            n_items
        } else {
            ranking.len()
        };
        let ghost items = self.ds().items();
        proof {
            assert(self.v_model().len() == items.len());
        }
        let mut ids: Vec<String> = Vec::new();
        let mut w: usize = 0;
        while w < limit
            invariant
                self.wf(),
                self.trained(),
                limit <= ranking@.len(),
                items == self.ds().items(),
                ranking@.len() == self.v_model().len(),
                self.v_model().len() == items.len(),
                forall|p: int| 0 <= p < ranking@.len() ==> (#[trigger] ranking@[p]).0 < items.len(),
                0 <= w <= limit,
                ids@.len() == w,
                forall|p: int| 0 <= p < w ==> (#[trigger] ids@[p])@ == items[ranking@[p].0 as int],
            decreases limit - w,
        {
            let idx = ranking[w].0;
            let sid = match self.dataset.item_idx().get_item(idx) {
                Ok(x) => x,
                Err(_) => vstd::pervasive::unreached(),
            };
            ids.push(sid);
            w = w + 1;
        }
        let resp = RecommendationResponse::new(ids);
        proof {
            let rk = ranking@;
            assert(ranking_of(rk, self.u_model()[index_of_id(self.ds().users(), user_id@)],
                self.v_model()));
            assert(resp.ids().len() == (if (n_items as int) <= rk.len() {
                n_items as int
            } else {
                rk.len() as int
            }));
            assert(forall|p: int|
                0 <= p < resp.ids().len() ==> (#[trigger] resp.ids()[p]) == items[rk[p].0 as int]);
        }
        Ok(resp)
    }
}

/// `v` ranks every item other than `t` by its fixed-point affinity against
/// item `t` in latent space, best first, ties by ascending index.
pub open spec fn target_ranking_of(v: Seq<(usize, i64)>, vm: Seq<Seq<i64>>, t: int) -> bool {
    &&& v.len() == vm.len() - 1
    &&& forall|p: int| 0 <= p < v.len() ==> (#[trigger] v[p]).0 < vm.len() && v[p].0 != t
    &&& forall|p: int, q: int| 0 <= p < q < v.len() ==> v[p].0 != v[q].0
    &&& forall|p: int|
        0 <= p < v.len() ==> (#[trigger] v[p]).1 == spec_fx_dot(
            vm[t],
            vm[v[p].0 as int],
            LATENT_K as int,
        )
    &&& forall|p: int, q: int| 0 <= p < q < v.len() ==> pred_before(#[trigger] v[p], #[trigger] v[q])
    &&& forall|idx: int| 0 <= idx < vm.len() && idx != t ==> #[trigger] ranking_has(v, idx)
}

impl MatrixFactorizationEngine {
    /// The nearest items to `target_id` in latent space: every other item
    /// scored against the target's factor row, best first. The symmetric
    /// counterpart of the user query.
    pub fn find_similar_by_target_id(&self, target_id: String, n_items: usize) -> (r: Result<
        RecommendationResponse,
        EngineError,
    >)
        requires
            self.wf(),
        ensures
            !self.trained() ==> r is Err && r->Err_0 == EngineError::NotTrained,
            self.trained() && !seen(self.ds().items(), target_id@) ==> r is Err && r->Err_0
                == EngineError::UnknownIdentifier,
            self.trained() && seen(self.ds().items(), target_id@) ==> (r is Ok) == target_fits(
                self.v_model(),
                index_of_id(self.ds().items(), target_id@),
            ),
            self.trained() && seen(self.ds().items(), target_id@) ==> match r {
                Ok(resp) => exists|rk: Seq<(usize, i64)>|
                    {
                        &&& target_ranking_of(
                            rk,
                            self.v_model(),
                            index_of_id(self.ds().items(), target_id@),
                        )
                        &&& resp.ids().len() == (if (n_items as int) <= rk.len() {
                            n_items as int
                        } else {
                            rk.len() as int
                        })
                        &&& forall|w: int|
                            0 <= w < resp.ids().len() ==> (#[trigger] resp.ids()[w])
                                == self.ds().items()[rk[w].0 as int]
                    },
                Err(e) => e == EngineError::NumericInstability,
            },
    {
        match (&self.u_matrix, &self.v_matrix) {
            (Some(_), Some(_)) => {
            },
            _ => {
                return Err(EngineError::NotTrained);
            },
        }
        let ni = self.dataset.n_items();
        proof {
            assert(distinct_ids(self.ds().items()));
        }
        let found = self.dataset.item_idx().find(&target_id);
        let ti = match found {
            None => {
                return Err(EngineError::UnknownIdentifier);
            },
            Some(x) => x,
        };
        proof {
            assert(seen(self.ds().items(), target_id@));
            let w = index_of_id(self.ds().items(), target_id@);
            assert(0 <= w < self.ds().items().len() && self.ds().items()[w] == target_id@);
            assert(ti == w);
        }
        let ghost vm = self.v_model();
        let vmat = match &self.v_matrix {
            Some(m) => m,
            None => vstd::pervasive::unreached(),
        };
        let v_row = &vmat[ti];
        proof {
            assert(mat_model(vmat@)[ti as int] == vmat@[ti as int]@);
            assert(v_row@ == vm[ti as int]);
            assert(v_row@.len() == LATENT_K);
            assert(vm.len() == self.ds().items().len());
        }
        let mut pairs: Vec<(usize, i64)> = Vec::new();
        let mut i: usize = 0;
        while i < ni
            invariant
                self.wf(),
                self.trained(),
                seen(self.ds().items(), target_id@),
                ti as int == index_of_id(self.ds().items(), target_id@),
                vm == self.v_model(),
                ni == vm.len(),
                ti < ni,
                v_row@ == vm[ti as int],
                v_row@.len() == LATENT_K,
                vmat@.len() == ni,
                mat_model(vmat@) == vm,
                0 <= i <= ni,
                pairs@.len() == (if i <= ti {
                    i as int
                } else {
                    i - 1
                }),
                forall|p: int, q: int| 0 <= p < q < pairs@.len() ==> pairs@[p].0 < pairs@[q].0,
                forall|p: int|
                    0 <= p < pairs@.len() ==> (#[trigger] pairs@[p]).0 < i && pairs@[p].0 != ti,
                forall|p: int|
                    0 <= p < pairs@.len() ==> (#[trigger] pairs@[p]).1 == spec_fx_dot(
                        vm[ti as int],
                        vm[pairs@[p].0 as int],
                        LATENT_K as int,
                    ),
                forall|idx: int|
                    0 <= idx < i && idx != ti ==> #[trigger] ranking_has(pairs@, idx),
                forall|p: int|
                    0 <= p < i && p != ti ==> dot_fits(vm[ti as int], #[trigger] vm[p], LATENT_K as int),
            decreases ni - i,
        {
            if i != ti {
                proof {
                    assert(mat_model(vmat@)[i as int] == vmat@[i as int]@);
                    assert(vmat@[i as int]@.len() == LATENT_K);
                }
                let s = match dot_fx(v_row, &vmat[i]) {
                    Some(x) => x,
                    None => {
                        proof {
                            assert(!dot_fits(vm[ti as int], vm[i as int], LATENT_K as int));
                        }
                        return Err(EngineError::NumericInstability);
                    },
                };
                let ghost old_pairs = pairs@;
                pairs.push((i, s));
                proof {
                    assert(forall|p: int| 0 <= p < old_pairs.len() ==> pairs@[p] == old_pairs[p]);
                    assert(pairs@[old_pairs.len() as int] == (i, s));
                    assert forall|idx: int| 0 <= idx < i + 1 && idx != ti implies
                        #[trigger] ranking_has(pairs@, idx) by {
                        if idx == i as int {
                            assert(pairs@[old_pairs.len() as int].0 == idx);
                        } else {
                            assert(ranking_has(old_pairs, idx));
                            let p = choose|p: int|
                                0 <= p < old_pairs.len() && (#[trigger] old_pairs[p]).0 == idx;
                            assert(pairs@[p].0 == idx);
                        }
                    }
                }
            }
            i = i + 1;
        }
        proof {
            assert(target_fits(vm, ti as int));
        }
        let ghost gpairs = pairs@;
        let ranked = sort_predictions(pairs);
        proof {
            assert(gpairs.len() == ni - 1);
            assert forall|p: int| 0 <= p < ranked@.len() implies (#[trigger] ranked@[p]).0
                < vm.len() && ranked@[p].0 != ti as int by {
                let e = ranked@[p];
                assert(ranked@.contains(e)) by {
                    assert(ranked@[p] == e);
                }
                assert(gpairs.to_multiset().count(e) > 0);
                assert(gpairs.contains(e));
                let w = choose|w: int| 0 <= w < gpairs.len() && gpairs[w] == e;
                assert(gpairs[w].0 < ni && gpairs[w].0 != ti);
            }
            assert forall|p: int| 0 <= p < ranked@.len() implies (#[trigger] ranked@[p]).1
                == spec_fx_dot(vm[ti as int], vm[ranked@[p].0 as int], LATENT_K as int) by {
                let e = ranked@[p];
                assert(ranked@.contains(e)) by {
                    assert(ranked@[p] == e);
                }
                assert(gpairs.to_multiset().count(e) > 0);
                assert(gpairs.contains(e));
                let w = choose|w: int| 0 <= w < gpairs.len() && gpairs[w] == e;
                assert(gpairs[w].1 == spec_fx_dot(vm[ti as int], vm[gpairs[w].0 as int],
                    LATENT_K as int));
            }
            assert forall|idx: int| 0 <= idx < vm.len() && idx != ti as int implies
                #[trigger] ranking_has(ranked@, idx) by {
                assert(ranking_has(gpairs, idx));
                let p0 = choose|p: int|
                    0 <= p < gpairs.len() && (#[trigger] gpairs[p]).0 == idx;
                let e = gpairs[p0];
                assert(gpairs.contains(e)) by {
                    assert(gpairs[p0] == e);
                }
                assert(ranked@.to_multiset().count(e) > 0);
                assert(ranked@.contains(e));
                let p = choose|p: int| 0 <= p < ranked@.len() && ranked@[p] == e;
                assert(ranked@[p].0 == idx);
            }
            assert(target_ranking_of(ranked@, vm, ti as int));
        }
        let limit = if n_items < ranked.len() {
            n_items
        } else {
            ranked.len()
        };
        let ghost items = self.ds().items();
        let mut ids: Vec<String> = Vec::new();
        let mut w: usize = 0;
        while w < limit
            invariant
                self.wf(),
                self.trained(),
                limit <= ranked@.len(),
                items == self.ds().items(),
                vm == self.v_model(),
                vm.len() == items.len(),
                forall|p: int| 0 <= p < ranked@.len() ==> (#[trigger] ranked@[p]).0 < items.len(),
                0 <= w <= limit,
                ids@.len() == w,
                forall|p: int| 0 <= p < w ==> (#[trigger] ids@[p])@ == items[ranked@[p].0 as int],
            decreases limit - w,
        {
            let idx = ranked[w].0;
            let sid = match self.dataset.item_idx().get_item(idx) {
                Ok(x) => x,
                Err(_) => vstd::pervasive::unreached(),
            };
            ids.push(sid);
            w = w + 1;
        }
        let resp = RecommendationResponse::new(ids);
        proof {
            let rk = ranked@;
            assert(resp.ids().len() == (if (n_items as int) <= rk.len() {
                n_items as int
            } else {
                rk.len() as int
            }));
            assert(forall|p: int|
                0 <= p < resp.ids().len() ==> (#[trigger] resp.ids()[p]) == items[rk[p].0 as int]);
        }
        Ok(resp)
    }
}

impl crate::similarity::SimilarityEngine for MatrixFactorizationEngine {
    open spec fn inv(&self) -> bool {
        self.wf()
    }

    fn train(&mut self) -> Result<(), EngineError> {
        let r = MatrixFactorizationEngine::train(self);
        match r {
            Ok(_) => Ok(()),
            Err(e) => Err(e),
        }
    }

    fn find_similar_by_user_id(&self, user_id: String, n_items: usize) -> Result<
        RecommendationResponse,
        EngineError,
    > {
        MatrixFactorizationEngine::find_similar_by_user_id(self, user_id, n_items)
    }

    fn find_similar_by_target_id(&self, target_id: String, n_items: usize) -> Result<
        RecommendationResponse,
        EngineError,
    > {
        MatrixFactorizationEngine::find_similar_by_target_id(self, target_id, n_items)
    }
}

impl MatrixFactorizationEngine {
    /// The retained user factor matrix, for export; absent before training.
    pub fn u_factors(&self) -> (r: Option<&Vec<Vec<i64>>>)
        requires
            self.wf(),
        ensures
            (r is Some) == self.trained(),
            r is Some ==> mat_model(r->Some_0@) == self.u_model(),
    {
        match &self.u_matrix {
            Some(m) => Some(m),
            None => None,
        }
    }

    /// The retained item factor matrix, for export; absent before training.
    pub fn v_factors(&self) -> (r: Option<&Vec<Vec<i64>>>)
        requires
            self.wf(),
        ensures
            (r is Some) == self.trained(),
            r is Some ==> mat_model(r->Some_0@) == self.v_model(),
    {
        match &self.v_matrix {
            Some(m) => Some(m),
            None => None,
        }
    }
}

} // verus!
