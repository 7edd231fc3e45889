use rs_mender::dataset::Dataset;
use rs_mender::factorization::{MatrixFactorizationEngine, MAX_EPOCHS, PATIENCE, TOL_FX};
use rs_mender::model::{EngineError, Event};

fn repeated(user: &str, item: &str, times: usize) -> Vec<Event> {
    let mut v = Vec::new();
    for _ in 0..times {
        v.push(Event::new(user.to_string(), item.to_string()));
    }
    v
}

fn small_dataset() -> Dataset {
    let mut events = Vec::new();
    events.extend(repeated("u1", "p1", 3));
    events.extend(repeated("u2", "p2", 3));
    events.extend(repeated("u1", "p2", 1));
    Dataset::build(&events)
}

#[test]
fn training_follows_the_best_snapshot_policy() {
    let mut engine = MatrixFactorizationEngine::new(small_dataset());

    let report = engine.train().unwrap();

    assert_eq!(report.epochs_run, report.rmse_history.len());
    assert!(report.epochs_run >= 1);
    assert!(report.epochs_run <= MAX_EPOCHS);

    // Replay the controller over the reported history: the retained best
    // never regresses, and it is what the report says.
    let mut best: Option<u64> = None;
    let mut patience: usize = 0;
    let mut best_values: Vec<u64> = Vec::new();
    for &rmse in report.rmse_history.iter() {
        let improved = match best {
            None => true,
            Some(b) => rmse < b && b - rmse > TOL_FX,
        };
        if improved {
            best = Some(rmse);
            patience = 0;
        } else {
            patience += 1;
        }
        best_values.push(best.unwrap());
    }
    assert_eq!(Some(report.best_rmse), best);
    for pair in best_values.windows(2) {
        assert!(pair[1] <= pair[0], "best snapshot regressed");
    }
    if report.epochs_run < MAX_EPOCHS {
        assert!(patience >= PATIENCE, "early stop without exhausted patience");
    }
}

#[test]
fn training_an_empty_dataset_reports_empty_corpus() {
    let events: Vec<Event> = vec![];
    let mut engine = MatrixFactorizationEngine::new(Dataset::build(&events));

    assert!(matches!(engine.train(), Err(EngineError::EmptyCorpus)));
}

#[test]
fn mpr_requires_a_trained_model() {
    let engine = MatrixFactorizationEngine::new(small_dataset());

    assert!(matches!(
        engine.calculate_mpr(),
        Err(EngineError::NotTrained)
    ));
}

#[test]
fn mpr_of_a_cleanly_separated_corpus_approaches_zero() {
    // Two users, four items, each user strongly tied to one own item: a
    // model that learns the data ranks the interacted item first, giving a
    // per-user percentile of 1/4 and a mean close to it.
    let mut events = Vec::new();
    events.extend(repeated("u1", "p1", 5));
    events.extend(repeated("u2", "p2", 5));
    events.extend(repeated("u3", "p3", 1));
    events.extend(repeated("u3", "p4", 1));
    let mut engine = MatrixFactorizationEngine::new(Dataset::build(&events));
    engine.train().unwrap();

    let (num, den) = engine.calculate_mpr().unwrap();

    assert!(den > 0);
    assert!(num <= den, "mean percentile rank left (0, 1]");
    let value = num as f64 / den as f64;
    assert!(value > 0.0);
    assert!(value < 0.5, "a learned model beats a random ranking: {value}");
}

#[test]
fn factorization_queries_before_training_report_not_trained() {
    let engine = MatrixFactorizationEngine::new(small_dataset());

    assert!(matches!(
        engine.find_similar_by_user_id("u1".to_string(), 3),
        Err(EngineError::NotTrained)
    ));
    assert!(matches!(
        engine.find_similar_by_target_id("p1".to_string(), 3),
        Err(EngineError::NotTrained)
    ));
}

#[test]
fn queries_for_unknown_identifiers_fail_rather_than_grow_the_index() {
    let mut engine = MatrixFactorizationEngine::new(small_dataset());
    engine.train().unwrap();

    assert!(matches!(
        engine.find_similar_by_user_id("stranger".to_string(), 3),
        Err(EngineError::UnknownIdentifier)
    ));
    assert!(matches!(
        engine.find_similar_by_target_id("no-such-item".to_string(), 3),
        Err(EngineError::UnknownIdentifier)
    ));
}

#[test]
fn user_query_ranks_the_strongly_tied_item_first() {
    let mut events = Vec::new();
    events.extend(repeated("u1", "p1", 5));
    events.extend(repeated("u2", "p2", 5));
    let mut engine = MatrixFactorizationEngine::new(Dataset::build(&events));
    engine.train().unwrap();

    let resp = engine.find_similar_by_user_id("u1".to_string(), 2).unwrap();
    let ids = resp.recommendations();

    assert_eq!(2, ids.len());
    assert_eq!("p1", ids[0]);
}

#[test]
fn item_query_never_returns_the_item_itself() {
    let mut engine = MatrixFactorizationEngine::new(small_dataset());
    engine.train().unwrap();

    let resp = engine
        .find_similar_by_target_id("p1".to_string(), 10)
        .unwrap();
    let ids = resp.recommendations();

    assert_eq!(1, ids.len());
    for id in ids.iter() {
        assert_ne!("p1", id);
    }
}

#[test]
fn exported_factor_matrices_have_the_dataset_dimensions() {
    let mut engine = MatrixFactorizationEngine::new(small_dataset());
    assert!(engine.u_factors().is_none());
    engine.train().unwrap();

    let u = engine.u_factors().unwrap();
    let v = engine.v_factors().unwrap();

    assert_eq!(2, u.len());
    assert_eq!(2, v.len());
    for row in u.iter().chain(v.iter()) {
        assert_eq!(rs_mender::factorization::LATENT_K, row.len());
    }
}
