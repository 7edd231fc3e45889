use rs_mender::cosine::CosineSimilarityEngineInMemory;
use rs_mender::model::{EngineError, Event};
use rs_mender::score::score_le;

#[test]
fn cosine_similarity_engine_should_be_correctly_constructing_user_item_matrix() {
    let events = [
        Event::new("user-1".to_string(), "product-1".to_string()),
        Event::new("user-1".to_string(), "product-2".to_string()),
        Event::new("user-1".to_string(), "product-3".to_string()),
        Event::new("user-2".to_string(), "product-3".to_string()),
    ];

    let mut engine = CosineSimilarityEngineInMemory::new();

    events.iter().for_each(|e| engine.add_event(e.clone()));

    engine.train().unwrap();
}

#[test]
fn test_on_test_data() {
    let mut engine = CosineSimilarityEngineInMemory::new();

    let _ = engine.train();
}

#[test]
fn training_with_no_events_fails_fast_with_empty_corpus() {
    let mut engine = CosineSimilarityEngineInMemory::new();

    assert!(matches!(engine.train(), Err(EngineError::EmptyCorpus)));
}

#[test]
fn cosine_queries_before_training_report_not_trained() {
    let engine = CosineSimilarityEngineInMemory::new();

    let by_item = engine.find_similar_by_target_id("anything".to_string(), 5);
    let by_user = engine.find_similar_by_user_id("anyone".to_string(), 5);

    assert!(matches!(by_item, Err(EngineError::NotTrained)));
    assert!(matches!(by_user, Err(EngineError::NotTrained)));
}

#[test]
fn queries_for_unobserved_identifiers_fail_rather_than_fabricate() {
    let mut engine = CosineSimilarityEngineInMemory::new();
    engine.add_event(Event::new("u1".to_string(), "A".to_string()));
    engine.add_event(Event::new("u1".to_string(), "B".to_string()));
    engine.train().unwrap();

    let by_item = engine.find_similar_by_target_id("never-seen".to_string(), 5);
    let by_user = engine.find_similar_by_user_id("nobody".to_string(), 5);

    assert!(matches!(by_item, Err(EngineError::UnknownIdentifier)));
    assert!(matches!(by_user, Err(EngineError::UnknownIdentifier)));
}

#[test]
fn trained_neighbours_carry_their_exact_scores() {
    // Item A is bought by u1, u2, u3; item B by u1, u2.
    // dot(A, B) = 2, |A|^2 = 3, |B|^2 = 2.
    let mut engine = CosineSimilarityEngineInMemory::new();
    for (u, t) in [("u1", "A"), ("u1", "B"), ("u2", "A"), ("u2", "B"), ("u3", "A")] {
        engine.add_event(Event::new(u.to_string(), t.to_string()));
    }
    engine.train().unwrap();

    let neighbours = engine.similar_items(&"A".to_string(), 10).unwrap();

    assert_eq!(1, neighbours.len());
    assert_eq!("B", neighbours[0].0);
    assert_eq!(2, neighbours[0].1.dot);
    assert_eq!(3, neighbours[0].1.norm_sq_a);
    assert_eq!(2, neighbours[0].1.norm_sq_b);
}

#[test]
fn similarity_table_rows_hold_no_self_no_zero_and_at_most_ten_sorted() {
    let mut engine = CosineSimilarityEngineInMemory::new();
    let users = ["u1", "u2", "u3", "u4"];
    let items = [
        "i01", "i02", "i03", "i04", "i05", "i06", "i07", "i08", "i09", "i10", "i11", "i12",
    ];
    for (w, item) in items.iter().enumerate() {
        for (x, user) in users.iter().enumerate() {
            if (w + x) % 2 == 0 {
                engine.add_event(Event::new(user.to_string(), item.to_string()));
            }
        }
        engine.add_event(Event::new("u-all".to_string(), item.to_string()));
    }
    engine.train().unwrap();

    for item in items.iter() {
        let row = engine.similar_items(&item.to_string(), 100).unwrap();
        assert!(row.len() <= 10);
        for (neighbour, score) in row.iter() {
            assert_ne!(neighbour, item);
            assert!(!score.is_zero());
        }
        for pair in row.windows(2) {
            // Descending: the later score compares below-or-equal.
            assert!(score_le(&pair[1].1, &pair[0].1));
        }
    }
}

#[test]
fn user_recommendations_pool_the_neighbour_lists() {
    let mut engine = CosineSimilarityEngineInMemory::new();
    for (u, t) in [
        ("u1", "A"),
        ("u1", "B"),
        ("u2", "A"),
        ("u2", "B"),
        ("u2", "C"),
        ("u3", "C"),
    ] {
        engine.add_event(Event::new(u.to_string(), t.to_string()));
    }
    engine.train().unwrap();

    let resp = engine.find_similar_by_user_id("u1".to_string(), 10).unwrap();
    let ids = resp.recommendations();

    assert!(!ids.is_empty());
    let mut seen = std::collections::HashSet::new();
    for id in ids.iter() {
        assert!(seen.insert(id.clone()), "duplicate recommendation");
    }

    // A tighter budget fills exactly to the budget while candidates remain.
    let capped = engine.find_similar_by_user_id("u1".to_string(), 1).unwrap();
    assert_eq!(1, capped.recommendations().len());
}
