use itertools::Itertools;
use rs_mender::item_index::ItemIndex;
use rs_mender::model::EngineError;

#[test]
pub fn should_give_indexes() {
    let v = vec!["a", "b", "c", "d", "a", "b", "a", "d"];

    let mut item_idx = ItemIndex::new();

    let ids = v
        .iter()
        .map(|&i| item_idx.get_idx(i.to_string()))
        .collect::<Vec<_>>();

    assert_eq!(
        (0..4).collect::<Vec<_>>(),
        ids.clone().into_iter().unique().collect_vec()
    );
    println!("{:?}", ids);

    let idx = item_idx.get_idx("c".to_string());
    assert_eq!(2, idx);

    let idx = item_idx.get_idx("a".to_string());
    assert_eq!(0, idx);

    let idx = item_idx.get_idx("d".to_string());
    assert_eq!(3, idx);
}

#[test]
fn get_idx_is_idempotent_per_identifier() {
    let mut idx = ItemIndex::new();
    let first = idx.get_idx("alpha".to_string());
    let size_after_first = idx.size();
    let second = idx.get_idx("alpha".to_string());
    assert_eq!(first, second);
    assert_eq!(size_after_first, idx.size());
}

#[test]
fn indices_are_contiguous_and_lookup_round_trips() {
    let mut idx = ItemIndex::new();
    let names = ["x", "y", "z"];
    for (expected, name) in names.iter().enumerate() {
        let assigned = idx.get_idx(name.to_string());
        assert_eq!(expected, assigned);
        assert_eq!(name.to_string(), idx.get_item(assigned).unwrap());
    }
    assert_eq!(3, idx.size());
}

#[test]
fn lookup_past_the_size_reports_out_of_range() {
    let mut idx = ItemIndex::new();
    let _ = idx.get_idx("only".to_string());
    assert_eq!(Err(EngineError::OutOfRange), idx.get_item(1));
    assert_eq!(Err(EngineError::OutOfRange), ItemIndex::new().get_item(0));
}
