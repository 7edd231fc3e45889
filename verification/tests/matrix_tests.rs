use rs_mender::counts::{construct_item_user_matrix, construct_user_item_matrix};
use rs_mender::dataset::Dataset;
use rs_mender::model::Event;

fn four_events() -> Vec<Event> {
    vec![
        Event::new("user-1".to_string(), "product-1".to_string()),
        Event::new("user-1".to_string(), "product-2".to_string()),
        Event::new("user-2".to_string(), "product-1".to_string()),
        Event::new("user-1".to_string(), "product-1".to_string()),
    ]
}

#[test]
fn should_be_correctly_constructing_user_item_matrix() {
    let events = four_events();

    let user_item_matrix = construct_user_item_matrix(&events);

    println!("{:?}", user_item_matrix);
    assert_eq!(
        2,
        user_item_matrix.count(&"user-1".to_string(), &"product-1".to_string())
    );
    assert_eq!(
        1,
        user_item_matrix.count(&"user-1".to_string(), &"product-2".to_string())
    );

    assert_eq!(
        1,
        user_item_matrix.count(&"user-2".to_string(), &"product-1".to_string())
    );
}

#[test]
fn item_user_matrix_is_the_transposed_orientation() {
    let events = four_events();

    let item_user_matrix = construct_item_user_matrix(&events);

    assert_eq!(
        2,
        item_user_matrix.count(&"product-1".to_string(), &"user-1".to_string())
    );
    assert_eq!(
        1,
        item_user_matrix.count(&"product-1".to_string(), &"user-2".to_string())
    );
    assert_eq!(
        1,
        item_user_matrix.count(&"product-2".to_string(), &"user-1".to_string())
    );
    assert_eq!(
        0,
        item_user_matrix.count(&"product-2".to_string(), &"user-2".to_string())
    );
}

#[test]
fn dataset_cells_count_each_observed_pair() {
    let events = four_events();

    let ds = Dataset::build(&events);

    assert_eq!(2, ds.n_users());
    assert_eq!(2, ds.n_items());
    assert_eq!("user-1", ds.user_idx().get_item(0).unwrap());
    assert_eq!("user-2", ds.user_idx().get_item(1).unwrap());
    assert_eq!("product-1", ds.item_idx().get_item(0).unwrap());
    assert_eq!("product-2", ds.item_idx().get_item(1).unwrap());
    assert_eq!(vec![(0, 0, 2), (0, 1, 1), (1, 0, 1)], ds.cells_vec());
}

#[test]
fn dataset_transpose_is_computed_genuinely() {
    let events = four_events();

    let ds = Dataset::build(&events);

    // Rows are items, columns are users: the same counts, axes swapped.
    assert_eq!(vec![(0, 0, 2), (0, 1, 1), (1, 0, 1)], ds.cells_t_vec());
}

#[test]
fn empty_event_source_builds_an_empty_dataset() {
    let events: Vec<Event> = vec![];

    let ds = Dataset::build(&events);

    assert_eq!(0, ds.n_users());
    assert_eq!(0, ds.n_items());
    assert!(ds.cells_vec().is_empty());
}
