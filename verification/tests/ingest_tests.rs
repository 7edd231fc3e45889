use rs_mender::ingest::{ECommerceRecord, TestEvent};

#[test]
fn to_events_fans_one_line_out_per_delivery() {
    let line = TestEvent::new(
        "customer-9".to_string(),
        vec!["item-a".to_string(), "item-b".to_string(), "item-c".to_string()],
    );

    assert_eq!(3, line.delivery_count());
    let events = line.to_events();

    assert_eq!(3, events.len());
    for (ev, item) in events.iter().zip(["item-a", "item-b", "item-c"]) {
        assert_eq!("customer-9", ev.user_id());
        assert_eq!(item, ev.target_id());
    }
}

#[test]
fn incomplete_export_rows_convert_to_nothing() {
    let complete = ECommerceRecord::new(Some("17850".to_string()), Some("mug".to_string()));
    let no_user = ECommerceRecord::new(None, Some("mug".to_string()));
    let no_product = ECommerceRecord::new(Some("17850".to_string()), None);

    let ev = complete.to_event().unwrap();
    assert_eq!("17850", ev.user_id());
    assert_eq!("mug", ev.target_id());

    assert!(no_user.to_event().is_none());
    assert!(no_product.to_event().is_none());
}
