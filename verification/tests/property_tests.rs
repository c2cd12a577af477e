use order_service::service::new_in_memory;
use order_service::service::OrderService;
use order_service::store::Order;
use order_service::store::OrderResult;
use order_service::store::OrderServiceError;

fn order(item: &str, table: &str) -> Order {
    Order {
        item_id: item.to_string(),
        table_id: table.to_string(),
    }
}

fn snapshot(service: &impl OrderService) -> Vec<(String, String, String, i32)> {
    let mut all: Vec<(String, String, String, i32)> = service
        .get_orders(None, None)
        .unwrap()
        .into_iter()
        .map(|o| (o.order_id, o.item_id, o.table_id, o.cooking_time))
        .collect();
    all.sort();
    all
}

fn contains_record(list: &[OrderResult], r: &OrderResult) -> bool {
    list.iter().any(|o| {
        o.order_id == r.order_id
            && o.item_id == r.item_id
            && o.table_id == r.table_id
            && o.cooking_time == r.cooking_time
    })
}

#[test]
fn cooking_time_in_range_everywhere() {
    let service = new_in_memory();

    for i in 0..20 {
        let created = service
            .put_order(format!("id{}", i), order(&format!("item{}", i), "t"))
            .unwrap();
        assert!((5..=15).contains(&created.cooking_time));
    }

    for listed in service.get_orders(None, None).unwrap() {
        assert!((5..=15).contains(&listed.cooking_time));
    }
    for listed in service.get_orders(Some("t".to_string()), None).unwrap() {
        assert!((5..=15).contains(&listed.cooking_time));
    }

    for i in 0..20 {
        let deleted = service.delete_order(format!("id{}", i)).unwrap();
        assert!((5..=15).contains(&deleted.cooking_time));
    }
}

#[test]
fn round_trip_put_then_list() {
    let service = new_in_memory();
    service.put_order("other".to_string(), order("x", "elsewhere")).unwrap();

    let created = service.put_order("round".to_string(), order("dish", "nine")).unwrap();

    let by_table = service.get_orders(Some("nine".to_string()), None).unwrap();
    assert!(contains_record(&by_table, &created));

    let by_item = service.get_orders(None, Some("dish".to_string())).unwrap();
    assert!(contains_record(&by_item, &created));

    let by_both = service
        .get_orders(Some("nine".to_string()), Some("dish".to_string()))
        .unwrap();
    assert!(contains_record(&by_both, &created));
}

#[test]
fn failed_put_leaves_store_unchanged() {
    let service = new_in_memory();
    service.put_order("a".to_string(), order("1", "t1")).unwrap();
    service.put_order("b".to_string(), order("2", "t2")).unwrap();

    let before = snapshot(&service);
    let result = service.put_order("a".to_string(), order("other", "t9"));
    assert!(matches!(result, Err(OrderServiceError::DuplicateOrder(_))));
    let after = snapshot(&service);

    assert_eq!(before, after);
}

#[test]
fn failed_delete_leaves_store_unchanged() {
    let service = new_in_memory();
    service.put_order("a".to_string(), order("1", "t1")).unwrap();
    service.put_order("b".to_string(), order("2", "t2")).unwrap();

    let before = snapshot(&service);
    let result = service.delete_order("missing".to_string());
    assert!(matches!(result, Err(OrderServiceError::OrderNotFound(_))));
    let after = snapshot(&service);

    assert_eq!(before, after);
}

#[test]
fn exactly_one_put_per_id_succeeds() {
    let service = new_in_memory();

    let mut successes = 0;
    for attempt in 0..5 {
        let result = service.put_order(
            "contended".to_string(),
            order(&format!("item{}", attempt), "t"),
        );
        if result.is_ok() {
            successes += 1;
        } else {
            assert!(matches!(result, Err(OrderServiceError::DuplicateOrder(_))));
        }
    }
    assert_eq!(successes, 1);

    // The count of successes equals the count of distinct ids inserted.
    service.put_order("second".to_string(), order("x", "t")).unwrap();
    let all = service.get_orders(None, None).unwrap();
    assert_eq!(all.len(), 2);
}

#[test]
fn index_stays_consistent_across_operations() {
    let service = new_in_memory();

    service.put_order("a".to_string(), order("1", "t1")).unwrap();
    service.put_order("b".to_string(), order("2", "t1")).unwrap();
    service.put_order("c".to_string(), order("3", "t2")).unwrap();
    service.delete_order("a".to_string()).unwrap();
    let _ = service.put_order("b".to_string(), order("again", "t3"));
    let _ = service.delete_order("a".to_string());

    let all = service.get_orders(None, None).unwrap();
    let t1 = service.get_orders(Some("t1".to_string()), None).unwrap();
    let t2 = service.get_orders(Some("t2".to_string()), None).unwrap();
    let t3 = service.get_orders(Some("t3".to_string()), None).unwrap();

    // Table-scoped queries partition the live orders.
    assert_eq!(all.len(), 2);
    assert_eq!(t1.len(), 1);
    assert_eq!(t2.len(), 1);
    assert_eq!(t3.len(), 0);
    assert_eq!(t1[0].order_id, "b");
    assert_eq!(t2[0].order_id, "c");

    // No id is ever returned twice.
    let mut ids: Vec<String> = all.iter().map(|o| o.order_id.clone()).collect();
    ids.sort();
    ids.dedup();
    assert_eq!(ids.len(), all.len());
}

#[test]
fn empty_identifier_strings_are_tolerated() {
    let service = new_in_memory();

    let created = service.put_order("".to_string(), order("", "")).unwrap();
    assert_eq!(created.order_id, "");
    assert_eq!(created.item_id, "");
    assert_eq!(created.table_id, "");

    let by_table = service.get_orders(Some("".to_string()), None).unwrap();
    assert_eq!(by_table.len(), 1);

    let deleted = service.delete_order("".to_string()).unwrap();
    assert_eq!(deleted.order_id, "");
    assert!(service.get_orders(None, None).unwrap().is_empty());
}

#[test]
fn error_messages_name_the_id() {
    let duplicate = OrderServiceError::DuplicateOrder("abc".to_string());
    assert_eq!(duplicate.describe(), "Order with id 'abc' already exists.");

    let missing = OrderServiceError::OrderNotFound("ghost".to_string());
    assert_eq!(missing.describe(), "Order with id 'ghost' not found.");

    let poisoned = OrderServiceError::MutexPoisoned("no lock".to_string());
    assert_eq!(poisoned.describe(), "Mutex poisoned: no lock");
}

#[test]
fn list_with_unknown_filter_values_is_empty() {
    let service = new_in_memory();
    service.put_order("a".to_string(), order("1", "t1")).unwrap();

    assert!(service.get_orders(Some("nowhere".to_string()), None).unwrap().is_empty());
    assert!(service.get_orders(None, Some("nothing".to_string())).unwrap().is_empty());
    assert!(service
        .get_orders(Some("t1".to_string()), Some("nothing".to_string()))
        .unwrap()
        .is_empty());
}
