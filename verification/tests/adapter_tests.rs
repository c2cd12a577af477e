use order_service::adapter::handle_delete;
use order_service::adapter::handle_list;
use order_service::adapter::handle_put;
use order_service::service::new_in_memory;

#[test]
fn put_empty_body() {
    let service = new_in_memory();

    let result = handle_put(&service, "123".to_string(), None, None);

    let error = result.expect_err("a missing body is refused");
    assert_eq!(error.status, 400);
    assert_eq!(error.body.error_code, "INVALID_BODY");
}

#[test]
fn put_body_with_missing_params() {
    let service = new_in_memory();

    let result = handle_put(&service, "123".to_string(), None, Some("2".to_string()));

    let error = result.expect_err("a body missing a field is refused");
    assert_eq!(error.status, 400);
    assert_eq!(error.body.error_code, "INVALID_BODY");
}

#[test]
fn put_order_happy_path() {
    let service = new_in_memory();

    let result = handle_put(
        &service,
        "abc".to_string(),
        Some("123".to_string()),
        Some("1".to_string()),
    );

    let order = result.expect("a fresh id is created");
    assert_eq!(order.order_id, "abc");
    assert_eq!(order.item_id, "123");
    assert_eq!(order.table_id, "1");
    assert!((5..=15).contains(&order.cooking_time));
}

#[test]
fn put_duplicate_order() {
    let service = new_in_memory();

    let first = handle_put(
        &service,
        "123".to_string(),
        Some("123".to_string()),
        Some("1".to_string()),
    );
    assert!(first.is_ok());

    let second = handle_put(
        &service,
        "123".to_string(),
        Some("123".to_string()),
        Some("1".to_string()),
    );

    let error = second.expect_err("a second create of one id is refused");
    assert_eq!(error.status, 409);
    assert_eq!(error.body.error_code, "DUPLICATE_ORDER");
}

#[test]
fn get_orders_by_table() {
    let service = new_in_memory();

    for i in 301..304 {
        let result = handle_put(
            &service,
            format!("order-{}", i),
            Some(i.to_string()),
            Some("3".to_string()),
        );
        assert!(result.is_ok());
    }

    let orders = handle_list(&service, Some("3".to_string()), None).unwrap();

    assert_eq!(orders.len(), 3);
    let item_ids: Vec<String> = orders.iter().map(|o| o.item_id.clone()).collect();
    for i in 301..304 {
        assert!(item_ids.contains(&i.to_string()));
    }
}

#[test]
fn get_orders_by_table_and_item() {
    let service = new_in_memory();

    let result = handle_put(
        &service,
        "order-401".to_string(),
        Some("401".to_string()),
        Some("4".to_string()),
    );
    assert!(result.is_ok());

    let orders = handle_list(&service, Some("4".to_string()), Some("401".to_string())).unwrap();

    assert!(!orders.is_empty());

    let order = orders
        .iter()
        .find(|o| o.item_id == "401" && o.table_id == "4")
        .expect("Order not found");

    assert!((5..=15).contains(&order.cooking_time));
}

#[test]
fn delete_item_from_table() {
    let service = new_in_memory();

    let result = handle_put(
        &service,
        "order-201".to_string(),
        Some("201".to_string()),
        Some("2".to_string()),
    );
    assert!(result.is_ok());

    let deleted = handle_delete(&service, "order-201".to_string());
    assert!(deleted.is_ok());

    let orders = handle_list(&service, Some("2".to_string()), None).unwrap();
    assert!(orders.is_empty());
}

#[test]
fn delete_nonexistent_order() {
    let service = new_in_memory();

    let result = handle_delete(&service, "ghost".to_string());

    let error = result.expect_err("a delete of an unknown id is refused");
    assert_eq!(error.status, 404);
    assert_eq!(error.body.error_code, "ORDER_NOT_FOUND");
}
