//! The stateless request adapter: validates a request body, invokes exactly
//! one store operation, and maps the outcome to the status code and body of
//! the answer. It consumes the service through the [`OrderService`] trait
//! only, so another implementation can stand in.

use vstd::prelude::*;
use vstd::string::StringExecFns;

use crate::service::OrderService;
use crate::store::matches_filters;
use crate::store::opt_view;
use crate::store::Order;
use crate::store::OrderResult;
use crate::store::OrderServiceError;

verus! {

/// The body of an error answer: a stable code and a readable message.
#[derive(Debug)]
pub struct ErrorBody {
    pub error_code: String,
    pub message: String,
}

/// A refused request: the status code to answer with and its body.
#[derive(Debug)]
pub struct ApiError {
    pub status: u16,
    pub body: ErrorBody,
}

/// The answer to a malformed create body: status 400.
pub fn invalid_body_error() -> (r: ApiError)
    ensures
        r.status == 400,
        r.body.error_code@ == "INVALID_BODY"@,
{
    ApiError {
        status: 400,
        body: ErrorBody {
            error_code: String::from_str("INVALID_BODY"),
            message: String::from_str("The request body is missing a required field."),
        },
    }
}

/// Maps each store error kind to its status code and stable error code:
/// a duplicate create to 409, a missing delete target to 404, and a failed
/// lock to 500.
pub fn store_error_response(e: &OrderServiceError) -> (r: ApiError)
    ensures
        e is DuplicateOrder ==> r.status == 409 && r.body.error_code@ == "DUPLICATE_ORDER"@,
        e is OrderNotFound ==> r.status == 404 && r.body.error_code@ == "ORDER_NOT_FOUND"@,
        e is MutexPoisoned ==> r.status == 500 && r.body.error_code@ == "INTERNAL"@,
{
    let message = e.describe();
    match e {
        OrderServiceError::DuplicateOrder(_) => ApiError {
            status: 409,
            body: ErrorBody { error_code: String::from_str("DUPLICATE_ORDER"), message },
        },
        OrderServiceError::OrderNotFound(_) => ApiError {
            status: 404,
            body: ErrorBody { error_code: String::from_str("ORDER_NOT_FOUND"), message },
        },
        OrderServiceError::MutexPoisoned(_) => ApiError {
            status: 500,
            body: ErrorBody { error_code: String::from_str("INTERNAL"), message },
        },
    }
}

/// Handles a create request: a body missing either field is refused with
/// status 400 before the store is touched; otherwise exactly one create is
/// invoked and its outcome mapped.
pub fn handle_put<S: OrderService>(
    svc: &S,
    order_id: String,
    item_id: Option<String>,
    table_id: Option<String>,
) -> (r: Result<OrderResult, ApiError>)
    ensures
        item_id is None || table_id is None ==> (r matches Err(e) && e.status == 400
            && e.body.error_code@ == "INVALID_BODY"@),
        (match (item_id, table_id) {
            (Some(item), Some(table)) => match r {
                Ok(res) => {
                    &&& res@.order_id == order_id@
                    &&& res@.item_id == item@
                    &&& res@.table_id == table@
                    &&& 5 <= res@.cooking_time <= 15
                },
                Err(e) => (e.status == 409 && e.body.error_code@ == "DUPLICATE_ORDER"@) || (
                e.status == 500 && e.body.error_code@ == "INTERNAL"@),
            },
            _ => true,
        }),
{
    match (item_id, table_id) {
        (Some(item), Some(table)) => {
            match svc.put_order(order_id, Order { item_id: item, table_id: table }) {
                Ok(res) => Ok(res),
                Err(e) => Err(store_error_response(&e)),
            }
        },
        _ => Err(invalid_body_error()),
    }
}

/// Handles a delete request: exactly one delete is invoked and its outcome
/// mapped; an unknown id answers 404.
pub fn handle_delete<S: OrderService>(svc: &S, order_id: String) -> (r: Result<
    OrderResult,
    ApiError,
>)
    ensures
        match r {
            Ok(res) => res@.order_id == order_id@ && 5 <= res@.cooking_time <= 15,
            Err(e) => (e.status == 404 && e.body.error_code@ == "ORDER_NOT_FOUND"@) || (e.status
                == 500 && e.body.error_code@ == "INTERNAL"@),
        },
{
    match svc.delete_order(order_id) {
        Ok(res) => Ok(res),
        Err(e) => Err(store_error_response(&e)),
    }
}

/// Handles a query request: exactly one query is invoked; every returned
/// record passes the given filters, and a value with no matches yields the
/// empty answer, not an error.
pub fn handle_list<S: OrderService>(
    svc: &S,
    table_id: Option<String>,
    item_id: Option<String>,
) -> (r: Result<Vec<OrderResult>, ApiError>)
    ensures
        match r {
            Ok(list) => {
                &&& forall|x: int|
                    0 <= x < list@.len() ==> matches_filters(
                        #[trigger] list@[x]@,
                        opt_view(table_id),
                        opt_view(item_id),
                    ) && 5 <= list@[x]@.cooking_time <= 15
                &&& forall|x1: int, x2: int|
                    0 <= x1 < x2 < list@.len() ==> list@[x1]@.order_id != list@[x2]@.order_id
            },
            Err(e) => e.status == 500 && e.body.error_code@ == "INTERNAL"@,
        },
{
    match svc.get_orders(table_id, item_id) {
        Ok(list) => Ok(list),
        Err(e) => Err(store_error_response(&e)),
    }
}

} // verus!
