//! The concurrent order service: one store behind a verified reader/writer
//! lock whose invariant is the store's well-formedness, so the pair of
//! mappings is consistent at every boundary between operations.

use rand::Rng;
use vstd::prelude::*;
use vstd::rwlock::RwLock;
use vstd::rwlock::RwLockPredicate;

use crate::store::matches_filters;
use crate::store::opt_view;
use crate::store::Order;
use crate::store::OrderResult;
use crate::store::OrderServiceError;
use crate::store::StoreState;

verus! {

/// The lock invariant: between operations the store is well formed.
pub struct StorePred {}

impl RwLockPredicate<StoreState> for StorePred {
    open spec fn inv(self, s: StoreState) -> bool {
        s.wf()
    }
}

/// Relies on rand::Rng::gen_range: a value sampled uniformly from the given
/// nonempty range, here the cooking times 5 through 15.
#[verifier::external_body]
fn draw_cooking_time() -> (r: i32)
    ensures
        5 <= r <= 15,
{
    rand::thread_rng().gen_range(5..16)
}

/// The order store as request handlers see it: create, delete and query,
/// safe to call from simultaneous handlers sharing one instance. A mock or
/// a persistent implementation can stand in for the in-memory one.
pub trait OrderService: Sync + Send {
    /// Creates the order `id` with a cooking time in `[5, 15]`, or reports
    /// that the id is already taken.
    fn put_order(&self, id: String, order: Order) -> (r: Result<OrderResult, OrderServiceError>)
        ensures
            (r matches Ok(res) ==> {
                &&& res@.order_id == id@
                &&& res@.item_id == order.item_id@
                &&& res@.table_id == order.table_id@
                &&& 5 <= res@.cooking_time <= 15
            }),
            (r matches Err(e) ==> (e matches OrderServiceError::DuplicateOrder(eid) && eid@ == id@)
                || e is MutexPoisoned),
    ;

    /// Removes the order carrying `order_id` and returns its pre-removal
    /// snapshot, or reports that no live order carries that id.
    fn delete_order(&self, order_id: String) -> (r: Result<OrderResult, OrderServiceError>)
        ensures
            (r matches Ok(res) ==> res@.order_id == order_id@ && 5 <= res@.cooking_time <= 15),
            (r matches Err(e) ==> (e matches OrderServiceError::OrderNotFound(eid) && eid@
                == order_id@) || e is MutexPoisoned),
    ;

    /// The orders passing the given filters, a consistent snapshot taken
    /// under shared access; their order is unspecified and no id occurs
    /// twice.
    fn get_orders(&self, table_id: Option<String>, item_id: Option<String>) -> (r: Result<
        Vec<OrderResult>,
        OrderServiceError,
    >)
        ensures
            (r matches Ok(list) ==> {
                &&& forall|x: int|
                    0 <= x < list@.len() ==> matches_filters(
                        #[trigger] list@[x]@,
                        opt_view(table_id),
                        opt_view(item_id),
                    ) && 5 <= list@[x]@.cooking_time <= 15
                &&& forall|x1: int, x2: int|
                    0 <= x1 < x2 < list@.len() ==> list@[x1]@.order_id != list@[x2]@.order_id
            }),
            (r matches Err(e) ==> e is MutexPoisoned),
    ;
}

/// The in-memory implementation: the two mappings of [`StoreState`] behind
/// one lock, so that a write spans the check and both mutations and a read
/// observes both mappings in a consistent state.
pub struct InMemoryOrderService {
    lock: RwLock<StoreState, StorePred>,
}

impl InMemoryOrderService {
    #[verifier::type_invariant]
    spec fn wf(self) -> bool {
        self.lock.pred() == (StorePred {  })
    }
}

/// A service with no live orders.
pub fn new_in_memory() -> (r: InMemoryOrderService) {
    InMemoryOrderService { lock: RwLock::new(StoreState::new(), Ghost(StorePred {  })) }
}

impl OrderService for InMemoryOrderService {
    fn put_order(&self, id: String, order: Order) -> (r: Result<OrderResult, OrderServiceError>) {
        proof {
            use_type_invariant(self);
        }
        let cooking_time = draw_cooking_time();
        let (mut state, handle) = self.lock.acquire_write();
        let res = state.put_order(id, order, cooking_time);
        handle.release_write(state);
        res
    }

    fn delete_order(&self, order_id: String) -> (r: Result<OrderResult, OrderServiceError>) {
        proof {
            use_type_invariant(self);
        }
        let (mut state, handle) = self.lock.acquire_write();
        let res = state.delete_order(order_id);
        handle.release_write(state);
        res
    }

    fn get_orders(&self, table_id: Option<String>, item_id: Option<String>) -> (r: Result<
        Vec<OrderResult>,
        OrderServiceError,
    >) {
        proof {
            use_type_invariant(self);
        }
        let read_handle = self.lock.acquire_read();
        let state = read_handle.borrow();
        let list = state.get_orders(table_id, item_id);
        proof {
            assert forall|x: int|
                0 <= x < list@.len() implies 5 <= #[trigger] list@[x]@.cooking_time <= 15 by {
                let k = choose|k: int|
                    0 <= k < state.model().len() && state.model()[k] == list@[x]@;
                assert(5 <= state.model()[k].cooking_time <= 15);
            }
        }
        read_handle.release_read();
        Ok(list)
    }
}

} // verus!
