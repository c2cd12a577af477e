//! The sequential heart of the order store: two in-memory mappings (orders
//! by id, order ids by table) and the operations that keep them consistent.
//!
//! `StoreState` is plain data; the concurrent service wraps one instance in
//! a reader/writer lock whose invariant is [`StoreState::wf`].

use vstd::prelude::*;
use vstd::string::StringExecFns;

verus! {

/// An order as supplied by a client: the menu item and the table.
#[derive(Debug)]
pub struct Order {
    pub item_id: String,
    pub table_id: String,
}

/// A stored order record. `cooking_time` is assigned by the store at
/// creation and always lies in `[5, 15]`.
#[derive(Debug)]
pub struct OrderResult {
    pub order_id: String,
    pub item_id: String,
    pub table_id: String,
    pub cooking_time: i32,
}

/// The mathematical image of one stored order.
pub ghost struct OrderSpec {
    pub order_id: Seq<char>,
    pub item_id: Seq<char>,
    pub table_id: Seq<char>,
    pub cooking_time: int,
}

impl View for OrderResult {
    type V = OrderSpec;

    open spec fn view(&self) -> OrderSpec {
        OrderSpec {
            order_id: self.order_id@,
            item_id: self.item_id@,
            table_id: self.table_id@,
            cooking_time: self.cooking_time as int,
        }
    }
}

impl Clone for Order {
    fn clone(&self) -> (r: Self)
        ensures
            r.item_id@ == self.item_id@,
            r.table_id@ == self.table_id@,
    {
        Order { item_id: self.item_id.clone(), table_id: self.table_id.clone() }
    }
}

impl Clone for OrderResult {
    fn clone(&self) -> (r: Self)
        ensures
            r@ == self@,
    {
        OrderResult {
            order_id: self.order_id.clone(),
            item_id: self.item_id.clone(),
            table_id: self.table_id.clone(),
            cooking_time: self.cooking_time,
        }
    }
}

/// Why a store operation was refused.
#[derive(Debug)]
pub enum OrderServiceError {
    /// A create named an id that is already live; the payload is that id.
    DuplicateOrder(String),
    /// A delete named an id with no live order; the payload is that id.
    OrderNotFound(String),
    /// The lock guarding the store was unusable; the payload is a message.
    MutexPoisoned(String),
}

impl OrderServiceError {
    /// The human-readable message for this error.
    pub fn describe(&self) -> (r: String)
        ensures
            (self matches OrderServiceError::DuplicateOrder(id) ==> r@ == "Order with id '"@
                + id@ + "' already exists."@),
            (self matches OrderServiceError::OrderNotFound(id) ==> r@ == "Order with id '"@ + id@
                + "' not found."@),
            (self matches OrderServiceError::MutexPoisoned(msg) ==> r@ == "Mutex poisoned: "@
                + msg@),
    {
        match self {
            OrderServiceError::DuplicateOrder(id) => {
                let mut s = String::from_str("Order with id '");
                s.append(id.as_str());
                s.append("' already exists.");
                s
            },
            OrderServiceError::OrderNotFound(id) => {
                let mut s = String::from_str("Order with id '");
                s.append(id.as_str());
                s.append("' not found.");
                s
            },
            OrderServiceError::MutexPoisoned(msg) => {
                let mut s = String::from_str("Mutex poisoned: ");
                s.append(msg.as_str());
                s
            },
        }
    }
}

/// One entry of the secondary index: the ids of the orders at one table.
#[derive(Debug)]
pub struct TableEntry {
    pub table_id: String,
    pub order_ids: Vec<String>,
}

impl TableEntry {
    /// The ids listed under this entry, as sequences of characters.
    pub open spec fn ids(self) -> Seq<Seq<char>> {
        self.order_ids@.map_values(|s: String| s@)
    }
}

/// The view of an optional filter value.
pub open spec fn opt_view(o: Option<String>) -> Option<Seq<char>> {
    match o {
        Some(s) => Some(s@),
        None => None,
    }
}

/// Whether an order passes the given table and item filters; an absent
/// filter passes everything.
pub open spec fn matches_filters(o: OrderSpec, table: Option<Seq<char>>, item: Option<Seq<char>>) -> bool {
    &&& (table matches Some(t) ==> o.table_id == t)
    &&& (item matches Some(i) ==> o.item_id == i)
}

/// The mathematical image of a query result.
pub open spec fn results_view(v: Vec<OrderResult>) -> Seq<OrderSpec> {
    v@.map_values(|o: OrderResult| o@)
}

/// The two mappings of the store, free of any locking.
pub struct StoreState {
    pub orders: Vec<OrderResult>,
    pub tables: Vec<TableEntry>,
}

impl StoreState {
    /// The live orders, in insertion order.
    pub open spec fn model(self) -> Seq<OrderSpec> {
        self.orders@.map_values(|o: OrderResult| o@)
    }

    /// Whether some live order carries the given id.
    pub open spec fn has_id(self, id: Seq<char>) -> bool {
        exists|k: int| 0 <= k < self.model().len() && self.model()[k].order_id == id
    }

    /// The position of the live order with the given id.
    pub open spec fn id_index(self, id: Seq<char>) -> int {
        choose|k: int| 0 <= k < self.model().len() && self.model()[k].order_id == id
    }

    /// Invariant: no two live orders share an order id.
    pub open spec fn ids_unique(self) -> bool {
        forall|k1: int, k2: int|
            0 <= k1 < k2 < self.model().len() ==> self.model()[k1].order_id != self.model()[k2].order_id
    }

    /// Invariant: every cooking time assigned by the store is in `[5, 15]`.
    pub open spec fn cooking_times_in_range(self) -> bool {
        forall|k: int|
            0 <= k < self.model().len() ==> 5 <= #[trigger] self.model()[k].cooking_time <= 15
    }

    /// Invariant: no two entries of the secondary index share a table id.
    pub open spec fn table_keys_unique(self) -> bool {
        forall|t1: int, t2: int|
            0 <= t1 < t2 < self.tables@.len()
                ==> self.tables@[t1].table_id@ != self.tables@[t2].table_id@
    }

    /// Invariant: within one index entry, no order id is listed twice.
    pub open spec fn entries_distinct(self) -> bool {
        forall|t: int, j1: int, j2: int|
            0 <= t < self.tables@.len() && 0 <= j1 < j2 < self.tables@[t].ids().len()
                ==> self.tables@[t].ids()[j1] != self.tables@[t].ids()[j2]
    }

    /// Whether the index entry for `tid` lists `oid`.
    pub open spec fn table_lists(self, tid: Seq<char>, oid: Seq<char>) -> bool {
        exists|t: int|
            0 <= t < self.tables@.len() && self.tables@[t].table_id@ == tid
                && self.tables@[t].ids().contains(oid)
    }

    /// Invariant: every live order is listed under its table's index entry.
    pub open spec fn index_complete(self) -> bool {
        forall|k: int|
            0 <= k < self.model().len()
                ==> self.table_lists(
                    #[trigger] self.model()[k].table_id,
                    self.model()[k].order_id,
                )
    }

    /// Whether some live order carries the given id and table id.
    pub open spec fn has_live(self, oid: Seq<char>, tid: Seq<char>) -> bool {
        exists|k: int|
            0 <= k < self.model().len() && self.model()[k].order_id == oid
                && self.model()[k].table_id == tid
    }

    /// Invariant: every id listed under an index entry refers to a live
    /// order whose table id equals the entry's key.
    pub open spec fn index_sound(self) -> bool {
        forall|t: int, j: int|
            0 <= t < self.tables@.len() && 0 <= j < self.tables@[t].ids().len()
                ==> self.has_live(
                    #[trigger] self.tables@[t].ids()[j],
                    self.tables@[t].table_id@,
                )
    }

    /// Well-formedness of the pair of mappings.
    pub open spec fn wf(self) -> bool {
        &&& self.ids_unique()
        &&& self.cooking_times_in_range()
        &&& self.table_keys_unique()
        &&& self.entries_distinct()
        &&& self.index_complete()
        &&& self.index_sound()
    }

    /// A store with no live orders and an empty index.
    pub fn new() -> (r: StoreState)
        ensures
            r.wf(),
            r.model() == Seq::<OrderSpec>::empty(),
            r.tables@.len() == 0,
    {
        let r = StoreState { orders: Vec::new(), tables: Vec::new() };
        proof {
            assert(r.model() =~= Seq::<OrderSpec>::empty());
        }
        r
    }

    /// The orders passing the given filters: every returned record is live
    /// and passes, every live order that passes is returned, and no id is
    /// returned twice. The order of the result is unspecified; the records
    /// are independent copies.
    pub fn get_orders(&self, table_id: Option<String>, item_id: Option<String>) -> (r: Vec<
        OrderResult,
    >)
        requires
            self.wf(),
        ensures
            forall|x: int|
                0 <= x < r@.len() ==> matches_filters(
                    #[trigger] r@[x]@,
                    opt_view(table_id),
                    opt_view(item_id),
                ) && self.model().contains(r@[x]@),
            forall|k: int|
                0 <= k < self.model().len() && matches_filters(
                    #[trigger] self.model()[k],
                    opt_view(table_id),
                    opt_view(item_id),
                ) ==> results_view(r).contains(self.model()[k]),
            forall|x1: int, x2: int|
                0 <= x1 < x2 < r@.len() ==> r@[x1]@.order_id != r@[x2]@.order_id,
    {
        match &table_id {
            None => self.collect_scan(&item_id),
            Some(tkey) => {
                match self.find_table_index(tkey) {
                    Some(t) => self.collect_table(t, &item_id),
                    None => {
                        proof {
                            assert forall|k: int|
                                0 <= k < self.model().len() implies !(#[trigger] self.model()[k].table_id
                                == tkey@) by {
                                if self.model()[k].table_id == tkey@ {
                                    assert(self.table_lists(
                                        self.model()[k].table_id,
                                        self.model()[k].order_id,
                                    ));
                                    let u = choose|u: int|
                                        0 <= u < self.tables@.len() && self.tables@[u].table_id@
                                            == tkey@ && self.tables@[u].ids().contains(
                                            self.model()[k].order_id,
                                        );
                                    assert(self.tables@[u].table_id@ == tkey@);
                                }
                            }
                        }
                        Vec::new()
                    },
                }
            },
        }
    }

    /// A full scan: the live orders passing the item filter, in store order.
    fn collect_scan(&self, item_id: &Option<String>) -> (r: Vec<OrderResult>)
        requires
            self.wf(),
        ensures
            forall|x: int|
                0 <= x < r@.len() ==> matches_filters(#[trigger] r@[x]@, None, opt_view(*item_id))
                    && self.model().contains(r@[x]@),
            forall|k: int|
                0 <= k < self.model().len() && matches_filters(
                    #[trigger] self.model()[k],
                    None,
                    opt_view(*item_id),
                ) ==> results_view(r).contains(self.model()[k]),
            forall|x1: int, x2: int|
                0 <= x1 < x2 < r@.len() ==> r@[x1]@.order_id != r@[x2]@.order_id,
    {
        let n = self.orders.len();
        let mut out: Vec<OrderResult> = Vec::new();
        let ghost mut src: Seq<int> = Seq::empty();
        for k in 0..n
            invariant
                n == self.model().len(),
                self.wf(),
                src.len() == out@.len(),
                forall|x: int|
                    0 <= x < out@.len() ==> 0 <= #[trigger] src[x] < k && self.model()[src[x]]
                        == out@[x]@,
                forall|x1: int, x2: int| 0 <= x1 < x2 < out@.len() ==> src[x1] < src[x2],
                forall|x: int|
                    0 <= x < out@.len() ==> matches_filters(
                        #[trigger] out@[x]@,
                        None,
                        opt_view(*item_id),
                    ),
                forall|i: int|
                    0 <= i < k && matches_filters(#[trigger] self.model()[i], None, opt_view(*item_id))
                        ==> results_view(out).contains(self.model()[i]),
        {
            let o = &self.orders[k];
            let keep = match item_id {
                Some(i) => o.item_id == *i,
                None => true,
            };
            let ghost prev = out@;
            if keep {
                out.push(o.clone());
                proof {
                    src = src.push(k as int);
                    assert(out@[prev.len() as int]@ == self.model()[k as int]);
                    assert forall|i: int|
                        0 <= i < k + 1 && matches_filters(
                            #[trigger] self.model()[i],
                            None,
                            opt_view(*item_id),
                        ) implies results_view(out).contains(self.model()[i]) by {
                        if i < k {
                            let x = choose|x: int|
                                0 <= x < prev.len() && prev[x]@ == self.model()[i];
                            assert(results_view(out)[x] == self.model()[i]);
                        } else {
                            assert(results_view(out)[prev.len() as int] == self.model()[k as int]);
                        }
                    }
                }
            } else {
                proof {
                    assert forall|i: int|
                        0 <= i < k + 1 && matches_filters(
                            #[trigger] self.model()[i],
                            None,
                            opt_view(*item_id),
                        ) implies results_view(out).contains(self.model()[i]) by {
                        if i < k {
                            let x = choose|x: int|
                                0 <= x < prev.len() && prev[x]@ == self.model()[i];
                            assert(results_view(out)[x] == self.model()[i]);
                        }
                    }
                }
            }
        }
        proof {
            assert forall|x: int| 0 <= x < out@.len() implies self.model().contains(
                #[trigger] out@[x]@,
            ) by {
                assert(self.model()[src[x]] == out@[x]@);
            }
            assert forall|x1: int, x2: int|
                0 <= x1 < x2 < out@.len() implies out@[x1]@.order_id != out@[x2]@.order_id by {
                assert(self.model()[src[x1]].order_id != self.model()[src[x2]].order_id);
            }
        }
        out
    }

    /// The orders listed under index entry `t` that pass the item filter.
    fn collect_table(&self, t: usize, item_id: &Option<String>) -> (r: Vec<OrderResult>)
        requires
            self.wf(),
            0 <= t < self.tables@.len(),
        ensures
            forall|x: int|
                0 <= x < r@.len() ==> matches_filters(
                    #[trigger] r@[x]@,
                    Some(self.tables@[t as int].table_id@),
                    opt_view(*item_id),
                ) && self.model().contains(r@[x]@),
            forall|k: int|
                0 <= k < self.model().len() && matches_filters(
                    #[trigger] self.model()[k],
                    Some(self.tables@[t as int].table_id@),
                    opt_view(*item_id),
                ) ==> results_view(r).contains(self.model()[k]),
            forall|x1: int, x2: int|
                0 <= x1 < x2 < r@.len() ==> r@[x1]@.order_id != r@[x2]@.order_id,
    {
        let ghost ids = self.tables@[t as int].ids();
        let ghost key = self.tables@[t as int].table_id@;
        let n = self.tables[t].order_ids.len();
        let mut out: Vec<OrderResult> = Vec::new();
        let ghost mut src: Seq<int> = Seq::empty();
        for j in 0..n
            invariant
                0 <= t < self.tables@.len(),
                ids == self.tables@[t as int].ids(),
                key == self.tables@[t as int].table_id@,
                n == ids.len(),
                self.wf(),
                forall|x: int|
                    0 <= x < out@.len() ==> matches_filters(
                        #[trigger] out@[x]@,
                        Some(key),
                        opt_view(*item_id),
                    ) && self.model().contains(out@[x]@),
                src.len() == out@.len(),
                forall|x: int|
                    0 <= x < out@.len() ==> 0 <= #[trigger] src[x] < j && ids[src[x]]
                        == out@[x]@.order_id,
                forall|x1: int, x2: int| 0 <= x1 < x2 < out@.len() ==> src[x1] < src[x2],
                forall|jj: int, k: int|
                    #![trigger ids[jj], self.model()[k]]
                    0 <= jj < j && 0 <= k < self.model().len() && self.model()[k].order_id == ids[jj]
                        && matches_filters(self.model()[k], Some(key), opt_view(*item_id))
                        ==> results_view(out).contains(self.model()[k]),
        {
            let oid = &self.tables[t].order_ids[j];
            match self.find_order_index(oid) {
                Some(k) => {
                    let o = &self.orders[k];
                    proof {
                        assert(self.has_live(ids[j as int], key));
                        let kk = choose|kk: int|
                            0 <= kk < self.model().len() && self.model()[kk].order_id == ids[
                                j as int
                            ] && self.model()[kk].table_id == key;
                        assert(self.model()[kk].order_id == self.model()[k as int].order_id);
                        assert(kk == k as int);
                        assert(o@.table_id == key);
                    }
                    let keep = match item_id {
                        Some(i) => o.item_id == *i,
                        None => true,
                    };
                    let ghost prev = out@;
                    if keep {
                        out.push(o.clone());
                        proof {
                            src = src.push(j as int);
                            assert(out@[prev.len() as int]@ == self.model()[k as int]);
                            assert(self.model().contains(self.model()[k as int]));
                            assert forall|jj: int, kk: int|
                                #![trigger ids[jj], self.model()[kk]]
                                0 <= jj < j + 1 && 0 <= kk < self.model().len()
                                    && self.model()[kk].order_id == ids[jj] && matches_filters(
                                    self.model()[kk],
                                    Some(key),
                                    opt_view(*item_id),
                                ) implies results_view(out).contains(self.model()[kk]) by {
                                if jj < j {
                                    let x = choose|x: int|
                                        0 <= x < prev.len() && prev[x]@ == self.model()[kk];
                                    assert(results_view(out)[x] == self.model()[kk]);
                                } else {
                                    assert(self.model()[kk].order_id == self.model()[
                                        k as int
                                    ].order_id);
                                    assert(kk == k as int);
                                    assert(results_view(out)[prev.len() as int] == self.model()[
                                        k as int
                                    ]);
                                }
                            }
                        }
                    } else {
                        proof {
                            assert forall|jj: int, kk: int|
                                #![trigger ids[jj], self.model()[kk]]
                                0 <= jj < j + 1 && 0 <= kk < self.model().len()
                                    && self.model()[kk].order_id == ids[jj] && matches_filters(
                                    self.model()[kk],
                                    Some(key),
                                    opt_view(*item_id),
                                ) implies results_view(out).contains(self.model()[kk]) by {
                                if jj < j {
                                    let x = choose|x: int|
                                        0 <= x < prev.len() && prev[x]@ == self.model()[kk];
                                    assert(results_view(out)[x] == self.model()[kk]);
                                } else {
                                    assert(self.model()[kk].order_id == self.model()[
                                        k as int
                                    ].order_id);
                                    assert(kk == k as int);
                                }
                            }
                        }
                    }
                },
                None => {
                    proof {
                        assert(self.has_live(ids[j as int], key));
                        let kk = choose|kk: int|
                            0 <= kk < self.model().len() && self.model()[kk].order_id == ids[
                                j as int
                            ] && self.model()[kk].table_id == key;
                        assert(self.model()[kk].order_id == oid@);
                        assert(false);
                    }
                },
            }
        }
        proof {
            assert forall|k: int|
                0 <= k < self.model().len() && matches_filters(
                    #[trigger] self.model()[k],
                    Some(key),
                    opt_view(*item_id),
                ) implies results_view(out).contains(self.model()[k]) by {
                lemma_listed_under_its_table(*self, k, t as int);
                let jj = choose|jj: int|
                    0 <= jj < ids.len() && ids[jj] == self.model()[k].order_id;
                assert(self.model()[k].order_id == ids[jj]);
            }
            assert forall|x1: int, x2: int|
                0 <= x1 < x2 < out@.len() implies out@[x1]@.order_id != out@[x2]@.order_id by {
                assert(ids[src[x1]] != ids[src[x2]]);
            }
        }
        out
    }

    /// The position of the live order with the given id, if any.
    fn find_order_index(&self, id: &String) -> (r: Option<usize>)
        ensures
            match r {
                Some(k) => 0 <= k < self.model().len() && self.model()[k as int].order_id == id@,
                None => !self.has_id(id@),
            },
    {
        let n = self.orders.len();
        for k in 0..n
            invariant
                n == self.model().len(),
                forall|j: int| 0 <= j < k ==> #[trigger] self.model()[j].order_id != id@,
        {
            if self.orders[k].order_id == *id {
                return Some(k);
            }
        }
        None
    }

    /// Creates the order `id` with the fields of `order` and the given
    /// cooking time, unless `id` is already live, in which case the store
    /// is left exactly as it was.
    pub fn put_order(&mut self, id: String, order: Order, cooking_time: i32) -> (r: Result<
        OrderResult,
        OrderServiceError,
    >)
        requires
            old(self).wf(),
            5 <= cooking_time <= 15,
        ensures
            final(self).wf(),
            r is Ok <==> !old(self).has_id(id@),
            (r matches Ok(res) ==> {
                &&& res@.order_id == id@
                &&& res@.item_id == order.item_id@
                &&& res@.table_id == order.table_id@
                &&& res@.cooking_time == cooking_time as int
                &&& final(self).model() == old(self).model().push(res@)
            }),
            (r matches Err(e) ==> {
                &&& e matches OrderServiceError::DuplicateOrder(eid) && eid@ == id@
                &&& *final(self) == *old(self)
            }),
    {
        match self.find_order_index(&id) {
            Some(_) => Err(OrderServiceError::DuplicateOrder(id)),
            None => {
                let table_key = order.table_id;
                let res = OrderResult {
                    order_id: id.clone(),
                    item_id: order.item_id,
                    table_id: table_key.clone(),
                    cooking_time,
                };
                let stored = res.clone();
                let ghost pre = *self;
                self.orders.push(stored);
                proof {
                    assert(self.model() =~= pre.model().push(res@));
                }
                match self.find_table_index(&table_key) {
                    Some(t) => {
                        let ghost mid = *self;
                        let entry = &mut self.tables[t];
                        entry.order_ids.push(id);
                        proof {
                            assert(self.tables@[t as int].ids() =~= mid.tables@[t as int].ids().push(
                                res@.order_id,
                            ));
                            lemma_put_preserves_wf(pre, *self, res@, t as int, false);
                        }
                    },
                    None => {
                        let mut ids: Vec<String> = Vec::new();
                        ids.push(id);
                        let t = self.tables.len();
                        self.tables.push(TableEntry { table_id: table_key, order_ids: ids });
                        proof {
                            assert(self.tables@[t as int].ids() =~= Seq::<Seq<char>>::empty().push(
                                res@.order_id,
                            ));
                            lemma_put_preserves_wf(pre, *self, res@, t as int, true);
                        }
                    },
                }
                Ok(res)
            },
        }
    }

    /// Removes the live order carrying `order_id` and returns it, unless no
    /// live order carries that id, in which case the store is left exactly
    /// as it was.
    pub fn delete_order(&mut self, order_id: String) -> (r: Result<OrderResult, OrderServiceError>)
        requires
            old(self).wf(),
        ensures
            final(self).wf(),
            r is Ok <==> old(self).has_id(order_id@),
            (r matches Ok(res) ==> {
                let k = old(self).id_index(order_id@);
                &&& 0 <= k < old(self).model().len()
                &&& res@ == old(self).model()[k]
                &&& res@.order_id == order_id@
                &&& final(self).model() == old(self).model().remove(k)
            }),
            (r matches Err(e) ==> {
                &&& e matches OrderServiceError::OrderNotFound(eid) && eid@ == order_id@
                &&& *final(self) == *old(self)
            }),
    {
        match self.find_order_index(&order_id) {
            None => Err(OrderServiceError::OrderNotFound(order_id)),
            Some(k) => {
                let ghost pre = *self;
                let res = self.orders.remove(k);
                proof {
                    assert(pre.has_id(order_id@));
                    assert(pre.id_index(order_id@) == k as int) by {
                        let k2 = pre.id_index(order_id@);
                        assert(pre.model()[k2].order_id == order_id@);
                    }
                    assert(self.model() =~= pre.model().remove(k as int));
                }
                match self.find_table_index(&res.table_id) {
                    Some(t) => {
                        let ghost mid = *self;
                        let entry = &mut self.tables[t];
                        match find_id_position(&entry.order_ids, &order_id) {
                            Some(j) => {
                                entry.order_ids.remove(j);
                                proof {
                                    assert(self.tables@[t as int].ids() =~= pre.tables@[t as int].ids().remove(j as int));
                                    lemma_delete_preserves_wf(pre, *self, k as int, t as int, j as int);
                                }
                            },
                            None => {
                                proof {
                                    lemma_listed_under_its_table(pre, k as int, t as int);
                                    let j = choose|j: int|
                                        0 <= j < pre.tables@[t as int].ids().len()
                                            && pre.tables@[t as int].ids()[j] == order_id@;
                                    assert(entry.order_ids@[j]@ == order_id@);
                                    assert(false);
                                }
                            },
                        }
                    },
                    None => {
                        proof {
                            assert(pre.table_lists(pre.model()[k as int].table_id, pre.model()[k as int].order_id));
                            let u = choose|u: int|
                                0 <= u < pre.tables@.len() && pre.tables@[u].table_id@
                                    == pre.model()[k as int].table_id && pre.tables@[u].ids().contains(
                                    pre.model()[k as int].order_id,
                                );
                            assert(self.tables@[u].table_id@ == res.table_id@);
                            assert(false);
                        }
                    },
                }
                Ok(res)
            },
        }
    }

    /// The position of the index entry for the given table, if any.
    fn find_table_index(&self, table_id: &String) -> (r: Option<usize>)
        ensures
            match r {
                Some(t) => 0 <= t < self.tables@.len() && self.tables@[t as int].table_id@
                    == table_id@,
                None => forall|t: int|
                    0 <= t < self.tables@.len() ==> #[trigger] self.tables@[t].table_id@
                        != table_id@,
            },
    {
        let n = self.tables.len();
        for t in 0..n
            invariant
                n == self.tables@.len(),
                forall|j: int| 0 <= j < t ==> #[trigger] self.tables@[j].table_id@ != table_id@,
        {
            if self.tables[t].table_id == *table_id {
                return Some(t);
            }
        }
        None
    }
}

/// Round trip: the record created by a successful put is live afterwards
/// and passes both the table-scoped and the item-scoped query filter, so an
/// immediately following query with either filter returns it (by the
/// completeness clause of `get_orders`).
pub proof fn lemma_put_round_trip(pre: StoreState, post: StoreState, r: OrderSpec)
    requires
        post.model() == pre.model().push(r),
    ensures
        post.model().contains(r),
        matches_filters(r, Some(r.table_id), None),
        matches_filters(r, None, Some(r.item_id)),
        matches_filters(r, Some(r.table_id), Some(r.item_id)),
{
    assert(post.model()[pre.model().len() as int] == r);
}

/// Exclusion of creates sharing an id: after a successful put the created
/// id is live, and a put of a live id fails (by the success clause of
/// `put_order`), so of puts sharing one id, serialized by the store's write
/// lock, exactly the first succeeds until the order is deleted.
pub proof fn lemma_put_makes_id_live(pre: StoreState, post: StoreState, r: OrderSpec)
    requires
        post.model() == pre.model().push(r),
    ensures
        post.has_id(r.order_id),
{
    assert(post.model()[pre.model().len() as int] == r);
}

/// A live id stays live across creates of other orders: a put only pushes,
/// so only a delete can free an id.
pub proof fn lemma_put_preserves_live_ids(
    pre: StoreState,
    post: StoreState,
    r: OrderSpec,
    id: Seq<char>,
)
    requires
        pre.has_id(id),
        post.model() == pre.model().push(r),
    ensures
        post.has_id(id),
{
    let k = choose|k: int| 0 <= k < pre.model().len() && pre.model()[k].order_id == id;
    assert(post.model()[k].order_id == id);
}

/// The position of the given id within a list of order ids, if any.
fn find_id_position(ids: &Vec<String>, id: &String) -> (r: Option<usize>)
    ensures
        match r {
            Some(j) => 0 <= j < ids@.len() && ids@[j as int]@ == id@,
            None => forall|j: int| 0 <= j < ids@.len() ==> #[trigger] ids@[j]@ != id@,
        },
{
    let n = ids.len();
    for j in 0..n
        invariant
            n == ids@.len(),
            forall|i: int| 0 <= i < j ==> #[trigger] ids@[i]@ != id@,
    {
        if ids[j] == *id {
            return Some(j);
        }
    }
    None
}

/// A sequence still contains an element after one position holding a
/// different element is removed.
proof fn lemma_remove_still_contains<A>(s: Seq<A>, j: int, x: A)
    requires
        0 <= j < s.len(),
        s.contains(x),
        s[j] != x,
    ensures
        s.remove(j).contains(x),
{
    let i = choose|i: int| 0 <= i < s.len() && s[i] == x;
    if i < j {
        assert(s.remove(j)[i] == x);
    } else {
        assert(s.remove(j)[i - 1] == x);
    }
}

/// In a well-formed store, the live order at position `k` is listed under
/// the index entry for its table, and under no other position of it.
proof fn lemma_listed_under_its_table(pre: StoreState, k: int, t: int)
    requires
        pre.wf(),
        0 <= k < pre.model().len(),
        0 <= t < pre.tables@.len(),
        pre.tables@[t].table_id@ == pre.model()[k].table_id,
    ensures
        exists|j: int|
            0 <= j < pre.tables@[t].ids().len() && pre.tables@[t].ids()[j] == pre.model()[
                k
            ].order_id,
{
    assert(pre.table_lists(pre.model()[k].table_id, pre.model()[k].order_id));
    let u = choose|u: int|
        0 <= u < pre.tables@.len() && pre.tables@[u].table_id@ == pre.model()[k].table_id
            && pre.tables@[u].ids().contains(pre.model()[k].order_id);
    assert(u == t) by {
        if u != t {
            assert(pre.tables@[u].table_id@ != pre.tables@[t].table_id@);
        }
    }
    let j = choose|j: int|
        0 <= j < pre.tables@[t].ids().len() && pre.tables@[t].ids()[j] == pre.model()[k].order_id;
    assert(pre.tables@[t].ids()[j] == pre.model()[k].order_id);
}

/// After a delete, the pair of mappings is well formed again: the removed
/// record's id was listed only at position `j` of the one index entry for
/// its table, and exactly that position was dropped.
proof fn lemma_delete_preserves_wf(pre: StoreState, post: StoreState, k: int, t: int, j: int)
    requires
        pre.wf(),
        0 <= k < pre.model().len(),
        post.model() == pre.model().remove(k),
        0 <= t < pre.tables@.len(),
        post.tables@.len() == pre.tables@.len(),
        post.tables@ == pre.tables@.update(t, post.tables@[t]),
        pre.tables@[t].table_id@ == pre.model()[k].table_id,
        post.tables@[t].table_id@ == pre.tables@[t].table_id@,
        0 <= j < pre.tables@[t].ids().len(),
        pre.tables@[t].ids()[j] == pre.model()[k].order_id,
        post.tables@[t].ids() == pre.tables@[t].ids().remove(j),
    ensures
        post.wf(),
{
    let pm = pre.model();
    let qm = post.model();
    let rid = pm[k].order_id;

    // Every live order other than the removed one keeps a place.
    assert forall|oid: Seq<char>, tid: Seq<char>|
        pre.has_live(oid, tid) && oid != rid implies post.has_live(oid, tid) by {
        let kk = choose|kk: int|
            0 <= kk < pm.len() && pm[kk].order_id == oid && pm[kk].table_id == tid;
        if kk < k {
            assert(qm[kk] == pm[kk]);
        } else {
            assert(kk > k);
            assert(qm[kk - 1] == pm[kk]);
        }
    }

    assert(post.ids_unique());
    assert(post.cooking_times_in_range());
    assert(post.table_keys_unique());

    assert forall|u: int, j1: int, j2: int|
        0 <= u < post.tables@.len() && 0 <= j1 < j2 < post.tables@[u].ids().len()
        implies post.tables@[u].ids()[j1] != post.tables@[u].ids()[j2] by {
        if u == t {
            let pids = pre.tables@[t].ids();
            let f1: int = if j1 < j { j1 } else { j1 + 1 };
            let f2: int = if j2 < j { j2 } else { j2 + 1 };
            assert(post.tables@[t].ids()[j1] == pids[f1]);
            assert(post.tables@[t].ids()[j2] == pids[f2]);
        }
    }

    // Index completeness: every remaining order is still listed.
    assert forall|kk: int| 0 <= kk < qm.len() implies post.table_lists(
        #[trigger] qm[kk].table_id,
        qm[kk].order_id,
    ) by {
        let pk: int = if kk < k { kk } else { kk + 1 };
        assert(qm[kk] == pm[pk]);
        let oid = pm[pk].order_id;
        let tid = pm[pk].table_id;
        assert(oid != rid) by {
            assert(pk != k);
        }
        assert(pre.table_lists(tid, oid));
        let u = choose|u: int|
            0 <= u < pre.tables@.len() && pre.tables@[u].table_id@ == tid
                && pre.tables@[u].ids().contains(oid);
        if u == t {
            lemma_remove_still_contains(pre.tables@[t].ids(), j, oid);
            assert(post.tables@[t].ids().contains(oid));
        } else {
            assert(post.tables@[u].ids().contains(oid));
        }
    }

    // Index soundness: everything still listed is still live.
    assert forall|u: int, jj: int|
        0 <= u < post.tables@.len() && 0 <= jj < post.tables@[u].ids().len()
        implies post.has_live(
        #[trigger] post.tables@[u].ids()[jj],
        post.tables@[u].table_id@,
    ) by {
        let oid = post.tables@[u].ids()[jj];
        let tid = post.tables@[u].table_id@;
        if u == t {
            let f: int = if jj < j { jj } else { jj + 1 };
            assert(oid == pre.tables@[t].ids()[f]);
            assert(pre.has_live(oid, tid));
        } else {
            assert(oid == pre.tables@[u].ids()[jj]);
            assert(pre.has_live(oid, tid));
        }
        // The removed id is listed nowhere any more: it was only at (t, j).
        assert(oid != rid) by {
            if oid == rid {
                let kk = choose|kk: int|
                    0 <= kk < pm.len() && pm[kk].order_id == oid && pm[kk].table_id == tid;
                assert(kk == k);
                assert(tid == pm[k].table_id);
                assert(u == t) by {
                    if u != t {
                        assert(pre.tables@[u].table_id@ != pre.tables@[t].table_id@);
                    }
                }
                let f: int = if jj < j { jj } else { jj + 1 };
                assert(pre.tables@[t].ids()[f] == rid && pre.tables@[t].ids()[j] == rid && f != j);
            }
        }
    }
}

/// After a create, the pair of mappings is well formed again: the fresh
/// record's id was live nowhere, and the one index entry for its table
/// gained exactly that id.
proof fn lemma_put_preserves_wf(pre: StoreState, post: StoreState, r: OrderSpec, t: int, fresh: bool)
    requires
        pre.wf(),
        !pre.has_id(r.order_id),
        5 <= r.cooking_time <= 15,
        post.model() == pre.model().push(r),
        0 <= t < post.tables@.len(),
        post.tables@[t].table_id@ == r.table_id,
        fresh ==> {
            &&& t == pre.tables@.len()
            &&& post.tables@ == pre.tables@.push(post.tables@[t])
            &&& post.tables@[t].ids() == Seq::<Seq<char>>::empty().push(r.order_id)
            &&& forall|u: int|
                0 <= u < pre.tables@.len() ==> #[trigger] pre.tables@[u].table_id@ != r.table_id
        },
        !fresh ==> {
            &&& 0 <= t < pre.tables@.len()
            &&& post.tables@ == pre.tables@.update(t, post.tables@[t])
            &&& post.tables@[t].ids() == pre.tables@[t].ids().push(r.order_id)
            &&& pre.tables@[t].table_id@ == r.table_id
        },
    ensures
        post.wf(),
{
    broadcast use vstd::seq_lib::group_seq_properties;

    let pm = pre.model();
    let qm = post.model();
    let n = pm.len();

    // The fresh id is carried by no old order.
    assert forall|k: int| 0 <= k < n implies #[trigger] pm[k].order_id != r.order_id by {
        if pm[k].order_id == r.order_id {
            assert(pre.has_id(r.order_id));
        }
    }

    // Hence the fresh id is listed under no old index entry.
    assert forall|u: int, j: int|
        0 <= u < pre.tables@.len() && 0 <= j < pre.tables@[u].ids().len()
        implies #[trigger] pre.tables@[u].ids()[j] != r.order_id by {
        if pre.tables@[u].ids()[j] == r.order_id {
            assert(pre.has_live(r.order_id, pre.tables@[u].table_id@));
            let k = choose|k: int|
                0 <= k < pm.len() && pm[k].order_id == r.order_id && pm[k].table_id
                    == pre.tables@[u].table_id@;
            assert(pm[k].order_id == r.order_id);
        }
    }

    assert(post.ids_unique());
    assert(post.cooking_times_in_range());
    assert(post.table_keys_unique());

    assert forall|u: int, j1: int, j2: int|
        0 <= u < post.tables@.len() && 0 <= j1 < j2 < post.tables@[u].ids().len()
        implies post.tables@[u].ids()[j1] != post.tables@[u].ids()[j2] by {
        if u == t {
            let pids: Seq<Seq<char>> = if fresh {
                Seq::<Seq<char>>::empty()
            } else {
                pre.tables@[t].ids()
            };
            assert(post.tables@[t].ids() == pids.push(r.order_id));
            if j2 == pids.len() {
                assert(post.tables@[u].ids()[j1] == pids[j1]);
            }
        }
    }

    assert forall|k: int| 0 <= k < qm.len() implies post.table_lists(
        #[trigger] qm[k].table_id,
        qm[k].order_id,
    ) by {
        if k < n {
            let u = choose|u: int|
                0 <= u < pre.tables@.len() && pre.tables@[u].table_id@ == pm[k].table_id
                    && pre.tables@[u].ids().contains(pm[k].order_id);
            assert(pre.table_lists(pm[k].table_id, pm[k].order_id));
            let j = choose|j: int|
                0 <= j < pre.tables@[u].ids().len() && pre.tables@[u].ids()[j] == pm[k].order_id;
            assert(post.tables@[u].ids()[j] == pm[k].order_id);
            assert(post.tables@[u].ids().contains(pm[k].order_id));
        } else {
            let ids = post.tables@[t].ids();
            assert(ids[ids.len() - 1] == r.order_id);
            assert(ids.contains(r.order_id));
        }
    }

    assert forall|u: int, j: int|
        0 <= u < post.tables@.len() && 0 <= j < post.tables@[u].ids().len() implies post.has_live(
        #[trigger] post.tables@[u].ids()[j],
        post.tables@[u].table_id@,
    ) by {
        let oid = post.tables@[u].ids()[j];
        let tid = post.tables@[u].table_id@;
        if u == t && j == post.tables@[u].ids().len() - 1 {
            assert(oid == r.order_id);
            assert(qm[n as int].order_id == oid && qm[n as int].table_id == tid);
        } else {
            assert(pre.tables@[u].ids()[j] == oid && pre.tables@[u].table_id@ == tid);
            assert(pre.has_live(oid, tid));
            let k = choose|k: int|
                0 <= k < pm.len() && pm[k].order_id == oid && pm[k].table_id == tid;
            assert(qm[k].order_id == oid && qm[k].table_id == tid);
        }
    }
}

} // verus!
