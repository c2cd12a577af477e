//! An in-memory restaurant-order tracking service.
//!
//! Orders associate a menu item with a table and carry a server-assigned
//! cooking time. The [`store`] module holds the verified core: a primary
//! mapping from order id to order and a secondary index from table id to
//! the ids of the orders at that table, so that table-scoped queries need
//! not scan every order. The [`service`] module shares one store among
//! simultaneous request handlers behind a verified reader/writer lock, and
//! the [`adapter`] module maps requests to store operations and outcomes to
//! status codes and bodies.

pub mod adapter;
pub mod service;
pub mod store;
