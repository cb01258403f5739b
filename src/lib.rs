//! Verified core of a DAG-based consensus pipeline: the mempool's priority,
//! timeline, expiration and parking-lot indexes; the certificate DAG store,
//! its round driver and the order rule's linearization; the interleaving of
//! three DAG instances into one block stream; the parallel executor's value
//! encodings and control signals; and the gas profiler's accounting and
//! reconciliation.

pub mod cex;
pub mod types;
pub mod priority;
pub mod transaction;
pub mod timeline;
pub mod dag_store;
pub mod dag_driver;
pub mod order_notifier;
pub mod delayed_field;
pub mod resource_group;
pub mod gas_log;
pub mod account_txns;
pub mod ttl;
pub mod parking_lot;
pub mod broadcast_sync;
pub mod executor;
pub mod order_rule;
