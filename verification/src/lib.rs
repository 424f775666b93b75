//! What the leader of a chain buffers, ranks and schedules: packets, votes and bundles.
//!
//! The banking stage keeps packets in `unprocessed_packet_batches` and `votes`, and the bundle
//! stage keeps bundles in `bundle_storage`; `unprocessed_transaction_storage` is the storage of
//! one thread, of whichever kind. Packets are offered to the next leader by `forwarding` and are
//! given out in batches by `consume`, which scans them with the `scanner` under `account_locks`.
//! `bundle_ranking` puts bundles in the order of what they pay, `bundle_priority_queue` lets them
//! compete, and `scheduler_controller` weighs the best of them against the transactions of
//! `transaction_container`.
//!
//! The bank, the forward buffer and the worker threads are not part of this library: what they
//! decide comes in as arguments, or through functions that the caller hands over. `services` records
//! every call of such a function, so that a contract can say how often and with what it is called. A
//! contract says what holds for every answer that its `requires` admits.

pub mod account_locks;
pub mod ages;
pub mod bundle;
pub mod bundle_channel;
pub mod bundle_laws;
pub mod bundle_priority_queue;
pub mod bundle_ranking;
pub mod bundle_storage;
pub mod cleaning;
pub mod consume;
pub mod consume_laws;
pub mod forwarding;
pub mod forwarding_laws;
pub mod key_lists;
pub mod keys;
pub mod metrics;
pub mod operation_laws;
pub mod packet;
pub mod packet_map;
pub mod packet_queue;
pub mod retention;
pub mod scanner;
pub mod scheduler_controller;
pub mod scheduler_laws;
pub mod scheduler_metrics;
pub mod services;
pub mod thread_local_packets;
pub mod timing;
pub mod transaction_container;
pub mod unprocessed_packet_batches;
pub mod unprocessed_transaction_storage;
pub mod validator_auth;
pub mod vote_storage;
pub mod votes;
pub mod votes_laws;
