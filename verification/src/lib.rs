//! A queue of transactions that wait to be put into a block, the rules by which a node serves a
//! light client, and the settings that a node remembers between launches.
//!
//! The queue is in [`transaction_queue`]. What its methods do is stated over an abstract state, by the
//! functions in [`queue_model`]; what holds of the queue as a whole is stated in [`queue_laws`]. What each
//! operation does is told apart from that, by what a caller sees, in [`queue_effects`],
//! [`import_effects`], [`removal_effects`] and [`status_effects`], on the grounds of [`order_laws`] and
//! [`set_laws`]. The same is done for the other parts in [`provider_laws`] and [`defaults_laws`].
pub mod defaults_laws;
pub mod gas_price_queue;
pub mod import_effects;
pub mod json;
pub mod local_transactions;
pub mod order;
pub mod order_laws;
pub mod order_set;
pub mod provider;
pub mod provider_laws;
pub mod queue_effects;
pub mod queue_laws;
pub mod queue_lemmas;
pub mod queue_lists;
pub mod queue_marks;
pub mod queue_model;
pub mod removal_effects;
pub mod rlp_list;
pub mod set_laws;
pub mod status_effects;
pub mod transaction;
pub mod transaction_queue;
pub mod transaction_set;
pub mod uint;
pub mod user_defaults;
pub mod vec_map;
