//! Replays the account operations of a block of transactions as a history of
//! map methods and checks that history for correctness.
#![allow(non_snake_case)]
#![allow(non_camel_case_types)]

pub mod types;
pub mod item;
pub mod model;
pub mod checker;
pub mod block;
pub mod ledger;
pub mod text;
pub mod connector;
pub mod runnable;
pub mod ordered_map;
pub mod key_order;
pub mod conservation;
pub mod flags;
pub mod renaming;
pub mod deciding;
pub mod answer_laws;
