//! Buffered transactional key-value storage and the staging pipeline for
//! incoming DHT operations.
pub mod codec;
pub mod dht_op;
pub mod env;
pub mod fixt;
pub mod incoming;
pub mod keymap;
pub mod kvbuf;
pub mod lex;
pub mod limbo;
pub mod table;
