//! Verified core logic of a Veilid node: DHT keys and their encodings,
//! DHT value data, watch-value operations, receipts, the connection table
//! and the decisions of the network and storage managers.

pub mod key;
pub mod value_data;
pub mod subkeys;
pub mod types;
pub mod watch_value;
pub mod receipt_manager;
pub mod connection_table;
pub mod storage_manager;
pub mod opened_records;
pub mod network_manager;
pub mod routing_table;
pub mod rpc;
pub mod intf;
pub mod operations;
pub mod client_api;
