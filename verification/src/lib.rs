pub mod events;
pub mod ingress;
pub mod inputs;
pub mod matching_loop;
pub mod msgpack;
pub mod orderbook;
pub mod outputs;
pub mod persist;
pub mod routes;
pub mod wire;
