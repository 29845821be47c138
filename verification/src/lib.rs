//! The verified core of an HTTP-aware TCP reverse proxy and load balancer: the incremental
//! parser of request heads, the reading of response heads and chunked bodies, round-robin
//! backend selection, and the per-connection state machine that decides what the proxy does
//! next.

pub mod scan;
pub mod text;
pub mod head;
pub mod response;
pub mod request_laws;
pub mod parser_laws;
pub mod chunked;
pub mod lb;
pub mod check_valid;
pub mod config;
pub mod connection;
