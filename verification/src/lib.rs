//! An HTTP load balancer's protocol and scheduling logic: reading and writing
//! HTTP/1.1 requests and responses, and the bookkeeping on upstream servers
//! and client request rates.
pub mod text;
pub mod http_model;
pub mod headers;
pub mod head_parse;
pub mod request;
pub mod response;
pub mod requests;
pub mod proxy;
