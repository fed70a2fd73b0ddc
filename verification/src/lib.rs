//! The DNS side of a small forwarding name server: wire parsing and name
//! compression, the record cache, authoritative answers, EDNS0 options,
//! synthetic host names, query forwarding and DNSSEC.

pub mod addr;
pub mod addr_text;
pub mod answer;
pub mod auth;
pub mod auth_laws;
pub mod blockdata;
pub mod buffer;
pub mod cache;
pub mod cache_laws;
pub mod cache_table;
pub mod cache_types;
pub mod clock;
pub mod compression;
pub mod dnssec;
pub mod domain;
pub mod domain_laws;
pub mod edns0;
pub mod edns0_laws;
pub mod forwarder;
pub mod forwarder_laws;
pub mod hash;
pub mod parser;
pub mod parser_laws;
pub mod protocol;
pub mod reply;
pub mod reply_laws;
pub mod spaces;
pub mod text;
pub mod wire;
