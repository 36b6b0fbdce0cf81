//! A DynDNS2-style dynamic DNS update service library.
//!
//! The library holds the verified core of the service: parsing and
//! normalising the client-supplied IP list, the origin subdomain policy,
//! reconciling requested addresses against existing DNS records, and the
//! pure decision logic of the REST DNS provider (zone resolution and
//! record conversion). All network I/O is performed by the surrounding
//! application, which drives the decision functions defined here.

pub mod cloudflare;
pub mod dyndns;
pub mod ipv4;
pub mod ipv6;
pub mod provider;
pub mod text;
