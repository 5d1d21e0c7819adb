//! 4ward: mail for a domain's aliases is relayed to the mailboxes behind them, and messages are
//! sent through an interface with bearer tokens, on AWS SES.
//!
//! - [`forward`] plans and writes the message that is relayed in place of one that came in;
//!   [`address_laws`], [`relay_laws`], [`mark_laws`], [`no_loops`] and [`sealed_loops`] hold what is
//!   proved of it.
//! - [`arc`] seals relayed messages; [`header_laws`], [`relaxed_laws`], [`seal_laws`], [`arc_laws`]
//!   and [`seal_scope`] hold what is proved of seals.
//! - [`handler`], [`api`] and [`auth`] are the sending interface: how a call goes, what a request
//!   may ask for, and who may send; [`request_laws`] holds what is proved of it.
//! - [`config`], [`alias`], [`deploy`], [`dns`], [`setup`] and [`keys`] are behind the command
//!   line: the configuration, its routes, what is deployed of it, and the DNS records;
//!   [`config_laws`] holds what is proved of configurations.
//! - [`routes`] is the routing table that all of these share, and [`text`] the work on
//!   characters, with [`text_laws`].
//! - [`mail`] and [`crypto`] hold what comes from other crates and what is claimed of it, and
//!   [`intake`] which messages are handed to the parser.
pub mod address_laws;
pub mod alias;
pub mod api;
pub mod arc;
pub mod arc_laws;
pub mod auth;
pub mod base64_laws;
pub mod config;
pub mod config_laws;
pub mod crypto;
pub mod deploy;
pub mod dns;
pub mod forward;
pub mod handler;
pub mod header_laws;
pub mod intake;
pub mod keys;
pub mod mail;
pub mod mark_laws;
pub mod no_loops;
pub mod relaxed_laws;
pub mod relay_laws;
pub mod request_laws;
pub mod routes;
pub mod seal_laws;
pub mod seal_scope;
pub mod sealed_loops;
pub mod setup;
pub mod text;
pub mod text_laws;
