//! Incrementally maintained PostgreSQL views: what is decided and computed
//! between the server's answers.
//!
//! * [`query`] and [`definition`]: which definitions are views, and what a view
//!   is made of;
//! * [`pgoutput`], [`wire`] and [`lsn`]: the decoded change stream;
//! * [`apply`], [`json`], [`worker`], [`round`] and [`poll`]: how changes reach
//!   views and the delta log;
//! * [`shadow`], [`populate`], [`api`] and [`command`]: how views are created,
//!   built, refreshed, dropped and read;
//! * [`client`]: how a view is followed from outside;
//! * [`errors`], [`guc`], [`idle`], [`quote`], [`statement`] and [`text`]: what
//!   these have in common.
pub mod api;
pub mod apply;
pub mod client;
pub mod command;
pub mod definition;
pub mod errors;
pub mod guc;
pub mod idle;
pub mod json;
pub mod lsn;
pub mod pgoutput;
pub mod poll;
pub mod populate;
pub mod query;
pub mod quote;
pub mod round;
pub mod shadow;
pub mod statement;
pub mod text;
pub mod wire;
pub mod worker;
