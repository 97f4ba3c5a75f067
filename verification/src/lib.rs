//! A locally cached, date-ordered index of remote mail messages.
//!
//! The crate keeps the decisions of a mail client's background subsystem:
//! which messages to fetch, how the outcomes of a batch of fetches become an
//! ordered batch of records, how a batch is merged into the cached index,
//! and how one synchronisation run moves from step to step. Work on the
//! network and on disk is done by the caller, which hands plain values in
//! and takes plain values back.

pub mod display;
pub mod index;
pub mod mail;
pub mod merge;
pub mod order;
pub mod record;
pub mod sync;
