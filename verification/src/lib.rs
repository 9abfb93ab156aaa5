//! Verified core of the PHL instance manager: resource locking, the
//! `cordis.patch.yml` line editor, the session-log codec rules, the data-root
//! migration journal and the environment health model.

pub mod decimal;
pub mod text;
pub mod plugins;
pub mod repair;
pub mod resources;
pub mod runtimes;
pub mod sessions;
pub mod storage;
pub mod tasks;
pub mod verify;
pub mod hexdigits;
pub mod json;
pub mod yaml;
pub mod pipeline;
pub mod guard;
