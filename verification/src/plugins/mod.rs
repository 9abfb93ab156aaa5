//! Plugin market backing: catalog mapping, source resolution, trust, and the
//! `cordis.patch.yml` editors that register plugins with DSH.

pub mod id_blocks;
pub mod id_blocks_flags;
pub mod cordis;
pub mod cordis_rows;
pub mod conflicts;
pub mod market;
pub mod txn;
pub mod deps;
pub mod install;
