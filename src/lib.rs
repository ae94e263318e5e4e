//! Tag store for save backups: tags, their associations with backups and
//! saves, and the release-version comparison used by the update check.

pub mod color;
pub mod laws;
pub mod model;
pub mod tags;
pub mod update_checker;
