//! Reconciliation of application command definitions.
//!
//! Given the commands currently registered on a remote platform and the
//! commands an application wants, the reconciler computes a minimal plan
//! of deletions, creations, and in-place updates. Two definitions count
//! as the same when they are structurally equal: optional flags default
//! to `false`, localization maps compare as maps, and options, choices
//! and channel types compare without regard to their listed order.

pub mod data;
pub mod equality;
pub mod laws;
pub mod lex;
pub mod norm;
pub mod reconcile;
pub mod sorting;

pub use data::CommandDefinition;
pub use data::CommandKind;
pub use data::CommandOption;
pub use data::CommandOptionChoice;
pub use data::LocaleMap;
pub use equality::command_eq;
pub use equality::localizations_eq;
pub use reconcile::diff;
pub use reconcile::CommandDiff;
pub use sorting::Sorted;
