//! Release orchestration for a workspace of packages: manifest scanning,
//! publish ordering, release-note lookup and tag planning, with every
//! function specified over sequences of characters and proved against
//! that specification.

pub mod text;
pub mod utils;
pub mod toml;
pub mod markdown;
pub mod sections;
pub mod graph;
pub mod package;
pub mod dependencies;
pub mod notes;
pub mod workspace;
pub mod publish;
pub mod pipeline;
pub mod nesting;
