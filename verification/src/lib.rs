pub mod config;
pub mod dep_info;
pub mod dep_kind;
pub mod error;
pub mod graph;
pub mod metadata;
pub mod package;
pub mod propagate;
pub mod reduce;

pub use config::Config;
pub use dep_info::DepInfo;
pub use dep_kind::DepKind;
pub use error::GraphError;
pub use graph::{DepGraph, Edge, get_dep_graph};
pub use metadata::{DepKindInfo, Metadata, PackageRecord, Resolve, ResolveDep, ResolveNode, skip_dep};
pub use package::Package;
pub use propagate::update_dep_info;
pub use reduce::dedup_transitive_deps;
