//! Relune layout engine: graph construction, ranking, ordering and the
//! deterministic policies used to lay out entity-relationship diagrams.

pub mod channel;
pub mod schema;
pub mod graph;
pub mod rank;
pub mod overlay;
pub mod tally;
pub mod order;
pub mod text;
pub mod builder;
pub mod focus;
pub mod diagram_names;
pub mod diagram_export;
pub mod layout;
pub mod routing_order;
pub mod clusters;
