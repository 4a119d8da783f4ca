//! Call-graph analysis library: a graph of functions and call edges, each
//! edge annotated with a pair of property bitmasks, with name resolution,
//! constrained shortest-path queries, and cycle-tolerant root/sink
//! derivation over one immutable snapshot loaded from a line-oriented
//! description.

mod callgraph;
mod derive;
mod describe;
mod ingest;
mod laws;
mod matcher;
mod pgraph;
mod propjson;
mod props;
mod resolve;
mod routes;
mod rx;
mod stems;
mod text;

pub use callgraph::Callgraph;
pub use callgraph::DescriptionBrevity;
pub use ingest::LoadError;
pub use ingest::load_graph;
pub use matcher::Matcher;
pub use props::PropertySet;
pub use stems::stem;
