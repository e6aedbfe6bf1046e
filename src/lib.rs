pub mod arch;
pub mod block;
pub mod cfg;
pub mod cycle;
pub mod duplicate;
pub mod graph;
pub mod jump;
pub mod loader;
pub mod paths;
pub mod scc;
pub mod wcet;
