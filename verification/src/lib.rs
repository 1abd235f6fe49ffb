//! A distributed actor-mesh core: a labeled multi-dimensional ranking algebra
//! (`Extent`, `Point`, `Region`), a dense rank-indexed `ValueMesh` container
//! with dense and indexed builders, a proc-mesh lifecycle model with
//! supervision-event normalization, and the RDMA queue-pair ring protocol.

pub mod allocator;
pub mod coords;
pub mod extent;
pub mod point;
pub mod proc_mesh;
pub mod rdma;
pub mod region;
pub mod slice;
pub mod text;
pub mod value_mesh;
pub mod view_ops;
