pub use crate::graph::Graph;
pub use crate::graph::flow::Flow;
pub use crate::graph::node::Node;
pub use crate::graph::node::status::Status;
pub use crate::link::Link;
