pub mod node;
pub mod iter;
pub mod helper;
pub mod list;
pub mod laws;

pub use list::TreeList;
