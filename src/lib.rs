//! Memory-management primitives for a small kernel: intrusive linked
//! collections, and a buddy-block heap allocator whose free lists are built
//! on them.
pub mod link;
pub mod node;
pub mod list;
pub mod singly;
pub mod stack;
pub mod log2;
pub mod frame;
pub mod buddy;

pub use buddy::{FreeBlock, Heap};
pub use frame::{AllocErr, Frame, FrameAllocator, FrameCache, MockAddress, MockFrame};
pub use link::{Link, Links};
pub use list::{Cursor, CursorMut, List};
pub use log2::Log2;
pub use node::{Node, NumberedNode};
pub use stack::Stack;
