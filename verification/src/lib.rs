//! Growable vector with an explicit capacity policy, and the stack, binary
//! heaps and open-addressing hash set built on it.

pub mod ansv;
pub mod hash;
pub mod heap;
pub mod order;
pub mod stack;
pub mod vec;

pub use vec::IntoIter;
pub use vec::MyVec;
pub use ansv::compute_ansv;
pub use hash::HashElement;
pub use hash::MyHashSet1;
pub use heap::KeyWithOffset;
pub use heap::MyHeap;
pub use heap::MyHeapKeys;
pub use heap::MyMaxHeap;
pub use heap::MyMaxHeapKeys;
pub use heap::MyMinHeap;
pub use heap::MyMinHeapKeys;
pub use order::TotalPreorder;
pub use stack::MyStack;
