//! Static reuse-distance analysis of affine loop nests.
//!
//! A loop nest is built as a tree of [`ast::Node`]s, each array gets a packed
//! base offset, and a virtual execution of the tree yields, for every array
//! access, the logical time since the same cache line of the same array was
//! last touched.
//!
//! - [`ast`]: the tree, its view, and preorder.
//! - [`iter`]: preorder traversal with an explicit stack.
//! - [`construct`]: building nests, subscripts, insertion and loop ranks.
//! - [`arybase`]: address assignment.
//! - [`trace`]: addresses, the virtual execution, and its laws.
//! - [`hist`]: the reuse-distance histogram.
//! - [`polybench`]: loop nests of common kernels.
//! - [`lease_cache`]: a lease cache with random eviction.

pub mod arybase;
pub mod ast;
pub mod construct;
pub mod hist;
pub mod iter;
pub mod lease_cache;
pub mod polybench;
pub mod trace;
