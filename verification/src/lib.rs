//! A disjoint-set (union-find) engine using the quick-union strategy with
//! path halving, generic over an element payload and a caller-supplied
//! merge policy.
//!
//! Elements are identified by dense indices assigned sequentially on
//! insertion. Each element carries a parent link; following parent links
//! terminates at a root, the canonical representative of the element's set.
//! Only root slots of the payload store hold a live value. Merging two sets
//! asks the payload's merge policy which root survives and what the combined
//! payload becomes.

pub mod links;
pub mod policy;
pub mod forest;
pub mod quick_union;

pub use policy::Union;
pub use policy::UnionResult;
pub use quick_union::QuickUnionUf;
