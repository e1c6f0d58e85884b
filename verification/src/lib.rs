//! Domain blocking with a radix tree over reversed domain labels, Adblock
//! Plus filter lists, cosmetic (element hiding and scriptlet) rules, and the
//! tree's cache format.
pub mod text;
pub mod domain;
pub mod ip;
pub mod resource_type;
pub mod rule;
pub mod tree;
pub mod js;
pub mod cosmetic;
pub mod abp;
pub mod filter_list;
pub mod cache;

pub use rule::{Action, OriginConstraint, Rule};
pub use tree::DomainTree;
