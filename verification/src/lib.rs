//! Incremental reconciliation of a tree of render nodes.
//!
//! A tree of nodes lives in an arena. A node may hold a dynamic position: the
//! place where a piece of state produces zero or more widgets. When that state
//! changes, the widgets it produced before are replaced by the new ones, nodes
//! that carry the same key on both sides are paired, and a node that asked for
//! a delayed drop lingers, detached, until it is released.
//!
//! - [`arena`]: the store of all nodes, with navigation and relinking;
//! - [`widget`]: what a node renders, what is attached to it, and the
//!   description from which a subtree is built;
//! - [`key`] and [`key_matcher`]: keys, and the pairing of old and new roots;
//! - [`dynamic_widget`]: dynamic positions and the walks around them;
//! - [`splice`]: new roots in the place of old ones;
//! - [`regen`]: the regeneration of one position;
//! - [`layout`]: layout and painting;
//! - [`node_set`]: sets of nodes in the order of arrival;
//! - [`widget_tree`]: the tree, its waiting nodes and notifications;
//! - [`laws`]: what holds of every regeneration and every delayed drop.

pub mod arena;
pub mod dynamic_widget;
pub mod key;
pub mod key_matcher;
pub mod laws;
pub mod layout;
pub mod node_set;
pub mod regen;
pub mod splice;
pub mod widget;
pub mod widget_tree;
