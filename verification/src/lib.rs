//! Node model for an XPath-style query evaluator over a mutable XML
//! document tree: a single polymorphic node handle unifying the six node
//! kinds (document root, element, attribute, text, comment, processing
//! instruction) behind one navigable type, and an ordered, duplicate-tolerant
//! collection of such handles (a nodeset) that can determine which member
//! occurs first in document order.
//!
//! Nodes live in an arena owned by a [`dom::Document`]; handles are
//! cheap-to-copy, identity-comparable references addressed by stable integer
//! indices, so equality of two handles means they name the same node of the
//! same document.

pub mod dom;
pub mod node;
pub mod nodeset;
pub mod order;
