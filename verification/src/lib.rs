//! A verified inventory core for a small pharmacy: a product model, a
//! persistence codec for the inventory file, a rule-based bundle advisor,
//! and the decision logic of the interactive menu.

pub mod advisor;
pub mod codec;
pub mod product;
pub mod shell;
