//! Schema layer of an entity-component-system store: canonical bundle
//! signatures, archetype storage slots, composite query fetches and the
//! borrow accounting that guards component access.

pub mod descriptor;
pub mod signature;
pub mod borrow;
pub mod archetype;
pub mod table;
pub mod query;
