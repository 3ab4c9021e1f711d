//! Conversions between nested YAML trees and flat mappings whose keys are
//! dot-joined paths.

pub mod conversion;
pub mod flat;
pub mod laws;
pub mod path;
pub mod text_order;
pub mod tree;
