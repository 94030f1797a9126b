//! Styling: property values, computed styles, selectors and the cascade.

pub mod laws;
pub mod properties;
pub mod selectors;
pub mod style_set;
pub mod user_agent;
pub mod values;
