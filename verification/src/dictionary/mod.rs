pub mod adapters;
pub mod aggregate;
pub mod bubble_html;
pub mod bubble_preview;
pub mod bundle;
pub mod lookup;
pub mod lookup_rules;
pub mod lookup_state;
pub mod model;
pub mod presentation;
pub mod preview_assets;
