pub mod built;
pub mod graph;
pub mod index;
pub mod progress;
pub mod readiness;
pub mod record;
