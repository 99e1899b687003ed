pub mod jops;
pub mod laws;
pub mod path;
pub mod api;
pub mod checks;
pub mod subst;
pub mod jparse;
pub mod json;
pub mod text;
