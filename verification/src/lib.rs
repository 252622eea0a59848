pub mod api;
pub mod comments;
pub mod crawl;
pub mod site;
pub mod store;
pub mod templates;
pub mod text;
pub mod types;
