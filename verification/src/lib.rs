pub mod text;
pub mod route_match;
pub mod route_files;
pub mod reactive;
pub mod signals;
pub mod context;
pub mod query;
pub mod keyed;
pub mod view_attrs;
pub mod router;
pub mod fetch;
pub mod cli;
pub mod boundary;
pub mod markup;
pub mod app_files;
pub mod arrow;
pub mod route_list;
