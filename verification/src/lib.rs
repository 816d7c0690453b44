//! The decisions of a client for embedded seekdb: what connection options say, where a database
//! directory and its socket lie, what the C driver is given, which open instance a session shares,
//! and when its handle is closed. Opening, closing and talking SQL are left to the caller.

pub mod driver;
pub mod error;
pub mod location;
pub mod opts;
pub mod outside;
pub mod path;
pub mod registry;
pub mod session;
pub mod text;
pub mod url;

pub use crate::driver::validate_params;
pub use crate::error::Error;
pub use crate::opts::Opts;
pub use crate::opts::OptsBuilder;
pub use crate::path::PosixPath;
