//! Request, response and query shapes of the block API.

pub mod query;
pub mod request;
pub mod response;
