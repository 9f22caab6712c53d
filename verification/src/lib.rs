//! Verified core of a small web service: HTTP status handling, the JSON
//! response envelope, query-string parsing, request routing, the token check
//! of the authentication middleware and the replies of the user endpoints.

pub mod status;
pub mod response;
pub mod text;
pub mod query;
pub mod numbers;
pub mod json;
pub mod pages;
pub mod auth;
pub mod users;
pub mod interface;
