//! A pluggable request-authorization layer for a plain HTTP GET client.
//!
//! An [`Authorizer`](auth::Authorizer) stamps credentials onto an outgoing
//! [`Request`](request::Request) description without the caller knowing which
//! scheme is in use: a pre-formatted bearer token, or HTTP Basic credentials
//! encoded per RFC 7617. The request description and every credential
//! transformation are verified; sending the request over the wire is left to
//! the surrounding application.

pub mod auth;
pub mod base64;
pub mod request;

pub use auth::Authorizer;
pub use auth::BasicAuth;
pub use auth::BearerTokenAuthorizer;
pub use request::ReqView;
pub use request::Request;
