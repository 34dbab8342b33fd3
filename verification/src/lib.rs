//! An HTTP/1.1 request parser and dispatcher with machine-checked contracts.
//!
//! - `text`: lines, tokens and substring search over characters.
//! - `headers`: the header map of a request.
//! - `httprequest`: the typed request and the parser that builds it.
//! - `laws`: what holds of the parser on every input.
//! - `httpresponse`: the response and its wire format.
//! - `router`: the dispatch table that picks a handler for a request.
//! - `server`: the server's configuration.
pub mod headers;
pub mod httprequest;
pub mod httpresponse;
pub mod laws;
pub mod router;
pub mod server;
pub mod text;
