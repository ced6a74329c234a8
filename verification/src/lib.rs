//! tinyapi: a small HTTP API framework. The library decides what a request
//! asks for, which route answers it and what bytes go on the wire; the
//! program around it owns the sockets, the timers and the shared state.
pub mod client;
pub mod log;
pub mod params;
pub mod response;
pub mod routing;
pub mod server;
pub mod split;
pub mod text;

pub use client::{format_post_request, format_request, parse_ip, parse_response, parse_url, HttpResponse};
pub use log::LogBuffer;
pub use response::{response_head, Response};
pub use routing::{match_route, Handler, Request, Router};
pub use server::{header_read_step, parse_request_line, HeaderStep};
