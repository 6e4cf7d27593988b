//! A minimal HTTP/1.0 redirect checker core: URL decomposition, request
//! construction, response parsing and redirect classification.

pub mod headers;
pub mod redirect;
pub mod response;
pub mod text;
pub mod url;

pub use headers::Headers;
pub use redirect::{
    check_url, classify, get_redirect_url, is_redirect, redirect_without_location, URLResult,
};
pub use response::{parse_headers, parse_response, parse_text, ParseError, Response};
pub use url::{build_request, decompose, tls_domain, Endpoint};
