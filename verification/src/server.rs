//! Settings and decisions of the development server.
use vstd::prelude::*;
use crate::text::{chars_contain, chars_of, contains_text};

verus! {

/// Settings of the development server.
pub struct Settings {
    pub port: u16,
}

impl Settings {
    /// The default settings: port 8080.
    pub fn new() -> (s: Self)
        ensures
            s.port == 8080,
    {
        Self { port: 8080 }
    }
}

/// Whether a response with this `Content-Type` header value is an HTML page
/// that gets rewritten: the header is present, readable as text, and holds
/// `text/html`.
pub fn is_html_content_type(content_type: Option<&str>) -> (r: bool)
    ensures
        r == match content_type {
            Some(ct) => contains_text(ct@, "text/html"@),
            None => false,
        },
{
    match content_type {
        Some(ct) => {
            let cs = chars_of(ct);
            let pat = chars_of("text/html");
            chars_contain(&cs, &pat)
        },
        None => false,
    }
}

} // verus!
