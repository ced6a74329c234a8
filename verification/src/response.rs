//! HTTP responses: what a handler answers, and the bytes that announce it.
use vstd::prelude::*;
use vstd::slice::slice_to_vec;
use vstd::utf8::encode_utf8;

use crate::text::{
    all_digits, decimal, law_decimal_reads_back, lemma_decimal_digits, lemma_encode_utf8_add,
    parse_unsigned, push_bytes, push_decimal,
};

verus! {

/// An HTTP response that owns its body.
pub struct Response {
    /// The status line's code and reason, such as `200 OK`.
    pub status: &'static str,
    /// The value of the `Content-Type` header.
    pub content_type: &'static str,
    /// The body's bytes.
    pub body: Vec<u8>,
}

/// The largest body length whose `Content-Length` fits the ten digits the server writes.
pub open spec fn max_content_length() -> nat {
    9999999999
}

impl Response {
    /// A `200 OK` plain-text response.
    pub fn text(body: &str) -> (r: Self)
        ensures
            r.status@ == "200 OK"@,
            r.content_type@ == "text/plain"@,
            r.body@ == encode_utf8(body@),
    {
        Response { status: "200 OK", content_type: "text/plain", body: slice_to_vec(body.as_bytes()) }
    }

    /// A `200 OK` HTML response.
    pub fn html(body: &str) -> (r: Self)
        ensures
            r.status@ == "200 OK"@,
            r.content_type@ == "text/html; charset=utf-8"@,
            r.body@ == encode_utf8(body@),
    {
        Response {
            status: "200 OK",
            content_type: "text/html; charset=utf-8",
            body: slice_to_vec(body.as_bytes()),
        }
    }

    /// A `200 OK` JavaScript response.
    pub fn script(body: &str) -> (r: Self)
        ensures
            r.status@ == "200 OK"@,
            r.content_type@ == "application/javascript; charset=utf-8"@,
            r.body@ == encode_utf8(body@),
    {
        Response {
            status: "200 OK",
            content_type: "application/javascript; charset=utf-8",
            body: slice_to_vec(body.as_bytes()),
        }
    }

    /// The `404 Not Found` response that answers a request no route takes.
    pub fn not_found() -> (r: Self)
        ensures
            r.is_not_found(),
    {
        Response {
            status: "404 Not Found",
            content_type: "text/html",
            body: slice_to_vec("<h1>404 Not Found</h1>".as_bytes()),
        }
    }

    /// This is the `404 Not Found` response.
    pub open spec fn is_not_found(&self) -> bool {
        &&& self.status@ == "404 Not Found"@
        &&& self.content_type@ == "text/html"@
        &&& self.body@ == encode_utf8("<h1>404 Not Found</h1>"@)
    }
}

/// The status line and headers that go before a body of `body_len` bytes.
pub open spec fn head_bytes(status: Seq<char>, content_type: Seq<char>, body_len: nat) -> Seq<u8> {
    encode_utf8("HTTP/1.1 "@ + status + "\r\nContent-Type: "@ + content_type
        + "\r\nContent-Length: "@) + decimal(body_len) + encode_utf8(
        "\r\nConnection: close\r\n\r\n"@,
    )
}

/// The bytes that go on the wire before `resp`'s body: the status line, then
/// `Content-Type`, `Content-Length` and `Connection: close`, then a blank line.
pub fn response_head(resp: &Response) -> (r: Vec<u8>)
    requires
        resp.body@.len() <= max_content_length(),
    ensures
        r@ == head_bytes(resp.status@, resp.content_type@, resp.body@.len()),
{
    let mut out: Vec<u8> = Vec::new();
    push_bytes(&mut out, "HTTP/1.1 ".as_bytes());
    push_bytes(&mut out, resp.status.as_bytes());
    push_bytes(&mut out, "\r\nContent-Type: ".as_bytes());
    push_bytes(&mut out, resp.content_type.as_bytes());
    push_bytes(&mut out, "\r\nContent-Length: ".as_bytes());
    push_decimal(&mut out, resp.body.len());
    push_bytes(&mut out, "\r\nConnection: close\r\n\r\n".as_bytes());
    proof {
        let a = "HTTP/1.1 "@;
        let b = resp.status@;
        let c = "\r\nContent-Type: "@;
        let d = resp.content_type@;
        let e = "\r\nContent-Length: "@;
        lemma_encode_utf8_add(a, b);
        lemma_encode_utf8_add(a + b, c);
        lemma_encode_utf8_add(a + b + c, d);
        lemma_encode_utf8_add(a + b + c + d, e);
        assert(out@ =~= head_bytes(resp.status@, resp.content_type@, resp.body@.len()));
    }
    out
}

/// The head announces the body's true length: after the status line and the
/// `Content-Type` line comes `Content-Length: `, then decimal digits that read as
/// exactly `body_len`, then the line end, `Connection: close` and a blank line.
pub proof fn law_head_announces_length(status: Seq<char>, content_type: Seq<char>, body_len: nat)
    ensures
        exists|digits: Seq<u8>|
            {
                &&& head_bytes(status, content_type, body_len) == encode_utf8(
                    "HTTP/1.1 "@ + status + "\r\nContent-Type: "@ + content_type
                        + "\r\nContent-Length: "@,
                ) + digits + encode_utf8("\r\nConnection: close\r\n\r\n"@)
                &&& all_digits(digits)
                &&& #[trigger] parse_unsigned(digits, body_len) == Some(body_len)
            },
{
    lemma_decimal_digits(body_len);
    law_decimal_reads_back(body_len, body_len);
    assert(parse_unsigned(decimal(body_len), body_len) == Some(body_len));
}

} // verus!
