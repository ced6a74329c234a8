//! The HTTP client's logic: reading a URL and a dotted address, writing a
//! request into a caller's buffer, and reading the status and body of a reply.
use vstd::prelude::*;
use vstd::slice::slice_subrange;
use vstd::utf8::*;

use crate::server::{ends_with_blank_line, first_line, request_method, request_target, request_text};
use crate::split::{
    is_unicode_whitespace, law_tokens_concat, lemma_pieces_concat, lemma_tokens_plain, pieces,
    split_pieces, tokens,
    views, Separator,
};
use crate::response::head_bytes;
use crate::text::{
    all_digits, decimal, decimal_text, digits_value, find_char, index_of, is_digit_byte,
    law_decimal_reads_back, lemma_decimal_digits, lemma_decimal_text, lemma_encode_utf8_add, parse_decimal, parse_unsigned, str_eq,
    str_from_utf8,
};

verus! {

/// The reply to an HTTP request; the body is a slice of the caller's buffer.
pub struct HttpResponse<'a> {
    /// The status code, 0 where the status line holds none.
    pub status: u16,
    /// The bytes after the header.
    pub body: &'a [u8],
}

/// A URL without a leading `http://`.
pub open spec fn after_scheme(u: Seq<char>) -> Seq<char> {
    if u.len() >= 7 && u.take(7) == "http://"@ {
        u.skip(7)
    } else {
        u
    }
}

/// The host and port part of a URL: up to the first `/` after the scheme.
pub open spec fn url_authority(u: Seq<char>) -> Seq<char> {
    let r = after_scheme(u);
    r.take(index_of(r, '/'))
}

/// The path of a URL: from the first `/` after the scheme, `/` where there is none.
pub open spec fn url_path(u: Seq<char>) -> Seq<char> {
    let r = after_scheme(u);
    let i = index_of(r, '/');
    if i < r.len() {
        r.skip(i)
    } else {
        "/"@
    }
}

/// The host of a URL: its authority up to the first `:`.
pub open spec fn url_host(u: Seq<char>) -> Seq<char> {
    let a = url_authority(u);
    a.take(index_of(a, ':'))
}

/// The port of a URL: the number after the authority's first `:`; 80 where there is
/// no `:` or what follows it is not a port number.
pub open spec fn url_port(u: Seq<char>) -> u16 {
    let a = url_authority(u);
    let j = index_of(a, ':');
    if j < a.len() {
        match parse_unsigned(encode_utf8(a.skip(j + 1)), 65535) {
            Some(p) => p as u16,
            None => 80,
        }
    } else {
        80
    }
}

/// Splits `url` into host, port and path. It never fails.
pub fn parse_url<'a>(url: &'a str) -> (r: Result<(&'a str, u16, &'a str), ()>)
    ensures
        r matches Ok((host, port, path)) && host@ == url_host(url@) && port == url_port(url@)
            && path@ == url_path(url@),
{
    let len = url.unicode_len();
    let rest = if len >= 7 && str_eq(url.substring_char(0, 7), "http://") {
        url.substring_char(7, len)
    } else {
        url
    };
    assert(rest@ == after_scheme(url@));
    let rlen = rest.unicode_len();
    let i = find_char(rest, '/');
    let authority = rest.substring_char(0, i);
    let path = if i < rlen {
        rest.substring_char(i, rlen)
    } else {
        "/"
    };
    let alen = authority.unicode_len();
    let j = find_char(authority, ':');
    let host = authority.substring_char(0, j);
    let port = if j < alen {
        let digits = authority.substring_char(j + 1, alen);
        assert(digits@ == authority@.skip(j + 1));
        match parse_decimal(digits.as_bytes(), 65535) {
            Some(p) => p,
            None => 80,
        }
    } else {
        80
    };
    Ok((host, port, path))
}

/// The octet that a piece of a dotted address stands for, as `str::parse::<u8>` reads it.
pub open spec fn octet(piece: Seq<char>) -> Option<nat> {
    parse_unsigned(encode_utf8(piece), 255)
}

/// The four octets of a dotted IPv4 address: exactly four pieces between dots, each an
/// octet.
pub open spec fn ipv4_octets(host: Seq<char>) -> Option<Seq<u8>> {
    let ps = pieces(host, Separator::Dot);
    if ps.len() == 4 && forall|i: int| 0 <= i < 4 ==> (#[trigger] octet(ps[i])) is Some {
        Some(Seq::new(4, |i: int| octet(ps[i])->0 as u8))
    } else {
        None
    }
}

/// Reads a dotted IPv4 address such as `192.168.1.10` into its four octets.
pub fn parse_ip(host: &str) -> (r: Result<[u8; 4], ()>)
    ensures
        ipv4_octets(host@) is None ==> r is Err,
        ipv4_octets(host@) matches Some(o) ==> (r matches Ok(a) && a@ == o),
{
    let parts = split_pieces(host, Separator::Dot);
    let ghost ps = pieces(host@, Separator::Dot);
    let mut octets: Vec<u8> = Vec::new();
    let mut idx: usize = 0;
    while idx < parts.len()
        invariant
            idx <= parts.len(),
            views(parts@) == ps,
            ps == pieces(host@, Separator::Dot),
            octets@.len() == idx,
            idx <= 4,
            forall|k: int| 0 <= k < idx ==> (#[trigger] octet(ps[k])) == Some(octets@[k] as nat),
        decreases parts.len() - idx,
    {
        if idx >= 4 {
            return Err(());
        }
        let piece = parts[idx];
        assert(ps[idx as int] == piece@);
        match parse_decimal(piece.as_bytes(), 255) {
            Some(v) => {
                octets.push(v as u8);
            },
            None => {
                assert(octet(ps[idx as int]) is None);
                return Err(());
            },
        }
        idx = idx + 1;
    }
    if idx != 4 {
        return Err(());
    }
    let a = [octets[0], octets[1], octets[2], octets[3]];
    proof {
        let o = Seq::new(4, |i: int| octet(ps[i])->0 as u8);
        assert(a@ =~= o);
    }
    Ok(a)
}

/// `buf` after the message `msg` is written into it from the start, cut off where the
/// buffer ends: the bytes beyond stay as they were.
pub open spec fn fill(buf: Seq<u8>, msg: Seq<u8>) -> Seq<u8> {
    let n = fill_len(buf, msg);
    msg.take(n) + buf.skip(n)
}

/// How much of `msg` fits in `buf`.
pub open spec fn fill_len(buf: Seq<u8>, msg: Seq<u8>) -> int {
    if msg.len() <= buf.len() {
        msg.len() as int
    } else {
        buf.len() as int
    }
}

/// Writes `bytes` into `buf` from `pos` on, as far as the buffer reaches; returns the
/// position after the last byte written.
fn put_bytes(buf: &mut [u8], pos: usize, bytes: &[u8]) -> (r: usize)
    requires
        pos <= old(buf)@.len(),
    ensures
        final(buf)@.len() == old(buf)@.len(),
        r == pos + fill_len(old(buf)@.skip(pos as int), bytes@),
        final(buf)@ == old(buf)@.take(pos as int) + bytes@.take(r - pos) + old(buf)@.skip(r as int),
{
    let mut p = pos;
    let mut k: usize = 0;
    while k < bytes.len()
        invariant
            pos <= p <= buf@.len(),
            buf@.len() == old(buf)@.len(),
            k <= bytes@.len(),
            p - pos == if k <= old(buf)@.len() - pos { k as int } else { old(buf)@.len() - pos },
            buf@ == old(buf)@.take(pos as int) + bytes@.take(p - pos) + old(buf)@.skip(p as int),
        decreases bytes@.len() - k,
    {
        if p < buf.len() {
            let ghost before = buf@;
            buf[p] = bytes[k];
            assert(buf@ =~= old(buf)@.take(pos as int) + bytes@.take(p + 1 - pos) + old(buf)@.skip(
                p + 1,
            ));
            p = p + 1;
        }
        k = k + 1;
    }
    p
}

proof fn lemma_fill_step(orig: Seq<u8>, m: Seq<u8>, b: Seq<u8>, now: Seq<u8>, after: Seq<u8>, p: int, q: int)
    requires
        now == fill(orig, m),
        p == fill_len(orig, m),
        now.len() == orig.len(),
        q == p + fill_len(now.skip(p), b),
        after == now.take(p) + b.take(q - p) + now.skip(q),
    ensures
        after == fill(orig, m + b),
        q == fill_len(orig, m + b),
{
    assert(now.take(p) =~= m.take(p));
    assert(now.skip(q) =~= orig.skip(q));
    if m.len() <= orig.len() {
        assert((m + b).take(q) =~= m + b.take(q - p));
    } else {
        assert((m + b).take(q) =~= m.take(p));
    }
    assert(after =~= fill(orig, m + b));
}

/// The request line and headers of a `GET`-style request for `path` on `host`.
pub open spec fn request_bytes(method: Seq<char>, host: Seq<char>, path: Seq<char>) -> Seq<u8> {
    encode_utf8(method + " "@ + path + " HTTP/1.1\r\nHost: "@ + host
        + "\r\nConnection: close\r\n\r\n"@)
}

/// Writes a request for `path` on `host` with `method` into `buf`, as much as fits;
/// returns how many bytes were written.
pub fn format_request(buf: &mut [u8], method: &str, host: &str, path: &str) -> (r: usize)
    ensures
        r == fill_len(old(buf)@, request_bytes(method@, host@, path@)),
        final(buf)@ == fill(old(buf)@, request_bytes(method@, host@, path@)),
{
    let ghost orig = buf@;
    let ghost m0 = Seq::<u8>::empty();
    assert(fill(orig, m0) =~= orig);
    let b1 = method.as_bytes();
    let ghost now = buf@;
    let p1 = put_bytes(buf, 0, b1);
    proof {
        lemma_fill_step(orig, m0, b1@, now, buf@, 0, p1 as int);
    }
    let ghost m1 = m0 + b1@;
    let b2 = " ".as_bytes();
    let ghost now = buf@;
    let p2 = put_bytes(buf, p1, b2);
    proof {
        lemma_fill_step(orig, m1, b2@, now, buf@, p1 as int, p2 as int);
    }
    let ghost m2 = m1 + b2@;
    let b3 = path.as_bytes();
    let ghost now = buf@;
    let p3 = put_bytes(buf, p2, b3);
    proof {
        lemma_fill_step(orig, m2, b3@, now, buf@, p2 as int, p3 as int);
    }
    let ghost m3 = m2 + b3@;
    let b4 = " HTTP/1.1\r\nHost: ".as_bytes();
    let ghost now = buf@;
    let p4 = put_bytes(buf, p3, b4);
    proof {
        lemma_fill_step(orig, m3, b4@, now, buf@, p3 as int, p4 as int);
    }
    let ghost m4 = m3 + b4@;
    let b5 = host.as_bytes();
    let ghost now = buf@;
    let p5 = put_bytes(buf, p4, b5);
    proof {
        lemma_fill_step(orig, m4, b5@, now, buf@, p4 as int, p5 as int);
    }
    let ghost m5 = m4 + b5@;
    let b6 = "\r\nConnection: close\r\n\r\n".as_bytes();
    let ghost now = buf@;
    let p6 = put_bytes(buf, p5, b6);
    proof {
        lemma_fill_step(orig, m5, b6@, now, buf@, p5 as int, p6 as int);
        let m6 = m5 + b6@;
        let a = method@;
        let b = " "@;
        let c = path@;
        let d = " HTTP/1.1\r\nHost: "@;
        let e = host@;
        let f = "\r\nConnection: close\r\n\r\n"@;
        lemma_encode_utf8_add(a, b);
        lemma_encode_utf8_add(a + b, c);
        lemma_encode_utf8_add(a + b + c, d);
        lemma_encode_utf8_add(a + b + c + d, e);
        lemma_encode_utf8_add(a + b + c + d + e, f);
        assert(m6 =~= request_bytes(method@, host@, path@));
    }
    p6
}

/// The `Content-Length` digits that a `POST` request carries for a body of `len` bytes:
/// up to three digits, hundreds first, each only where the length reaches it. Past 999
/// the hundreds digit is `len / 100` cut to a byte, which is no longer a decimal digit.
pub open spec fn length_digits(len: nat) -> Seq<u8> {
    (if len >= 100 {
        seq![(48 + (len / 100) % 256) as u8]
    } else {
        Seq::empty()
    }) + (if len >= 10 {
        seq![(48 + (len / 10) % 10) as u8]
    } else {
        Seq::empty()
    }) + seq![(48 + len % 10) as u8]
}

/// A body length whose `Content-Length` digits can be written: below 100, or with a
/// hundreds count that stays within a byte once `'0'` is added to it.
pub open spec fn post_length_ok(len: nat) -> bool {
    len < 100 || (len / 100) % 256 < 208
}

/// For bodies shorter than 1000 bytes, the `Content-Length` digits are the length in
/// decimal.
pub proof fn lemma_short_length_digits(len: nat)
    requires
        len < 1000,
    ensures
        length_digits(len) == decimal(len),
{
    reveal_with_fuel(decimal, 3);
    if len < 10 {
        assert(length_digits(len) =~= decimal(len));
    } else if len < 100 {
        assert(len / 10 < 10);
        assert(length_digits(len) =~= decimal(len));
    } else {
        assert(len / 10 >= 10);
        assert((len / 10) / 10 == len / 100);
        assert((len / 10) % 10 == (len / 10) % 10);
        assert(len / 100 < 10);
        assert(decimal(len / 10) =~= seq![(48 + len / 100) as u8, (48 + (len / 10) % 10) as u8]);
        assert(length_digits(len) =~= decimal(len));
    }
}

/// The request line, headers and body of a `POST` request.
pub open spec fn post_request_bytes(
    host: Seq<char>,
    path: Seq<char>,
    content_type: Seq<char>,
    body: Seq<u8>,
) -> Seq<u8> {
    encode_utf8("POST "@ + path + " HTTP/1.1\r\nHost: "@ + host + "\r\nContent-Type: "@
        + content_type + "\r\nContent-Length: "@) + length_digits(body.len()) + encode_utf8(
        "\r\n\r\n"@,
    ) + body
}

/// Writes a `POST` request for `path` on `host` carrying `body` of type `content_type`
/// into `buf`, as much as fits; returns how many bytes were written.
pub fn format_post_request(
    buf: &mut [u8],
    host: &str,
    path: &str,
    content_type: &str,
    body: &[u8],
) -> (r: usize)
    requires
        post_length_ok(body@.len()),
    ensures
        r == fill_len(old(buf)@, post_request_bytes(host@, path@, content_type@, body@)),
        final(buf)@ == fill(old(buf)@, post_request_bytes(host@, path@, content_type@, body@)),
{
    let len = body.len();
    let mut digits: Vec<u8> = Vec::new();
    if len >= 100 {
        digits.push(48u8 + ((len / 100) % 256) as u8);
    }
    if len >= 10 {
        digits.push(48u8 + ((len / 10) % 10) as u8);
    }
    digits.push(48u8 + (len % 10) as u8);
    assert(digits@ =~= length_digits(len as nat));
    let ghost orig = buf@;
    let ghost m0 = Seq::<u8>::empty();
    assert(fill(orig, m0) =~= orig);
    let b1 = "POST ".as_bytes();
    let ghost now = buf@;
    let p1 = put_bytes(buf, 0, b1);
    proof {
        lemma_fill_step(orig, m0, b1@, now, buf@, 0, p1 as int);
    }
    let ghost m1 = m0 + b1@;
    let b2 = path.as_bytes();
    let ghost now = buf@;
    let p2 = put_bytes(buf, p1, b2);
    proof {
        lemma_fill_step(orig, m1, b2@, now, buf@, p1 as int, p2 as int);
    }
    let ghost m2 = m1 + b2@;
    let b3 = " HTTP/1.1\r\nHost: ".as_bytes();
    let ghost now = buf@;
    let p3 = put_bytes(buf, p2, b3);
    proof {
        lemma_fill_step(orig, m2, b3@, now, buf@, p2 as int, p3 as int);
    }
    let ghost m3 = m2 + b3@;
    let b4 = host.as_bytes();
    let ghost now = buf@;
    let p4 = put_bytes(buf, p3, b4);
    proof {
        lemma_fill_step(orig, m3, b4@, now, buf@, p3 as int, p4 as int);
    }
    let ghost m4 = m3 + b4@;
    let b5 = "\r\nContent-Type: ".as_bytes();
    let ghost now = buf@;
    let p5 = put_bytes(buf, p4, b5);
    proof {
        lemma_fill_step(orig, m4, b5@, now, buf@, p4 as int, p5 as int);
    }
    let ghost m5 = m4 + b5@;
    let b6 = content_type.as_bytes();
    let ghost now = buf@;
    let p6 = put_bytes(buf, p5, b6);
    proof {
        lemma_fill_step(orig, m5, b6@, now, buf@, p5 as int, p6 as int);
    }
    let ghost m6 = m5 + b6@;
    let b7 = "\r\nContent-Length: ".as_bytes();
    let ghost now = buf@;
    let p7 = put_bytes(buf, p6, b7);
    proof {
        lemma_fill_step(orig, m6, b7@, now, buf@, p6 as int, p7 as int);
    }
    let ghost m7 = m6 + b7@;
    let b8 = digits.as_slice();
    let ghost now = buf@;
    let p8 = put_bytes(buf, p7, b8);
    proof {
        lemma_fill_step(orig, m7, b8@, now, buf@, p7 as int, p8 as int);
    }
    let ghost m8 = m7 + b8@;
    let b9 = "\r\n\r\n".as_bytes();
    let ghost now = buf@;
    let p9 = put_bytes(buf, p8, b9);
    proof {
        lemma_fill_step(orig, m8, b9@, now, buf@, p8 as int, p9 as int);
    }
    let ghost m9 = m8 + b9@;
    let ghost now = buf@;
    let p10 = put_bytes(buf, p9, body);
    proof {
        lemma_fill_step(orig, m9, body@, now, buf@, p9 as int, p10 as int);
        let m10 = m9 + body@;
        let a = "POST "@;
        let b = path@;
        let c = " HTTP/1.1\r\nHost: "@;
        let d = host@;
        let e = "\r\nContent-Type: "@;
        let f = content_type@;
        let g = "\r\nContent-Length: "@;
        lemma_encode_utf8_add(a, b);
        lemma_encode_utf8_add(a + b, c);
        lemma_encode_utf8_add(a + b + c, d);
        lemma_encode_utf8_add(a + b + c + d, e);
        lemma_encode_utf8_add(a + b + c + d + e, f);
        lemma_encode_utf8_add(a + b + c + d + e + f, g);
        assert(m10 =~= post_request_bytes(host@, path@, content_type@, body@));
    }
    p10
}

/// A blank line (`\r\n\r\n`) starts at `i` in `d`.
pub open spec fn blank_line_at(d: Seq<u8>, i: int) -> bool {
    0 <= i && i + 4 <= d.len() && d[i] == 13u8 && d[i + 1] == 10u8 && d[i + 2] == 13u8 && d[i + 3]
        == 10u8
}

/// Where the body starts when the search for the header's end begins at `i`: after the
/// first blank line from `i` on, at the end where there is none.
pub open spec fn body_start_from(d: Seq<u8>, i: int) -> int
    decreases d.len() - i,
{
    if i < 0 || i + 4 > d.len() {
        d.len() as int
    } else if blank_line_at(d, i) {
        i + 4
    } else {
        body_start_from(d, i + 1)
    }
}

/// Where a reply's body starts: after its first blank line, at its end where it has none.
pub open spec fn body_start(d: Seq<u8>) -> int {
    body_start_from(d, 0)
}

/// The status code of a reply: its bytes 9 to 11 read as a number, 0 where they are not one.
pub open spec fn status_code(d: Seq<u8>) -> u16 {
    match parse_unsigned(d.subrange(9, 12), 65535) {
        Some(v) => v as u16,
        None => 0,
    }
}

/// A reply can be read: it holds a status line's first 12 bytes, and its status code's
/// three bytes are UTF-8.
pub open spec fn reply_readable(d: Seq<u8>) -> bool {
    d.len() >= 12 && valid_utf8(d.subrange(9, 12))
}

proof fn lemma_body_start_bounds(d: Seq<u8>, i: int)
    requires
        0 <= i,
    ensures
        0 <= body_start_from(d, i) <= d.len(),
    decreases d.len() - i,
{
    if i + 4 <= d.len() && !blank_line_at(d, i) {
        lemma_body_start_bounds(d, i + 1);
    }
}

/// Where the body of the reply `data` starts.
fn find_body_start(data: &[u8]) -> (r: usize)
    ensures
        r == body_start(data@),
{
    let n = data.len();
    let limit = if n >= 3 {
        n - 3
    } else {
        0
    };
    let mut i: usize = 0;
    while i < limit
        invariant
            n == data@.len(),
            limit == if n >= 3 { n - 3 } else { 0 },
            i <= limit,
            body_start_from(data@, 0) == body_start_from(data@, i as int),
        decreases limit - i,
    {
        if data[i] == 13u8 && data[i + 1] == 10u8 && data[i + 2] == 13u8 && data[i + 3] == 10u8 {
            return i + 4;
        }
        i = i + 1;
    }
    n
}

/// Reads the status code and finds the body of the reply in `data`.
pub fn parse_response<'a>(data: &'a [u8]) -> (r: Result<HttpResponse<'a>, ()>)
    ensures
        r is Ok <==> reply_readable(data@),
        r matches Ok(h) ==> h.status == status_code(data@) && h.body@ == data@.skip(
            body_start(data@),
        ),
{
    if data.len() < 12 {
        return Err(());
    }
    let code = slice_subrange(data, 9, 12);
    let text = match str_from_utf8(code) {
        Some(t) => t,
        None => {
            return Err(());
        },
    };
    let status = match parse_decimal(text.as_bytes(), 65535) {
        Some(v) => v,
        None => 0,
    };
    let start = find_body_start(data);
    proof {
        lemma_body_start_bounds(data@, 0);
    }
    let body = slice_subrange(data, start, data.len());
    assert(body@ =~= data@.skip(body_start(data@)));
    Ok(HttpResponse { status, body })
}

/// The client's decision after the socket took `n` more bytes of a request, `written`
/// of which were sent before: taking none means the connection was reset; otherwise
/// that many more are sent.
pub fn write_step(written: usize, len: usize, n: usize) -> (r: Option<usize>)
    requires
        written + n <= len,
    ensures
        n == 0 ==> r is None,
        n > 0 ==> r == Some((written + n) as usize),
{
    if n == 0 {
        None
    } else {
        Some(written + n)
    }
}

/// The client's decision after a read of `n` bytes into a buffer of `capacity` bytes
/// that held `total`: the new total, and whether reading stops, which it does on a read
/// of nothing or once the buffer is full.
pub fn read_step(total: usize, capacity: usize, n: usize) -> (r: (usize, bool))
    requires
        total + n <= capacity,
    ensures
        r.0 == total + n,
        r.1 == (n == 0 || total + n >= capacity),
{
    let now = total + n;
    (now, n == 0 || now >= capacity)
}

/// Where `c` does not occur in `a`, the first `c` in `a + b` is that of `b`, moved on by
/// `a`'s length.
proof fn lemma_index_of_concat(a: Seq<char>, b: Seq<char>, c: char)
    requires
        forall|i: int| 0 <= i < a.len() ==> a[i] != c,
    ensures
        index_of(a + b, c) == a.len() + index_of(b, c),
    decreases a.len(),
{
    if a.len() > 0 {
        assert((a + b)[0] == a[0]);
        assert((a + b).drop_first() =~= a.drop_first() + b);
        lemma_index_of_concat(a.drop_first(), b, c);
    } else {
        assert(a + b =~= b);
    }
}

/// A word for a request line: not empty, and without white space (so without line breaks).
pub open spec fn is_word(w: Seq<char>) -> bool {
    w.len() > 0 && forall|i: int| 0 <= i < w.len() ==> !is_unicode_whitespace(#[trigger] w[i])
}

/// What the client writes, the server reads: a request that `format_request` writes for
/// a method and a path that are single words is read by `parse_request_line` as that
/// method and that path, whatever the host.
pub proof fn law_request_reads_back(method: Seq<char>, host: Seq<char>, path: Seq<char>)
    requires
        is_word(method),
        is_word(path),
    ensures
        request_method(request_bytes(method, host, path)) == method,
        request_target(request_bytes(method, host, path)) == path,
{
    let lit1 = " HTTP/1.1\r\nHost: "@;
    let lit2 = "\r\nConnection: close\r\n\r\n"@;
    reveal_strlit(" HTTP/1.1\r\nHost: ");
    reveal_strlit(" ");
    reveal_strlit("HTTP/1.1");
    let sp = " "@;
    let text = method + sp + path + lit1 + host + lit2;
    let bytes = request_bytes(method, host, path);
    encode_utf8_valid_utf8(text);
    encode_utf8_decode_utf8(text);
    assert(request_text(bytes) == text);
    // the first line ends at the `\n` of " HTTP/1.1\r\n"
    let head = method + sp + path;
    assert forall|i: int| 0 <= i < head.len() implies head[i] != '\n' by {
        if i < method.len() {
            assert(head[i] == method[i]);
            assert(!is_unicode_whitespace(method[i]));
        } else if i == method.len() {
            assert(head[i] == ' ');
        } else {
            assert(head[i] == path[i - method.len() - 1]);
            assert(!is_unicode_whitespace(path[i - method.len() - 1]));
        }
    }
    let rest = lit1 + host + lit2;
    assert(text =~= head + rest);
    lemma_index_of_concat(head, rest, '\n');
    assert(rest[10] == '\n');
    assert forall|i: int| 0 <= i < 10 implies rest[i] != '\n' by {
        assert(rest[i] == lit1[i]);
    }
    assert(index_of(rest, '\n') == 10) by {
        let r10 = rest.take(10);
        assert forall|i: int| 0 <= i < r10.len() implies r10[i] != '\n' by {
            assert(r10[i] == rest[i]);
        }
        lemma_index_of_concat(r10, rest.skip(10), '\n');
        assert(r10 + rest.skip(10) =~= rest);
        assert(rest.skip(10)[0] == '\n');
    }
    let k: int = head.len() as int + 10;
    assert(text.take(k).last() == '\r');
    let line = text.take(k).drop_last();
    assert(first_line(text) == line);
    // the line is the method, a space, the path, a space, and "HTTP/1.1"
    let proto = "HTTP/1.1"@;
    assert(line =~= method.push(' ') + (path.push(' ') + proto));
    law_tokens_concat(method, ' ', path.push(' ') + proto, Separator::Whitespace);
    law_tokens_concat(path, ' ', proto, Separator::Whitespace);
    lemma_tokens_plain(method, Separator::Whitespace);
    lemma_tokens_plain(path, Separator::Whitespace);
    assert forall|i: int| 0 <= i < proto.len() implies !Separator::Whitespace.spec_matches(#[trigger] proto[i]) by {}
    lemma_tokens_plain(proto, Separator::Whitespace);
    let words = tokens(line, Separator::Whitespace);
    assert(words =~~= seq![method, path, proto]);
}

/// `x` holds neither a carriage return (13) nor a line feed (10).
pub open spec fn no_line_breaks(x: Seq<char>) -> bool {
    forall|i: int| 0 <= i < x.len() ==> #[trigger] (x[i] as u32) != 13 && (x[i] as u32) != 10
}

/// The value of an ASCII decimal digit.
pub open spec fn digit_value(c: char) -> nat {
    (c as u32 - 48) as nat
}

/// `c` is an ASCII decimal digit.
pub open spec fn is_digit_char(c: char) -> bool {
    '0' <= c <= '9'
}

/// Text without line breaks encodes to bytes without carriage returns or line feeds.
proof fn lemma_no_line_break_bytes(x: Seq<char>)
    requires
        no_line_breaks(x),
    ensures
        forall|i: int| 0 <= i < encode_utf8(x).len() ==> #[trigger] encode_utf8(x)[i] != 13u8
            && encode_utf8(x)[i] != 10u8,
    decreases x.len(),
{
    if x.len() > 0 {
        lemma_no_line_break_bytes(x.drop_first());
        let c = x[0] as u32;
        char_is_scalar(x[0]);
        assert(c != 13u32 && c != 10u32);
        let e = encode_scalar(c);
        if has_width_1_encoding(c) {
            assert(leading_byte_width_1(c) != 13u8 && leading_byte_width_1(c) != 10u8) by (bit_vector)
                requires
                    c <= 0x7F,
                    c != 13u32,
                    c != 10u32,
            ;
        } else if has_width_2_encoding(c) {
            assert(leading_byte_width_2(c) >= 0x80u8) by (bit_vector);
            assert(last_continuation_byte(c) >= 0x80u8) by (bit_vector);
        } else if has_width_3_encoding(c) {
            assert(leading_byte_width_3(c) >= 0x80u8) by (bit_vector);
            assert(second_last_continuation_byte(c) >= 0x80u8) by (bit_vector);
            assert(last_continuation_byte(c) >= 0x80u8) by (bit_vector);
        } else {
            assert(leading_byte_width_4(c) >= 0x80u8) by (bit_vector);
            assert(third_last_continuation_byte(c) >= 0x80u8) by (bit_vector);
            assert(second_last_continuation_byte(c) >= 0x80u8) by (bit_vector);
            assert(last_continuation_byte(c) >= 0x80u8) by (bit_vector);
        }
        assert forall|i: int| 0 <= i < e.len() implies #[trigger] e[i] != 13u8 && e[i] != 10u8 by {}
        assert(encode_utf8(x) == e + encode_utf8(x.drop_first()));
        assert forall|i: int| 0 <= i < encode_utf8(x).len() implies #[trigger] encode_utf8(x)[i]
            != 13u8 && encode_utf8(x)[i] != 10u8 by {
            if i < e.len() {
                assert(encode_utf8(x)[i] == e[i]);
            } else {
                assert(encode_utf8(x)[i] == encode_utf8(x.drop_first())[i - e.len()]);
            }
        }
    }
}

proof fn lemma_body_start_at(d: Seq<u8>, i: int, k: int)
    requires
        0 <= i <= k,
        blank_line_at(d, k),
        forall|j: int| i <= j < k ==> !blank_line_at(d, j),
    ensures
        body_start_from(d, i) == k + 4,
    decreases k - i,
{
    if i < k {
        assert(!blank_line_at(d, i));
        lemma_body_start_at(d, i + 1, k);
    }
}

/// What the server sends, the client reads: a reply made of `response_head`'s bytes and
/// the body is read by `parse_response` as that body, with the status code that the
/// status text's first three digits spell, where the status and content type hold no
/// line breaks.
pub proof fn law_reply_reads_back(status: Seq<char>, content_type: Seq<char>, body: Seq<u8>)
    requires
        status.len() >= 3,
        is_digit_char(status[0]),
        is_digit_char(status[1]),
        is_digit_char(status[2]),
        no_line_breaks(status),
        no_line_breaks(content_type),
    ensures
        reply_readable(head_bytes(status, content_type, body.len()) + body),
        status_code(head_bytes(status, content_type, body.len()) + body) as nat == 100
            * digit_value(status[0]) + 10 * digit_value(status[1]) + digit_value(status[2]),
        (head_bytes(status, content_type, body.len()) + body).skip(
            body_start(head_bytes(status, content_type, body.len()) + body),
        ) == body,
{
    reveal_strlit("HTTP/1.1 ");
    reveal_strlit("\r\nContent-Type: ");
    reveal_strlit("\r\nContent-Length: ");
    reveal_strlit("\r\nConnection: close\r\n\r\n");
    let a0 = "HTTP/1.1 "@;
    let a1 = "\r\nContent-Type: "@;
    let a2 = "\r\nContent-Length: "@;
    let a3 = "\r\nConnection: close\r\n\r\n"@;
    assert(is_ascii_chars(a0));
    assert(is_ascii_chars(a1));
    assert(is_ascii_chars(a2));
    assert(is_ascii_chars(a3));
    is_ascii_chars_encode_utf8(a0);
    is_ascii_chars_encode_utf8(a1);
    is_ascii_chars_encode_utf8(a2);
    is_ascii_chars_encode_utf8(a3);
    let e0 = encode_utf8(a0);
    let es = encode_utf8(status);
    let e1 = encode_utf8(a1);
    let ec = encode_utf8(content_type);
    let e2 = encode_utf8(a2);
    let d = decimal(body.len());
    let e3 = encode_utf8(a3);
    lemma_encode_utf8_add(a0, status);
    lemma_encode_utf8_add(a0 + status, a1);
    lemma_encode_utf8_add(a0 + status + a1, content_type);
    lemma_encode_utf8_add(a0 + status + a1 + content_type, a2);
    let h = head_bytes(status, content_type, body.len());
    assert(h =~= e0 + es + e1 + ec + e2 + d + e3);
    let msg = h + body;
    lemma_no_line_break_bytes(status);
    lemma_no_line_break_bytes(content_type);
    lemma_decimal_digits(body.len());
    let p1: int = 9 + es.len() as int;
    let p2: int = p1 + 16 + ec.len() as int;
    let p3: int = p2 + 18 + d.len() as int;
    assert(h.len() == p3 + 23);
    assert forall|i: int| 0 <= i < p3 + 19 implies !blank_line_at(msg, i) by {
        if i < 9 {
            assert(msg[i] == e0[i]);
            assert(e0[i] == a0[i] as u8);
        } else if i < p1 {
            assert(msg[i] == es[i - 9]);
        } else if i == p1 {
            assert(msg[i + 2] == e1[2]);
            assert(e1[2] == a1[2] as u8);
        } else if i < p1 + 16 {
            assert(msg[i] == e1[i - p1]);
            assert(e1[i - p1] == a1[i - p1] as u8);
        } else if i < p2 {
            assert(msg[i] == ec[i - p1 - 16]);
        } else if i == p2 {
            assert(msg[i + 2] == e2[2]);
            assert(e2[2] == a2[2] as u8);
        } else if i < p2 + 18 {
            assert(msg[i] == e2[i - p2]);
            assert(e2[i - p2] == a2[i - p2] as u8);
        } else if i < p3 {
            assert(msg[i] == d[i - p2 - 18]);
            assert(is_digit_byte(d[i - p2 - 18]));
        } else if i == p3 {
            assert(msg[i + 2] == e3[2]);
            assert(e3[2] == a3[2] as u8);
        } else {
            assert(msg[i] == e3[i - p3]);
            assert(e3[i - p3] == a3[i - p3] as u8);
        }
    }
    assert(blank_line_at(msg, p3 + 19)) by {
        assert(msg[p3 + 19] == e3[19]);
        assert(msg[p3 + 20] == e3[20]);
        assert(msg[p3 + 21] == e3[21]);
        assert(msg[p3 + 22] == e3[22]);
        assert(e3[19] == a3[19] as u8);
        assert(e3[20] == a3[20] as u8);
        assert(e3[21] == a3[21] as u8);
        assert(e3[22] == a3[22] as u8);
    }
    lemma_body_start_at(msg, 0, p3 + 19);
    assert(msg.skip(body_start(msg)) =~= body);
    // the status code: the first three characters of the status, all ASCII digits
    let st = status.take(3);
    assert(status =~= st + status.skip(3));
    lemma_encode_utf8_add(st, status.skip(3));
    assert(is_ascii_chars(st));
    is_ascii_chars_encode_utf8(st);
    let code = encode_utf8(st);
    assert(msg.subrange(9, 12) =~= code) by {
        assert forall|j: int| 0 <= j < 3 implies msg[9 + j] == code[j] by {
            assert(msg[9 + j] == es[j]);
        }
    }
    encode_utf8_valid_utf8(st);
    assert(code[0] == status[0] as u8);
    assert(code[1] == status[1] as u8);
    assert(code[2] == status[2] as u8);
    assert(all_digits(code));
    assert(code.drop_last().drop_last().drop_last() =~= Seq::<u8>::empty());
    let c1 = code.drop_last();
    let c0 = c1.drop_last();
    assert(code.len() == 3);
    assert(c0.len() == 1);
    assert(c0.drop_last() =~= Seq::<u8>::empty());
    assert(digits_value(c0.drop_last()) == 0);
    assert(digits_value(c0) == digits_value(c0.drop_last()) * 10 + (c0.last() - 48) as nat);
    assert(c0.last() == code[0]);
    assert(c1.last() == code[1]);
    assert(code.last() == code[2]);
    assert(code[0] as int == status[0] as u32);
    assert(code[1] as int == status[1] as u32);
    assert(code[2] as int == status[2] as u32);
    assert(digits_value(c0) == digit_value(status[0]));
    assert(digits_value(c1) == digits_value(c0) * 10 + digit_value(status[1]));
    assert(digits_value(code) == digits_value(c1) * 10 + digit_value(status[2]));
}

/// A request that the client writes ends its header with a blank line, so the server,
/// once it has read it all, finds its header complete.
pub proof fn law_request_header_complete(method: Seq<char>, host: Seq<char>, path: Seq<char>)
    ensures
        ends_with_blank_line(request_bytes(method, host, path)),
{
    reveal_strlit("\r\nConnection: close\r\n\r\n");
    let lit = "\r\nConnection: close\r\n\r\n"@;
    let front = method + " "@ + path + " HTTP/1.1\r\nHost: "@ + host;
    lemma_encode_utf8_add(front, lit);
    assert(is_ascii_chars(lit));
    is_ascii_chars_encode_utf8(lit);
    let b = request_bytes(method, host, path);
    let e = encode_utf8(lit);
    let n = b.len();
    assert(b =~= encode_utf8(front) + e);
    assert(b[n - 4] == e[19]);
    assert(b[n - 3] == e[20]);
    assert(b[n - 2] == e[21]);
    assert(b[n - 1] == e[22]);
    assert(e[19] == lit[19] as u8);
    assert(e[20] == lit[20] as u8);
    assert(e[21] == lit[21] as u8);
    assert(e[22] == lit[22] as u8);
    assert(b.subrange(n - 4, n as int) =~= seq![13u8, 10u8, 13u8, 10u8]);
}

/// The URL `http://{host}:{port}{path}`, with the port in decimal.
pub open spec fn url_text(host: Seq<char>, port: u16, path: Seq<char>) -> Seq<char> {
    "http://"@ + host + seq![':'] + decimal_text(port as nat) + path
}

/// A URL reads back as what it was made of: for a host without `/` or `:` and a path
/// that starts with `/`, `http://{host}:{port}{path}` gives that host, port and path;
/// `{host}{path}` gives the host, port 80 and the path; the host alone gives the host,
/// port 80 and the path `/`.
pub proof fn law_url_reads_back(host: Seq<char>, port: u16, path: Seq<char>)
    requires
        forall|i: int| 0 <= i < host.len() ==> #[trigger] host[i] != '/' && host[i] != ':',
        path.len() > 0,
        path[0] == '/',
    ensures
        url_host(url_text(host, port, path)) == host,
        url_port(url_text(host, port, path)) == port,
        url_path(url_text(host, port, path)) == path,
        url_host(host + path) == host,
        url_port(host + path) == 80,
        url_path(host + path) == path,
        url_host(host) == host,
        url_port(host) == 80,
        url_path(host) == "/"@,
{
    reveal_strlit("http://");
    let scheme = "http://"@;
    assert(scheme[4] == ':' && scheme[5] == '/');
    assert(index_of(path, '/') == 0);
    // the full URL
    let dt = decimal_text(port as nat);
    lemma_decimal_text(port as nat);
    let u = url_text(host, port, path);
    let auth = host + seq![':'] + dt;
    assert(u.take(7) =~= scheme);
    assert(u.skip(7) =~= auth + path);
    assert(after_scheme(u) == auth + path);
    assert forall|i: int| 0 <= i < auth.len() implies auth[i] != '/' by {
        if i > host.len() {
            assert(auth[i] == dt[i - host.len() - 1]);
        }
    }
    lemma_index_of_concat(auth, path, '/');
    assert((auth + path).take(auth.len() as int) =~= auth);
    assert((auth + path).skip(auth.len() as int) =~= path);
    assert(url_authority(u) == auth);
    assert(url_path(u) == path);
    assert(host + (seq![':'] + dt) =~= auth);
    lemma_index_of_concat(host, seq![':'] + dt, ':');
    assert(index_of(seq![':'] + dt, ':') == 0);
    assert(auth.take(host.len() as int) =~= host);
    assert(auth.skip(host.len() + 1int) =~= dt);
    law_decimal_reads_back(port as nat, 65535);
    assert(url_port(u) == port);
    // a URL without a scheme or a port
    let hp = host + path;
    if hp.len() >= 7 && hp.take(7) == scheme {
        if host.len() > 4 {
            assert(hp.take(7)[4] == host[4]);
        } else {
            assert(hp.take(7)[host.len() as int] == path[0]);
        }
    }
    assert(after_scheme(hp) == hp);
    lemma_index_of_concat(host, path, '/');
    assert(hp.take(host.len() as int) =~= host);
    assert(hp.skip(host.len() as int) =~= path);
    assert(host + Seq::<char>::empty() =~= host);
    lemma_index_of_concat(host, Seq::<char>::empty(), ':');
    lemma_index_of_concat(host, Seq::<char>::empty(), '/');
    assert(index_of(host, ':') == host.len());
    assert(host.take(host.len() as int) =~= host);
    // the host alone
    if host.len() >= 7 && host.take(7) == scheme {
        assert(host.take(7)[4] == host[4]);
    }
    assert(after_scheme(host) == host);
}

/// The dotted address `{a}.{b}.{c}.{d}`, each octet in decimal.
pub open spec fn dotted_text(a: u8, b: u8, c: u8, d: u8) -> Seq<char> {
    decimal_text(a as nat) + seq!['.'] + decimal_text(b as nat) + seq!['.'] + decimal_text(
        c as nat,
    ) + seq!['.'] + decimal_text(d as nat)
}

proof fn lemma_octet_text(x: u8)
    ensures
        pieces(decimal_text(x as nat), Separator::Dot) == seq![decimal_text(x as nat)],
        octet(decimal_text(x as nat)) == Some(x as nat),
{
    lemma_decimal_text(x as nat);
    let t = decimal_text(x as nat);
    assert forall|i: int| 0 <= i < t.len() implies !Separator::Dot.spec_matches(#[trigger] t[i]) by {
        assert('0' <= t[i] <= '9');
    }
    lemma_tokens_plain(t, Separator::Dot);
    law_decimal_reads_back(x as nat, 255);
}

/// A dotted address reads back as its octets: `{a}.{b}.{c}.{d}` gives `a`, `b`, `c`, `d`.
pub proof fn law_dotted_address_reads_back(a: u8, b: u8, c: u8, d: u8)
    ensures
        ipv4_octets(dotted_text(a, b, c, d)) == Some(seq![a, b, c, d]),
{
    let sep = Separator::Dot;
    let (ta, tb, tc, td) = (
        decimal_text(a as nat),
        decimal_text(b as nat),
        decimal_text(c as nat),
        decimal_text(d as nat),
    );
    lemma_octet_text(a);
    lemma_octet_text(b);
    lemma_octet_text(c);
    lemma_octet_text(d);
    let x1 = ta.push('.') + tb;
    let x2 = x1.push('.') + tc;
    let x3 = x2.push('.') + td;
    assert(x3 =~= dotted_text(a, b, c, d));
    lemma_pieces_concat(ta, '.', tb, sep);
    lemma_pieces_concat(x1, '.', tc, sep);
    lemma_pieces_concat(x2, '.', td, sep);
    let ps = pieces(x3, sep);
    assert(ps =~~= seq![ta, tb, tc, td]);
    assert(ps.len() == 4);
    assert(forall|i: int| 0 <= i < 4 ==> (#[trigger] octet(ps[i])) is Some) by {
        assert(ps[0] == ta && ps[1] == tb && ps[2] == tc && ps[3] == td);
    }
    let o = Seq::new(4, |i: int| octet(ps[i])->0 as u8);
    assert(o =~= seq![a, b, c, d]) by {
        assert(ps[0] == ta && ps[1] == tb && ps[2] == tc && ps[3] == td);
    }
}

/// A URL with the `http://` scheme and no path reads back too: the scheme is dropped,
/// `http://{host}:{port}` gives the host, the port and the path `/`, and
/// `http://{host}` gives the host, port 80 and the path `/`, for a host without `/`
/// or `:`.
pub proof fn law_url_without_path_reads_back(host: Seq<char>, port: u16)
    requires
        forall|i: int| 0 <= i < host.len() ==> #[trigger] host[i] != '/' && host[i] != ':',
    ensures
        url_host("http://"@ + host + seq![':'] + decimal_text(port as nat)) == host,
        url_port("http://"@ + host + seq![':'] + decimal_text(port as nat)) == port,
        url_path("http://"@ + host + seq![':'] + decimal_text(port as nat)) == "/"@,
        url_host("http://"@ + host) == host,
        url_port("http://"@ + host) == 80,
        url_path("http://"@ + host) == "/"@,
{
    reveal_strlit("http://");
    let scheme = "http://"@;
    let dt = decimal_text(port as nat);
    lemma_decimal_text(port as nat);
    // with a port
    let auth = host + seq![':'] + dt;
    let u = scheme + host + seq![':'] + dt;
    assert(u.take(7) =~= scheme);
    assert(u.skip(7) =~= auth);
    assert(after_scheme(u) == auth);
    assert forall|i: int| 0 <= i < auth.len() implies auth[i] != '/' by {
        if i > host.len() {
            assert(auth[i] == dt[i - host.len() - 1]);
        }
    }
    assert(auth + Seq::<char>::empty() =~= auth);
    lemma_index_of_concat(auth, Seq::<char>::empty(), '/');
    assert(auth.take(auth.len() as int) =~= auth);
    assert(url_authority(u) == auth);
    assert(host + (seq![':'] + dt) =~= auth);
    lemma_index_of_concat(host, seq![':'] + dt, ':');
    assert(index_of(seq![':'] + dt, ':') == 0);
    assert(auth.take(host.len() as int) =~= host);
    assert(auth.skip(host.len() + 1int) =~= dt);
    law_decimal_reads_back(port as nat, 65535);
    // without a port
    let v = scheme + host;
    assert(v.take(7) =~= scheme);
    assert(v.skip(7) =~= host);
    assert(host + Seq::<char>::empty() =~= host);
    lemma_index_of_concat(host, Seq::<char>::empty(), '/');
    lemma_index_of_concat(host, Seq::<char>::empty(), ':');
    assert(host.take(host.len() as int) =~= host);
}

} // verus!
