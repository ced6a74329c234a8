//! What the HTTP server decides about the bytes it reads: when a request's
//! header is complete, and which method and path its first line names.
use vstd::prelude::*;
use vstd::utf8::*;

use crate::split::{split_tokens, tokens, Separator};
use crate::text::{find_char, index_of, str_from_utf8};

verus! {

/// The most bytes of a request that the server reads.
pub const REQUEST_CAPACITY: usize = 512;

/// The bytes end with the blank line (`\r\n\r\n`) that closes a header.
pub open spec fn ends_with_blank_line(b: Seq<u8>) -> bool {
    b.len() >= 4 && b.subrange(b.len() - 4, b.len() as int) == seq![13u8, 10u8, 13u8, 10u8]
}

/// The first `total` bytes of `buf` end with the blank line that closes a header.
pub fn header_complete(buf: &[u8], total: usize) -> (r: bool)
    requires
        total <= buf@.len(),
    ensures
        r == ends_with_blank_line(buf@.take(total as int)),
{
    if total < 4 {
        return false;
    }
    let r = buf[total - 4] == 13u8 && buf[total - 3] == 10u8 && buf[total - 2] == 13u8 && buf[total
        - 1] == 10u8;
    let ghost tail = buf@.take(total as int).subrange(total - 4, total as int);
    assert(tail[0] == buf@[total - 4]);
    assert(tail[1] == buf@[total - 3]);
    assert(tail[2] == buf@[total - 2]);
    assert(tail[3] == buf@[total - 1]);
    if r {
        assert(tail =~= seq![13u8, 10u8, 13u8, 10u8]);
    }
    r
}

/// Where reading a request's header stands after one read from the socket.
#[derive(Clone, Copy, PartialEq, Eq, Debug)]
pub enum HeaderStep {
    /// Read on: this many bytes are in the buffer and the header is not complete.
    More(usize),
    /// The header is complete in this many bytes.
    Complete(usize),
    /// The peer closed the connection, or the buffer filled, before the header ended.
    Incomplete,
}

/// The server's decision after a read of `n` bytes into `buf` beyond the `total` it held:
/// a read of nothing ends the request unfinished; otherwise the bytes count, the header
/// is complete once they end with a blank line, and a full buffer ends the request
/// unfinished.
pub fn header_read_step(buf: &[u8], total: usize, n: usize) -> (r: HeaderStep)
    requires
        total + n <= buf@.len(),
    ensures
        n == 0 ==> r == HeaderStep::Incomplete,
        n > 0 && ends_with_blank_line(buf@.take(total + n)) ==> r == HeaderStep::Complete(
            (total + n) as usize,
        ),
        n > 0 && !ends_with_blank_line(buf@.take(total + n)) && total + n >= buf@.len() ==> r
            == HeaderStep::Incomplete,
        n > 0 && !ends_with_blank_line(buf@.take(total + n)) && total + n < buf@.len() ==> r
            == HeaderStep::More((total + n) as usize),
{
    let cap = buf.len();
    if n == 0 {
        return HeaderStep::Incomplete;
    }
    let now = total + n;
    if header_complete(buf, now) {
        HeaderStep::Complete(now)
    } else if now >= cap {
        HeaderStep::Incomplete
    } else {
        HeaderStep::More(now)
    }
}

/// The text that a request's bytes hold; none where they are not valid UTF-8.
pub open spec fn request_text(b: Seq<u8>) -> Seq<char> {
    if valid_utf8(b) {
        decode_utf8(b)
    } else {
        Seq::empty()
    }
}

/// The first line of `t`, as `str::lines` yields it: up to the first `\n`, with a `\r`
/// before that `\n` dropped; all of `t` where there is no `\n`.
pub open spec fn first_line(t: Seq<char>) -> Seq<char> {
    let k = index_of(t, '\n');
    if k < t.len() {
        let line = t.take(k);
        if line.len() > 0 && line.last() == '\r' {
            line.drop_last()
        } else {
            line
        }
    } else {
        t
    }
}

/// The words of a request's first line.
pub open spec fn request_words(b: Seq<u8>) -> Seq<Seq<char>> {
    tokens(first_line(request_text(b)), Separator::Whitespace)
}

/// The method that a request names: its first line's first word, `GET` where there is none.
pub open spec fn request_method(b: Seq<u8>) -> Seq<char> {
    let w = request_words(b);
    if w.len() > 0 {
        w[0]
    } else {
        "GET"@
    }
}

/// The path that a request names: its first line's second word, `/` where there is none.
pub open spec fn request_target(b: Seq<u8>) -> Seq<char> {
    let w = request_words(b);
    if w.len() > 1 {
        w[1]
    } else {
        "/"@
    }
}

/// The first line of `text`.
pub fn first_line_of<'a>(text: &'a str) -> (r: &'a str)
    ensures
        r@ == first_line(text@),
{
    let len = text.unicode_len();
    let k = find_char(text, '\n');
    if k < len {
        if k > 0 && text.get_char(k - 1) == '\r' {
            let r = text.substring_char(0, k - 1);
            assert(r@ =~= text@.take(k as int).drop_last());
            r
        } else {
            let r = text.substring_char(0, k);
            assert(r@ =~= text@.take(k as int));
            r
        }
    } else {
        text
    }
}

/// The method and path that a request's first line names, as the server reads them:
/// bytes that are not UTF-8 count as empty, the first line's first two words are taken,
/// and `GET` and `/` stand in for missing ones.
pub fn parse_request_line<'a>(request: &'a [u8]) -> (r: (&'a str, &'a str))
    ensures
        r.0@ == request_method(request@),
        r.1@ == request_target(request@),
{
    let text = match str_from_utf8(request) {
        Some(s) => s,
        None => "",
    };
    proof {
        reveal_strlit("");
        if valid_utf8(request@) {
            encode_utf8_decode_utf8(text@);
        }
        assert(text@ =~= request_text(request@));
    }
    let line = first_line_of(text);
    let words = split_tokens(line, Separator::Whitespace);
    let method = if words.len() > 0 {
        words[0]
    } else {
        "GET"
    };
    let path = if words.len() > 1 {
        words[1]
    } else {
        "/"
    };
    (method, path)
}

} // verus!
