//! The reply that a request handler fills in, and its HTTP/1.1 framing.
use vstd::prelude::*;
use vstd::utf8::encode_utf8;
use crate::keys::append_bytes;

verus! {

/// A reply: status code, headers in insertion order, and body.
#[derive(Debug)]
pub struct Response {
    pub status: u16,
    pub headers: Vec<(String, String)>,
    pub body: Vec<u8>,
}

/// Decimal digits of `n`, most significant first.
pub open spec fn decimal(n: nat) -> Seq<u8>
    decreases n,
{
    if n < 10 {
        seq![(48 + n) as u8]
    } else {
        decimal(n / 10).push((48 + n % 10) as u8)
    }
}

/// The reason phrase of a status code.
pub open spec fn reason(status: u16) -> Seq<char> {
    if status == 200 {
        "OK"@
    } else if status == 404 {
        "Not Found"@
    } else if status == 500 {
        "Internal Server Error"@
    } else {
        "Unknown"@
    }
}

/// The body that is sent: a fixed text for 404 and 500, else the body.
pub open spec fn sent_body(status: u16, body: Seq<u8>) -> Seq<u8> {
    if status == 404 {
        encode_utf8("404 - Route Not Found\n"@)
    } else if status == 500 {
        encode_utf8("500 - Internal Server Error\n"@)
    } else {
        body
    }
}

/// `name: value` CRLF for each header, in order.
pub open spec fn header_lines(hs: Seq<(Seq<char>, Seq<char>)>) -> Seq<u8>
    decreases hs.len(),
{
    if hs.len() == 0 {
        Seq::empty()
    } else {
        header_lines(hs.drop_last()) + encode_utf8(hs.last().0) + encode_utf8(": "@) + encode_utf8(
            hs.last().1,
        ) + encode_utf8("\r\n"@)
    }
}

pub open spec fn headers_model(hs: Seq<(String, String)>) -> Seq<(Seq<char>, Seq<char>)> {
    Seq::new(hs.len(), |i: int| (hs[i].0@, hs[i].1@))
}

/// `HTTP/1.1 <code> <reason>` CRLF.
pub open spec fn status_line(status: u16) -> Seq<u8> {
    encode_utf8("HTTP/1.1 "@) + decimal(status as nat) + encode_utf8(" "@) + encode_utf8(
        reason(status),
    ) + encode_utf8("\r\n"@)
}

/// `Content-Length: <n>` CRLF, then the blank line.
pub open spec fn length_line(n: nat) -> Seq<u8> {
    encode_utf8("Content-Length: "@) + decimal(n) + encode_utf8("\r\n"@) + encode_utf8("\r\n"@)
}

/// The whole message: status line, headers, `Content-Length`, a blank line
/// and the body.
pub open spec fn frame(status: u16, headers: Seq<(Seq<char>, Seq<char>)>, body: Seq<u8>) -> Seq<u8> {
    status_line(status) + header_lines(headers) + length_line(body.len()) + body
}

fn push_decimal(out: &mut Vec<u8>, n: usize)
    ensures
        final(out)@ == old(out)@ + decimal(n as nat),
    decreases n,
{
    if n >= 10 {
        push_decimal(out, n / 10);
    }
    let d = (n % 10) as u8;
    out.push(48 + d);
    assert(final(out)@ =~= old(out)@ + decimal(n as nat)) by {
        if n >= 10 {
            assert(decimal(n as nat) == decimal((n / 10) as nat).push((48 + n % 10) as u8));
        }
    };
}

fn push_str(out: &mut Vec<u8>, s: &str)
    ensures
        final(out)@ == old(out)@ + encode_utf8(s@),
{
    append_bytes(out, s.as_bytes());
}

fn push_status_line(out: &mut Vec<u8>, status: u16, reason: &str)
    requires
        reason@ == crate::response::reason(status),
    ensures
        final(out)@ == old(out)@ + status_line(status),
{
    let ghost start = out@;
    push_str(out, "HTTP/1.1 ");
    push_decimal(out, status as usize);
    push_str(out, " ");
    push_str(out, reason);
    push_str(out, "\r\n");
    assert(out@ =~= start + status_line(status));
}

fn push_length_line(out: &mut Vec<u8>, n: usize)
    ensures
        final(out)@ == old(out)@ + length_line(n as nat),
{
    let ghost start = out@;
    push_str(out, "Content-Length: ");
    push_decimal(out, n);
    push_str(out, "\r\n");
    push_str(out, "\r\n");
    assert(out@ =~= start + length_line(n as nat));
}

fn push_headers(out: &mut Vec<u8>, headers: &Vec<(String, String)>)
    ensures
        final(out)@ == old(out)@ + header_lines(headers_model(headers@)),
{
    let ghost hv = headers_model(headers@);
    let ghost start = out@;
    let mut i: usize = 0;
    assert(hv.subrange(0, 0) =~= Seq::<(Seq<char>, Seq<char>)>::empty());
    assert(out@ =~= start + header_lines(hv.subrange(0, 0)));
    while i < headers.len()
        invariant
            i <= headers@.len(),
            hv == headers_model(headers@),
            out@ == start + header_lines(hv.subrange(0, i as int)),
        decreases headers@.len() - i,
    {
        assert(hv.subrange(0, i + 1).drop_last() =~= hv.subrange(0, i as int));
        let ghost before = out@;
        push_str(out, headers[i].0.as_str());
        push_str(out, ": ");
        push_str(out, headers[i].1.as_str());
        push_str(out, "\r\n");
        assert(out@ =~= start + header_lines(hv.subrange(0, i + 1)));
        i = i + 1;
    }
    assert(hv.subrange(0, i as int) =~= hv);
}

impl Response {
    pub open spec fn headers_view(&self) -> Seq<(Seq<char>, Seq<char>)> {
        headers_model(self.headers@)
    }

    /// Status 200, a `Content-Type: text/plain` header, and an empty body.
    pub fn new() -> (r: Response)
        ensures
            r.status == 200,
            r.headers_view() == seq![("Content-Type"@, "text/plain"@)],
            r.body@.len() == 0,
    {
        let mut headers: Vec<(String, String)> = Vec::new();
        headers.push(("Content-Type".to_owned(), "text/plain".to_owned()));
        let r = Response { status: 200, headers, body: Vec::new() };
        assert(r.headers_view() =~= seq![("Content-Type"@, "text/plain"@)]);
        r
    }

    /// Writes the framed message to `stream`. For 404 and 500 the body is
    /// first replaced by a fixed text.
    pub fn send(&mut self, stream: &mut Vec<u8>)
        ensures
            final(self).status == old(self).status,
            final(self).headers == old(self).headers,
            final(self).body@ == sent_body(old(self).status, old(self).body@),
            final(stream)@ == old(stream)@ + frame(
                old(self).status,
                old(self).headers_view(),
                final(self).body@,
            ),
    {
        let reason: &str = if self.status == 200 {
            "OK"
        } else if self.status == 404 {
            let mut b: Vec<u8> = Vec::new();
            push_str(&mut b, "404 - Route Not Found\n");
            self.body = b;
            "Not Found"
        } else if self.status == 500 {
            let mut b: Vec<u8> = Vec::new();
            push_str(&mut b, "500 - Internal Server Error\n");
            self.body = b;
            "Internal Server Error"
        } else {
            "Unknown"
        };
        assert(reason@ == crate::response::reason(self.status));
        let ghost start = stream@;
        push_status_line(stream, self.status, reason);
        let ghost hv = self.headers_view();
        push_headers(stream, &self.headers);
        let ghost after_headers = stream@;
        push_length_line(stream, self.body.len());
        append_bytes(stream, self.body.as_slice());
        assert(stream@ =~= start + frame(self.status, hv, self.body@));
    }
}

} // verus!
