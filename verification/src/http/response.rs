//! The response type: a status line, headers and body, with textual and
//! wire renderings.  Entirely outside the parsing core.

use vstd::prelude::*;
use vstd::string::StringExecFns;
use vstd::utf8::decode_utf8;
use vstd::utf8::valid_utf8;

use crate::http::header::Header;
use crate::http::parse::pairs_of;
use crate::http::text::append_joined_headers;
use crate::http::text::append_joined_headers_wire;
use crate::http::text::dec_digits;
use crate::http::text::join_headers_chars;
use crate::http::text::join_headers_wire;
use crate::http::text::lemma_ascii_valid_utf8;
use crate::http::text::lemma_dec_digits_ascii;
use crate::http::text::push_dec_u16;
use crate::http::text::utf8_to_string;

verus! {

/// The view of a response: the status-line fields, the header pairs, and
/// the body.
#[verifier::ext_equal]
pub ghost struct ResponseView {
    pub version: Seq<u8>,
    pub status: u16,
    pub reason: Seq<u8>,
    pub headers: Seq<(Seq<u8>, Seq<u8>)>,
    pub body: Seq<u8>,
}

/// An HTTP response under construction: the caller fills the fields, then
/// renders them textually or into wire form.
#[derive(Debug)]
pub struct Response<'a> {
    /// The response version, such as `1.1`.
    pub version: &'a [u8],
    /// The response status code, such as `200`.
    pub status: u16,
    /// The response reason phrase, such as `OK`.
    pub reason: &'a [u8],
    /// The response headers, such as `Accept: application/json`.
    pub headers: Vec<Header<'a>>,
    /// The response body.
    pub body: &'a [u8],
}

impl<'a> View for Response<'a> {
    type V = ResponseView;

    open spec fn view(&self) -> ResponseView {
        ResponseView {
            version: self.version@,
            status: self.status,
            reason: self.reason@,
            headers: pairs_of(self.headers@),
            body: self.body@,
        }
    }
}

/// The textual rendering of a response:
/// `Response { version: HTTP/V, status: S, reason: R, headers: { H },
/// body: { B } }`, where `H` joins every header slot as `name: value`
/// pairs separated by `, ` and `S` is the decimal status.
pub open spec fn spec_render_response(v: ResponseView) -> Seq<char> {
    "Response { version: HTTP/"@ + decode_utf8(v.version) + ", status: "@ + decode_utf8(
        dec_digits(v.status as nat),
    ) + ", reason: "@ + decode_utf8(v.reason) + ", headers: { "@ + join_headers_chars(v.headers)
        + " }, body: { "@ + decode_utf8(v.body) + " } }"@
}

/// The wire form of a response:
/// `HTTP/` version SP status SP reason CRLF, then — only when there is at
/// least one header slot — the headers joined with CRLF followed by a
/// blank line, then the body.
pub open spec fn spec_wire(v: ResponseView) -> Seq<char> {
    "HTTP/"@ + decode_utf8(v.version) + " "@ + decode_utf8(dec_digits(v.status as nat)) + " "@
        + decode_utf8(v.reason) + "\r\n"@ + (if v.headers.len() > 0 {
        join_headers_wire(v.headers) + "\r\n\r\n"@
    } else {
        Seq::<char>::empty()
    }) + decode_utf8(v.body)
}

/// The decimal rendering of a status code as a string.
fn status_string(status: u16) -> (r: String)
    ensures
        r@ == decode_utf8(dec_digits(status as nat)),
{
    let mut digits: Vec<u8> = Vec::new();
    push_dec_u16(&mut digits, status);
    proof {
        lemma_dec_digits_ascii(status as nat);
        assert(digits@ =~= dec_digits(status as nat));
        lemma_ascii_valid_utf8(digits@);
    }
    utf8_to_string(digits.as_slice())
}

impl<'a> Response<'a> {
    /// An empty response: empty fields and status 0.
    pub fn new() -> (r: Self)
        ensures
            r@.version.len() == 0,
            r@.status == 0,
            r@.reason.len() == 0,
            r@.headers.len() == 0,
            r@.body.len() == 0,
    {
        Response { version: &[], status: 0, reason: &[], headers: Vec::new(), body: &[] }
    }

    /// The response version, such as `1.1`.
    pub fn version(&self) -> (r: &[u8])
        ensures
            r@ == self@.version,
    {
        self.version
    }

    /// The response status code, such as `200`.
    pub fn status(&self) -> (r: u16)
        ensures
            r == self@.status,
    {
        self.status
    }

    /// The response reason phrase, such as `OK`.
    pub fn reason(&self) -> (r: &[u8])
        ensures
            r@ == self@.reason,
    {
        self.reason
    }

    /// A copy of the header slots.
    pub fn headers(&self) -> (r: Vec<Header<'a>>)
        ensures
            r@ == self.headers@,
            pairs_of(r@) == self@.headers,
    {
        let mut out: Vec<Header<'a>> = Vec::new();
        let mut i: usize = 0;
        while i < self.headers.len()
            invariant
                i <= self.headers@.len(),
                out@ == self.headers@.take(i as int),
            decreases self.headers@.len() - i,
        {
            out.push(self.headers[i]);
            proof {
                assert(self.headers@.take(i as int).push(self.headers@[i as int])
                    =~= self.headers@.take(i as int + 1));
            }
            i = i + 1;
        }
        proof {
            assert(self.headers@.take(self.headers@.len() as int) =~= self.headers@);
        }
        out
    }

    /// The response body.
    pub fn body(&self) -> (r: &[u8])
        ensures
            r@ == self@.body,
    {
        self.body
    }

    /// The textual rendering of the response, for logging and debugging.
    /// The fields shown — version, reason, every header, and the body —
    /// must be valid UTF-8.
    pub fn render(&self) -> (r: String)
        requires
            valid_utf8(self@.version),
            valid_utf8(self@.reason),
            valid_utf8(self@.body),
            forall|i: int|
                0 <= i < self@.headers.len() ==> valid_utf8(#[trigger] self@.headers[i].0)
                    && valid_utf8(self@.headers[i].1),
        ensures
            r@ == spec_render_response(self@),
    {
        let mut out = String::new();
        out.append("Response { version: HTTP/");
        let v = utf8_to_string(self.version);
        out.append(v.as_str());
        out.append(", status: ");
        let s = status_string(self.status);
        out.append(s.as_str());
        out.append(", reason: ");
        let rs = utf8_to_string(self.reason);
        out.append(rs.as_str());
        out.append(", headers: { ");
        let hs = self.headers.as_slice();
        proof {
            assert(pairs_of(hs@) == self@.headers);
        }
        append_joined_headers(&mut out, hs);
        out.append(" }, body: { ");
        let b = utf8_to_string(self.body);
        out.append(b.as_str());
        out.append(" } }");
        proof {
            assert(out@ =~= spec_render_response(self@));
        }
        out
    }

    /// The wire form of the response: the status line, then the header
    /// block and a blank line when any header slot exists, then the body.
    /// The fields shown must be valid UTF-8.
    pub fn into_string(self) -> (r: String)
        requires
            valid_utf8(self@.version),
            valid_utf8(self@.reason),
            valid_utf8(self@.body),
            forall|i: int|
                0 <= i < self@.headers.len() ==> valid_utf8(#[trigger] self@.headers[i].0)
                    && valid_utf8(self@.headers[i].1),
        ensures
            r@ == spec_wire(self@),
    {
        let mut out = String::new();
        out.append("HTTP/");
        let v = utf8_to_string(self.version);
        out.append(v.as_str());
        out.append(" ");
        let s = status_string(self.status);
        out.append(s.as_str());
        out.append(" ");
        let rs = utf8_to_string(self.reason);
        out.append(rs.as_str());
        out.append("\r\n");
        if self.headers.len() > 0 {
            let hs = self.headers.as_slice();
            proof {
                assert(pairs_of(hs@) == self@.headers);
                assert forall|i: int|
                    0 <= i < hs@.len() implies valid_utf8(#[trigger] pairs_of(hs@)[i].0)
                    && valid_utf8(pairs_of(hs@)[i].1) by {
                    assert(valid_utf8(self@.headers[i].0));
                    assert(valid_utf8(self@.headers[i].1));
                }
            }
            append_joined_headers_wire(&mut out, hs);
            out.append("\r\n\r\n");
        }
        let b = utf8_to_string(self.body);
        out.append(b.as_str());
        proof {
            assert(out@ =~= spec_wire(self@));
        }
        out
    }
}

} // verus!
