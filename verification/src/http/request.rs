//! The request aggregate: orchestrates the request-line, header and body
//! phases over one input buffer and exposes the parsed fields.

use vstd::prelude::*;
use vstd::string::StringExecFns;
use vstd::utf8::decode_utf8;
use vstd::utf8::valid_utf8;

use crate::http::header::Header;
use crate::http::header::is_sentinel;
use crate::http::parse::ByteClass;
use crate::http::parse::ParserError;
use crate::http::parse::body;
use crate::http::parse::headers_iterator;
use crate::http::parse::pairs_of;
use crate::http::parse::request_line;
use crate::http::parse::run_len;
use crate::http::parse::spec_body;
use crate::http::parse::spec_headers;
use crate::http::parse::spec_request_line;
use crate::http::text::append_joined_headers;
use crate::http::text::bytes_eq;
use crate::http::text::join_headers_chars;
use crate::http::text::parse_usize;
use crate::http::text::spec_parse_usize;
use crate::http::text::utf8_prefix;
use crate::http::text::utf8_prefix_len;
use crate::http::text::utf8_to_string;

verus! {

/// The exact header name `Content-Length`.
pub open spec fn content_length_name() -> Seq<u8> {
    seq![67u8, 111u8, 110u8, 116u8, 101u8, 110u8, 116u8, 45u8, 76u8, 101u8, 110u8, 103u8, 116u8, 104u8]
}

/// The exact header name `Transfer-Encoding`.
pub open spec fn transfer_encoding_name() -> Seq<u8> {
    seq![84u8, 114u8, 97u8, 110u8, 115u8, 102u8, 101u8, 114u8, 45u8, 69u8, 110u8, 99u8, 111u8, 100u8, 105u8, 110u8, 103u8]
}

/// Byte-wise lexicographic comparison of a header value against the single
/// byte `0`: true when the value sorts strictly after `0`.  This is the
/// comparison the body decision uses; it is not numeric.
pub open spec fn spec_gt_zero(v: Seq<u8>) -> bool {
    v.len() >= 1 && (v[0] > 48 || (v[0] == 48 && v.len() >= 2))
}

/// The body-decision rule for one slot: its name is exactly
/// `Content-Length` and its value sorts after `0`, or its name is exactly
/// `Transfer-Encoding`.  Both matches are byte-exact and case-sensitive.
pub open spec fn signals_body(p: (Seq<u8>, Seq<u8>)) -> bool {
    (p.0 == content_length_name() && spec_gt_zero(p.1)) || p.0 == transfer_encoding_name()
}

/// Index of the first slot that signals a body, scanning every slot.
pub open spec fn body_signal(slots: Seq<(Seq<u8>, Seq<u8>)>) -> Option<int>
    decreases slots.len(),
{
    if slots.len() == 0 {
        None
    } else if signals_body(slots[0]) {
        Some(0)
    } else {
        match body_signal(slots.drop_first()) {
            Some(i) => Some(i + 1),
            None => None,
        }
    }
}

/// The first-match characterisation of `body_signal`.
proof fn lemma_body_signal_is(slots: Seq<(Seq<u8>, Seq<u8>)>, n: int)
    requires
        0 <= n <= slots.len(),
        forall|i: int| 0 <= i < n ==> !signals_body(#[trigger] slots[i]),
        n < slots.len() ==> signals_body(slots[n]),
    ensures
        body_signal(slots) == (if n < slots.len() {
            Some(n)
        } else {
            None::<int>
        }),
    decreases slots.len(),
{
    if slots.len() == 0 {
    } else if n == 0 {
        if slots.len() > 0 && !signals_body(slots[0]) {
            lemma_body_signal_is(slots.drop_first(), 0);
        }
    } else {
        assert(!signals_body(slots[0]));
        let t = slots.drop_first();
        assert forall|i: int| 0 <= i < n - 1 implies !signals_body(#[trigger] t[i]) by {
            assert(t[i] == slots[i + 1]);
        }
        if n - 1 < t.len() {
            assert(t[n - 1] == slots[n]);
        }
        lemma_body_signal_is(t, n - 1);
    }
}

/// Number of slots before the first sentinel slot (name and value both
/// empty); all of them when no slot is the sentinel.
pub open spec fn populated_len(slots: Seq<(Seq<u8>, Seq<u8>)>) -> int
    decreases slots.len(),
{
    if slots.len() == 0 {
        0
    } else if is_sentinel(slots[0]) {
        0
    } else {
        1 + populated_len(slots.drop_first())
    }
}

/// The populated prefix never exceeds the slot count.
pub proof fn lemma_populated_len_bounds(slots: Seq<(Seq<u8>, Seq<u8>)>)
    ensures
        0 <= populated_len(slots) <= slots.len(),
    decreases slots.len(),
{
    if slots.len() > 0 && !is_sentinel(slots[0]) {
        lemma_populated_len_bounds(slots.drop_first());
    }
}

/// The first-sentinel characterisation of `populated_len`.
proof fn lemma_populated_len_is(slots: Seq<(Seq<u8>, Seq<u8>)>, n: int)
    requires
        0 <= n <= slots.len(),
        forall|i: int| 0 <= i < n ==> !is_sentinel(#[trigger] slots[i]),
        n < slots.len() ==> is_sentinel(slots[n]),
    ensures
        populated_len(slots) == n,
    decreases slots.len(),
{
    if n == 0 {
    } else {
        let t = slots.drop_first();
        assert forall|i: int| 0 <= i < n - 1 implies !is_sentinel(#[trigger] t[i]) by {
            assert(t[i] == slots[i + 1]);
        }
        if n - 1 < t.len() {
            assert(t[n - 1] == slots[n]);
        }
        lemma_populated_len_is(t, n - 1);
    }
}

/// Whether `n` is exactly the name `Content-Length`.
fn is_content_length(n: &[u8]) -> (r: bool)
    ensures
        r == (n@ == content_length_name()),
{
    let lit: &[u8] = &[67, 111, 110, 116, 101, 110, 116, 45, 76, 101, 110, 103, 116, 104];
    proof {
        assert(lit@ =~= content_length_name());
    }
    bytes_eq(n, lit)
}

/// Whether `n` is exactly the name `Transfer-Encoding`.
fn is_transfer_encoding(n: &[u8]) -> (r: bool)
    ensures
        r == (n@ == transfer_encoding_name()),
{
    let lit: &[u8] = &[84, 114, 97, 110, 115, 102, 101, 114, 45, 69, 110, 99, 111, 100, 105, 110, 103];
    proof {
        assert(lit@ =~= transfer_encoding_name());
    }
    bytes_eq(n, lit)
}

/// Whether `v` sorts strictly after the single byte `0`.
fn gt_zero(v: &[u8]) -> (r: bool)
    ensures
        r == spec_gt_zero(v@),
{
    v.len() >= 1 && (*vstd::slice::slice_index_get(v, 0) > 48 || (*vstd::slice::slice_index_get(
        v,
        0,
    ) == 48 && v.len() >= 2))
}

/// Index of the first header slot that signals a body, scanning every
/// slot in order.
fn find_body_signal(headers: &Vec<Header<'_>>) -> (r: Option<usize>)
    ensures
        match body_signal(pairs_of(headers@)) {
            Some(i) => r matches Some(j) && j == i && 0 <= i < headers@.len(),
            None => r is None,
        },
{
    let ghost slots = pairs_of(headers@);
    let mut idx: usize = 0;
    while idx < headers.len()
        invariant
            idx <= headers@.len(),
            slots == pairs_of(headers@),
            slots.len() == headers@.len(),
            forall|i: int| 0 <= i < idx ==> !signals_body(#[trigger] slots[i]),
        decreases headers@.len() - idx,
    {
        let h = headers[idx];
        let signals = (is_content_length(h.name) && gt_zero(h.value)) || is_transfer_encoding(
            h.name,
        );
        proof {
            assert(slots[idx as int] == headers@[idx as int]@);
        }
        if signals {
            proof {
                lemma_body_signal_is(slots, idx as int);
            }
            return Some(idx);
        }
        idx = idx + 1;
    }
    proof {
        lemma_body_signal_is(slots, slots.len() as int);
    }
    None
}

/// The view of a parsed request: the three request-line fields, the header
/// slots, and the body, all as byte sequences.
#[verifier::ext_equal]
pub ghost struct RequestView {
    pub method: Seq<u8>,
    pub path: Seq<u8>,
    pub version: Seq<u8>,
    pub headers: Seq<(Seq<u8>, Seq<u8>)>,
    pub body: Seq<u8>,
}

/// The header slots after the header phase: the parsed pairs fill a
/// prefix; the slot at the stopping position (if any) gets the token run
/// of the stopping line as its name and keeps its old value; later slots
/// are unchanged.
pub open spec fn slots_after(
    old_slots: Seq<(Seq<u8>, Seq<u8>)>,
    parsed: Seq<(Seq<u8>, Seq<u8>)>,
    fin: Seq<u8>,
) -> Seq<(Seq<u8>, Seq<u8>)> {
    let k = parsed.len() as int;
    Seq::new(
        old_slots.len(),
        |i: int|
            if i < k {
                parsed[i]
            } else if i == k {
                (fin.take(run_len(fin, ByteClass::Tchar) as int), old_slots[i].1)
            } else {
                old_slots[i]
            },
    )
}

/// The textual rendering of a request:
/// `Request { method: M, path: P, version: HTTP/V, headers: { H } }`,
/// where `H` joins the populated headers as `name: value` pairs separated
/// by `, `.
pub open spec fn spec_render_request(v: RequestView) -> Seq<char> {
    "Request { method: "@ + decode_utf8(v.method) + ", path: "@ + decode_utf8(v.path)
        + ", version: HTTP/"@ + decode_utf8(v.version) + ", headers: { "@ + join_headers_chars(
        v.headers.take(populated_len(v.headers)),
    ) + " } }"@
}

/// The whole parse, phase by phase, as a function of the input bytes and
/// the request's state before the call.
///
/// The request line is parsed first; on failure nothing else changes and
/// the error is `RequestLine`.  The header phase then fills the slots and
/// never fails.  Finally the filled slots are scanned for the first one
/// that signals a body: a `Content-Length` slot's value is decoded as
/// UTF-8 (failure: `InvalidUtf8Content` carrying the length of the longest
/// valid prefix), parsed as an unsigned decimal (failure: `ContentLength`),
/// and the body of exactly that many bytes is taken after one CRLF
/// (failure: `Body`); a `Transfer-Encoding` slot leaves the body alone; no
/// signal leaves the body alone and succeeds.
pub open spec fn spec_parse(input: Seq<u8>, old: RequestView) -> (Result<(), ParserError>,
    RequestView,
) {
    match spec_request_line(input) {
        None => (Err(ParserError::RequestLine), old),
        Some((rest, m, p, v)) => {
            let hp = spec_headers(rest, old.headers.len() as nat);
            let slots = slots_after(old.headers, hp.0, hp.1);
            let mid = RequestView { method: m, path: p, version: v, headers: slots, ..old };
            match body_signal(slots) {
                None => (Ok(()), mid),
                Some(i) => {
                    if slots[i].0 == content_length_name() {
                        let val = slots[i].1;
                        if !valid_utf8(val) {
                            (
                                Err(ParserError::InvalidUtf8Content(utf8_prefix_len(val) as usize)),
                                mid,
                            )
                        } else {
                            match spec_parse_usize(val) {
                                None => (Err(ParserError::ContentLength), mid),
                                Some(n) => match spec_body(hp.1, n as nat) {
                                    None => (Err(ParserError::Body), mid),
                                    Some((_, b)) => (Ok(()), RequestView { body: b, ..mid }),
                                },
                            }
                        }
                    } else {
                        (Ok(()), mid)
                    }
                },
            }
        },
    }
}

/// A `Content-Length` slot whose value is exactly `0` never signals a
/// body: `0` does not sort after itself, so body extraction is not
/// triggered.
pub proof fn lemma_zero_length_no_signal(p: (Seq<u8>, Seq<u8>))
    requires
        p.1 == seq![48u8],
        p.0 != transfer_encoding_name(),
    ensures
        !signals_body(p),
{
}

/// The header phase never fails: no parse outcome is the `Headers` error.
pub proof fn lemma_headers_phase_total(input: Seq<u8>, old: RequestView)
    ensures
        spec_parse(input, old).0 != Err::<(), ParserError>(ParserError::Headers),
{
}

/// A message with more header lines than slots parses them without error:
/// when the header phase fills every slot, the populated prefix exposed by
/// [`Request::headers`] is exactly the capacity.
pub proof fn lemma_excess_headers_truncated(input: Seq<u8>, old: RequestView)
    requires
        spec_request_line(input) is Some,
        spec_headers(
            spec_request_line(input)->Some_0.0,
            old.headers.len() as nat,
        ).0.len() == old.headers.len(),
    ensures
        populated_len(spec_parse(input, old).1.headers) == old.headers.len(),
{
    let rest = spec_request_line(input)->Some_0.0;
    let hp = spec_headers(rest, old.headers.len() as nat);
    let slots = slots_after(old.headers, hp.0, hp.1);
    crate::http::parse::lemma_headers_values_nonempty(rest, old.headers.len() as nat);
    assert forall|i: int| 0 <= i < slots.len() implies !is_sentinel(#[trigger] slots[i]) by {
        assert(slots[i] == hp.0[i]);
        assert(hp.0[i].1.len() >= 1);
    }
    lemma_populated_len_is(slots, slots.len() as int);
    assert(spec_parse(input, old).1.headers == slots);
}

/// Without a `Content-Length` or `Transfer-Encoding` signal among the
/// filled slots, the parse succeeds and the body stays as it was, no
/// matter what bytes trail the header block.
pub proof fn lemma_no_signal_leaves_body(input: Seq<u8>, old: RequestView)
    requires
        spec_request_line(input) is Some,
        body_signal(spec_parse(input, old).1.headers) is None,
    ensures
        spec_parse(input, old).0 == Ok::<(), ParserError>(()),
        spec_parse(input, old).1.body == old.body,
{
}

/// A request bound to caller-supplied header storage.
///
/// The caller chooses the header capacity by the length of the vector it
/// hands to [`Request::new`]; parsing fills a prefix of those slots and
/// never grows the storage.  All parsed fields borrow from the input
/// buffer passed to [`Request::parse`].
#[derive(Debug)]
pub struct Request<'a> {
    method: &'a [u8],
    path: &'a [u8],
    version: &'a [u8],
    headers: Vec<Header<'a>>,
    body: &'a [u8],
}

impl<'a> View for Request<'a> {
    type V = RequestView;

    closed spec fn view(&self) -> RequestView {
        RequestView {
            method: self.method@,
            path: self.path@,
            version: self.version@,
            headers: pairs_of(self.headers@),
            body: self.body@,
        }
    }
}

impl<'i> Request<'i> {
    /// A fresh request over the given header storage.  The storage's
    /// length is the header capacity; its slots are used as they are, so
    /// callers normally pass sentinel (empty) headers.
    pub fn new(headers: Vec<Header<'i>>) -> (r: Self)
        ensures
            r@.method.len() == 0,
            r@.path.len() == 0,
            r@.version.len() == 0,
            r@.body.len() == 0,
            r@.headers == pairs_of(headers@),
    {
        Request { method: &[], path: &[], version: &[], headers, body: &[] }
    }

    /// The request method, such as `GET`.
    pub fn method(&self) -> (r: &[u8])
        ensures
            r@ == self@.method,
    {
        self.method
    }

    /// The request target, such as `/events`.
    pub fn path(&self) -> (r: &[u8])
        ensures
            r@ == self@.path,
    {
        self.path
    }

    /// The request version, such as `1.1`.
    pub fn version(&self) -> (r: &[u8])
        ensures
            r@ == self@.version,
    {
        self.version
    }

    /// The request body; empty unless a `Content-Length` header caused a
    /// body to be extracted.
    pub fn body(&self) -> (r: &[u8])
        ensures
            r@ == self@.body,
    {
        self.body
    }

    /// The populated header slots: the prefix of the storage before the
    /// first sentinel slot, or all slots when no sentinel occurs.
    pub fn headers(&self) -> (r: &[Header<'i>])
        ensures
            r@.len() == populated_len(self@.headers),
            pairs_of(r@) == self@.headers.take(populated_len(self@.headers)),
    {
        let ghost slots = pairs_of(self.headers@);
        let n = self.headers.len();
        let mut i: usize = 0;
        while i < n
            invariant
                i <= n,
                n == self.headers@.len(),
                slots == pairs_of(self.headers@),
                slots.len() == n,
                forall|j: int| 0 <= j < i ==> !is_sentinel(#[trigger] slots[j]),
            decreases n - i,
        {
            let h = self.headers[i];
            proof {
                assert(slots[i as int] == self.headers@[i as int]@);
            }
            if h.name.len() == 0 && h.value.len() == 0 {
                proof {
                    lemma_populated_len_is(slots, i as int);
                    assert(pairs_of(self.headers@.subrange(0, i as int)) =~= slots.take(i as int));
                }
                return vstd::slice::slice_subrange(self.headers.as_slice(), 0, i);
            }
            i = i + 1;
        }
        proof {
            lemma_populated_len_is(slots, n as int);
            assert(pairs_of(self.headers@.subrange(0, n as int)) =~= slots.take(n as int));
        }
        vstd::slice::slice_subrange(self.headers.as_slice(), 0, n)
    }

    /// Parses one complete request message out of `input`.
    ///
    /// The phases run in order — request line, headers, body decision —
    /// and the first failing phase aborts the parse, leaving the fields
    /// already set by earlier phases in place.  The exact outcome, success
    /// or each error, is [`spec_parse`] of the input and the prior state.
    pub fn parse(&mut self, input: &'i [u8]) -> (r: Result<(), ParserError>)
        ensures
            r == spec_parse(input@, old(self)@).0,
            final(self)@ == spec_parse(input@, old(self)@).1,
    {
        let (rest, m, p, v) = match request_line(input) {
            Some((rest, (m, p, v))) => (rest, m, p, v),
            None => {
                return Err(ParserError::RequestLine);
            },
        };
        self.method = m;
        self.path = p;
        self.version = v;
        let rest2 = headers_iterator(rest, &mut self.headers);
        proof {
            let hp = spec_headers(rest@, old(self)@.headers.len() as nat);
            assert(pairs_of(self.headers@) =~~= slots_after(old(self)@.headers, hp.0, hp.1));
        }
        let found = find_body_signal(&self.headers);
        let i = match found {
            None => {
                proof {
                    assert(final(self)@ =~~= spec_parse(input@, old(self)@).1);
                }
                return Ok(());
            },
            Some(i) => i,
        };
        let h = self.headers[i];
        proof {
            assert(pairs_of(self.headers@)[i as int] == self.headers@[i as int]@);
        }
        if is_content_length(h.name) {
            let value = h.value;
            let prefix = utf8_prefix(value);
            if prefix < value.len() {
                proof {
                    assert(final(self)@ =~~= spec_parse(input@, old(self)@).1);
                }
                return Err(ParserError::InvalidUtf8Content(prefix));
            }
            let n = match parse_usize(value) {
                None => {
                    proof {
                        assert(final(self)@ =~~= spec_parse(input@, old(self)@).1);
                    }
                    return Err(ParserError::ContentLength);
                },
                Some(n) => n,
            };
            match body(n, rest2) {
                None => {
                    proof {
                        assert(final(self)@ =~~= spec_parse(input@, old(self)@).1);
                    }
                    return Err(ParserError::Body);
                },
                Some((_, b)) => {
                    self.body = b;
                    proof {
                        assert(final(self)@ =~~= spec_parse(input@, old(self)@).1);
                    }
                    Ok(())
                },
            }
        } else {
            proof {
                assert(final(self)@ =~~= spec_parse(input@, old(self)@).1);
            }
            Ok(())
        }
    }

    /// The textual rendering of the request, for logging and debugging:
    /// independent of parsing correctness.  The fields shown — method,
    /// path, version, and the populated headers — must be valid UTF-8.
    pub fn render(&self) -> (r: String)
        requires
            valid_utf8(self@.method),
            valid_utf8(self@.path),
            valid_utf8(self@.version),
            forall|i: int|
                0 <= i < populated_len(self@.headers) ==> valid_utf8(
                    #[trigger] self@.headers[i].0,
                ) && valid_utf8(self@.headers[i].1),
        ensures
            r@ == spec_render_request(self@),
    {
        let mut out = String::new();
        out.append("Request { method: ");
        let m = utf8_to_string(self.method);
        out.append(m.as_str());
        out.append(", path: ");
        let p = utf8_to_string(self.path);
        out.append(p.as_str());
        out.append(", version: HTTP/");
        let v = utf8_to_string(self.version);
        out.append(v.as_str());
        out.append(", headers: { ");
        let hs = self.headers();
        proof {
            lemma_populated_len_bounds(self@.headers);
            let shown = self@.headers.take(populated_len(self@.headers));
            assert forall|i: int|
                0 <= i < hs@.len() implies valid_utf8(#[trigger] pairs_of(hs@)[i].0) && valid_utf8(
                pairs_of(hs@)[i].1,
            ) by {
                assert(pairs_of(hs@)[i] == shown[i]);
                assert(shown[i] == self@.headers[i]);
            }
        }
        append_joined_headers(&mut out, hs);
        out.append(" } }");
        proof {
            assert(out@ =~= spec_render_request(self@));
        }
        out
    }
}

} // verus!
