//! Parsers for the request grammar.
//!
//! Wire grammar consumed (RFC 7230, with the deliberate narrowings noted on
//! each parser):
//!
//! ```text
//! request-line  = method SP request-target SP "HTTP/" version CRLF
//! header-field  = token ":" SP field-value CRLF
//! headers-block = *header-field
//! body          = CRLF *OCTET        ; length given by Content-Length
//! ```
//!
//! Each executable parser is specified against a spec-level parser over
//! `Seq<u8>`; the spec parsers are the single source of truth for the
//! grammar.

use vstd::prelude::*;

use crate::http::header::Header;

verus! {

/// The classes of bytes the grammar distinguishes.
#[derive(Debug, Clone, Copy, PartialEq, Eq, Structural)]
pub enum ByteClass {
    /// Legal inside a header name: letters, digits, and the RFC 7230 token
    /// punctuation set.
    Tchar,
    /// ASCII decimal digit.
    Digit,
    /// ASCII letter.
    Alpha,
    /// Any byte other than SP.
    NotSpace,
    /// Any byte other than CR and LF.
    NotCrlf,
    /// Legal inside an HTTP version: a digit or `.`.
    VersionChar,
}

/// Which bytes are legal inside a header name: letters, digits, and
/// `! # $ % & ' * + - . ^ _ ` | ~`.  Control bytes, space, colon and
/// high-bit bytes are all illegal.
pub open spec fn spec_tchar(b: u8) -> bool {
    ||| (48 <= b <= 57)
    ||| (65 <= b <= 90)
    ||| (97 <= b <= 122)
    ||| b == 33
    ||| (35 <= b <= 39)
    ||| b == 42
    ||| b == 43
    ||| b == 45
    ||| b == 46
    ||| b == 94
    ||| b == 95
    ||| b == 96
    ||| b == 124
    ||| b == 126
}

/// Membership of a byte in a class.
pub open spec fn byte_in_class(b: u8, c: ByteClass) -> bool {
    match c {
        ByteClass::Tchar => spec_tchar(b),
        ByteClass::Digit => 48 <= b <= 57,
        ByteClass::Alpha => (65 <= b <= 90) || (97 <= b <= 122),
        ByteClass::NotSpace => b != 32,
        ByteClass::NotCrlf => b != 13 && b != 10,
        ByteClass::VersionChar => (48 <= b <= 57) || b == 46,
    }
}

/// Length of the longest prefix of `s` whose bytes all lie in class `c`.
pub open spec fn run_len(s: Seq<u8>, c: ByteClass) -> nat
    decreases s.len(),
{
    if s.len() == 0 || !byte_in_class(s[0], c) {
        0
    } else {
        (1 + run_len(s.drop_first(), c)) as nat
    }
}

/// The run is a maximal prefix: every byte before its end lies in the
/// class, and the byte at its end (if any) does not.
pub proof fn lemma_run_len(s: Seq<u8>, c: ByteClass)
    ensures
        run_len(s, c) <= s.len(),
        forall|i: int| 0 <= i < run_len(s, c) ==> byte_in_class(#[trigger] s[i], c),
        run_len(s, c) < s.len() ==> !byte_in_class(s[run_len(s, c) as int], c),
    decreases s.len(),
{
    if s.len() == 0 || !byte_in_class(s[0], c) {
    } else {
        lemma_run_len(s.drop_first(), c);
        let n = run_len(s, c) as int;
        assert forall|i: int| 0 <= i < n implies byte_in_class(#[trigger] s[i], c) by {
            if i > 0 {
                assert(s.drop_first()[i - 1] == s[i]);
            }
        }
        if n < s.len() {
            assert(s.drop_first()[n - 1] == s[n]);
        }
    }
}

/// Any index with the maximal-prefix property is the run length.
pub proof fn lemma_run_len_is(s: Seq<u8>, c: ByteClass, n: int)
    requires
        0 <= n <= s.len(),
        forall|i: int| 0 <= i < n ==> byte_in_class(#[trigger] s[i], c),
        n < s.len() ==> !byte_in_class(s[n], c),
    ensures
        run_len(s, c) == n,
    decreases s.len(),
{
    if n == 0 {
    } else {
        assert(byte_in_class(s[0], c));
        let t = s.drop_first();
        assert forall|i: int| 0 <= i < n - 1 implies byte_in_class(#[trigger] t[i], c) by {
            assert(t[i] == s[i + 1]);
        }
        if n - 1 < t.len() {
            assert(t[n - 1] == s[n]);
        }
        lemma_run_len_is(t, c, n - 1);
    }
}

/// Whether byte `b` lies in class `c`.
pub fn byte_matches(b: u8, c: ByteClass) -> (r: bool)
    ensures
        r == byte_in_class(b, c),
{
    match c {
        ByteClass::Tchar => (48 <= b && b <= 57) || (65 <= b && b <= 90) || (97 <= b && b
            <= 122) || b == 33 || (35 <= b && b <= 39) || b == 42 || b == 43 || b == 45 || b == 46
            || b == 94 || b == 95 || b == 96 || b == 124 || b == 126,
        ByteClass::Digit => 48 <= b && b <= 57,
        ByteClass::Alpha => (65 <= b && b <= 90) || (97 <= b && b <= 122),
        ByteClass::NotSpace => b != 32,
        ByteClass::NotCrlf => b != 13 && b != 10,
        ByteClass::VersionChar => (48 <= b && b <= 57) || b == 46,
    }
}

/// Whether byte `b` is legal inside a header name.
pub fn is_header_name_token(b: u8) -> (r: bool)
    ensures
        r == byte_in_class(b, ByteClass::Tchar),
{
    byte_matches(b, ByteClass::Tchar)
}

/// Whether byte `b` is legal inside an HTTP version: a digit or `.`.
pub fn is_version(b: u8) -> (r: bool)
    ensures
        r == byte_in_class(b, ByteClass::VersionChar),
{
    byte_matches(b, ByteClass::VersionChar)
}

/// Scans forward from `from` and returns the first index at or after it
/// whose byte is not in class `c` (or the end of the buffer).
fn scan_class(input: &[u8], from: usize, c: ByteClass) -> (r: usize)
    requires
        from <= input@.len(),
    ensures
        from <= r <= input@.len(),
        r - from == run_len(input@.skip(from as int), c),
{
    let mut i = from;
    while i < input.len() && byte_matches(*vstd::slice::slice_index_get(input, i), c)
        invariant
            from <= i <= input@.len(),
            forall|j: int| from <= j < i ==> byte_in_class(#[trigger] input@[j], c),
        decreases input@.len() - i,
    {
        i = i + 1;
    }
    proof {
        let rest = input@.skip(from as int);
        assert forall|j: int| 0 <= j < i - from implies byte_in_class(#[trigger] rest[j], c) by {
            assert(rest[j] == input@[from + j]);
        }
        if (i as int) < input@.len() {
            assert(rest[i - from] == input@[i as int]);
        }
        lemma_run_len_is(rest, c, i - from);
    }
    i
}

/// The two-byte line terminator CR LF.
pub open spec fn crlf_seq() -> Seq<u8> {
    seq![13u8, 10u8]
}

/// The literal `HTTP/` that precedes the version.
pub open spec fn http_slash() -> Seq<u8> {
    seq![72u8, 84u8, 84u8, 80u8, 47u8]
}

/// Consumes a CRLF terminator, returning the rest of the input.
pub open spec fn spec_crlf(s: Seq<u8>) -> Option<Seq<u8>> {
    if s.len() >= 2 && s[0] == 13u8 && s[1] == 10u8 {
        Some(s.skip(2))
    } else {
        None
    }
}

/// The method parser: one optional leading CRLF and any leading decimal
/// digits are discarded, then 3 to 7 consecutive ASCII letters are taken.
/// Fails when the maximal letter run is shorter than 3 or longer than 7.
/// Returns (rest, method).
pub open spec fn spec_method(s: Seq<u8>) -> Option<(Seq<u8>, Seq<u8>)> {
    let s1 = if s.len() >= 2 && s[0] == 13u8 && s[1] == 10u8 {
        s.skip(2)
    } else {
        s
    };
    let s2 = s1.skip(run_len(s1, ByteClass::Digit) as int);
    let k = run_len(s2, ByteClass::Alpha) as int;
    if 3 <= k && k <= 7 {
        Some((s2.skip(k), s2.take(k)))
    } else {
        None
    }
}

/// The request-target parser: exactly one leading SP, then one or more
/// non-SP bytes, then exactly one trailing SP.  Returns (rest, target).
pub open spec fn spec_path(s: Seq<u8>) -> Option<(Seq<u8>, Seq<u8>)> {
    if s.len() >= 1 && s[0] == 32u8 {
        let k = run_len(s.skip(1), ByteClass::NotSpace) as int;
        if k >= 1 && 1 + k < s.len() {
            Some((s.skip(2 + k), s.subrange(1, 1 + k)))
        } else {
            None
        }
    } else {
        None
    }
}

/// The version parser: the literal `HTTP/`, then one or more bytes drawn
/// from digits and `.`.  The version is not numerically validated.
/// Returns (rest, version).
pub open spec fn spec_version(s: Seq<u8>) -> Option<(Seq<u8>, Seq<u8>)> {
    if s.len() >= 5 && s.take(5) == http_slash() {
        let k = run_len(s.skip(5), ByteClass::VersionChar) as int;
        if k >= 1 {
            Some((s.skip(5 + k), s.subrange(5, 5 + k)))
        } else {
            None
        }
    } else {
        None
    }
}

/// The request-line parser: method, target and version in sequence,
/// terminated by exactly CRLF.  Returns (rest, method, target, version).
pub open spec fn spec_request_line(s: Seq<u8>) -> Option<(Seq<u8>, Seq<u8>, Seq<u8>, Seq<u8>)> {
    match spec_method(s) {
        Some((s1, m)) => match spec_path(s1) {
            Some((s2, p)) => match spec_version(s2) {
                Some((s3, v)) => match spec_crlf(s3) {
                    Some(s4) => Some((s4, m, p, v)),
                    None => None,
                },
                None => None,
            },
            None => None,
        },
        None => None,
    }
}

/// One or more bytes that are neither CR nor LF.  Returns (rest, run).
pub open spec fn spec_not_crlf(s: Seq<u8>) -> Option<(Seq<u8>, Seq<u8>)> {
    let k = run_len(s, ByteClass::NotCrlf) as int;
    if k >= 1 {
        Some((s.skip(k), s.take(k)))
    } else {
        None
    }
}

/// Parses an HTTP request method.
///
/// A single leading CRLF and any leading decimal digits are silently
/// discarded; then 3 to 7 consecutive ASCII letters are taken.  No check
/// that the token is a known HTTP verb is made.  On success returns the
/// unconsumed rest of the input and the method bytes.
pub fn method(input: &[u8]) -> (r: Option<(&[u8], &[u8])>)
    ensures
        match spec_method(input@) {
            Some((rest, tok)) => r matches Some((rr, tt)) && rr@ == rest && tt@ == tok,
            None => r is None,
        },
{
    let mut pos: usize = 0;
    if input.len() >= 2 && *vstd::slice::slice_index_get(input, 0) == 13
        && *vstd::slice::slice_index_get(input, 1) == 10 {
        pos = 2;
    }
    let start = scan_class(input, pos, ByteClass::Digit);
    let end = scan_class(input, start, ByteClass::Alpha);
    proof {
        let s1 = if input@.len() >= 2 && input@[0] == 13u8 && input@[1] == 10u8 {
            input@.skip(2)
        } else {
            input@
        };
        assert(input@.skip(pos as int) =~= s1);
        let s2 = s1.skip(run_len(s1, ByteClass::Digit) as int);
        assert(input@.skip(start as int) =~= s2);
        assert(input@.skip(start as int).skip(end - start) =~= input@.skip(end as int));
        assert(input@.skip(start as int).take(end - start) =~= input@.subrange(
            start as int,
            end as int,
        ));
    }
    let k = end - start;
    if 3 <= k && k <= 7 {
        Some(
            (
                vstd::slice::slice_subrange(input, end, input.len()),
                vstd::slice::slice_subrange(input, start, end),
            ),
        )
    } else {
        None
    }
}

/// Parses an HTTP request target: exactly one leading space, one or more
/// bytes that are not a space, then exactly one trailing space.  On success
/// returns the unconsumed rest of the input and the target bytes.
pub fn path(input: &[u8]) -> (r: Option<(&[u8], &[u8])>)
    ensures
        match spec_path(input@) {
            Some((rest, tgt)) => r matches Some((rr, tt)) && rr@ == rest && tt@ == tgt,
            None => r is None,
        },
{
    if input.len() == 0 || *vstd::slice::slice_index_get(input, 0) != 32 {
        return None;
    }
    let end = scan_class(input, 1, ByteClass::NotSpace);
    proof {
        assert(input@.skip(1) =~= input@.skip(1));
        let k = run_len(input@.skip(1), ByteClass::NotSpace) as int;
        assert(end - 1 == k);
        if end >= 2 && (end as int) + 1 <= input@.len() {
            assert(input@.skip(1).take(k) =~= input@.subrange(1, 1 + k));
            assert(input@.skip(end as int + 1) =~= input@.skip(2 + k));
        }
    }
    if end == 1 {
        return None;
    }
    if end >= input.len() {
        return None;
    }
    Some(
        (
            vstd::slice::slice_subrange(input, end + 1, input.len()),
            vstd::slice::slice_subrange(input, 1, end),
        ),
    )
}

/// Parses an HTTP version: the literal `HTTP/` followed by one or more
/// bytes drawn from digits and `.`.  On success returns the unconsumed rest
/// of the input and the version bytes (without the `HTTP/` prefix).
pub fn version(input: &[u8]) -> (r: Option<(&[u8], &[u8])>)
    ensures
        match spec_version(input@) {
            Some((rest, v)) => r matches Some((rr, vv)) && rr@ == rest && vv@ == v,
            None => r is None,
        },
{
    if input.len() < 5 {
        proof {
            assert(spec_version(input@) is None);
        }
        return None;
    }
    let lit_ok = *vstd::slice::slice_index_get(input, 0) == 72
        && *vstd::slice::slice_index_get(input, 1) == 84
        && *vstd::slice::slice_index_get(input, 2) == 84
        && *vstd::slice::slice_index_get(input, 3) == 80
        && *vstd::slice::slice_index_get(input, 4) == 47;
    proof {
        if lit_ok {
            assert(input@.take(5) =~= http_slash());
        } else {
            assert(input@.take(5) != http_slash()) by {
                if input@.take(5) == http_slash() {
                    assert(input@[0] == input@.take(5)[0]);
                    assert(input@[1] == input@.take(5)[1]);
                    assert(input@[2] == input@.take(5)[2]);
                    assert(input@[3] == input@.take(5)[3]);
                    assert(input@[4] == input@.take(5)[4]);
                }
            }
        }
    }
    if !lit_ok {
        return None;
    }
    let end = scan_class(input, 5, ByteClass::VersionChar);
    proof {
        let k = run_len(input@.skip(5), ByteClass::VersionChar) as int;
        assert(end - 5 == k);
        if end > 5 {
            assert(input@.skip(end as int) =~= input@.skip(5 + k));
            assert(input@.subrange(5, end as int) =~= input@.subrange(5, 5 + k));
        }
    }
    if end == 5 {
        return None;
    }
    Some(
        (
            vstd::slice::slice_subrange(input, end, input.len()),
            vstd::slice::slice_subrange(input, 5, end),
        ),
    )
}

/// Parses one or more bytes that are neither CR nor LF.  On success returns
/// the unconsumed rest of the input and the run.
pub fn not_crlf(input: &[u8]) -> (r: Option<(&[u8], &[u8])>)
    ensures
        match spec_not_crlf(input@) {
            Some((rest, run)) => r matches Some((rr, vv)) && rr@ == rest && vv@ == run,
            None => r is None,
        },
{
    let end = scan_class(input, 0, ByteClass::NotCrlf);
    proof {
        assert(input@.skip(0) =~= input@);
        if end > 0 {
            assert(input@.skip(end as int) =~= input@.skip(end as int));
            assert(input@.take(end as int) =~= input@.subrange(0, end as int));
        }
    }
    if end == 0 {
        return None;
    }
    Some(
        (
            vstd::slice::slice_subrange(input, end, input.len()),
            vstd::slice::slice_subrange(input, 0, end),
        ),
    )
}

/// Parses a single space-delimited word: the same grammar as [`path`].
pub fn whitespace_delimited(input: &[u8]) -> (r: Option<(&[u8], &[u8])>)
    ensures
        match spec_path(input@) {
            Some((rest, w)) => r matches Some((rr, ww)) && rr@ == rest && ww@ == w,
            None => r is None,
        },
{
    path(input)
}

/// Parses a full request line `method SP target SP HTTP/version CRLF`.
///
/// On success returns the unconsumed rest of the input (everything after
/// the terminating CRLF) and the method, target and version slices.
pub fn request_line(input: &[u8]) -> (r: Option<(&[u8], (&[u8], &[u8], &[u8]))>)
    ensures
        match spec_request_line(input@) {
            Some((rest, m, p, v)) => r matches Some((rr, (mm, pp, vv))) && rr@ == rest && mm@ == m
                && pp@ == p && vv@ == v,
            None => r is None,
        },
{
    let (rest1, m) = match method(input) {
        Some(x) => x,
        None => { return None; },
    };
    let (rest2, p) = match path(rest1) {
        Some(x) => x,
        None => { return None; },
    };
    let (rest3, v) = match version(rest2) {
        Some(x) => x,
        None => { return None; },
    };
    if rest3.len() < 2 || *vstd::slice::slice_index_get(rest3, 0) != 13
        || *vstd::slice::slice_index_get(rest3, 1) != 10 {
        return None;
    }
    Some((vstd::slice::slice_subrange(rest3, 2, rest3.len()), (m, p, v)))
}

/// One header field `token ":" SP field-value CRLF`.
///
/// The name is the longest run of token bytes and may be empty; the colon
/// must follow it immediately, then exactly one space (not the RFC's
/// optional whitespace), then a non-empty value free of CR and LF, then
/// CRLF.  Returns (rest, name, value).
pub open spec fn spec_header(s: Seq<u8>) -> Option<(Seq<u8>, Seq<u8>, Seq<u8>)> {
    let n = run_len(s, ByteClass::Tchar) as int;
    if n + 1 < s.len() && s[n] == 58u8 && s[n + 1] == 32u8 {
        let s2 = s.skip(n + 2);
        let k = run_len(s2, ByteClass::NotCrlf) as int;
        if k >= 1 && s2.len() >= k + 2 && s2[k] == 13u8 && s2[k + 1] == 10u8 {
            Some((s.skip(n + 2 + k + 2), s.take(n), s2.take(k)))
        } else {
            None
        }
    } else {
        None
    }
}

/// Parses one header field into the given slot.
///
/// On success the slot holds the parsed name and value and the unconsumed
/// rest of the input is returned.  On failure the slot's name still holds
/// the token run found at the start of the input (possibly empty) and the
/// value is left as it was: callers treat the failure as the benign end of
/// the header block.
pub fn header<'i>(input: &'i [u8], h: &mut Header<'i>) -> (r: Option<&'i [u8]>)
    ensures
        match spec_header(input@) {
            Some((rest, n, v)) => r matches Some(rem) && rem@ == rest && final(h)@.0 == n
                && final(h)@.1 == v,
            None => r is None && final(h)@.0 == input@.take(
                run_len(input@, ByteClass::Tchar) as int,
            ) && final(h)@.1 == old(h)@.1,
        },
{
    let n = scan_class(input, 0, ByteClass::Tchar);
    proof {
        assert(input@.skip(0) =~= input@);
        assert(input@.subrange(0, n as int) =~= input@.take(n as int));
    }
    h.name = vstd::slice::slice_subrange(input, 0, n);
    if input.len() - n < 2 {
        return None;
    }
    if *vstd::slice::slice_index_get(input, n) != 58 {
        return None;
    }
    if *vstd::slice::slice_index_get(input, n + 1) != 32 {
        return None;
    }
    let vstart = n + 2;
    let vend = scan_class(input, vstart, ByteClass::NotCrlf);
    proof {
        let s2 = input@.skip(vstart as int);
        assert(vend - vstart == run_len(s2, ByteClass::NotCrlf));
        assert forall|j: int| 0 <= j < s2.len() implies s2[j] == input@[vstart + j] by {}
    }
    if vend == vstart {
        return None;
    }
    if input.len() - vend < 2 {
        return None;
    }
    if *vstd::slice::slice_index_get(input, vend) != 13 {
        return None;
    }
    if *vstd::slice::slice_index_get(input, vend + 1) != 10 {
        return None;
    }
    h.value = vstd::slice::slice_subrange(input, vstart, vend);
    proof {
        let s2 = input@.skip(vstart as int);
        let k = vend - vstart;
        assert(input@.subrange(vstart as int, vend as int) =~= s2.take(k as int));
        assert(input@.skip(vend as int + 2) =~= input@.skip(
            (n as int) + 2 + (k as int) + 2,
        ));
    }
    Some(vstd::slice::slice_subrange(input, vend + 2, input.len()))
}

/// The header-collection loop: up to `cap` header fields parsed in
/// sequence.  Stops at the first input position where no header field can
/// be parsed; that is the benign end of the header block, never an error.
/// Returns the parsed (name, value) pairs and the unconsumed rest.
pub open spec fn spec_headers(s: Seq<u8>, cap: nat) -> (Seq<(Seq<u8>, Seq<u8>)>, Seq<u8>)
    decreases cap,
{
    if cap == 0 {
        (Seq::empty(), s)
    } else {
        match spec_header(s) {
            Some((rest, n, v)) => {
                let t = spec_headers(rest, (cap - 1) as nat);
                (seq![(n, v)] + t.0, t.1)
            },
            None => (Seq::empty(), s),
        }
    }
}

/// The (name, value) views of a sequence of header slots.
pub open spec fn pairs_of<'a>(hs: Seq<Header<'a>>) -> Seq<(Seq<u8>, Seq<u8>)> {
    hs.map_values(|h: Header<'a>| h@)
}

/// Fills the given header slots with the header fields found at the start
/// of the input, in order, until a non-header line is reached or the slots
/// run out; headers beyond the capacity are silently left unconsumed, not
/// reported as an error.  Returns the unconsumed rest of the input
/// (including the line that ended the block).
///
/// When the block ends before the slots run out, the slot at the stopping
/// position gets the token run of the stopping line as its name (possibly
/// empty) and keeps its old value; later slots are untouched.
pub fn headers_iterator<'i>(input: &'i [u8], headers: &mut Vec<Header<'i>>) -> (r: &'i [u8])
    ensures
        final(headers)@.len() == old(headers)@.len(),
        ({
            let (parsed, fin) = spec_headers(input@, old(headers)@.len() as nat);
            let k = parsed.len() as int;
            &&& r@ == fin
            &&& k <= old(headers)@.len()
            &&& parsed == pairs_of(final(headers)@.subrange(0, k))
            &&& (k < old(headers)@.len() ==> final(headers)@[k]@.0 == fin.take(
                run_len(fin, ByteClass::Tchar) as int,
            ) && final(headers)@[k]@.1 == old(headers)@[k]@.1)
            &&& forall|i: int|
                k < i < old(headers)@.len() ==> final(headers)@[i] == old(headers)@[i]
        }),
{
    let ghost cap = headers@.len() as nat;
    let ghost orig = headers@;
    let cap_e = headers.len();
    let mut rest: &'i [u8] = input;
    let mut idx: usize = 0;
    let mut done = false;
    while idx < cap_e && !done
        invariant
            cap_e == cap,
            headers@.len() == cap,
            orig.len() == cap,
            idx <= cap,
            (!done ==> forall|i: int| idx <= i < cap ==> headers@[i] == orig[i]),
            (!done ==> ({
                let (parsed, fin) = spec_headers(input@, cap);
                let t = spec_headers(rest@, (cap - idx) as nat);
                &&& parsed == pairs_of(headers@.subrange(0, idx as int)) + t.0
                &&& fin == t.1
            })),
            (done ==> ({
                let (parsed, fin) = spec_headers(input@, cap);
                &&& idx < cap
                &&& parsed == pairs_of(headers@.subrange(0, idx as int))
                &&& fin == rest@
                &&& headers@[idx as int]@.0 == rest@.take(run_len(rest@, ByteClass::Tchar) as int)
                &&& headers@[idx as int]@.1 == orig[idx as int]@.1
                &&& forall|i: int| idx < i < cap ==> headers@[i] == orig[i]
            })),
        decreases cap - idx + (if done { 0int } else { 1int }),
    {
        let ghost pre_rest = rest@;
        let ghost pre_headers = headers@;
        let mut slot = headers[idx];
        match header(rest, &mut slot) {
            Some(r2) => {
                headers[idx] = slot;
                proof {
                    let (parsed, fin) = spec_headers(input@, cap);
                    let t_pre = spec_headers(pre_rest, (cap - idx) as nat);
                    let t_post = spec_headers(r2@, (cap - idx - 1) as nat);
                    let nv = (slot@.0, slot@.1);
                    assert(t_pre.0 == seq![nv] + t_post.0 && t_pre.1 == t_post.1);
                    assert(pairs_of(headers@.subrange(0, idx + 1)) =~= pairs_of(
                        pre_headers.subrange(0, idx as int),
                    ) + seq![nv]);
                    assert((pairs_of(pre_headers.subrange(0, idx as int)) + seq![nv]) + t_post.0
                        =~= pairs_of(pre_headers.subrange(0, idx as int)) + (seq![nv] + t_post.0));
                    assert(pairs_of(headers@.subrange(0, idx + 1)) + t_post.0 == parsed);
                }
                rest = r2;
                idx = idx + 1;
            },
            None => {
                headers[idx] = slot;
                proof {
                    let (parsed, fin) = spec_headers(input@, cap);
                    let t_pre = spec_headers(pre_rest, (cap - idx) as nat);
                    assert(t_pre.0 =~= Seq::<(Seq<u8>, Seq<u8>)>::empty() && t_pre.1 == pre_rest);
                    assert(parsed =~= pairs_of(pre_headers.subrange(0, idx as int)));
                    assert(headers@.subrange(0, idx as int) =~= pre_headers.subrange(
                        0,
                        idx as int,
                    ));
                }
                done = true;
            },
        }
    }
    proof {
        let (parsed, fin) = spec_headers(input@, cap);
        if !done {
            assert(parsed =~= pairs_of(headers@.subrange(0, cap as int)));
        }
    }
    rest
}

/// The body extractor: consumes exactly one CRLF, then exactly `n` bytes.
/// Fails when the CRLF is missing or fewer than `n` bytes remain.
/// Returns (rest, body).
pub open spec fn spec_body(s: Seq<u8>, n: nat) -> Option<(Seq<u8>, Seq<u8>)> {
    if s.len() >= 2 && s[0] == 13u8 && s[1] == 10u8 && s.len() - 2 >= n {
        Some((s.skip(2 + n as int), s.subrange(2, 2 + n as int)))
    } else {
        None
    }
}

/// Extracts a body of exactly `length` bytes after a mandatory CRLF
/// separator.  Insufficient data is a hard error: there is no partial
/// result.  On success returns the unconsumed rest of the input and the
/// body slice.
pub fn body(length: usize, input: &[u8]) -> (r: Option<(&[u8], &[u8])>)
    ensures
        match spec_body(input@, length as nat) {
            Some((rest, b)) => r matches Some((rr, bb)) && rr@ == rest && bb@ == b,
            None => r is None,
        },
{
    if input.len() < 2 {
        return None;
    }
    if *vstd::slice::slice_index_get(input, 0) != 13 || *vstd::slice::slice_index_get(input, 1)
        != 10 {
        return None;
    }
    if input.len() - 2 < length {
        return None;
    }
    Some(
        (
            vstd::slice::slice_subrange(input, 2 + length, input.len()),
            vstd::slice::slice_subrange(input, 2, 2 + length),
        ),
    )
}

/// The closed set of parse failures: one per phase, the two
/// Content-Length decoding failures, and a residual catch-all.
#[derive(Debug, Clone, Copy, PartialEq, Eq, Structural)]
pub enum ParserError {
    /// The request line could not be parsed.
    RequestLine,
    /// The header block could not be parsed.
    Headers,
    /// The body could not be extracted: the CRLF separator was missing or
    /// fewer bytes than Content-Length promised remain.
    Body,
    /// The Content-Length value is valid UTF-8 but not an unsigned decimal
    /// number that fits in `usize`.
    ContentLength,
    /// The Content-Length value is not valid UTF-8; carries the length of
    /// its longest valid prefix.
    InvalidUtf8Content(usize),
    /// An unknown failure.
    Unknown,
}

/// The run length of a concatenation whose first part lies in the class
/// and whose second part (if any) starts outside it.
proof fn lemma_run_of_concat(a: Seq<u8>, b: Seq<u8>, c: ByteClass)
    requires
        forall|i: int| 0 <= i < a.len() ==> byte_in_class(#[trigger] a[i], c),
        b.len() > 0 ==> !byte_in_class(b[0], c),
    ensures
        run_len(a + b, c) == a.len(),
{
    let s = a + b;
    assert forall|i: int| 0 <= i < a.len() implies byte_in_class(#[trigger] s[i], c) by {
        assert(s[i] == a[i]);
    }
    if b.len() > 0 {
        assert(s[a.len() as int] == b[0]);
    }
    lemma_run_len_is(s, c, a.len() as int);
}

/// For every well-formed request line `method SP target SP HTTP/version
/// CRLF`, parsing recovers exactly the method, target and version, and
/// consumes nothing beyond the terminating CRLF: whatever follows it is
/// returned untouched.
#[verifier::rlimit(50)]
pub proof fn lemma_request_line_round_trip(m: Seq<u8>, t: Seq<u8>, v: Seq<u8>, tail: Seq<u8>)
    requires
        3 <= m.len() <= 7,
        forall|i: int| 0 <= i < m.len() ==> byte_in_class(#[trigger] m[i], ByteClass::Alpha),
        t.len() >= 1,
        forall|i: int| 0 <= i < t.len() ==> byte_in_class(#[trigger] t[i], ByteClass::NotSpace),
        v.len() >= 1,
        forall|i: int| 0 <= i < v.len() ==> byte_in_class(#[trigger] v[i], ByteClass::VersionChar),
    ensures
        spec_request_line(m + seq![32u8] + t + seq![32u8] + http_slash() + v + crlf_seq() + tail)
            == Some((tail, m, t, v)),
{
    let s = m + seq![32u8] + t + seq![32u8] + http_slash() + v + crlf_seq() + tail;
    let r1 = seq![32u8] + t + seq![32u8] + http_slash() + v + crlf_seq() + tail;
    let r2 = http_slash() + v + crlf_seq() + tail;
    let r3 = crlf_seq() + tail;

    // Method: no leading CRLF, no leading digits, then exactly `m`.
    assert(s =~= m + r1);
    assert(s[0] == m[0]);
    lemma_run_len_is(s, ByteClass::Digit, 0);
    assert(s.skip(0) =~= s);
    lemma_run_of_concat(m, r1, ByteClass::Alpha);
    assert(s.take(m.len() as int) =~= m);
    assert(s.skip(m.len() as int) =~= r1);
    assert(spec_method(s) == Some((r1, m)));

    // Target: one space, then exactly `t`, then one space.
    assert(r1[0] == 32u8);
    assert(r1.skip(1) =~= t + (seq![32u8] + r2));
    assert((seq![32u8] + r2)[0] == 32u8);
    lemma_run_of_concat(t, seq![32u8] + r2, ByteClass::NotSpace);
    assert(r1.subrange(1, 1 + t.len() as int) =~= t);
    assert(r1.skip(2 + t.len() as int) =~= r2);
    assert(spec_path(r1) == Some((r2, t)));

    // Version: the literal, then exactly `v`.
    assert(r2.take(5) =~= http_slash());
    assert(r2.skip(5) =~= v + r3);
    assert(r3[0] == 13u8);
    lemma_run_of_concat(v, r3, ByteClass::VersionChar);
    assert(r2.subrange(5, 5 + v.len() as int) =~= v);
    assert(r2.skip(5 + v.len() as int) =~= r3);
    assert(spec_version(r2) == Some((r3, v)));

    // Terminator: exactly CRLF, leaving the tail.
    assert(r3[1] == 10u8);
    assert(r3.skip(2) =~= tail);
    assert(spec_crlf(r3) == Some(tail));
}

/// The method parser accepts exactly a token of 3 to 7 ASCII letters: a
/// single leading CRLF (when `with_crlf` holds) and any leading decimal
/// digits are silently discarded, a shorter or longer letter run fails.
pub proof fn lemma_method_token(with_crlf: bool, ds: Seq<u8>, tok: Seq<u8>, rest: Seq<u8>)
    requires
        forall|i: int| 0 <= i < ds.len() ==> byte_in_class(#[trigger] ds[i], ByteClass::Digit),
        tok.len() >= 1,
        forall|i: int| 0 <= i < tok.len() ==> byte_in_class(#[trigger] tok[i], ByteClass::Alpha),
        rest.len() > 0 ==> !byte_in_class(rest[0], ByteClass::Alpha),
    ensures
        spec_method(
            (if with_crlf {
                crlf_seq()
            } else {
                Seq::<u8>::empty()
            }) + ds + tok + rest,
        ) == (if 3 <= tok.len() <= 7 {
            Some((rest, tok))
        } else {
            None::<(Seq<u8>, Seq<u8>)>
        }),
{
    let s = (if with_crlf {
        crlf_seq()
    } else {
        Seq::<u8>::empty()
    }) + ds + tok + rest;
    let s1 = ds + (tok + rest);
    if with_crlf {
        assert(s[0] == 13u8 && s[1] == 10u8);
        assert(s.skip(2) =~= s1);
    } else {
        if ds.len() > 0 {
            assert(s[0] == ds[0]);
        } else {
            assert(s[0] == tok[0]);
        }
        assert(s[0] != 13u8);
        assert(s =~= s1);
    }
    assert((tok + rest)[0] == tok[0]);
    lemma_run_of_concat(ds, tok + rest, ByteClass::Digit);
    let s2 = s1.skip(ds.len() as int);
    assert(s2 =~= tok + rest);
    lemma_run_of_concat(tok, rest, ByteClass::Alpha);
    assert(run_len(s2, ByteClass::Alpha) == tok.len());
    if 3 <= tok.len() <= 7 {
        assert(s2.take(tok.len() as int) =~= tok);
        assert(s2.skip(tok.len() as int) =~= rest);
    }
}

/// On every input the method parser accepts, the token is 3 to 7 ASCII
/// letters: nothing shorter, longer, or containing another byte is ever
/// returned.
pub proof fn lemma_method_only_letters(s: Seq<u8>)
    requires
        spec_method(s) is Some,
    ensures
        ({
            let (rest, tok) = spec_method(s)->Some_0;
            &&& 3 <= tok.len() <= 7
            &&& forall|i: int|
                0 <= i < tok.len() ==> byte_in_class(#[trigger] tok[i], ByteClass::Alpha)
        }),
{
    let s1 = if s.len() >= 2 && s[0] == 13u8 && s[1] == 10u8 {
        s.skip(2)
    } else {
        s
    };
    let s2 = s1.skip(run_len(s1, ByteClass::Digit) as int);
    lemma_run_len(s2, ByteClass::Alpha);
    let k = run_len(s2, ByteClass::Alpha) as int;
    let tok = spec_method(s)->Some_0.1;
    assert forall|i: int| 0 <= i < tok.len() implies byte_in_class(
        #[trigger] tok[i],
        ByteClass::Alpha,
    ) by {
        assert(tok[i] == s2[i]);
    }
}

/// A smaller header capacity yields a prefix of a larger capacity's
/// result over the same input, with the same stopping point when the block
/// ends before the smaller capacity is reached: excess header lines are
/// silently truncated, never an error.
pub proof fn lemma_headers_capacity_prefix(s: Seq<u8>, c1: nat, c2: nat)
    requires
        c1 <= c2,
    ensures
        spec_headers(s, c1).0.len() <= c1,
        spec_headers(s, c2).0.len() >= c1 ==> spec_headers(s, c1).0 == spec_headers(
            s,
            c2,
        ).0.take(c1 as int),
        spec_headers(s, c2).0.len() < c1 ==> spec_headers(s, c1) == spec_headers(s, c2),
    decreases c1,
{
    if c1 == 0 {
        assert(spec_headers(s, c2).0.take(0) =~= Seq::<(Seq<u8>, Seq<u8>)>::empty());
        assert(spec_headers(s, 0).0 =~= Seq::<(Seq<u8>, Seq<u8>)>::empty());
    } else {
        match spec_header(s) {
            None => {
                assert(spec_headers(s, c1) == (Seq::<(Seq<u8>, Seq<u8>)>::empty(), s));
                assert(spec_headers(s, c2) == (Seq::<(Seq<u8>, Seq<u8>)>::empty(), s));
            },
            Some((rest, n, v)) => {
                lemma_headers_capacity_prefix(rest, (c1 - 1) as nat, (c2 - 1) as nat);
                let t1 = spec_headers(rest, (c1 - 1) as nat);
                let t2 = spec_headers(rest, (c2 - 1) as nat);
                assert(spec_headers(s, c1).0 == seq![(n, v)] + t1.0);
                assert(spec_headers(s, c2).0 == seq![(n, v)] + t2.0);
                if t2.0.len() >= c1 - 1 {
                    assert((seq![(n, v)] + t2.0.take(c1 - 1)) =~= (seq![(n, v)] + t2.0).take(
                        c1 as int,
                    ));
                }
            },
        }
    }
}

/// Every header pair the collection loop produces has a non-empty value,
/// so a filled slot is never mistaken for the unused sentinel.
pub proof fn lemma_headers_values_nonempty(s: Seq<u8>, cap: nat)
    ensures
        forall|i: int|
            0 <= i < spec_headers(s, cap).0.len() ==> (#[trigger] spec_headers(s, cap).0[i]).1.len()
                >= 1,
    decreases cap,
{
    if cap > 0 {
        match spec_header(s) {
            None => {},
            Some((rest, n, v)) => {
                lemma_headers_values_nonempty(rest, (cap - 1) as nat);
                let t = spec_headers(rest, (cap - 1) as nat);
                assert forall|i: int|
                    0 <= i < spec_headers(s, cap).0.len() implies (#[trigger] spec_headers(
                    s,
                    cap,
                ).0[i]).1.len() >= 1 by {
                    if i > 0 {
                        assert(spec_headers(s, cap).0[i] == t.0[i - 1]);
                    }
                }
            },
        }
    }
}

impl ParserError {
    /// The text shown for this error.
    pub open spec fn spec_message(&self) -> Seq<char> {
        match *self {
            ParserError::RequestLine => "ParserError: Unable to parse HTTP Message request line."@,
            ParserError::Headers => "ParserError: Unable to parse HTTP Message headers."@,
            ParserError::Body => "ParserError: Unable to parse HTTP Message body."@,
            ParserError::ContentLength => "ParserError: Unable to parse HTTP Message Content-Length header."@,
            ParserError::InvalidUtf8Content(
                _,
            ) => "ParserError: Invalid UTF-8 in HTTP Message Content-Length header."@,
            ParserError::Unknown => "ParserError: An unknown error occurred."@,
        }
    }

    /// A human-readable description of the error.
    pub fn message(&self) -> (r: String)
        ensures
            r@ == self.spec_message(),
    {
        match *self {
            ParserError::RequestLine => "ParserError: Unable to parse HTTP Message request line.".to_owned(),
            ParserError::Headers => "ParserError: Unable to parse HTTP Message headers.".to_owned(),
            ParserError::Body => "ParserError: Unable to parse HTTP Message body.".to_owned(),
            ParserError::ContentLength => "ParserError: Unable to parse HTTP Message Content-Length header.".to_owned(),
            ParserError::InvalidUtf8Content(
                _,
            ) => "ParserError: Invalid UTF-8 in HTTP Message Content-Length header.".to_owned(),
            ParserError::Unknown => "ParserError: An unknown error occurred.".to_owned(),
        }
    }
}

} // verus!
