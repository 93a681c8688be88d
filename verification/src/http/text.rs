//! Byte-level text utilities: UTF-8 validation, unsigned decimal numbers,
//! and conversion of verified byte output to `String`.

use vstd::prelude::*;
use vstd::string::StringExecFns;
use vstd::utf8::decode_utf8;
use vstd::utf8::is_leading_byte_width_1;
use vstd::utf8::is_leading_byte_width_2;
use vstd::utf8::is_leading_byte_width_3;
use vstd::utf8::is_leading_byte_width_4;
use vstd::utf8::length_of_first_scalar;
use vstd::utf8::pop_first_scalar;
use vstd::utf8::valid_first_scalar;
use vstd::utf8::valid_utf8;

use crate::http::header::Header;
use crate::http::parse::pairs_of;

verus! {

/// Length of the longest prefix of `s` that is a valid UTF-8 encoding,
/// scalar by scalar: the `valid_up_to` position of a failed decode.
pub open spec fn utf8_prefix_len(s: Seq<u8>) -> nat
    decreases s.len(),
    via utf8_prefix_len_decreases
{
    if s.len() == 0 {
        0
    } else if valid_first_scalar(s) {
        (length_of_first_scalar(s) + utf8_prefix_len(pop_first_scalar(s))) as nat
    } else {
        0
    }
}

#[via_fn]
proof fn utf8_prefix_len_decreases(s: Seq<u8>) {
    if s.len() != 0 && valid_first_scalar(s) {
        assert(1 <= length_of_first_scalar(s) <= s.len());
    }
}

/// The scan consumes the whole sequence exactly when it is valid UTF-8.
pub proof fn lemma_utf8_prefix_full(s: Seq<u8>)
    ensures
        utf8_prefix_len(s) <= s.len(),
        (utf8_prefix_len(s) == s.len()) == valid_utf8(s),
    decreases s.len(),
{
    if s.len() == 0 {
    } else if valid_first_scalar(s) {
        assert(1 <= length_of_first_scalar(s) <= s.len());
        lemma_utf8_prefix_full(pop_first_scalar(s));
    } else {
    }
}

/// Every sequence of ASCII bytes is valid UTF-8.
pub proof fn lemma_ascii_valid_utf8(s: Seq<u8>)
    requires
        forall|i: int| 0 <= i < s.len() ==> #[trigger] s[i] < 128,
    ensures
        valid_utf8(s),
    decreases s.len(),
{
    if s.len() > 0 {
        assert(is_leading_byte_width_1(s[0]));
        assert(valid_first_scalar(s));
        assert(pop_first_scalar(s) =~= s.drop_first());
        lemma_ascii_valid_utf8(s.drop_first());
    }
}

/// Width of the well-formed UTF-8 scalar encoding starting at `from`, or 0
/// when the bytes there do not begin one.
fn scalar_width_at(b: &[u8], from: usize) -> (r: usize)
    requires
        from < b@.len(),
    ensures
        ({
            let t = b@.skip(from as int);
            &&& (valid_first_scalar(t) ==> r == length_of_first_scalar(t))
            &&& (!valid_first_scalar(t) ==> r == 0)
            &&& r <= b@.len() - from
        }),
{
    let ghost t = b@.skip(from as int);
    let len = b.len();
    let b0 = *vstd::slice::slice_index_get(b, from);
    proof {
        assert(t[0] == b@[from as int]);
    }
    if b0 < 0x80 {
        return 1;
    }
    if 0xc0 <= b0 && b0 <= 0xdf {
        if len - from < 2 {
            return 0;
        }
        let b1 = *vstd::slice::slice_index_get(b, from + 1);
        proof {
            assert(t[1] == b@[from + 1]);
        }
        if !(0x80 <= b1 && b1 <= 0xbf) {
            return 0;
        }
        let cp: u32 = (((b0 & 0x1f) as u32) << 6u32) | ((b1 & 0x3f) as u32);
        if cp < 0x80 {
            return 0;
        }
        proof {
            assert((((b0 & 0x1f) as u32) << 6u32) | ((b1 & 0x3f) as u32) <= 0x7ff) by (bit_vector);
        }
        return 2;
    }
    if 0xe0 <= b0 && b0 <= 0xef {
        if len - from < 3 {
            return 0;
        }
        let b1 = *vstd::slice::slice_index_get(b, from + 1);
        let b2 = *vstd::slice::slice_index_get(b, from + 2);
        proof {
            assert(t[1] == b@[from + 1]);
            assert(t[2] == b@[from + 2]);
        }
        if !(0x80 <= b1 && b1 <= 0xbf) || !(0x80 <= b2 && b2 <= 0xbf) {
            return 0;
        }
        let cp: u32 = (((b0 & 0x0f) as u32) << 12u32) | (((b1 & 0x3f) as u32) << 6u32) | ((b2
            & 0x3f) as u32);
        if cp < 0x800 {
            return 0;
        }
        if 0xd800 <= cp && cp <= 0xdfff {
            return 0;
        }
        return 3;
    }
    if 0xf0 <= b0 && b0 <= 0xf7 {
        if len - from < 4 {
            return 0;
        }
        let b1 = *vstd::slice::slice_index_get(b, from + 1);
        let b2 = *vstd::slice::slice_index_get(b, from + 2);
        let b3 = *vstd::slice::slice_index_get(b, from + 3);
        proof {
            assert(t[1] == b@[from + 1]);
            assert(t[2] == b@[from + 2]);
            assert(t[3] == b@[from + 3]);
        }
        if !(0x80 <= b1 && b1 <= 0xbf) || !(0x80 <= b2 && b2 <= 0xbf) || !(0x80 <= b3 && b3
            <= 0xbf) {
            return 0;
        }
        let cp: u32 = (((b0 & 0x07) as u32) << 18u32) | (((b1 & 0x3f) as u32) << 12u32) | (((b2
            & 0x3f) as u32) << 6u32) | ((b3 & 0x3f) as u32);
        if cp < 0x10000 || cp > 0x10ffff {
            return 0;
        }
        return 4;
    }
    proof {
        assert(!is_leading_byte_width_1(t[0]) && !is_leading_byte_width_2(t[0])
            && !is_leading_byte_width_3(t[0]) && !is_leading_byte_width_4(t[0]));
    }
    0
}

/// Length of the longest valid UTF-8 prefix of `b`; the whole length
/// exactly when `b` is valid UTF-8.
pub fn utf8_prefix(b: &[u8]) -> (r: usize)
    ensures
        r == utf8_prefix_len(b@),
        r <= b@.len(),
        (r == b@.len()) == valid_utf8(b@),
{
    let mut p: usize = 0;
    proof {
        assert(b@.skip(0) =~= b@);
    }
    while p < b.len()
        invariant
            p <= b@.len(),
            utf8_prefix_len(b@) == p + utf8_prefix_len(b@.skip(p as int)),
        decreases b@.len() - p,
    {
        let w = scalar_width_at(b, p);
        if w == 0 {
            proof {
                assert(utf8_prefix_len(b@.skip(p as int)) == 0);
                lemma_utf8_prefix_full(b@);
            }
            return p;
        }
        proof {
            let t = b@.skip(p as int);
            assert(pop_first_scalar(t) =~= b@.skip(p + w));
        }
        p = p + w;
    }
    proof {
        assert(b@.skip(p as int) =~= Seq::<u8>::empty());
        lemma_utf8_prefix_full(b@);
    }
    p
}

/// The numeric value of a sequence of ASCII decimal digits, most
/// significant first.
pub open spec fn dec_value(s: Seq<u8>) -> nat
    recommends
        forall|i: int| 0 <= i < s.len() ==> 48 <= #[trigger] s[i] <= 57,
    decreases s.len(),
{
    if s.len() == 0 {
        0
    } else {
        (dec_value(s.drop_last()) * 10 + (s.last() - 48)) as nat
    }
}

/// Extending a digit string can only increase its value.
proof fn lemma_dec_value_monotone(s: Seq<u8>, m: int)
    requires
        0 <= m <= s.len(),
        forall|i: int| 0 <= i < s.len() ==> 48 <= #[trigger] s[i] <= 57,
    ensures
        dec_value(s) >= dec_value(s.take(m)),
    decreases s.len() - m,
{
    if m < s.len() {
        assert(s.take(m + 1).drop_last() =~= s.take(m));
        assert(s.take(m + 1).last() == s[m]);
        assert(dec_value(s.take(m + 1)) >= dec_value(s.take(m)));
        lemma_dec_value_monotone(s, m + 1);
        assert(s.take(s.len() as int) =~= s);
    } else {
        assert(s.take(m) =~= s);
    }
}

/// The digit part of a number literal: everything after an optional
/// leading `+`.
pub open spec fn digits_part(s: Seq<u8>) -> Seq<u8> {
    if s.len() >= 1 && s[0] == 43u8 {
        s.skip(1)
    } else {
        s
    }
}

/// True when every byte of `d` is an ASCII decimal digit.
pub open spec fn all_digits(d: Seq<u8>) -> bool {
    forall|i: int| 0 <= i < d.len() ==> 48 <= #[trigger] d[i] <= 57
}

/// The number grammar of `str::parse::<usize>`: an optional leading `+`,
/// then one or more ASCII digits, whose value must fit in `usize`.
pub open spec fn spec_parse_usize(s: Seq<u8>) -> Option<usize> {
    let d = digits_part(s);
    if d.len() >= 1 && all_digits(d) && dec_value(d) <= usize::MAX {
        Some(dec_value(d) as usize)
    } else {
        None
    }
}

/// Parses an unsigned decimal integer, accepting exactly what
/// `str::parse::<usize>` accepts: an optional leading `+`, then one or
/// more digits, rejecting values that do not fit in `usize`.
pub fn parse_usize(s: &[u8]) -> (r: Option<usize>)
    ensures
        r == spec_parse_usize(s@),
{
    let mut start: usize = 0;
    if s.len() >= 1 && *vstd::slice::slice_index_get(s, 0) == 43 {
        start = 1;
    }
    let ghost d = if s@.len() >= 1 && s@[0] == 43u8 {
        s@.skip(1)
    } else {
        s@
    };
    proof {
        assert(d =~= s@.skip(start as int));
    }
    if start >= s.len() {
        return None;
    }
    let mut j = start;
    while j < s.len()
        invariant
            start <= j <= s@.len(),
            start as int == (if s@.len() >= 1 && s@[0] == 43u8 { 1int } else { 0int }),
            d == s@.skip(start as int),
            forall|i: int| start <= i < j ==> 48 <= #[trigger] s@[i] <= 57,
        decreases s@.len() - j,
    {
        let c = *vstd::slice::slice_index_get(s, j);
        if c < 48 || c > 57 {
            proof {
                assert(s@.skip(0) =~= s@);
                assert(digits_part(s@) == d);
                assert(d[j - start] == s@[j as int]);
                assert(!(48 <= digits_part(s@)[j - start] <= 57));
                assert(!all_digits(digits_part(s@)));
            }
            return None;
        }
        j = j + 1;
    }
    proof {
        assert forall|i: int| 0 <= i < d.len() implies 48 <= #[trigger] d[i] <= 57 by {
            assert(d[i] == s@[start + i]);
        }
    }
    let mut acc: u128 = 0;
    let mut i = start;
    while i < s.len()
        invariant
            start <= i <= s@.len(),
            start < s@.len(),
            acc <= usize::MAX as u128,
            start as int == (if s@.len() >= 1 && s@[0] == 43u8 { 1int } else { 0int }),
            d == s@.skip(start as int),
            forall|k: int| 0 <= k < d.len() ==> 48 <= #[trigger] d[k] <= 57,
            acc == dec_value(d.take(i - start)),
        decreases s@.len() - i,
    {
        let c = *vstd::slice::slice_index_get(s, i);
        proof {
            assert(d[i - start] == s@[i as int]);
        }
        let acc2: u128 = acc * 10 + ((c - 48) as u128);
        proof {
            assert(d.take(i - start + 1).drop_last() =~= d.take(i - start));
            assert(d.take(i - start + 1).last() == d[i - start]);
        }
        if acc2 > usize::MAX as u128 {
            proof {
                assert(s@.skip(0) =~= s@);
                assert(digits_part(s@) == d);
                assert(48 <= d[i - start] <= 57);
                lemma_dec_value_monotone(d, i - start + 1);
            }
            return None;
        }
        acc = acc2;
        i = i + 1;
    }
    proof {
        assert(s@.skip(0) =~= s@);
        assert(digits_part(s@) == d);
        assert(d.take(d.len() as int) =~= d);
    }
    Some(acc as usize)
}

/// Decimal digits of `n`, most significant first.
pub open spec fn dec_digits(n: nat) -> Seq<u8>
    decreases n,
    via dec_digits_decreases
{
    if n < 10 {
        seq![(48 + n) as u8]
    } else {
        dec_digits(n / 10).push((48 + n % 10) as u8)
    }
}

#[via_fn]
proof fn dec_digits_decreases(n: nat) {
    if n >= 10 {
        assert(n / 10 < n) by (nonlinear_arith)
            requires
                n >= 10,
        ;
    }
}

/// Appends the decimal rendering of `n` to `out`.
pub fn push_dec_u16(out: &mut Vec<u8>, n: u16)
    ensures
        final(out)@ == old(out)@ + dec_digits(n as nat),
    decreases n,
{
    if n >= 10 {
        push_dec_u16(out, n / 10);
        out.push((48 + n % 10) as u8);
        proof {
            assert(old(out)@ + dec_digits((n / 10) as nat).push((48 + (n as nat) % 10) as u8)
                =~= (old(out)@ + dec_digits((n / 10) as nat)).push((48 + n % 10) as u8));
        }
    } else {
        out.push((48 + n) as u8);
        proof {
            assert(old(out)@ + seq![(48 + (n as nat)) as u8] =~= old(out)@.push((48 + n) as u8));
        }
    }
}

/// Whether two byte slices hold the same bytes.
pub fn bytes_eq(a: &[u8], b: &[u8]) -> (r: bool)
    ensures
        r == (a@ == b@),
{
    if a.len() != b.len() {
        proof {
            if a@ == b@ {
                assert(a@.len() == b@.len());
            }
        }
        return false;
    }
    let mut i: usize = 0;
    while i < a.len()
        invariant
            i <= a@.len(),
            a@.len() == b@.len(),
            forall|j: int| 0 <= j < i ==> a@[j] == b@[j],
        decreases a@.len() - i,
    {
        if *vstd::slice::slice_index_get(a, i) != *vstd::slice::slice_index_get(b, i) {
            proof {
                if a@ == b@ {
                    assert(a@[i as int] == b@[i as int]);
                }
            }
            return false;
        }
        i = i + 1;
    }
    proof {
        assert(a@ =~= b@);
    }
    true
}

/// Every byte of a decimal rendering is an ASCII digit.
pub proof fn lemma_dec_digits_ascii(n: nat)
    ensures
        forall|i: int| 0 <= i < dec_digits(n).len() ==> 48 <= #[trigger] dec_digits(n)[i] <= 57,
    decreases n,
{
    if n >= 10 {
        assert(n / 10 < n) by (nonlinear_arith)
            requires
                n >= 10,
        ;
        lemma_dec_digits_ascii(n / 10);
        assert forall|i: int| 0 <= i < dec_digits(n).len() implies 48 <= #[trigger] dec_digits(n)[i]
            <= 57 by {
            if i < dec_digits(n / 10).len() {
                assert(dec_digits(n)[i] == dec_digits(n / 10)[i]);
            }
        }
    }
}

/// True when every header pair holds valid UTF-8 in both its name and its
/// value, so that a rendering can decode it.
pub open spec fn all_pairs_utf8(ps: Seq<(Seq<u8>, Seq<u8>)>) -> bool {
    forall|i: int| 0 <= i < ps.len() ==> valid_utf8(#[trigger] ps[i].0) && valid_utf8(ps[i].1)
}

/// The `name: value` items joined with `, `, as the textual renderings of
/// requests and responses show a header block.
pub open spec fn join_headers_chars(hs: Seq<(Seq<u8>, Seq<u8>)>) -> Seq<char>
    decreases hs.len(),
{
    if hs.len() == 0 {
        Seq::empty()
    } else if hs.len() == 1 {
        decode_utf8(hs[0].0) + ": "@ + decode_utf8(hs[0].1)
    } else {
        decode_utf8(hs[0].0) + ": "@ + decode_utf8(hs[0].1) + ", "@ + join_headers_chars(
            hs.drop_first(),
        )
    }
}

/// The `name: value` items joined with CRLF, as the wire form of a
/// response shows its header block.
pub open spec fn join_headers_wire(hs: Seq<(Seq<u8>, Seq<u8>)>) -> Seq<char>
    decreases hs.len(),
{
    if hs.len() == 0 {
        Seq::empty()
    } else if hs.len() == 1 {
        decode_utf8(hs[0].0) + ": "@ + decode_utf8(hs[0].1)
    } else {
        decode_utf8(hs[0].0) + ": "@ + decode_utf8(hs[0].1) + "\r\n"@ + join_headers_wire(
            hs.drop_first(),
        )
    }
}

/// Appends the `, `-joined rendering of the given headers to `out`.
pub(crate) fn append_joined_headers(out: &mut String, hs: &[Header<'_>])
    requires
        all_pairs_utf8(pairs_of(hs@)),
    ensures
        final(out)@ == old(out)@ + join_headers_chars(pairs_of(hs@)),
{
    let ghost slots = pairs_of(hs@);
    let ghost target = old(out)@ + join_headers_chars(slots);
    let n = hs.len();
    let mut i: usize = 0;
    proof {
        assert(slots.skip(0) =~= slots);
    }
    while i < n
        invariant
            i <= n,
            n == hs@.len(),
            slots == pairs_of(hs@),
            slots.len() == n,
            all_pairs_utf8(slots),
            target == old(out)@ + join_headers_chars(slots),
            out@ + join_headers_chars(slots.skip(i as int)) == target,
        decreases n - i,
    {
        let ghost out0 = out@;
        let ghost t = slots.skip(i as int);
        let h = vstd::slice::slice_index_get(hs, i);
        proof {
            assert(slots[i as int] == hs@[i as int]@);
            assert(valid_utf8(slots[i as int].0) && valid_utf8(slots[i as int].1));
            assert(t[0] == slots[i as int]);
        }
        let name_s = utf8_to_string(h.name);
        out.append(name_s.as_str());
        out.append(": ");
        let value_s = utf8_to_string(h.value);
        out.append(value_s.as_str());
        if i + 1 < n {
            out.append(", ");
            proof {
                assert(t.drop_first() =~= slots.skip(i as int + 1));
                assert(out@ + join_headers_chars(slots.skip(i as int + 1)) =~= out0
                    + join_headers_chars(t));
            }
        } else {
            proof {
                assert(slots.skip(i as int + 1) =~= Seq::<(Seq<u8>, Seq<u8>)>::empty());
                assert(out@ + join_headers_chars(slots.skip(i as int + 1)) =~= out0
                    + join_headers_chars(t));
            }
        }
        i = i + 1;
    }
    proof {
        assert(slots.skip(n as int) =~= Seq::<(Seq<u8>, Seq<u8>)>::empty());
        assert(out@ + join_headers_chars(slots.skip(n as int)) =~= out@);
    }
}

/// Appends the CRLF-joined wire rendering of the given headers to `out`.
pub(crate) fn append_joined_headers_wire(out: &mut String, hs: &[Header<'_>])
    requires
        all_pairs_utf8(pairs_of(hs@)),
    ensures
        final(out)@ == old(out)@ + join_headers_wire(pairs_of(hs@)),
{
    let ghost slots = pairs_of(hs@);
    let ghost target = old(out)@ + join_headers_wire(slots);
    let n = hs.len();
    let mut i: usize = 0;
    proof {
        assert(slots.skip(0) =~= slots);
    }
    while i < n
        invariant
            i <= n,
            n == hs@.len(),
            slots == pairs_of(hs@),
            slots.len() == n,
            all_pairs_utf8(slots),
            target == old(out)@ + join_headers_wire(slots),
            out@ + join_headers_wire(slots.skip(i as int)) == target,
        decreases n - i,
    {
        let ghost out0 = out@;
        let ghost t = slots.skip(i as int);
        let h = vstd::slice::slice_index_get(hs, i);
        proof {
            assert(slots[i as int] == hs@[i as int]@);
            assert(valid_utf8(slots[i as int].0) && valid_utf8(slots[i as int].1));
            assert(t[0] == slots[i as int]);
        }
        let name_s = utf8_to_string(h.name);
        out.append(name_s.as_str());
        out.append(": ");
        let value_s = utf8_to_string(h.value);
        out.append(value_s.as_str());
        if i + 1 < n {
            out.append("\r\n");
            proof {
                assert(t.drop_first() =~= slots.skip(i as int + 1));
                assert(out@ + join_headers_wire(slots.skip(i as int + 1)) =~= out0
                    + join_headers_wire(t));
            }
        } else {
            proof {
                assert(slots.skip(i as int + 1) =~= Seq::<(Seq<u8>, Seq<u8>)>::empty());
                assert(out@ + join_headers_wire(slots.skip(i as int + 1)) =~= out0
                    + join_headers_wire(t));
            }
        }
        i = i + 1;
    }
    proof {
        assert(slots.skip(n as int) =~= Seq::<(Seq<u8>, Seq<u8>)>::empty());
        assert(out@ + join_headers_wire(slots.skip(n as int)) =~= out@);
    }
}

/// Relies on `str::from_utf8` and `str::to_owned`: on bytes that are valid
/// UTF-8, `from_utf8` returns the string slice whose characters decode
/// those bytes, and `to_owned` copies it.  The contract matches vstd's
/// model of `str` (a string's bytes are the UTF-8 encoding of its
/// characters).
#[verifier::external_body]
pub(crate) fn utf8_to_string(b: &[u8]) -> (r: String)
    requires
        valid_utf8(b@),
    ensures
        r@ == decode_utf8(b@),
{
    match core::str::from_utf8(b) {
        Ok(s) => s.to_owned(),
        Err(_) => String::new(),
    }
}

} // verus!
