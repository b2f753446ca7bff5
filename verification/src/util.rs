//! Frame helpers: the URI scheme grammar, padding removal and the text of a
//! frame's flag list.

use vstd::prelude::*;
use bytes::{Buf, Bytes};
use vstd::string::StringSliceAdditionalSpecFns;

verus! {

// ===== scheme grammar =====

/// `b` is an ASCII letter.
pub open spec fn is_ascii_alpha(b: u8) -> bool {
    (65u8 <= b && b <= 90u8) || (97u8 <= b && b <= 122u8)
}

/// `b` is an ASCII decimal digit.
pub open spec fn is_ascii_digit(b: u8) -> bool {
    48u8 <= b && b <= 57u8
}

/// `b` may follow the first character of a scheme.
pub open spec fn is_scheme_tail_byte(b: u8) -> bool {
    is_ascii_alpha(b) || is_ascii_digit(b) || b == 43u8 || b == 45u8 || b == 46u8
}

/// RFC 3986 §3.1: `ALPHA *( ALPHA / DIGIT / "+" / "-" / "." )`.
pub open spec fn valid_scheme(s: Seq<u8>) -> bool {
    &&& s.len() > 0
    &&& is_ascii_alpha(s[0])
    &&& forall|i: int| 1 <= i < s.len() ==> is_scheme_tail_byte(#[trigger] s[i])
}

fn ascii_alpha(b: u8) -> (r: bool)
    ensures
        r == is_ascii_alpha(b),
{
    (65u8 <= b && b <= 90u8) || (97u8 <= b && b <= 122u8)
}

fn scheme_tail_byte(b: u8) -> (r: bool)
    ensures
        r == is_scheme_tail_byte(b),
{
    ascii_alpha(b) || (48u8 <= b && b <= 57u8) || b == 43u8 || b == 45u8 || b == 46u8
}

/// RFC 3986 §3.1 scheme: `ALPHA *( ALPHA / DIGIT / "+" / "-" / "." )`.
///
/// This is stricter than a scheme that is merely non-empty: a digit-leading or
/// empty token is refused.
pub fn is_valid_scheme(s: &str) -> (r: bool)
    ensures
        r == valid_scheme(s.spec_bytes()),
{
    let bytes: &[u8] = s.as_bytes();
    let len: usize = bytes.len();
    if len == 0 || !ascii_alpha(bytes[0]) {
        return false;
    }
    let mut i: usize = 1;
    while i < len
        invariant
            bytes@ == s.spec_bytes(),
            len == bytes@.len(),
            1 <= i <= len,
            is_ascii_alpha(bytes@[0]),
            forall|j: int| 1 <= j < i ==> is_scheme_tail_byte(#[trigger] bytes@[j]),
        decreases len - i,
    {
        if !scheme_tail_byte(bytes[i]) {
            return false;
        }
        i = i + 1;
    }
    true
}

// ===== padding =====

#[verifier::external_type_specification]
#[verifier::external_body]
pub struct ExBytes(Bytes);

/// The bytes that a `Bytes` handle reads, front to back.
pub uninterp spec fn bytes_view(b: Bytes) -> Seq<u8>;

/// `Bytes::len`: the number of bytes the handle reads.
#[verifier::external_body]
fn bytes_len(b: &Bytes) -> (n: usize)
    ensures
        n == bytes_view(*b).len(),
{
    b.len()
}

/// Indexing through `Deref<Target = [u8]>`: the byte at position `i`. The
/// slice panics past its end, which `requires` rules out.
#[verifier::external_body]
fn bytes_at(b: &Bytes, i: usize) -> (x: u8)
    requires
        i < bytes_view(*b).len(),
    ensures
        x == bytes_view(*b)[i as int],
{
    b[i]
}

/// `Buf::advance`: drops the first `n` bytes. It panics when `n` is past the
/// end, which `requires` rules out.
#[verifier::external_body]
fn bytes_advance(b: &mut Bytes, n: usize)
    requires
        n <= bytes_view(*old(b)).len(),
    ensures
        bytes_view(*final(b)) == bytes_view(*old(b)).skip(n as int),
{
    b.advance(n)
}

/// `Bytes::truncate`: keeps the first `len` bytes; a longer `len` changes
/// nothing.
#[verifier::external_body]
fn bytes_truncate(b: &mut Bytes, len: usize)
    ensures
        bytes_view(*final(b)) == if len < bytes_view(*old(b)).len() {
            bytes_view(*old(b)).take(len as int)
        } else {
            bytes_view(*old(b))
        },
{
    b.truncate(len)
}

/// Errors found while decoding a frame's payload.
#[derive(PartialEq, Eq, Structural, Debug, Clone, Copy)]
pub enum Error {
    /// The padding length is not smaller than the payload.
    TooMuchPadding,
}

/// A padded payload can be stripped: it holds the pad-length byte and that
/// byte is smaller than the payload's length.
pub open spec fn padding_ok(payload: Seq<u8>) -> bool {
    payload.len() > 0 && (payload[0] as int) < payload.len()
}

/// The data of a valid padded payload: the bytes between the pad-length byte
/// and the padding.
pub open spec fn unpadded(payload: Seq<u8>) -> Seq<u8> {
    payload.subrange(1, payload.len() - payload[0] as int)
}

/// Strip padding from the given payload.
///
/// The frame is assumed to have its padded flag set: the first byte is the
/// length of the padding, which follows the actual data. On success the
/// payload is narrowed to that data and the padding length is returned. When
/// the padding length is not smaller than the total length (or there is no
/// byte at all), `Error::TooMuchPadding` is returned and the payload is left
/// as it was.
pub fn strip_padding(payload: &mut Bytes) -> (r: Result<u8, Error>)
    ensures
        padding_ok(bytes_view(*old(payload))) ==> r == Ok::<u8, Error>(
            bytes_view(*old(payload))[0],
        ) && bytes_view(*final(payload)) == unpadded(bytes_view(*old(payload))),
        !padding_ok(bytes_view(*old(payload))) ==> r == Err::<u8, Error>(Error::TooMuchPadding)
            && bytes_view(*final(payload)) == bytes_view(*old(payload)),
{
    let payload_len: usize = bytes_len(payload);
    if payload_len == 0 {
        return Err(Error::TooMuchPadding);
    }
    let pad_len: usize = bytes_at(payload, 0) as usize;
    if pad_len >= payload_len {
        return Err(Error::TooMuchPadding);
    }
    let ghost before = bytes_view(*payload);
    bytes_advance(payload, 1);
    bytes_truncate(payload, payload_len - pad_len - 1);
    proof {
        let after = bytes_view(*payload);
        if pad_len > 0 {
            assert(after =~= unpadded(before));
        } else {
            assert(after =~= unpadded(before));
        }
    }
    Ok(pad_len as u8)
}

// ===== flag list text =====

/// The lower-case hex digit for `n < 16`.
pub open spec fn hex_digit(n: u8) -> u8 {
    if n < 10 {
        (48u8 + n) as u8
    } else {
        (97u8 + (n - 10)) as u8
    }
}

/// `bits` in the alternate lower-case hex form: `0x` and the digits without
/// leading zeros.
pub open spec fn hex_text(bits: u8) -> Seq<u8> {
    seq![48u8, 120u8] + if bits < 16 {
        seq![hex_digit(bits)]
    } else {
        seq![hex_digit(bits / 16), hex_digit(bits % 16)]
    }
}

fn hex_digit_of(n: u8) -> (d: u8)
    requires
        n < 16,
    ensures
        d == hex_digit(n),
{
    if n < 10 {
        48u8 + n
    } else {
        97u8 + (n - 10)
    }
}

/// Text of a frame's flags as `(0x..: NAME | NAME)` built up one flag at a
/// time. `started` is set once a name has been written.
pub struct DebugFlags {
    out: Vec<u8>,
    started: bool,
}

impl DebugFlags {
    /// The text written so far.
    pub closed spec fn text(&self) -> Seq<u8> {
        self.out@
    }

    /// Whether a flag name has been written yet.
    pub closed spec fn started(&self) -> bool {
        self.started
    }

    /// The separator written before the next name.
    pub open spec fn next_prefix(&self) -> Seq<u8> {
        if self.started() {
            seq![32u8, 124u8, 32u8]
        } else {
            seq![58u8, 32u8]
        }
    }

    /// Appends `name`, after `: ` for the first flag and ` | ` for the
    /// others, when `enabled`; otherwise changes nothing.
    pub fn flag_if(&mut self, enabled: bool, name: &str)
        ensures
            enabled ==> final(self).text() == old(self).text() + old(self).next_prefix()
                + name.spec_bytes() && final(self).started(),
            !enabled ==> *final(self) == *old(self),
    {
        if enabled {
            if self.started {
                self.out.push(32u8);
                self.out.push(124u8);
                self.out.push(32u8);
            } else {
                self.started = true;
                self.out.push(58u8);
                self.out.push(32u8);
            }
            let ghost base = self.out@;
            let bytes: &[u8] = name.as_bytes();
            let len: usize = bytes.len();
            let mut i: usize = 0;
            while i < len
                invariant
                    bytes@ == name.spec_bytes(),
                    len == bytes@.len(),
                    i <= len,
                    self.out@ == base + bytes@.take(i as int),
                    self.started,
                decreases len - i,
            {
                self.out.push(bytes[i]);
                i = i + 1;
                assert(self.out@ =~= base + bytes@.take(i as int));
            }
            assert(bytes@.take(len as int) =~= bytes@);
        }
    }

    /// Closes the list and returns its text.
    pub fn finish(&mut self) -> (text: Vec<u8>)
        ensures
            text@ == old(self).text() + seq![41u8],
            final(self).text() == text@,
    {
        self.out.push(41u8);
        self.out.clone()
    }
}

/// Opens the flag list of a frame whose flag byte is `bits`.
pub fn debug_flags(bits: u8) -> (d: DebugFlags)
    ensures
        d.text() == seq![40u8] + hex_text(bits),
        !d.started(),
{
    let mut out: Vec<u8> = Vec::new();
    out.push(40u8);
    out.push(48u8);
    out.push(120u8);
    if bits < 16 {
        out.push(hex_digit_of(bits));
    } else {
        out.push(hex_digit_of(bits / 16));
        out.push(hex_digit_of(bits % 16));
    }
    assert(out@ =~= seq![40u8] + hex_text(bits));
    DebugFlags { out, started: false }
}

} // verus!
