//! The header-field rules an outbound HTTP/2 header block must follow.
//!
//! A header block is a list of `(name, value)` fields, names in lower case
//! as the codec keeps them; one name may occur several times.

use vstd::prelude::*;
use vstd::string::StringSliceAdditionalSpecFns;
use crate::prioritize::UserError;

verus! {

/// `b` is a space or a horizontal tab.
pub open spec fn is_sp_or_htab(b: u8) -> bool {
    b == 32u8 || b == 9u8
}

/// The value starts or ends with a space or a horizontal tab.
pub open spec fn has_leading_trailing_ws(v: Seq<u8>) -> bool {
    v.len() > 0 && (is_sp_or_htab(v[0]) || is_sp_or_htab(v.last()))
}

/// ASCII lower-casing of one byte.
pub open spec fn ascii_lower(b: u8) -> u8 {
    if 65u8 <= b && b <= 90u8 {
        (b + 32) as u8
    } else {
        b
    }
}

/// ASCII case-insensitive equality.
pub open spec fn eq_ignore_ascii_case(a: Seq<u8>, b: Seq<u8>) -> bool {
    a.len() == b.len() && forall|i: int| 0 <= i < a.len() ==> ascii_lower(#[trigger] a[i])
        == ascii_lower(b[i])
}

/// RFC 9113 §8.2.2 connection-specific fields, which HTTP/2 forbids.
pub open spec fn is_connection_specific(name: Seq<u8>) -> bool {
    name == "connection".spec_bytes() || name == "transfer-encoding".spec_bytes() || name
        == "upgrade".spec_bytes() || name == "keep-alive".spec_bytes() || name
        == "proxy-connection".spec_bytes()
}

/// One field breaks a rule on its own: it is connection-specific, it is a
/// `te` field whose value is not `trailers` (in any case), or its value has
/// leading or trailing whitespace (RFC 9113 §8.2.1).
pub open spec fn field_is_malformed(name: Seq<u8>, value: Seq<u8>) -> bool {
    is_connection_specific(name) || (name == "te".spec_bytes() && !eq_ignore_ascii_case(
        value,
        "trailers".spec_bytes(),
    )) || has_leading_trailing_ws(value)
}

/// The number of `host` fields in `fields`.
pub open spec fn host_count(fields: Seq<(Vec<u8>, Vec<u8>)>) -> nat
    decreases fields.len(),
{
    if fields.len() == 0 {
        0
    } else {
        host_count(fields.drop_last()) + if fields.last().0@ == "host".spec_bytes() {
            1nat
        } else {
            0nat
        }
    }
}

/// The block breaks a rule: some field is malformed, or there is more than
/// one `host` field (RFC 9110 §7.2).
pub open spec fn headers_malformed(fields: Seq<(Vec<u8>, Vec<u8>)>) -> bool {
    (exists|i: int| 0 <= i < fields.len() && field_is_malformed(
        (#[trigger] fields[i]).0@,
        fields[i].1@,
    )) || host_count(fields) > 1
}

/// Byte-wise equality of two slices.
fn bytes_eq(a: &[u8], b: &[u8]) -> (r: bool)
    ensures
        r == (a@ == b@),
{
    if a.len() != b.len() {
        return false;
    }
    let mut i: usize = 0;
    while i < a.len()
        invariant
            a@.len() == b@.len(),
            i <= a@.len(),
            forall|j: int| 0 <= j < i ==> a@[j] == b@[j],
        decreases a@.len() - i,
    {
        if a[i] != b[i] {
            return false;
        }
        i = i + 1;
    }
    assert(a@ =~= b@);
    true
}

fn lower(b: u8) -> (r: u8)
    ensures
        r == ascii_lower(b),
{
    if 65u8 <= b && b <= 90u8 {
        b + 32
    } else {
        b
    }
}

/// ASCII case-insensitive equality of two slices.
fn bytes_eq_ignore_ascii_case(a: &[u8], b: &[u8]) -> (r: bool)
    ensures
        r == eq_ignore_ascii_case(a@, b@),
{
    if a.len() != b.len() {
        return false;
    }
    let mut i: usize = 0;
    while i < a.len()
        invariant
            a@.len() == b@.len(),
            i <= a@.len(),
            forall|j: int| 0 <= j < i ==> ascii_lower(#[trigger] a@[j]) == ascii_lower(b@[j]),
        decreases a@.len() - i,
    {
        if lower(a[i]) != lower(b[i]) {
            return false;
        }
        i = i + 1;
    }
    true
}

fn is_malformed_field(name: &[u8], value: &[u8]) -> (r: bool)
    ensures
        r == field_is_malformed(name@, value@),
{
    let connection_specific: bool = bytes_eq(name, "connection".as_bytes()) || bytes_eq(
        name,
        "transfer-encoding".as_bytes(),
    ) || bytes_eq(name, "upgrade".as_bytes()) || bytes_eq(name, "keep-alive".as_bytes())
        || bytes_eq(name, "proxy-connection".as_bytes());
    let bad_te: bool = bytes_eq(name, "te".as_bytes()) && !bytes_eq_ignore_ascii_case(
        value,
        "trailers".as_bytes(),
    );
    let n: usize = value.len();
    let ws: bool = n > 0 && (value[0] == 32u8 || value[0] == 9u8 || value[n - 1] == 32u8
        || value[n - 1] == 9u8);
    connection_specific || bad_te || ws
}

/// Checks an outbound header block: no connection-specific field, `te`
/// only as `trailers`, no value with leading or trailing whitespace, and at
/// most one `host` field.
pub fn check_headers(fields: &Vec<(Vec<u8>, Vec<u8>)>) -> (r: Result<(), UserError>)
    ensures
        headers_malformed(fields@) ==> r == Err::<(), UserError>(UserError::MalformedHeaders),
        !headers_malformed(fields@) ==> r is Ok,
{
    let n: usize = fields.len();
    let mut i: usize = 0;
    let mut hosts: usize = 0;
    while i < n
        invariant
            n == fields@.len(),
            i <= n,
            hosts == host_count(fields@.take(i as int)),
            hosts <= i,
            forall|j: int| 0 <= j < i ==> !field_is_malformed(
                (#[trigger] fields@[j]).0@,
                fields@[j].1@,
            ),
        decreases n - i,
    {
        let name: &[u8] = fields[i].0.as_slice();
        let value: &[u8] = fields[i].1.as_slice();
        if is_malformed_field(name, value) {
            return Err(UserError::MalformedHeaders);
        }
        if bytes_eq(name, "host".as_bytes()) {
            hosts = hosts + 1;
        }
        assert(fields@.take(i + 1).drop_last() =~= fields@.take(i as int));
        i = i + 1;
    }
    assert(fields@.take(n as int) =~= fields@);
    if hosts > 1 {
        return Err(UserError::MalformedHeaders);
    }
    Ok(())
}

/// The block holds a `content-length` field.
pub open spec fn has_content_length(fields: Seq<(Vec<u8>, Vec<u8>)>) -> bool {
    exists|i: int| 0 <= i < fields.len() && (#[trigger] fields[i]).0@
        == "content-length".spec_bytes()
}

/// Whether the block holds a `content-length` field.
pub fn contains_content_length(fields: &Vec<(Vec<u8>, Vec<u8>)>) -> (r: bool)
    ensures
        r == has_content_length(fields@),
{
    let n: usize = fields.len();
    let mut i: usize = 0;
    while i < n
        invariant
            n == fields@.len(),
            i <= n,
            forall|j: int| 0 <= j < i ==> (#[trigger] fields@[j]).0@
                != "content-length".spec_bytes(),
        decreases n - i,
    {
        if bytes_eq(fields[i].0.as_slice(), "content-length".as_bytes()) {
            return true;
        }
        i = i + 1;
    }
    false
}

} // verus!
