//! Secret configuration decoding. A raw entry is either untagged text,
//! tagged `ascii:`, or tagged `base64:`; the text before the first colon
//! tags the entry, and the value runs from the first colon to the second
//! colon or to the end.

use vstd::prelude::*;

use crate::redactor::Secret;

verus! {

/// Byte value of `:`, which separates the tag from the value.
pub const COLON: u8 = 58;

/// The bytes of the tag `base64`.
pub open spec fn base64_tag() -> Seq<u8> {
    seq![98u8, 97u8, 115u8, 101u8, 54u8, 52u8]
}

/// The bytes of the tag `ascii`.
pub open spec fn ascii_tag() -> Seq<u8> {
    seq![97u8, 115u8, 99u8, 105u8, 105u8]
}

/// The earliest index of `b` in `s` at or after `i`, if any.
pub open spec fn find_byte_from(s: Seq<u8>, b: u8, i: int) -> Option<int>
    decreases s.len() - i,
{
    if i < 0 || i >= s.len() {
        None
    } else if s[i] == b {
        Some(i)
    } else {
        find_byte_from(s, b, i + 1)
    }
}

/// The value part of what follows a tag: up to the next colon, or the end.
pub open spec fn value_part(rest: Seq<u8>) -> Seq<u8> {
    match find_byte_from(rest, COLON, 0) {
        Some(j) => rest.take(j),
        None => rest,
    }
}

/// What `base64::decode` returns for an input, when it succeeds.
pub uninterp spec fn base64_decoding(s: Seq<u8>) -> Option<Seq<u8>>;

/// The decoded secret bytes of one raw configuration entry: an untagged
/// non-empty entry is taken as it stands, `ascii:` takes its value as it
/// stands, `base64:` decodes its value, anything else is rejected.
pub open spec fn spec_decode(raw: Seq<u8>) -> Option<Seq<u8>> {
    match find_byte_from(raw, COLON, 0) {
        None => if raw.len() > 0 {
            Some(raw)
        } else {
            None
        },
        Some(i) => {
            let tag = raw.take(i);
            let val = value_part(raw.skip(i + 1));
            if tag == base64_tag() {
                base64_decoding(val)
            } else if tag == ascii_tag() {
                Some(val)
            } else {
                None
            }
        },
    }
}

/// Relies on `base64::decode`: decoding with the standard alphabet is a
/// function of the input bytes alone, and an invalid input is an error.
#[verifier::external_body]
#[allow(deprecated)]
fn b64_decode(input: &Vec<u8>) -> (r: Option<Vec<u8>>)
    ensures
        match r {
            Some(v) => base64_decoding(input@) == Some(v@),
            None => base64_decoding(input@) is None,
        },
{
    base64::decode(input).ok()
}

/// The earliest index of `b` in `v`, if any.
fn find_byte(v: &Vec<u8>, b: u8) -> (r: Option<usize>)
    ensures
        match r {
            Some(i) => find_byte_from(v@, b, 0) == Some(i as int) && i < v@.len() && v@[i as int]
                == b,
            None => find_byte_from(v@, b, 0) is None,
        },
{
    let n = v.len();
    let mut i: usize = 0;
    while i < n
        invariant
            i <= n,
            n == v@.len(),
            find_byte_from(v@, b, 0) == find_byte_from(v@, b, i as int),
        decreases n - i,
    {
        if v[i] == b {
            return Some(i);
        }
        proof {
            assert(find_byte_from(v@, b, i as int) == find_byte_from(v@, b, i + 1));
        }
        i = i + 1;
    }
    None
}

/// A fresh vector holding bytes `start .. end` of `v`.
fn subvec(v: &Vec<u8>, start: usize, end: usize) -> (r: Vec<u8>)
    requires
        start <= end <= v@.len(),
    ensures
        r@ == v@.subrange(start as int, end as int),
{
    let mut r: Vec<u8> = Vec::new();
    let mut i: usize = start;
    while i < end
        invariant
            start <= i <= end <= v@.len(),
            r@ == v@.subrange(start as int, i as int),
        decreases end - i,
    {
        r.push(v[i]);
        proof {
            assert(r@ =~= v@.subrange(start as int, i + 1));
        }
        i = i + 1;
    }
    r
}

/// Compares two byte vectors for equal contents.
fn vec_eq(a: &Vec<u8>, b: &Vec<u8>) -> (r: bool)
    ensures
        r == (a@ == b@),
{
    if a.len() != b.len() {
        return false;
    }
    let n = a.len();
    for i in 0..n
        invariant
            n == a@.len(),
            n == b@.len(),
            forall|j: int| 0 <= j < i ==> a@[j] == b@[j],
    {
        if a[i] != b[i] {
            return false;
        }
    }
    proof {
        assert(a@ =~= b@);
    }
    true
}

/// Builds the tag bytes `base64`.
fn base64_tag_vec() -> (r: Vec<u8>)
    ensures
        r@ == base64_tag(),
{
    let mut r: Vec<u8> = Vec::new();
    r.push(98);
    r.push(97);
    r.push(115);
    r.push(101);
    r.push(54);
    r.push(52);
    proof {
        assert(r@ =~= base64_tag());
    }
    r
}

/// Builds the tag bytes `ascii`.
fn ascii_tag_vec() -> (r: Vec<u8>)
    ensures
        r@ == ascii_tag(),
{
    let mut r: Vec<u8> = Vec::new();
    r.push(97);
    r.push(115);
    r.push(99);
    r.push(105);
    r.push(105);
    proof {
        assert(r@ =~= ascii_tag());
    }
    r
}

/// A raw configuration entry together with its declared encoding.
pub enum EncodedSecret {
    Ascii(Vec<u8>),
    Base64(Vec<u8>),
}

impl EncodedSecret {
    /// Splits a raw entry into its tag and value: no colon means an
    /// untagged (ascii) value, a known tag keeps the value between the
    /// first and second colons, an empty entry or unknown tag is rejected.
    pub fn new(raw: &Vec<u8>) -> (r: Option<EncodedSecret>)
        ensures
            (match find_byte_from(raw@, COLON, 0) {
                None => if raw@.len() > 0 {
                    r matches Some(EncodedSecret::Ascii(v)) && v@ == raw@
                } else {
                    r is None
                },
                Some(i) => {
                    let tag = raw@.take(i);
                    let val = value_part(raw@.skip(i + 1));
                    if tag == base64_tag() {
                        r matches Some(EncodedSecret::Base64(v)) && v@ == val
                    } else if tag == ascii_tag() {
                        r matches Some(EncodedSecret::Ascii(v)) && v@ == val
                    } else {
                        r is None
                    }
                },
            }),
    {
        let n = raw.len();
        match find_byte(raw, COLON) {
            None => {
                if n > 0 {
                    Some(EncodedSecret::Ascii(subvec(raw, 0, n)))
                } else {
                    None
                }
            },
            Some(i) => {
                let tag = subvec(raw, 0, i);
                let rest = subvec(raw, i + 1, n);
                let val = match find_byte(&rest, COLON) {
                    Some(j) => subvec(&rest, 0, j),
                    None => rest,
                };
                if vec_eq(&tag, &base64_tag_vec()) {
                    Some(EncodedSecret::Base64(val))
                } else if vec_eq(&tag, &ascii_tag_vec()) {
                    Some(EncodedSecret::Ascii(val))
                } else {
                    None
                }
            },
        }
    }

    /// Decodes the entry to secret bytes; the result is `None` only for a
    /// `base64:` entry whose value is not valid base64.
    pub fn decode(&self) -> (r: Option<Secret>)
        ensures
            (match self {
                EncodedSecret::Ascii(v) => r matches Some(s) && s@ == v@,
                EncodedSecret::Base64(v) => match base64_decoding(v@) {
                    Some(d) => r matches Some(s) && s@ == d,
                    None => r is None,
                },
            }),
    {
        match self {
            EncodedSecret::Ascii(v) => Some(subvec(v, 0, v.len())),
            EncodedSecret::Base64(v) => b64_decode(v),
        }
    }
}

/// Decodes one raw configuration entry into secret bytes.
pub fn decode(raw: &Vec<u8>) -> (r: Option<Secret>)
    ensures
        match r {
            Some(s) => spec_decode(raw@) == Some(s@),
            None => spec_decode(raw@) is None,
        },
{
    match EncodedSecret::new(raw) {
        None => None,
        Some(e) => e.decode(),
    }
}

} // verus!
