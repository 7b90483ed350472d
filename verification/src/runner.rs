//! Script and file naming for running a command under a wrapper script.
//! A process that replaces its own image cannot hand its exit status back
//! directly, so the generated script runs the command and then writes the
//! status to a file named after the hash of the command line.

use vstd::prelude::*;

verus! {

/// What the SipHash-2-4 hasher keyed with `(0, 0)` returns for a byte
/// sequence.
pub uninterp spec fn sip_hash_of(bytes: Seq<u8>) -> u64;

/// Relies on siphasher's `SipHasher::new` (both keys fixed at zero) with
/// `Hasher::write` and `Hasher::finish`: the hash is a function of the
/// written bytes alone, the same in every process and on every machine.
#[verifier::external_body]
fn sip_hash(bytes: &Vec<u8>) -> (r: u64)
    ensures
        r == sip_hash_of(bytes@),
{
    let mut hasher = siphasher::sip::SipHasher::new();
    std::hash::Hasher::write(&mut hasher, bytes.as_slice());
    std::hash::Hasher::finish(&hasher)
}

/// The decimal digits of `n`, most significant first.
pub open spec fn dec_digits(n: nat) -> Seq<u8>
    decreases n,
{
    if n < 10 {
        seq![(48 + n) as u8]
    } else {
        dec_digits(n / 10).push((48 + n % 10) as u8)
    }
}

/// Formats `n` in decimal.
fn u64_to_dec(n: u64) -> (r: Vec<u8>)
    ensures
        r@ == dec_digits(n as nat),
    decreases n,
{
    if n < 10 {
        let mut r: Vec<u8> = Vec::new();
        r.push(48 + n as u8);
        proof {
            assert(r@ =~= dec_digits(n as nat));
        }
        r
    } else {
        let mut r = u64_to_dec(n / 10);
        r.push(48 + (n % 10) as u8);
        proof {
            assert(r@ =~= dec_digits(n as nat));
        }
        r
    }
}

/// Appends the bytes of `src` to `dst`.
fn append_bytes(dst: &mut Vec<u8>, src: &Vec<u8>)
    ensures
        final(dst)@ == old(dst)@ + src@,
{
    let n = src.len();
    let ghost dst0 = dst@;
    for i in 0..n
        invariant
            n == src@.len(),
            dst@ == dst0 + src@.take(i as int),
    {
        dst.push(src[i]);
        proof {
            assert(dst@ =~= dst0 + src@.take(i + 1));
        }
    }
    proof {
        assert(dst0 + src@.take(n as int) =~= dst0 + src@);
    }
}

/// The bytes of `.sh`.
pub open spec fn script_suffix() -> Seq<u8> {
    seq![46u8, 115u8, 104u8]
}

/// The bytes of `.status`.
pub open spec fn status_suffix() -> Seq<u8> {
    seq![46u8, 115u8, 116u8, 97u8, 116u8, 117u8, 115u8]
}

/// The bytes of `#!/usr/bin/env bash` followed by a newline.
pub open spec fn script_header() -> Seq<u8> {
    seq![
        35u8, 33u8, 47u8, 117u8, 115u8, 114u8, 47u8, 98u8, 105u8, 110u8, 47u8, 101u8, 110u8,
        118u8, 32u8, 98u8, 97u8, 115u8, 104u8, 10u8,
    ]
}

/// The bytes of a newline followed by `printf $? > `.
pub open spec fn status_redirect() -> Seq<u8> {
    seq![10u8, 112u8, 114u8, 105u8, 110u8, 116u8, 102u8, 32u8, 36u8, 63u8, 32u8, 62u8, 32u8]
}

/// An ASCII decimal digit.
pub open spec fn is_digit(b: u8) -> bool {
    48 <= b <= 57
}

/// The value of a sequence of decimal digits, most significant first.
pub open spec fn dec_val(s: Seq<u8>) -> nat
    decreases s.len(),
{
    if s.len() == 0 {
        0
    } else {
        dec_val(s.drop_last()) * 10 + (s.last() - 48) as nat
    }
}

/// ASCII whitespace, as trimmed from the ends of the status file.
pub open spec fn is_space(b: u8) -> bool {
    b == 32 || b == 9 || b == 10 || b == 13 || b == 11 || b == 12
}

/// `s` with leading and trailing ASCII whitespace removed.
pub open spec fn trimmed(s: Seq<u8>) -> Seq<u8>
    decreases s.len(),
{
    if s.len() > 0 && is_space(s[0]) {
        trimmed(s.drop_first())
    } else if s.len() > 0 && is_space(s.last()) {
        trimmed(s.drop_last())
    } else {
        s
    }
}

/// The trimmed bytes form a status value: at least one digit, nothing but
/// digits, and a value that fits a 32-bit status.
pub open spec fn is_status_text(t: Seq<u8>) -> bool {
    t.len() > 0 && (forall|i: int| 0 <= i < t.len() ==> is_digit(#[trigger] t[i])) && dec_val(t)
        <= 0x7fff_ffff
}

/// A byte range whose outside is all whitespace and whose ends are not is
/// exactly what trimming leaves.
proof fn lemma_trimmed_subrange(s: Seq<u8>, start: int, end: int)
    requires
        0 <= start <= end <= s.len(),
        forall|i: int| 0 <= i < start ==> is_space(#[trigger] s[i]),
        forall|i: int| end <= i < s.len() ==> is_space(#[trigger] s[i]),
        start == end || (!is_space(s[start]) && !is_space(s[end - 1])),
    ensures
        trimmed(s) == s.subrange(start, end),
    decreases s.len(),
{
    if s.len() == 0 {
        assert(s.subrange(0, 0) =~= s);
    } else if is_space(s[0]) {
        let d = s.drop_first();
        if start > 0 {
            assert forall|i: int| 0 <= i < start - 1 implies is_space(#[trigger] d[i]) by {
                assert(d[i] == s[i + 1]);
            }
            assert forall|i: int| end - 1 <= i < d.len() implies is_space(#[trigger] d[i]) by {
                assert(d[i] == s[i + 1]);
            }
            lemma_trimmed_subrange(d, start - 1, end - 1);
            assert(d.subrange(start - 1, end - 1) =~= s.subrange(start, end));
        } else {
            assert(start == end);
            assert forall|i: int| 0 <= i < d.len() implies is_space(#[trigger] d[i]) by {
                assert(d[i] == s[i + 1]);
            }
            lemma_trimmed_subrange(d, 0, 0);
            assert(d.subrange(0, 0) =~= s.subrange(0, 0));
        }
    } else if is_space(s.last()) {
        let d = s.drop_last();
        assert(end < s.len());
        assert forall|i: int| end <= i < d.len() implies is_space(#[trigger] d[i]) by {
            assert(d[i] == s[i]);
        }
        assert forall|i: int| 0 <= i < start implies is_space(#[trigger] d[i]) by {
            assert(d[i] == s[i]);
        }
        lemma_trimmed_subrange(d, start, end);
        assert(d.subrange(start, end) =~= s.subrange(start, end));
    } else {
        assert(start == 0);
        assert(end == s.len());
        assert(s.subrange(0, s.len() as int) =~= s);
    }
}

/// A longer digit string never has a smaller value.
proof fn lemma_dec_val_prefix(s: Seq<u8>, m: int)
    requires
        0 <= m <= s.len(),
    ensures
        dec_val(s) >= dec_val(s.take(m)),
    decreases s.len() - m,
{
    if m < s.len() {
        assert(s.take(m + 1).drop_last() =~= s.take(m));
        assert(dec_val(s.take(m + 1)) >= dec_val(s.take(m)));
        lemma_dec_val_prefix(s, m + 1);
    } else {
        assert(s.take(m) =~= s);
    }
}

/// Whether `b` is ASCII whitespace.
fn space_byte(b: u8) -> (r: bool)
    ensures
        r == is_space(b),
{
    b == 32 || b == 9 || b == 10 || b == 13 || b == 11 || b == 12
}

/// Parses the contents of the status file: a decimal exit status surrounded
/// by optional whitespace. Anything else — an empty file, a stray byte, or
/// a value too large for a 32-bit status — yields `None`.
pub fn parse_status(bytes: &Vec<u8>) -> (r: Option<i32>)
    ensures
        match r {
            Some(v) => is_status_text(trimmed(bytes@)) && v >= 0 && v as nat == dec_val(
                trimmed(bytes@),
            ),
            None => !is_status_text(trimmed(bytes@)),
        },
{
    let n = bytes.len();
    let mut start: usize = 0;
    while start < n && space_byte(bytes[start])
        invariant
            start <= n,
            n == bytes@.len(),
            forall|i: int| 0 <= i < start ==> is_space(#[trigger] bytes@[i]),
        decreases n - start,
    {
        start = start + 1;
    }
    let mut end: usize = n;
    while end > start && space_byte(bytes[end - 1])
        invariant
            start <= end <= n,
            n == bytes@.len(),
            forall|i: int| end <= i < n ==> is_space(#[trigger] bytes@[i]),
        decreases end,
    {
        end = end - 1;
    }
    proof {
        lemma_trimmed_subrange(bytes@, start as int, end as int);
    }
    let ghost t = bytes@.subrange(start as int, end as int);
    if start == end {
        return None;
    }
    let mut acc: u32 = 0;
    let mut i: usize = start;
    while i < end
        invariant
            start <= i <= end <= n,
            start < end,
            n == bytes@.len(),
            t == bytes@.subrange(start as int, end as int),
            t == trimmed(bytes@),
            acc <= 0x7fff_ffff,
            acc as nat == dec_val(t.take(i - start)),
            forall|j: int| 0 <= j < i - start ==> is_digit(#[trigger] t[j]),
        decreases end - i,
    {
        let b = bytes[i];
        proof {
            assert(t[i - start] == bytes@[i as int]);
        }
        if b < 48 || b > 57 {
            proof {
                assert(!is_digit(t[i - start]));
            }
            return None;
        }
        let d = (b - 48) as u32;
        if acc > 214748364 || (acc == 214748364 && d > 7) {
            proof {
                assert(t.take(i - start + 1).drop_last() =~= t.take(i - start));
                assert(t.take(i - start + 1).last() == t[i - start]);
                assert(dec_val(t.take(i - start + 1)) > 0x7fff_ffff);
                lemma_dec_val_prefix(t, i - start + 1);
            }
            return None;
        }
        acc = acc * 10 + d;
        proof {
            assert(t.take(i - start + 1).drop_last() =~= t.take(i - start));
            assert(t.take(i - start + 1).last() == t[i - start]);
        }
        i = i + 1;
    }
    proof {
        assert(t.take(end - start) =~= t);
    }
    Some(acc as i32)
}

/// Runs one command line through a generated wrapper script named after the
/// hash of the command line; the script persists the command's exit status
/// to a status file under the same name.
pub struct Runner {
    /// The command line to run.
    pub cmd: Vec<u8>,
    /// The hash of the command line, which names the script and status files.
    pub hash: u64,
    /// The exit status read back from the status file, once known.
    pub status: Option<i32>,
}

impl Runner {
    /// A runner for one command line.
    pub fn new(cmd: Vec<u8>) -> (r: Runner)
        ensures
            r.cmd@ == cmd@,
            r.hash == sip_hash_of(cmd@),
            r.status is None,
    {
        let hash = sip_hash(&cmd);
        Runner { cmd, hash, status: None }
    }

    /// The wrapper script file name: the decimal hash followed by `.sh`.
    pub fn script_name(&self) -> (r: Vec<u8>)
        ensures
            r@ == dec_digits(self.hash as nat) + script_suffix(),
    {
        let mut r = u64_to_dec(self.hash);
        r.push(46);
        r.push(115);
        r.push(104);
        proof {
            assert(r@ =~= dec_digits(self.hash as nat) + script_suffix());
        }
        r
    }

    /// The status file name: the decimal hash followed by `.status`.
    pub fn status_name(&self) -> (r: Vec<u8>)
        ensures
            r@ == dec_digits(self.hash as nat) + status_suffix(),
    {
        let mut r = u64_to_dec(self.hash);
        r.push(46);
        r.push(115);
        r.push(116);
        r.push(97);
        r.push(116);
        r.push(117);
        r.push(115);
        proof {
            assert(r@ =~= dec_digits(self.hash as nat) + status_suffix());
        }
        r
    }

    /// The wrapper script text: a bash header line, the command line, and a
    /// final line that writes the command's exit status to the status file.
    pub fn script_text(&self) -> (r: Vec<u8>)
        ensures
            r@ == script_header() + self.cmd@ + status_redirect() + dec_digits(self.hash as nat)
                + status_suffix(),
    {
        let mut r: Vec<u8> = Vec::new();
        r.push(35);
        r.push(33);
        r.push(47);
        r.push(117);
        r.push(115);
        r.push(114);
        r.push(47);
        r.push(98);
        r.push(105);
        r.push(110);
        r.push(47);
        r.push(101);
        r.push(110);
        r.push(118);
        r.push(32);
        r.push(98);
        r.push(97);
        r.push(115);
        r.push(104);
        r.push(10);
        proof {
            assert(r@ =~= script_header());
        }
        append_bytes(&mut r, &self.cmd);
        r.push(10);
        r.push(112);
        r.push(114);
        r.push(105);
        r.push(110);
        r.push(116);
        r.push(102);
        r.push(32);
        r.push(36);
        r.push(63);
        r.push(32);
        r.push(62);
        r.push(32);
        proof {
            assert(r@ =~= script_header() + self.cmd@ + status_redirect());
        }
        let tail = self.status_name();
        append_bytes(&mut r, &tail);
        proof {
            assert(r@ =~= script_header() + self.cmd@ + status_redirect() + dec_digits(
                self.hash as nat,
            ) + status_suffix());
        }
        r
    }
}

} // verus!
