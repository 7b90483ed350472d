//! The redaction engine: a sliding window over the input stream, a matcher
//! that overwrites matched secret spans with a sentinel byte, and an emission
//! state machine that collapses each contiguous sentinel run into a single
//! marker while suppressing the rest of the window span.

use vstd::prelude::*;

verus! {

/// A secret is an exact byte sequence to be suppressed from the output.
pub type Secret = Vec<u8>;

/// Reserved byte value written over window positions that belong to a match.
pub const REDACTED_BYTE: u8 = 7;

/// The fixed literal emitted in place of a matched secret: `[secure]`.
pub open spec fn redaction_msg() -> Seq<u8> {
    seq![91u8, 115u8, 101u8, 99u8, 117u8, 114u8, 101u8, 93u8]
}

/// Appends the redaction marker literal to `out`.
fn push_redaction_msg(out: &mut Vec<u8>)
    ensures
        final(out)@ == old(out)@ + redaction_msg(),
{
    out.push(91);
    out.push(115);
    out.push(101);
    out.push(99);
    out.push(117);
    out.push(114);
    out.push(101);
    out.push(93);
    proof {
        assert(final(out)@ =~= old(out)@ + redaction_msg());
    }
}

/// `s` occurs at offset `i` of `buf`.
pub open spec fn match_at(buf: Seq<u8>, s: Seq<u8>, i: int) -> bool {
    0 <= i && i + s.len() <= buf.len() && buf.subrange(i, i + s.len() as int) == s
}

/// `s` occurs somewhere in `buf` as a contiguous run.
pub open spec fn occurs(buf: Seq<u8>, s: Seq<u8>) -> bool {
    exists|i: int| match_at(buf, s, i)
}

/// Compares `needle` against the bytes of `hay` starting at offset `at`.
pub fn matches_at(hay: &Vec<u8>, needle: &Vec<u8>, at: usize) -> (r: bool)
    requires
        at + needle@.len() <= hay@.len(),
    ensures
        r == match_at(hay@, needle@, at as int),
{
    let n = needle.len();
    let hay_len = hay.len();
    for j in 0..n
        invariant
            n == needle@.len(),
            hay_len == hay@.len(),
            at + n <= hay_len,
            forall|m: int| 0 <= m < j ==> hay@[at + m] == needle@[m],
    {
        if hay[at + j] != needle[j] {
            proof {
                assert(hay@.subrange(at as int, at + needle@.len() as int)[j as int]
                    != needle@[j as int]);
            }
            return false;
        }
    }
    proof {
        assert(hay@.subrange(at as int, at + needle@.len() as int) =~= needle@);
    }
    true
}

/// The views of a sequence of byte vectors.
pub open spec fn views_of(ss: Seq<Vec<u8>>) -> Seq<Seq<u8>> {
    Seq::new(ss.len(), |i: int| ss[i]@)
}

/// `buf` with positions `start .. start + len` overwritten by the sentinel.
pub open spec fn mark_span(buf: Seq<u8>, start: int, len: int) -> Seq<u8> {
    Seq::new(buf.len(), |i: int| if start <= i < start + len { REDACTED_BYTE } else { buf[i] })
}

/// The window after the matcher has compared the first `k` secrets, in
/// order, against the window head and overwritten each matched span. Later
/// secrets are compared against the already-marked window.
pub open spec fn mark_head_upto(buf: Seq<u8>, secrets: Seq<Seq<u8>>, k: int) -> Seq<u8>
    decreases k,
{
    if k <= 0 {
        buf
    } else {
        let b = mark_head_upto(buf, secrets, k - 1);
        if match_at(b, secrets[k - 1], 0) {
            mark_span(b, 0, secrets[k - 1].len() as int)
        } else {
            b
        }
    }
}

/// The window after the head-marking pass over all secrets.
pub open spec fn mark_head(buf: Seq<u8>, secrets: Seq<Seq<u8>>) -> Seq<u8> {
    mark_head_upto(buf, secrets, secrets.len() as int)
}

/// The earliest offset `>= i` at which `s` occurs in `buf`, if any.
pub open spec fn first_match_from(buf: Seq<u8>, s: Seq<u8>, i: int) -> Option<int>
    decreases buf.len() - s.len() - i + 1,
{
    if i < 0 || i + s.len() > buf.len() {
        None
    } else if match_at(buf, s, i) {
        Some(i)
    } else {
        first_match_from(buf, s, i + 1)
    }
}

/// A found first match really is a match, at or after the start offset.
proof fn lemma_first_match_some(buf: Seq<u8>, s: Seq<u8>, i: int, j: int)
    requires
        first_match_from(buf, s, i) == Some(j),
    ensures
        match_at(buf, s, j),
        i <= j,
    decreases buf.len() - s.len() - i + 1,
{
    if i < 0 || i + s.len() > buf.len() {
    } else if match_at(buf, s, i) {
    } else {
        lemma_first_match_some(buf, s, i + 1, j);
    }
}

/// The window after the end-of-stream marking pass over the first `k` secrets:
/// for each secret in order, the earliest span (at any offset) that matches
/// the current window is overwritten with the sentinel.
pub open spec fn mark_tail_upto(buf: Seq<u8>, secrets: Seq<Seq<u8>>, k: int) -> Seq<u8>
    decreases k,
{
    if k <= 0 {
        buf
    } else {
        let b = mark_tail_upto(buf, secrets, k - 1);
        match first_match_from(b, secrets[k - 1], 0) {
            Some(i) => mark_span(b, i, secrets[k - 1].len() as int),
            None => b,
        }
    }
}

/// The window after the end-of-stream marking pass over all secrets.
pub open spec fn mark_tail(buf: Seq<u8>, secrets: Seq<Seq<u8>>) -> Seq<u8> {
    mark_tail_upto(buf, secrets, secrets.len() as int)
}

/// The emission state machine is in pass-through when the counter is at `w`
/// (not suppressing) or at `0` (a finished span about to reset).
pub open spec fn is_passthrough(c: nat, w: nat) -> bool {
    c == w || c == 0
}

/// What the emission state machine writes for one window byte: the byte
/// itself, the redaction marker, or nothing while suppressing.
pub open spec fn emit_out(c: nat, w: nat, byte: u8) -> Seq<u8> {
    if is_passthrough(c, w) {
        if byte == REDACTED_BYTE {
            redaction_msg()
        } else {
            seq![byte]
        }
    } else {
        Seq::<u8>::empty()
    }
}

/// The emission counter after processing one window byte.
pub open spec fn emit_next(c: nat, w: nat, byte: u8) -> nat {
    if is_passthrough(c, w) {
        if byte == REDACTED_BYTE {
            (w - 1) as nat
        } else {
            w
        }
    } else {
        (c - 1) as nat
    }
}

/// Everything emitted while flushing window positions `i ..` at end of
/// stream, with counter `c` and no further marking.
pub open spec fn run_tail(buf: Seq<u8>, c: nat, i: int) -> Seq<u8>
    decreases buf.len() - i,
{
    if i < 0 || i >= buf.len() {
        Seq::<u8>::empty()
    } else {
        emit_out(c, buf.len(), buf[i]) + run_tail(buf, emit_next(c, buf.len(), buf[i]), i + 1)
    }
}

/// Everything emitted from a window `buf` with counter `c` when the bytes of
/// `rest` are still to be read: each step marks the window head, emits the
/// oldest byte, then shifts the next input byte in; when the input is
/// exhausted the tail-marking pass runs and the window remainder is flushed.
pub open spec fn run_steady(buf: Seq<u8>, c: nat, rest: Seq<u8>, secrets: Seq<Seq<u8>>) -> Seq<u8>
    decreases rest.len(),
{
    let w = buf.len();
    let b = mark_head(buf, secrets);
    let out = emit_out(c, w, b[0]);
    let c1 = emit_next(c, w, b[0]);
    if rest.len() == 0 {
        out + run_tail(mark_tail(b, secrets), c1, 1)
    } else {
        out + run_steady(b.subrange(1, w as int).push(rest[0]), c1, rest.drop_first(), secrets)
    }
}

/// The length of the longest secret, which fixes the window size.
pub open spec fn max_secret_len(secrets: Seq<Seq<u8>>) -> nat
    decreases secrets.len(),
{
    if secrets.len() == 0 {
        0
    } else if secrets[0].len() >= max_secret_len(secrets.drop_first()) {
        secrets[0].len()
    } else {
        max_secret_len(secrets.drop_first())
    }
}

/// The secrets are ordered by descending byte length.
pub open spec fn sorted_desc(ss: Seq<Seq<u8>>) -> bool {
    forall|i: int, j: int| 0 <= i <= j < ss.len() ==> ss[i].len() >= ss[j].len()
}

/// The whole output of one scan: an input shorter than the window (or an
/// empty window) passes through unchanged; otherwise the window is filled
/// with the first `w` bytes and the engine runs over the remainder.
pub open spec fn scan_out(input: Seq<u8>, secrets: Seq<Seq<u8>>) -> Seq<u8> {
    let w = max_secret_len(secrets);
    if w == 0 || input.len() < w {
        input
    } else {
        run_steady(input.take(w as int), w, input.skip(w as int), secrets)
    }
}

/// The redaction engine: the sliding window, the emission counter and the
/// configured secret set.
pub struct Redactor {
    /// The window of the most recent `size` input bytes, oldest at index 0.
    pub buf: Vec<u8>,
    /// The window length: the length of the longest configured secret.
    pub size: usize,
    /// The emission counter, `0 ..= size`; `size` means "not suppressing".
    pub redacting: usize,
    /// The configured secrets.
    pub secrets: Vec<Secret>,
}

impl Redactor {
    /// The views of the configured secrets.
    pub open spec fn secrets_view(&self) -> Seq<Seq<u8>> {
        views_of(self.secrets@)
    }

    /// Well-formedness: the window is non-empty, matches `size`, the counter
    /// is in range and every secret fits inside the window.
    pub open spec fn wf(&self) -> bool {
        &&& self.size == self.buf@.len()
        &&& 1 <= self.size
        &&& self.redacting <= self.size
        &&& forall|k: int|
            0 <= k < self.secrets@.len() ==> (#[trigger] self.secrets@[k])@.len() <= self.size
    }

    /// Builds an engine over a window buffer and a secret set.
    pub fn new(buf: Vec<u8>, secrets: Vec<Secret>) -> (r: Redactor)
        requires
            1 <= buf@.len(),
            forall|k: int| 0 <= k < secrets@.len() ==> (#[trigger] secrets@[k])@.len() <= buf@.len(),
        ensures
            r.wf(),
            r.buf@ == buf@,
            r.redacting == buf@.len(),
            r.size == buf@.len(),
            r.secrets@ == secrets@,
    {
        let size = buf.len();
        Redactor { buf, size, redacting: size, secrets }
    }

    /// Processes one window byte: in pass-through a sentinel emits the
    /// redaction marker and starts a suppression span, any other byte is
    /// copied; while suppressing, the byte is dropped and the counter falls.
    pub fn emit_byte(&mut self, i: usize, out: &mut Vec<u8>)
        requires
            old(self).wf(),
            i < old(self).size,
        ensures
            final(self).wf(),
            final(self).buf == old(self).buf,
            final(self).size == old(self).size,
            final(self).secrets == old(self).secrets,
            final(out)@ == old(out)@ + emit_out(
                old(self).redacting as nat,
                old(self).size as nat,
                old(self).buf@[i as int],
            ),
            final(self).redacting as nat == emit_next(
                old(self).redacting as nat,
                old(self).size as nat,
                old(self).buf@[i as int],
            ),
    {
        let head = self.buf[i];
        if self.redacting == self.size || self.redacting == 0 {
            if head == REDACTED_BYTE {
                push_redaction_msg(out);
                self.redacting = self.size - 1;
            } else {
                out.push(head);
                self.redacting = self.size;
                proof {
                    assert(final(out)@ =~= old(out)@ + seq![head]);
                }
            }
        } else {
            self.redacting = self.redacting - 1;
            proof {
                assert(final(out)@ =~= old(out)@ + Seq::<u8>::empty());
            }
        }
    }

    /// Marks the window head: every secret whose bytes match the leading
    /// span of the (possibly already marked) window is overwritten with the
    /// sentinel.
    pub fn redact_head(&mut self)
        requires
            old(self).wf(),
        ensures
            final(self).wf(),
            final(self).buf@ == mark_head(old(self).buf@, old(self).secrets_view()),
            final(self).size == old(self).size,
            final(self).redacting == old(self).redacting,
            final(self).secrets == old(self).secrets,
    {
        let ghost buf0 = self.buf@;
        let ghost s0 = self.secrets;
        let ghost sv = views_of(self.secrets@);
        let n = self.secrets.len();
        for k in 0..n
            invariant
                self.wf(),
                n == self.secrets@.len(),
                self.buf@ == mark_head_upto(buf0, sv, k as int),
                self.size == old(self).size,
                self.redacting == old(self).redacting,
                self.secrets == s0,
                sv == views_of(self.secrets@),
        {
            let len = self.secrets[k].len();
            let ghost pre = self.buf@;
            if matches_at(&self.buf, &self.secrets[k], 0) {
                for i in 0..len
                    invariant
                        len <= self.buf@.len(),
                        self.buf@.len() == pre.len(),
                        forall|j: int| 0 <= j < i ==> self.buf@[j] == REDACTED_BYTE,
                        forall|j: int| i <= j < self.buf@.len() ==> self.buf@[j] == pre[j],
                        self.size == old(self).size,
                        self.redacting == old(self).redacting,
                        self.secrets == s0,
                {
                    self.buf.set(i, REDACTED_BYTE);
                }
                proof {
                    assert(self.buf@ =~= mark_span(pre, 0, len as int));
                }
            }
            proof {
                assert(self.buf@ == mark_head_upto(buf0, sv, k + 1));
            }
        }
    }

    /// Returns the earliest offset at which `needle` matches `hay`, if any.
    fn find_first(hay: &Vec<u8>, needle: &Vec<u8>) -> (r: Option<usize>)
        ensures
            match r {
                Some(i) => first_match_from(hay@, needle@, 0) == Some(i as int),
                None => first_match_from(hay@, needle@, 0) is None,
            },
    {
        let n = needle.len();
        let hay_len = hay.len();
        if n > hay_len {
            return None;
        }
        if n == 0 {
            proof {
                assert(hay@.subrange(0, 0) =~= needle@);
            }
            return Some(0);
        }
        let last = hay_len - n;
        let mut i: usize = 0;
        loop
            invariant
                n == needle@.len(),
                hay_len == hay@.len(),
                1 <= n <= hay_len,
                last == hay_len - n,
                i <= last + 1,
                first_match_from(hay@, needle@, 0) == first_match_from(hay@, needle@, i as int),
            decreases last + 1 - i,
        {
            if i > last {
                proof {
                    assert(first_match_from(hay@, needle@, i as int) is None);
                }
                return None;
            }
            if matches_at(hay, needle, i) {
                proof {
                    assert(first_match_from(hay@, needle@, i as int) == Some(i as int));
                }
                return Some(i);
            }
            proof {
                assert(first_match_from(hay@, needle@, i as int) == first_match_from(
                    hay@,
                    needle@,
                    i + 1,
                ));
            }
            i = i + 1;
        }
    }

    /// End-of-stream marking: for each secret in order, the earliest span of
    /// the current window that matches it is overwritten with the sentinel.
    pub fn redact_tail(&mut self)
        requires
            old(self).wf(),
        ensures
            final(self).wf(),
            final(self).buf@ == mark_tail(old(self).buf@, old(self).secrets_view()),
            final(self).size == old(self).size,
            final(self).redacting == old(self).redacting,
            final(self).secrets == old(self).secrets,
    {
        let ghost buf0 = self.buf@;
        let ghost s0 = self.secrets;
        let ghost sv = views_of(self.secrets@);
        let n = self.secrets.len();
        for k in 0..n
            invariant
                self.wf(),
                n == self.secrets@.len(),
                self.buf@ == mark_tail_upto(buf0, sv, k as int),
                self.size == old(self).size,
                self.redacting == old(self).redacting,
                self.secrets == s0,
                sv == views_of(self.secrets@),
        {
            let len = self.secrets[k].len();
            let ghost pre = self.buf@;
            if let Some(start) = Self::find_first(&self.buf, &self.secrets[k]) {
                proof {
                    lemma_first_match_some(pre, sv[k as int], 0, start as int);
                }
                let end = start + len;
                for i in start..end
                    invariant
                        start <= i <= end,
                        end <= self.buf@.len(),
                        self.buf@.len() == pre.len(),
                        forall|j: int| start <= j < i ==> self.buf@[j] == REDACTED_BYTE,
                        forall|j: int|
                            (0 <= j < start || i <= j < self.buf@.len()) ==> self.buf@[j] == pre[j],
                        self.size == old(self).size,
                        self.redacting == old(self).redacting,
                        self.secrets == s0,
                {
                    self.buf.set(i, REDACTED_BYTE);
                }
                proof {
                    assert(self.buf@ =~= mark_span(pre, start as int, len as int));
                }
            }
            proof {
                assert(self.buf@ == mark_tail_upto(buf0, sv, k + 1));
            }
        }
    }

    /// Emits the oldest window position, then either shifts the window down
    /// by one and appends the next input byte, or reports end of input.
    pub fn advance(&mut self, next: Option<u8>, out: &mut Vec<u8>) -> (more: bool)
        requires
            old(self).wf(),
        ensures
            final(self).wf(),
            final(self).size == old(self).size,
            final(self).secrets == old(self).secrets,
            final(out)@ == old(out)@ + emit_out(
                old(self).redacting as nat,
                old(self).size as nat,
                old(self).buf@[0],
            ),
            final(self).redacting as nat == emit_next(
                old(self).redacting as nat,
                old(self).size as nat,
                old(self).buf@[0],
            ),
            match next {
                Some(b) => more && final(self).buf@ == old(self).buf@.subrange(
                    1,
                    old(self).size as int,
                ).push(b),
                None => !more && final(self).buf@ == old(self).buf@,
            },
    {
        self.emit_byte(0, out);
        match next {
            Some(b) => {
                self.shift(b);
                true
            },
            None => false,
        }
    }

    /// Advances the window by one byte: every position moves down one index
    /// and the freshly read byte is appended at the top.
    pub fn shift(&mut self, b: u8)
        requires
            old(self).wf(),
        ensures
            final(self).wf(),
            final(self).size == old(self).size,
            final(self).secrets == old(self).secrets,
            final(self).redacting == old(self).redacting,
            final(self).buf@ == old(self).buf@.subrange(1, old(self).size as int).push(b),
    {
        let ghost pre = self.buf@;
        let ghost c1 = self.redacting;
        let ghost s0 = self.secrets;
        let size = self.size;
        for i in 0..size - 1
            invariant
                size == self.buf@.len(),
                size == pre.len(),
                1 <= size,
                i <= size - 1,
                forall|j: int| 0 <= j < i ==> self.buf@[j] == pre[j + 1],
                forall|j: int| i <= j < size ==> self.buf@[j] == pre[j],
                self.size == size,
                self.redacting == c1,
                self.secrets == s0,
        {
            let t = self.buf[i + 1];
            self.buf.set(i, t);
        }
        self.buf.set(size - 1, b);
        proof {
            assert(self.buf@ =~= pre.subrange(1, size as int).push(b));
        }
    }

    /// Flushes window positions `1 .. size` through the emission state
    /// machine, with no further marking.
    pub fn emit_tail(&mut self, out: &mut Vec<u8>)
        requires
            old(self).wf(),
        ensures
            final(self).wf(),
            final(self).buf == old(self).buf,
            final(self).size == old(self).size,
            final(self).secrets == old(self).secrets,
            final(out)@ == old(out)@ + run_tail(old(self).buf@, old(self).redacting as nat, 1),
    {
        let size = self.size;
        let ghost out0 = out@;
        let ghost b = self.buf@;
        let ghost c0 = self.redacting as nat;
        let ghost buf_v = self.buf;
        let ghost s0 = self.secrets;
        for i in 1..size
            invariant
                self.wf(),
                self.size == size,
                self.buf == buf_v,
                self.buf@ == b,
                b.len() == size,
                self.secrets == s0,
                1 <= i <= size,
                out0 + run_tail(b, c0, 1) == out@ + run_tail(b, self.redacting as nat, i as int),
        {
            let ghost c_pre = self.redacting as nat;
            let ghost out_pre = out@;
            self.emit_byte(i, out);
            proof {
                let ghost e = emit_out(c_pre, size as nat, b[i as int]);
                let ghost rt = run_tail(b, self.redacting as nat, i + 1);
                assert(run_tail(b, c_pre, i as int) == e + rt);
                assert(out_pre + (e + rt) =~= (out_pre + e) + rt);
            }
        }
        proof {
            assert(run_tail(b, self.redacting as nat, size as int) == Seq::<u8>::empty());
            assert(out@ + Seq::<u8>::empty() =~= out@);
        }
    }

    /// Runs the whole engine over `input`: fills the window with the first
    /// `size` bytes, then marks, emits and advances one byte at a time; at
    /// end of input the tail-marking pass runs and the window is flushed.
    pub fn scan(&mut self, input: &Vec<u8>, out: &mut Vec<u8>)
        requires
            old(self).wf(),
            old(self).redacting == old(self).size,
            old(self).size <= input@.len(),
        ensures
            final(self).wf(),
            final(self).size == old(self).size,
            final(self).secrets == old(self).secrets,
            final(out)@ == old(out)@ + run_steady(
                input@.take(old(self).size as int),
                old(self).size as nat,
                input@.skip(old(self).size as int),
                old(self).secrets_view(),
            ),
    {
        let size = self.size;
        let ghost s0 = self.secrets;
        let ghost sv = views_of(self.secrets@);
        let input_len = input.len();
        for i in 0..size
            invariant
                self.wf(),
                self.size == size,
                size <= input@.len(),
                i <= size,
                forall|j: int| 0 <= j < i ==> self.buf@[j] == input@[j],
                self.redacting == size,
                self.secrets == s0,
        {
            let byte = input[i];
            self.buf.set(i, byte);
        }
        proof {
            assert(self.buf@ =~= input@.take(size as int));
        }
        let mut pos: usize = size;
        let ghost out0 = out@;
        loop
            invariant_except_break
                out0 + run_steady(
                    input@.take(size as int),
                    size as nat,
                    input@.skip(size as int),
                    sv,
                ) == out@ + run_steady(
                    self.buf@,
                    self.redacting as nat,
                    input@.skip(pos as int),
                    sv,
                ),
            invariant
                self.wf(),
                self.size == size,
                self.secrets == s0,
                sv == views_of(self.secrets@),
                size <= pos <= input_len,
                input_len == input@.len(),
                self.redacting <= size,
            ensures
                self.wf(),
                self.size == size,
                self.secrets == s0,
                out@ == out0 + run_steady(
                    input@.take(size as int),
                    size as nat,
                    input@.skip(size as int),
                    sv,
                ),
            decreases input_len - pos,
        {
            let ghost buf_pre = self.buf@;
            let ghost c_pre = self.redacting as nat;
            let ghost out_pre = out@;
            let ghost rest = input@.skip(pos as int);
            self.redact_head();
            let ghost b1 = self.buf@;
            proof {
                assert(b1 == mark_head(buf_pre, sv));
            }
            if pos < input_len {
                let byte = input[pos];
                let _ = self.advance(Some(byte), out);
                pos = pos + 1;
                proof {
                    let e = emit_out(c_pre, size as nat, b1[0]);
                    let c1 = emit_next(c_pre, size as nat, b1[0]);
                    let rs = run_steady(
                        b1.subrange(1, size as int).push(rest[0]),
                        c1,
                        rest.drop_first(),
                        sv,
                    );
                    assert(rest[0] == input@[pos - 1]);
                    assert(run_steady(buf_pre, c_pre, rest, sv) == e + rs);
                    assert(out_pre + (e + rs) =~= (out_pre + e) + rs);
                    assert(rest.drop_first() =~= input@.skip(pos as int));
                }
            } else {
                let _ = self.advance(None, out);
                self.redact_tail();
                self.emit_tail(out);
                proof {
                    let e = emit_out(c_pre, size as nat, b1[0]);
                    let c1 = emit_next(c_pre, size as nat, b1[0]);
                    let rt = run_tail(mark_tail(b1, sv), c1, 1);
                    assert(rest.len() == 0);
                    assert(run_steady(buf_pre, c_pre, rest, sv) == e + rt);
                    assert(out_pre + (e + rt) =~= (out_pre + e) + rt);
                }
                break ;
            }
        }
    }
}

/// Returns a fresh vector holding the same bytes.
fn copy_bytes(v: &Vec<u8>) -> (r: Vec<u8>)
    ensures
        r@ == v@,
{
    let mut r: Vec<u8> = Vec::new();
    let n = v.len();
    for i in 0..n
        invariant
            n == v@.len(),
            r@ == v@.take(i as int),
    {
        r.push(v[i]);
        proof {
            assert(r@ =~= v@.take(i + 1));
        }
    }
    proof {
        assert(v@.take(n as int) =~= v@);
    }
    r
}

/// Sorts the secrets by descending byte length. The order among secrets of
/// equal length is left unspecified.
pub fn sort_secrets(secrets: &mut Vec<Secret>)
    ensures
        sorted_desc(views_of(final(secrets)@)),
        final(secrets)@.to_multiset() == old(secrets)@.to_multiset(),
        final(secrets)@.len() == old(secrets)@.len(),
{
    let ghost orig = secrets@;
    let mut sorted: Vec<Secret> = Vec::new();
    proof {
        broadcast use vstd::seq_lib::group_to_multiset_ensures;

        assert(sorted@.to_multiset().add(secrets@.to_multiset()) =~= orig.to_multiset());
    }
    while secrets.len() > 0
        invariant
            sorted@.to_multiset().add(secrets@.to_multiset()) == orig.to_multiset(),
            sorted@.len() + secrets@.len() == orig.len(),
            sorted_desc(views_of(sorted@)),
            forall|i: int, j: int|
                0 <= i < sorted@.len() && 0 <= j < secrets@.len() ==> (#[trigger] sorted@[i])@.len()
                    >= (#[trigger] secrets@[j])@.len(),
        decreases secrets@.len(),
    {
        let mut m: usize = 0;
        let mut k: usize = 1;
        while k < secrets.len()
            invariant
                m < k || (k <= 1 && m == 0),
                m < secrets@.len(),
                1 <= secrets@.len(),
                k <= secrets@.len(),
                forall|j: int| 0 <= j < k ==> (#[trigger] secrets@[j])@.len() <= secrets@[m as int]@.len(),
            decreases secrets@.len() - k,
        {
            if secrets[k].len() > secrets[m].len() {
                m = k;
            }
            k = k + 1;
        }
        let ghost pre_secrets = secrets@;
        let ghost pre_sorted = sorted@;
        let x = secrets.remove(m);
        sorted.push(x);
        proof {
            broadcast use vstd::seq_lib::group_to_multiset_ensures;

            assert(pre_secrets.contains(pre_secrets[m as int]));
            assert(secrets@.to_multiset() =~= pre_secrets.to_multiset().remove(x));
            assert(sorted@.to_multiset() =~= pre_sorted.to_multiset().insert(x));
            assert(sorted@.to_multiset().add(secrets@.to_multiset()) =~= pre_sorted.to_multiset().add(
                pre_secrets.to_multiset(),
            ));
            assert forall|i: int, j: int| 0 <= i <= j < sorted@.len() implies views_of(sorted@)[i].len()
                >= views_of(sorted@)[j].len() by {
                assert(views_of(sorted@)[i] == sorted@[i]@);
                assert(views_of(sorted@)[j] == sorted@[j]@);
                if j < pre_sorted.len() {
                    assert(views_of(pre_sorted)[i] == pre_sorted[i]@);
                    assert(views_of(pre_sorted)[j] == pre_sorted[j]@);
                    assert(views_of(pre_sorted)[i].len() >= views_of(pre_sorted)[j].len());
                } else if i < pre_sorted.len() {
                    assert(pre_sorted[i]@.len() >= pre_secrets[m as int]@.len());
                }
            }
            assert(sorted_desc(views_of(sorted@)));
        }
    }
    proof {
        broadcast use vstd::seq_lib::group_to_multiset_ensures;

        assert(sorted@.to_multiset().add(secrets@.to_multiset()) =~= sorted@.to_multiset());
    }
    *secrets = sorted;
}

/// For a non-empty descending-ordered secret set, the window size is the
/// length of the first secret.
proof fn lemma_max_of_empty(ss: Seq<Seq<u8>>)
    requires
        ss.len() == 0,
    ensures
        max_secret_len(ss) == 0,
{
}

proof fn lemma_max_of_sorted(ss: Seq<Seq<u8>>)
    requires
        sorted_desc(ss),
        ss.len() > 0,
    ensures
        max_secret_len(ss) == ss[0].len(),
    decreases ss.len(),
{
    if ss.len() == 1 {
        lemma_max_of_empty(ss.drop_first());
    }
    if ss.len() > 1 {
        assert forall|i: int, j: int|
            0 <= i <= j < ss.drop_first().len() implies ss.drop_first()[i].len()
            >= ss.drop_first()[j].len() by {
            assert(ss.drop_first()[i] == ss[i + 1]);
            assert(ss.drop_first()[j] == ss[j + 1]);
        }
        lemma_max_of_sorted(ss.drop_first());
        assert(ss.drop_first()[0] == ss[1]);
        assert(ss[0].len() >= ss[1].len());
    }
}

/// Pass-through mode: every input byte is copied to the output unchanged.
pub fn noop(input: &Vec<u8>) -> (out: Vec<u8>)
    ensures
        out@ == input@,
{
    copy_bytes(input)
}

/// A vector of `n` zero bytes.
fn zero_vec(n: usize) -> (r: Vec<u8>)
    ensures
        r@.len() == n,
{
    let mut r: Vec<u8> = Vec::new();
    for i in 0..n
        invariant
            r@.len() == i,
    {
        r.push(0);
    }
    r
}

/// Sorts the secrets by descending length and scans `input`. With no secret
/// configured (or none non-empty), or an input shorter than the window, the
/// input passes through unchanged; otherwise the engine marks and emits the
/// stream byte by byte.
pub fn scan(input: &Vec<u8>, secrets: &mut Vec<Secret>) -> (out: Vec<u8>)
    ensures
        sorted_desc(views_of(final(secrets)@)),
        final(secrets)@.to_multiset() == old(secrets)@.to_multiset(),
        final(secrets)@.len() == old(secrets)@.len(),
        out@ == scan_out(input@, views_of(final(secrets)@)),
        old(secrets)@.len() == 0 ==> out@ == input@,
{
    sort_secrets(secrets);
    if secrets.len() == 0 {
        return copy_bytes(input);
    }
    let ghost sv = views_of(secrets@);
    proof {
        lemma_max_of_sorted(sv);
        assert(sv[0] == secrets@[0]@);
    }
    let w = secrets[0].len();
    if w == 0 || input.len() < w {
        return copy_bytes(input);
    }
    let mut engine_secrets: Vec<Secret> = Vec::new();
    let n = secrets.len();
    for k in 0..n
        invariant
            n == secrets@.len(),
            engine_secrets@.len() == k,
            forall|j: int| 0 <= j < k ==> (#[trigger] engine_secrets@[j])@ == secrets@[j]@,
    {
        let s = copy_bytes(&secrets[k]);
        engine_secrets.push(s);
    }
    proof {
        assert(views_of(engine_secrets@) =~= sv);
        assert forall|k: int|
            0 <= k < engine_secrets@.len() implies (#[trigger] engine_secrets@[k])@.len() <= w by {
            assert(sv[k] == secrets@[k]@);
            assert(sv[k].len() <= sv[0].len());
        }
    }
    let buf = zero_vec(w);
    let mut engine = Redactor::new(buf, engine_secrets);
    let mut out: Vec<u8> = Vec::new();
    engine.scan(input, &mut out);
    proof {
        assert(engine.secrets_view() =~= sv);
        assert(Seq::<u8>::empty() + run_steady(
            input@.take(w as int),
            w as nat,
            input@.skip(w as int),
            sv,
        ) =~= run_steady(input@.take(w as int), w as nat, input@.skip(w as int), sv));
    }
    out
}

/// No configured non-empty secret occurs in `buf` as a contiguous run.
pub open spec fn clean_of(buf: Seq<u8>, secrets: Seq<Seq<u8>>) -> bool {
    forall|k: int|
        0 <= k < secrets.len() && secrets[k].len() > 0 ==> !occurs(buf, #[trigger] secrets[k])
}

/// No byte of `buf` is the reserved sentinel value.
pub open spec fn no_sentinel(buf: Seq<u8>) -> bool {
    forall|i: int| 0 <= i < buf.len() ==> buf[i] != REDACTED_BYTE
}

/// A run occurring in a contiguous part of `x` occurs in `x`.
proof fn lemma_occurs_in_subrange(x: Seq<u8>, a: int, b: int, s: Seq<u8>)
    requires
        0 <= a <= b <= x.len(),
        occurs(x.subrange(a, b), s),
    ensures
        occurs(x, s),
{
    let i = choose|i: int| match_at(x.subrange(a, b), s, i);
    assert(x.subrange(a + i, a + i + s.len() as int) =~= x.subrange(a, b).subrange(
        i,
        i + s.len() as int,
    ));
    assert(match_at(x, s, a + i));
}

/// Cleanliness and absence of the sentinel pass to contiguous parts.
proof fn lemma_clean_subrange(x: Seq<u8>, a: int, b: int, secrets: Seq<Seq<u8>>)
    requires
        0 <= a <= b <= x.len(),
        clean_of(x, secrets),
        no_sentinel(x),
    ensures
        clean_of(x.subrange(a, b), secrets),
        no_sentinel(x.subrange(a, b)),
{
    assert forall|k: int|
        0 <= k < secrets.len() && secrets[k].len() > 0 implies !occurs(
        x.subrange(a, b),
        #[trigger] secrets[k],
    ) by {
        if occurs(x.subrange(a, b), secrets[k]) {
            lemma_occurs_in_subrange(x, a, b, secrets[k]);
        }
    }
}

/// Head marking leaves a window untouched when no non-empty secret occurs in
/// it (empty secrets always match but mark an empty span).
proof fn lemma_mark_head_upto_clean(buf: Seq<u8>, secrets: Seq<Seq<u8>>, k: int)
    requires
        clean_of(buf, secrets),
        0 <= k <= secrets.len(),
    ensures
        mark_head_upto(buf, secrets, k) == buf,
    decreases k,
{
    if k > 0 {
        lemma_mark_head_upto_clean(buf, secrets, k - 1);
        let s = secrets[k - 1];
        if s.len() == 0 {
            assert(mark_span(buf, 0, 0) =~= buf);
        } else {
            assert(!occurs(buf, s));
            assert(!match_at(buf, s, 0));
        }
    }
}

/// A non-empty secret that occurs nowhere in the window is never found.
proof fn lemma_first_match_none(buf: Seq<u8>, s: Seq<u8>, i: int)
    requires
        s.len() > 0,
        !occurs(buf, s),
    ensures
        first_match_from(buf, s, i) is None,
    decreases buf.len() - s.len() - i + 1,
{
    if i < 0 || i + s.len() > buf.len() {
    } else {
        assert(!match_at(buf, s, i));
        lemma_first_match_none(buf, s, i + 1);
    }
}

/// Tail marking leaves a window untouched when no non-empty secret occurs in it.
proof fn lemma_mark_tail_upto_clean(buf: Seq<u8>, secrets: Seq<Seq<u8>>, k: int)
    requires
        clean_of(buf, secrets),
        0 <= k <= secrets.len(),
    ensures
        mark_tail_upto(buf, secrets, k) == buf,
    decreases k,
{
    if k > 0 {
        lemma_mark_tail_upto_clean(buf, secrets, k - 1);
        let s = secrets[k - 1];
        if s.len() == 0 {
            assert(buf.subrange(0, 0) =~= s);
            assert(match_at(buf, s, 0));
            assert(first_match_from(buf, s, 0) == Some(0int));
            assert(mark_span(buf, 0, 0) =~= buf);
        } else {
            assert(!occurs(buf, s));
            lemma_first_match_none(buf, s, 0);
        }
    }
}

/// Flushing a sentinel-free window in pass-through emits it unchanged.
proof fn lemma_run_tail_clean(buf: Seq<u8>, i: int)
    requires
        no_sentinel(buf),
        0 <= i <= buf.len(),
    ensures
        run_tail(buf, buf.len(), i) == buf.skip(i),
    decreases buf.len() - i,
{
    if i >= buf.len() {
        assert(buf.skip(i) =~= Seq::<u8>::empty());
    } else {
        lemma_run_tail_clean(buf, i + 1);
        assert(seq![buf[i]] + buf.skip(i + 1) =~= buf.skip(i));
    }
}

/// A clean, sentinel-free stream runs through the engine unchanged.
proof fn lemma_run_steady_clean(buf: Seq<u8>, rest: Seq<u8>, secrets: Seq<Seq<u8>>)
    requires
        buf.len() >= 1,
        clean_of(buf + rest, secrets),
        no_sentinel(buf + rest),
    ensures
        run_steady(buf, buf.len(), rest, secrets) == buf + rest,
    decreases rest.len(),
{
    let w = buf.len();
    let stream = buf + rest;
    assert(buf =~= stream.subrange(0, w as int));
    lemma_clean_subrange(stream, 0, w as int, secrets);
    lemma_mark_head_upto_clean(buf, secrets, secrets.len() as int);
    assert(buf[0] == stream[0]);
    assert(buf[0] != REDACTED_BYTE);
    if rest.len() == 0 {
        lemma_mark_tail_upto_clean(buf, secrets, secrets.len() as int);
        lemma_run_tail_clean(buf, 1);
        assert(seq![buf[0]] + buf.skip(1) =~= buf + rest);
    } else {
        let buf2 = buf.subrange(1, w as int).push(rest[0]);
        let rest2 = rest.drop_first();
        assert(buf2 + rest2 =~= stream.subrange(1, stream.len() as int));
        lemma_clean_subrange(stream, 1, stream.len() as int, secrets);
        assert(clean_of(buf2 + rest2, secrets));
        assert(no_sentinel(buf2 + rest2));
        lemma_run_steady_clean(buf2, rest2, secrets);
        assert(seq![buf[0]] + (buf2 + rest2) =~= buf + rest);
    }
}

/// No-secret invariant: an input in which no configured non-empty secret
/// occurs as a contiguous byte run, and which contains no sentinel byte,
/// passes through a scan byte-for-byte unchanged.
pub proof fn lemma_no_secret_passthrough(input: Seq<u8>, secrets: Seq<Seq<u8>>)
    requires
        clean_of(input, secrets),
        no_sentinel(input),
    ensures
        scan_out(input, secrets) == input,
{
    let w = max_secret_len(secrets);
    if !(w == 0 || input.len() < w) {
        assert(input.take(w as int) + input.skip(w as int) =~= input);
        lemma_run_steady_clean(input.take(w as int), input.skip(w as int), secrets);
    }
}

/// Idempotence of re-scan: a scan output that contains no configured
/// non-empty secret and no sentinel byte is left unchanged by a second scan
/// with the same secret set.
pub proof fn lemma_rescan_noop(input: Seq<u8>, secrets: Seq<Seq<u8>>)
    requires
        clean_of(scan_out(input, secrets), secrets),
        no_sentinel(scan_out(input, secrets)),
    ensures
        scan_out(scan_out(input, secrets), secrets) == scan_out(input, secrets),
{
    lemma_no_secret_passthrough(scan_out(input, secrets), secrets);
}

/// One for a step that emits the redaction marker, zero otherwise.
pub open spec fn emit_marks(c: nat, w: nat, byte: u8) -> nat {
    if is_passthrough(c, w) && byte == REDACTED_BYTE {
        1nat
    } else {
        0
    }
}

/// One for a step that suppresses its byte, zero otherwise.
pub open spec fn emit_drops(c: nat, w: nat, byte: u8) -> nat {
    if is_passthrough(c, w) {
        0
    } else {
        1nat
    }
}

/// Redaction events among the flushed window positions `i ..`.
pub open spec fn run_tail_marks(buf: Seq<u8>, c: nat, i: int) -> nat
    decreases buf.len() - i,
{
    if i < 0 || i >= buf.len() {
        0
    } else {
        emit_marks(c, buf.len(), buf[i]) + run_tail_marks(
            buf,
            emit_next(c, buf.len(), buf[i]),
            i + 1,
        )
    }
}

/// Suppressed bytes among the flushed window positions `i ..`.
pub open spec fn run_tail_drops(buf: Seq<u8>, c: nat, i: int) -> nat
    decreases buf.len() - i,
{
    if i < 0 || i >= buf.len() {
        0
    } else {
        emit_drops(c, buf.len(), buf[i]) + run_tail_drops(
            buf,
            emit_next(c, buf.len(), buf[i]),
            i + 1,
        )
    }
}

/// Redaction events over a whole engine run.
pub open spec fn run_steady_marks(buf: Seq<u8>, c: nat, rest: Seq<u8>, secrets: Seq<Seq<u8>>) -> nat
    decreases rest.len(),
{
    let w = buf.len();
    let b = mark_head(buf, secrets);
    let m = emit_marks(c, w, b[0]);
    let c1 = emit_next(c, w, b[0]);
    if rest.len() == 0 {
        m + run_tail_marks(mark_tail(b, secrets), c1, 1)
    } else {
        m + run_steady_marks(b.subrange(1, w as int).push(rest[0]), c1, rest.drop_first(), secrets)
    }
}

/// Suppressed bytes over a whole engine run.
pub open spec fn run_steady_drops(buf: Seq<u8>, c: nat, rest: Seq<u8>, secrets: Seq<Seq<u8>>) -> nat
    decreases rest.len(),
{
    let w = buf.len();
    let b = mark_head(buf, secrets);
    let d = emit_drops(c, w, b[0]);
    let c1 = emit_next(c, w, b[0]);
    if rest.len() == 0 {
        d + run_tail_drops(mark_tail(b, secrets), c1, 1)
    } else {
        d + run_steady_drops(b.subrange(1, w as int).push(rest[0]), c1, rest.drop_first(), secrets)
    }
}

/// Redaction events of one scan: each emission of the marker literal.
pub open spec fn scan_marks(input: Seq<u8>, secrets: Seq<Seq<u8>>) -> nat {
    let w = max_secret_len(secrets);
    if w == 0 || input.len() < w {
        0
    } else {
        run_steady_marks(input.take(w as int), w, input.skip(w as int), secrets)
    }
}

/// Suppressed bytes of one scan: input bytes consumed without any emission.
pub open spec fn scan_drops(input: Seq<u8>, secrets: Seq<Seq<u8>>) -> nat {
    let w = max_secret_len(secrets);
    if w == 0 || input.len() < w {
        0
    } else {
        run_steady_drops(input.take(w as int), w, input.skip(w as int), secrets)
    }
}

/// Marking never changes the window length.
proof fn lemma_mark_head_len(buf: Seq<u8>, secrets: Seq<Seq<u8>>, k: int)
    ensures
        mark_head_upto(buf, secrets, k).len() == buf.len(),
    decreases k,
{
    if k > 0 {
        lemma_mark_head_len(buf, secrets, k - 1);
    }
}

/// Tail marking never changes the window length.
proof fn lemma_mark_tail_len(buf: Seq<u8>, secrets: Seq<Seq<u8>>, k: int)
    ensures
        mark_tail_upto(buf, secrets, k).len() == buf.len(),
    decreases k,
{
    if k > 0 {
        lemma_mark_tail_len(buf, secrets, k - 1);
    }
}

proof fn lemma_run_tail_length(buf: Seq<u8>, c: nat, i: int)
    requires
        0 <= i <= buf.len(),
    ensures
        run_tail(buf, c, i).len() + run_tail_drops(buf, c, i) == buf.len() - i + 7
            * run_tail_marks(buf, c, i),
    decreases buf.len() - i,
{
    if i < buf.len() {
        lemma_run_tail_length(buf, emit_next(c, buf.len(), buf[i]), i + 1);
    }
}

proof fn lemma_run_steady_length(buf: Seq<u8>, c: nat, rest: Seq<u8>, secrets: Seq<Seq<u8>>)
    requires
        buf.len() >= 1,
    ensures
        run_steady(buf, c, rest, secrets).len() + run_steady_drops(buf, c, rest, secrets)
            == buf.len() + rest.len() + 7 * run_steady_marks(buf, c, rest, secrets),
    decreases rest.len(),
{
    let w = buf.len();
    let b = mark_head(buf, secrets);
    let c1 = emit_next(c, w, b[0]);
    lemma_mark_head_len(buf, secrets, secrets.len() as int);
    if rest.len() == 0 {
        lemma_mark_tail_len(b, secrets, secrets.len() as int);
        lemma_run_tail_length(mark_tail(b, secrets), c1, 1);
    } else {
        lemma_run_steady_length(b.subrange(1, w as int).push(rest[0]), c1, rest.drop_first(), secrets);
    }
}

/// Length relationship: every input byte is classified exactly once, so the
/// output length is the input length, minus the total bytes of the redacted
/// spans (each span being the byte that triggered its marker plus the bytes
/// suppressed after it), plus the fixed marker length for each redaction
/// event.
pub proof fn lemma_scan_length(input: Seq<u8>, secrets: Seq<Seq<u8>>)
    ensures
        scan_out(input, secrets).len() + scan_marks(input, secrets) + scan_drops(input, secrets)
            == input.len() + scan_marks(input, secrets) * redaction_msg().len(),
{
    let w = max_secret_len(secrets);
    assert(redaction_msg().len() == 8);
    if !(w == 0 || input.len() < w) {
        lemma_run_steady_length(input.take(w as int), w, input.skip(w as int), secrets);
        assert(input.take(w as int).len() + input.skip(w as int).len() == input.len());
        assert(scan_marks(input, secrets) * 8 == scan_marks(input, secrets) + 7 * scan_marks(
            input,
            secrets,
        ));
    }
}

} // verus!
