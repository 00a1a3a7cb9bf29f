//! The frame codec of the language-server wire format.
//!
//! A frame is a header line `Content-Length: <n>`, a separator line, and then
//! exactly `n` bytes of payload:
//!
//! ```text
//! Content-Length: 42\r\n
//! \r\n
//! {"jsonrpc":"2.0", ...}
//! ```
//!
//! Reading is lenient: a line that is not a length header is noise and is
//! passed over, as is a header whose length is zero or does not parse.
use vstd::arithmetic::div_mod::lemma_fundamental_div_mod;
use vstd::prelude::*;

use std::vec::Vec;

verus! {

pub const LF: u8 = 0x0a;

pub const CR: u8 = 0x0d;

pub const TAB: u8 = 0x09;

pub const SPACE: u8 = 0x20;

pub const PLUS: u8 = 0x2b;

pub const ZERO: u8 = 0x30;

pub const NINE: u8 = 0x39;

/// `Content-Length:` in ASCII.
pub open spec fn length_prefix() -> Seq<u8> {
    seq![67u8, 111u8, 110u8, 116u8, 101u8, 110u8, 116u8, 45u8, 76u8, 101u8, 110u8, 103u8, 116u8, 104u8, 58u8]
}

pub open spec fn digit_byte(d: nat) -> u8 {
    (ZERO + d) as u8
}

pub open spec fn is_digit(c: u8) -> bool {
    ZERO <= c <= NINE
}

/// The decimal digits of `n`, most significant first, without leading zeros.
pub open spec fn decimal(n: nat) -> Seq<u8>
    decreases n,
{
    if n < 10 {
        seq![digit_byte(n)]
    } else {
        decimal(n / 10).push(digit_byte(n % 10))
    }
}

/// The number that a string of decimal digits stands for.
pub open spec fn digits_value(s: Seq<u8>) -> nat
    decreases s.len(),
{
    if s.len() == 0 {
        0
    } else {
        digits_value(s.drop_last()) * 10 + (s.last() - ZERO) as nat
    }
}

pub open spec fn all_digits(s: Seq<u8>) -> bool {
    forall|i: int| 0 <= i < s.len() ==> is_digit(#[trigger] s[i])
}

/// The header of a frame whose payload is `n` bytes long.
pub open spec fn header_bytes(n: nat) -> Seq<u8> {
    length_prefix() + seq![SPACE] + decimal(n) + seq![CR, LF, CR, LF]
}

/// The bytes of the frame that carries `payload`.
pub open spec fn frame_bytes(payload: Seq<u8>) -> Seq<u8> {
    header_bytes(payload.len()) + payload
}

pub open spec fn is_space(c: u8) -> bool {
    c == SPACE || c == TAB || c == LF || c == 0x0bu8 || c == 0x0cu8 || c == CR
}

pub open spec fn trim_start(s: Seq<u8>) -> Seq<u8>
    decreases s.len(),
{
    if s.len() > 0 && is_space(s[0]) {
        trim_start(s.drop_first())
    } else {
        s
    }
}

pub open spec fn trim_end(s: Seq<u8>) -> Seq<u8>
    decreases s.len(),
{
    if s.len() > 0 && is_space(s.last()) {
        trim_end(s.drop_last())
    } else {
        s
    }
}

pub open spec fn is_length_header(line: Seq<u8>) -> bool {
    line.len() >= length_prefix().len() && line.subrange(0, length_prefix().len() as int)
        == length_prefix()
}

/// The length that a header line declares: the text after the prefix, with
/// white space trimmed, read as an unsigned number (a leading `+` allowed);
/// zero where it is no such number or does not fit in `usize`.
pub open spec fn declared_length(line: Seq<u8>) -> nat {
    let text = trim_end(trim_start(line.subrange(length_prefix().len() as int, line.len() as int)));
    let digits = if text.len() > 0 && text[0] == PLUS {
        text.drop_first()
    } else {
        text
    };
    if digits.len() > 0 && all_digits(digits) && digits_value(digits) <= usize::MAX {
        digits_value(digits)
    } else {
        0
    }
}

/// The position of the first line feed at or after `from`, or -1.
pub open spec fn find_newline(b: Seq<u8>, from: int) -> int
    decreases b.len() - from,
{
    if from < 0 || from >= b.len() {
        -1
    } else if b[from] == LF {
        from
    } else {
        find_newline(b, from + 1)
    }
}

/// What the start of a receive buffer holds.
#[derive(Debug, Clone, PartialEq, Eq)]
pub enum FrameStep {
    /// More bytes are needed before anything can be decided.
    Incomplete,
    /// The first `n` bytes are a line that is not a frame header: pass over them.
    Skip(usize),
    /// A whole frame: its payload is `len` bytes from `start`.
    Frame { start: usize, len: usize },
}

pub open spec fn frame_step(b: Seq<u8>) -> FrameStep {
    let i = find_newline(b, 0);
    if i < 0 {
        FrameStep::Incomplete
    } else {
        let line = b.subrange(0, i + 1);
        let n = declared_length(line);
        if !is_length_header(line) || n == 0 {
            FrameStep::Skip((i + 1) as usize)
        } else {
            let j = find_newline(b, i + 1);
            if j < 0 || b.len() < j + 1 + n {
                FrameStep::Incomplete
            } else {
                FrameStep::Frame { start: (j + 1) as usize, len: n as usize }
            }
        }
    }
}

proof fn lemma_decimal_digits(n: nat)
    ensures
        decimal(n).len() > 0,
        all_digits(decimal(n)),
        digits_value(decimal(n)) == n,
        decimal(n)[0] != PLUS,
    decreases n,
{
    assert(digit_byte(n % 10) as int == ZERO + n % 10);
    if n < 10 {
        assert(decimal(n).drop_last() =~= Seq::<u8>::empty());
    } else {
        lemma_decimal_digits(n / 10);
        let d = decimal(n / 10);
        let s = d.push(digit_byte(n % 10));
        assert(s.drop_last() =~= d);
        assert(s[0] == d[0]);
        assert forall|i: int| 0 <= i < s.len() implies is_digit(#[trigger] s[i]) by {
            if i < d.len() {
                assert(s[i] == d[i]);
            }
        }
        lemma_fundamental_div_mod(n as int, 10);
        assert(s.last() == digit_byte(n % 10));
        assert(digits_value(s) == digits_value(d) * 10 + (n % 10));
        assert(digits_value(s) == n);
    }
    if n < 10 {
        let s = decimal(n);
        assert(s.last() == digit_byte(n));
        assert(digits_value(s) == digits_value(s.drop_last()) * 10 + n);
    }
}

proof fn lemma_digits_value_grows(s: Seq<u8>, k: int)
    requires
        0 <= k <= s.len(),
        all_digits(s),
    ensures
        digits_value(s.subrange(0, k)) <= digits_value(s),
    decreases s.len() - k,
{
    if k < s.len() {
        lemma_digits_value_grows(s, k + 1);
        assert(s.subrange(0, k + 1).drop_last() =~= s.subrange(0, k));
    } else {
        assert(s.subrange(0, k) =~= s);
    }
}

proof fn lemma_find_newline_skips(b: Seq<u8>, from: int, i: int)
    requires
        0 <= from <= i < b.len(),
        b[i] == LF,
        forall|k: int| from <= k < i ==> b[k] != LF,
    ensures
        find_newline(b, from) == i,
    decreases i - from,
{
    if from < i {
        lemma_find_newline_skips(b, from + 1, i);
    }
}

proof fn lemma_trim_digits(d: Seq<u8>)
    requires
        all_digits(d),
        d.len() > 0,
    ensures
        trim_end(trim_start(seq![SPACE] + d + seq![CR, LF])) == d,
{
    let s = seq![SPACE] + d + seq![CR, LF];
    assert(s.drop_first() =~= d + seq![CR, LF]);
    assert(is_digit(d[0]));
    let t = d + seq![CR, LF];
    assert(trim_start(s) == trim_start(t));
    assert(trim_start(t) == t);
    assert(t.drop_last() =~= d.push(CR));
    assert(trim_end(t) == trim_end(d.push(CR)));
    assert(d.push(CR).drop_last() =~= d);
    assert(trim_end(d.push(CR)) == trim_end(d));
    assert(is_digit(d.last()));
    assert(trim_end(d) == d);
}

/// A frame that carries a non-empty payload decodes to that same payload and
/// declares its exact length.
pub proof fn lemma_frame_round_trip(payload: Seq<u8>)
    requires
        0 < payload.len(),
        frame_bytes(payload).len() <= usize::MAX,
    ensures
        frame_step(frame_bytes(payload)) == (FrameStep::Frame {
            start: header_bytes(payload.len()).len() as usize,
            len: payload.len() as usize,
        }),
        frame_bytes(payload).subrange(
            header_bytes(payload.len()).len() as int,
            frame_bytes(payload).len() as int,
        ) == payload,
        take_payload(frame_bytes(payload)) == (Some(payload), Seq::<u8>::empty()),
{
    let n: nat = payload.len();
    let d = decimal(n);
    lemma_decimal_digits(n);
    let b = frame_bytes(payload);
    let p = length_prefix();
    let h = header_bytes(n);
    let i: int = (p.len() + 1 + d.len() + 1) as int;
    assert(h.len() == i + 3);
    assert forall|k: int| 0 <= k < i implies b[k] != LF by {
        if k < p.len() {
            assert(b[k] == p[k]);
        } else if k == p.len() {
            assert(b[k] == SPACE);
        } else if k < i - 1 {
            assert(b[k] == d[k - p.len() - 1]);
            assert(is_digit(d[k - p.len() - 1]));
        } else {
            assert(b[k] == CR);
        }
    }
    assert(b[i] == LF);
    lemma_find_newline_skips(b, 0, i);
    assert(b[i + 2] == LF);
    assert(b[i + 1] == CR);
    lemma_find_newline_skips(b, i + 1, i + 2);
    let line = b.subrange(0, i + 1);
    assert(line.subrange(0, p.len() as int) =~= p);
    assert(line.subrange(p.len() as int, line.len() as int) =~= seq![SPACE] + d + seq![CR, LF]);
    lemma_trim_digits(d);
    assert(declared_length(line) == n);
    assert(b.subrange(h.len() as int, b.len() as int) =~= payload);
    assert(frame_step(b) == (FrameStep::Frame { start: h.len() as usize, len: n as usize }));
    assert(b.subrange(b.len() as int, b.len() as int) =~= Seq::<u8>::empty());
}

proof fn lemma_find_newline_range(b: Seq<u8>, from: int)
    requires
        0 <= from,
    ensures
        find_newline(b, from) == -1 || (from <= find_newline(b, from) < b.len()
            && b[find_newline(b, from)] == LF),
    decreases b.len() - from,
{
    if from < b.len() && b[from] != LF {
        lemma_find_newline_range(b, from + 1);
    }
}

proof fn lemma_frame_step_bounds(b: Seq<u8>)
    requires
        b.len() <= usize::MAX,
    ensures
        match frame_step(b) {
            FrameStep::Skip(n) => 0 < n <= b.len(),
            FrameStep::Frame { start, len } => start + len <= b.len(),
            FrameStep::Incomplete => true,
        },
{
    lemma_find_newline_range(b, 0);
    let i = find_newline(b, 0);
    if i >= 0 {
        lemma_find_newline_range(b, i + 1);
    }
}

/// Appends the decimal digits of `n`.
pub(crate) fn push_decimal(out: &mut Vec<u8>, n: u64)
    ensures
        final(out)@ == old(out)@ + decimal(n as nat),
    decreases n,
{
    if n >= 10 {
        push_decimal(out, n / 10);
    }
    let d = (n % 10) as u8;
    out.push(ZERO + d);
    proof {
        if n >= 10 {
            assert(old(out)@ + decimal(n as nat) =~= old(out)@ + decimal((n / 10) as nat) + seq![digit_byte((n % 10) as nat)]);
        } else {
            assert(old(out)@ + decimal(n as nat) =~= old(out)@ + seq![digit_byte((n % 10) as nat)]);
        }
    }
}

/// Wraps `payload` in a frame: the length header, the separator line, then
/// the payload bytes.
pub fn encode_frame(payload: &[u8]) -> (r: Vec<u8>)
    ensures
        r@ == frame_bytes(payload@),
{
    let mut out: Vec<u8> = vec![67u8, 111u8, 110u8, 116u8, 101u8, 110u8, 116u8, 45u8, 76u8, 101u8, 110u8, 103u8, 116u8, 104u8, 58u8, SPACE];
    push_decimal(&mut out, payload.len() as u64);
    out.push(CR);
    out.push(LF);
    out.push(CR);
    out.push(LF);
    let ghost head = out@;
    assert(head =~= header_bytes(payload@.len()));
    let mut i: usize = 0;
    while i < payload.len()
        invariant
            i <= payload@.len(),
            out@ =~= head + payload@.subrange(0, i as int),
        decreases payload@.len() - i,
    {
        out.push(payload[i]);
        i = i + 1;
    }
    assert(payload@.subrange(0, payload@.len() as int) =~= payload@);
    out
}

/// What taking one payload from the front of a receive buffer yields: the
/// payload of the first frame, once it is whole, and what is left after it.
/// Lines that are not frame headers are passed over on the way.
pub open spec fn take_payload(b: Seq<u8>) -> (Option<Seq<u8>>, Seq<u8>)
    decreases b.len(),
{
    match frame_step(b) {
        FrameStep::Incomplete => (None, b),
        FrameStep::Skip(n) => if 0 < n <= b.len() {
            take_payload(b.subrange(n as int, b.len() as int))
        } else {
            (None, b)
        },
        FrameStep::Frame { start, len } => (
            Some(b.subrange(start as int, start + len)),
            b.subrange(start + len, b.len() as int),
        ),
    }
}

fn find_newline_from(b: &[u8], from: usize) -> (r: Option<usize>)
    ensures
        match r {
            Some(i) => find_newline(b@, from as int) == i && i < b@.len(),
            None => find_newline(b@, from as int) == -1,
        },
{
    let mut k = from;
    while k < b.len()
        invariant
            from <= k,
            find_newline(b@, from as int) == find_newline(b@, k as int),
        decreases b@.len() - k,
    {
        if b[k] == LF {
            return Some(k);
        }
        k = k + 1;
    }
    None
}

fn starts_with_length_prefix(line: &[u8]) -> (r: bool)
    ensures
        r == is_length_header(line@),
{
    let prefix: Vec<u8> = vec![67u8, 111u8, 110u8, 116u8, 101u8, 110u8, 116u8, 45u8, 76u8, 101u8, 110u8, 103u8, 116u8, 104u8, 58u8];
    assert(prefix@ =~= length_prefix());
    if line.len() < prefix.len() {
        return false;
    }
    let mut k: usize = 0;
    while k < prefix.len()
        invariant
            prefix@ == length_prefix(),
            line@.len() >= prefix@.len(),
            k <= prefix@.len(),
            line@.subrange(0, k as int) =~= prefix@.subrange(0, k as int),
        decreases prefix@.len() - k,
    {
        if line[k] != prefix[k] {
            assert(line@.subrange(0, prefix@.len() as int)[k as int] != prefix@[k as int]);
            return false;
        }
        k = k + 1;
    }
    assert(prefix@.subrange(0, prefix@.len() as int) =~= prefix@);
    true
}

fn is_space_byte(c: u8) -> (r: bool)
    ensures
        r == is_space(c),
{
    c == SPACE || c == TAB || c == LF || c == 0x0bu8 || c == 0x0cu8 || c == CR
}

/// The length that a header line declares, as [`declared_length`] reads it.
fn parse_declared_length(line: &[u8]) -> (r: usize)
    requires
        line@.len() >= length_prefix().len(),
    ensures
        r == declared_length(line@),
{
    assert(length_prefix().len() == 15);
    let ghost rest = line@.subrange(length_prefix().len() as int, line@.len() as int);
    let mut lo: usize = 15;
    let mut hi: usize = line.len();
    while lo < hi && is_space_byte(line[lo])
        invariant
            15 <= lo <= hi == line@.len(),
            trim_start(rest) == trim_start(line@.subrange(lo as int, hi as int)),
        decreases hi - lo,
    {
        assert(line@.subrange(lo as int, hi as int).drop_first() =~= line@.subrange(lo + 1, hi as int));
        lo = lo + 1;
    }
    assert(trim_start(line@.subrange(lo as int, hi as int)) == line@.subrange(lo as int, hi as int));
    while lo < hi && is_space_byte(line[hi - 1])
        invariant
            15 <= lo <= hi <= line@.len(),
            trim_end(trim_start(rest)) == trim_end(line@.subrange(lo as int, hi as int)),
        decreases hi - lo,
    {
        assert(line@.subrange(lo as int, hi as int).drop_last() =~= line@.subrange(lo as int, hi - 1));
        hi = hi - 1;
    }
    let ghost text = line@.subrange(lo as int, hi as int);
    assert(trim_end(text) == text);
    assert(trim_end(trim_start(rest)) == text);
    if lo < hi && line[lo] == PLUS {
        assert(text.drop_first() =~= line@.subrange(lo + 1, hi as int));
        lo = lo + 1;
    }
    let ghost digits = line@.subrange(lo as int, hi as int);
    assert(digits == (if text.len() > 0 && text[0] == PLUS {
        text.drop_first()
    } else {
        text
    }));
    if lo == hi {
        return 0;
    }
    assert(declared_length(line@) == (if digits.len() > 0 && all_digits(digits) && digits_value(digits)
        <= usize::MAX {
        digits_value(digits)
    } else {
        0
    }));
    let start = lo;
    let mut value: usize = 0;
    let mut k = lo;
    while k < hi
        invariant
            start <= k <= hi <= line@.len(),
            digits == line@.subrange(start as int, hi as int),
            digits.len() > 0,
            declared_length(line@) == (if all_digits(digits) && digits_value(digits) <= usize::MAX {
                digits_value(digits)
            } else {
                0
            }),
            all_digits(line@.subrange(start as int, k as int)),
            value == digits_value(line@.subrange(start as int, k as int)),
        decreases hi - k,
    {
        let c = line[k];
        let ghost prefix = line@.subrange(start as int, k + 1);
        assert(prefix.drop_last() =~= line@.subrange(start as int, k as int));
        if c < ZERO || c > NINE {
            assert(digits[k - start] == c);
            assert(!is_digit(digits[k - start]));
            assert(!all_digits(digits));
            assert(declared_length(line@) == 0);
            return 0;
        }
        assert(all_digits(prefix)) by {
            assert forall|i: int| 0 <= i < prefix.len() implies is_digit(#[trigger] prefix[i]) by {
                if i < prefix.len() - 1 {
                    assert(prefix[i] == line@.subrange(start as int, k as int)[i]);
                }
            }
        }
        let next = match value.checked_mul(10) {
            Some(v) => v.checked_add((c - ZERO) as usize),
            None => None,
        };
        match next {
            Some(v) => {
                value = v;
            },
            None => {
                proof {
                    assert(prefix.last() == c);
                    assert(digits_value(prefix) == value * 10 + (c - ZERO));
                    if all_digits(digits) {
                        assert(prefix =~= digits.subrange(0, k + 1 - start));
                        lemma_digits_value_grows(digits, k + 1 - start);
                        assert(digits_value(digits) > usize::MAX);
                    }
                    assert(declared_length(line@) == 0);
                }
                return 0;
            },
        }
        k = k + 1;
    }
    assert(line@.subrange(start as int, k as int) == digits);
    value
}

/// Looks at the start of a receive buffer: a whole frame, a line to pass
/// over, or not enough bytes yet.
pub fn next_frame(buf: &[u8]) -> (r: FrameStep)
    ensures
        r == frame_step(buf@),
{
    let i = match find_newline_from(buf, 0) {
        None => {
            return FrameStep::Incomplete;
        },
        Some(i) => i,
    };
    let len = buf.len();
    assert(i < len);
    let line = &buf[0..i + 1];
    if !starts_with_length_prefix(line) {
        return FrameStep::Skip(i + 1);
    }
    let n = parse_declared_length(line);
    if n == 0 {
        return FrameStep::Skip(i + 1);
    }
    let j = match find_newline_from(buf, i + 1) {
        None => {
            return FrameStep::Incomplete;
        },
        Some(j) => j,
    };
    if buf.len() - (j + 1) < n {
        return FrameStep::Incomplete;
    }
    FrameStep::Frame { start: j + 1, len: n }
}

/// Collects the bytes received so far and takes whole payloads off its front.
pub struct FrameDecoder {
    buffer: Vec<u8>,
}

impl View for FrameDecoder {
    type V = Seq<u8>;

    closed spec fn view(&self) -> Seq<u8> {
        self.buffer@
    }
}

impl FrameDecoder {
    pub fn new() -> (d: Self)
        ensures
            d@ == Seq::<u8>::empty(),
    {
        FrameDecoder { buffer: Vec::new() }
    }

    /// Appends received bytes.
    pub fn push_bytes(&mut self, bytes: &[u8])
        ensures
            final(self)@ == old(self)@ + bytes@,
    {
        let mut k: usize = 0;
        while k < bytes.len()
            invariant
                k <= bytes@.len(),
                self@ == old(self)@ + bytes@.subrange(0, k as int),
            decreases bytes@.len() - k,
        {
            self.buffer.push(bytes[k]);
            k = k + 1;
            assert(self@ =~= old(self)@ + bytes@.subrange(0, k as int));
        }
        assert(bytes@.subrange(0, bytes@.len() as int) =~= bytes@);
    }

    /// Takes the payload of the first whole frame, passing over noise before
    /// it; `None` until a whole frame has arrived.
    pub fn next_payload(&mut self) -> (r: Option<Vec<u8>>)
        ensures
            (match r {
                Some(p) => Some(p@),
                None => None,
            }, final(self)@) == take_payload(old(self)@),
    {
        loop
            invariant
                take_payload(old(self)@) == take_payload(self@),
            decreases self@.len(),
        {
            let buffered = self.buffer.len();
            proof {
                lemma_frame_step_bounds(self@);
            }
            match next_frame(self.buffer.as_slice()) {
                FrameStep::Incomplete => {
                    return None;
                },
                FrameStep::Skip(n) => {
                    let rest = self.buffer.split_off(n);
                    self.buffer = rest;
                },
                FrameStep::Frame { start, len } => {
                    let mut payload = self.buffer.split_off(start);
                    let rest = payload.split_off(len);
                    self.buffer = rest;
                    return Some(payload);
                },
            }
        }
    }
}

} // verus!
