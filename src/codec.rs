//! Header-plus-body wire framing.
use vstd::prelude::*;
use vstd::utf8::valid_utf8;

verus! {

/// Whitespace bytes stripped from both ends of a header line.
pub open spec fn is_ws(b: u8) -> bool {
    b == 32 || (9 <= b && b <= 13)
}

pub open spec fn trim_start(s: Seq<u8>) -> Seq<u8>
    decreases s.len(),
{
    if s.len() > 0 && is_ws(s[0]) {
        trim_start(s.drop_first())
    } else {
        s
    }
}

pub open spec fn trim_end(s: Seq<u8>) -> Seq<u8>
    decreases s.len(),
{
    if s.len() > 0 && is_ws(s.last()) {
        trim_end(s.drop_last())
    } else {
        s
    }
}

/// A header line without its surrounding whitespace.
pub open spec fn trim(s: Seq<u8>) -> Seq<u8> {
    trim_end(trim_start(s))
}

/// `": "` starts at position `k` of `t`.
pub open spec fn delim_at(t: Seq<u8>, k: int) -> bool {
    0 <= k && k + 1 < t.len() && t[k] == 58 && t[k + 1] == 32
}

/// The first position at or after `k` where `": "` starts.
pub open spec fn find_delim(t: Seq<u8>, k: int) -> Option<int>
    decreases t.len() - k,
{
    if k < 0 || k + 1 >= t.len() {
        None
    } else if delim_at(t, k) {
        Some(k)
    } else {
        find_delim(t, k + 1)
    }
}

pub open spec fn is_digit(b: u8) -> bool {
    48 <= b && b <= 57
}

pub open spec fn all_digits(s: Seq<u8>) -> bool {
    forall|i: int| 0 <= i < s.len() ==> is_digit(#[trigger] s[i])
}

/// The number that a string of decimal digits denotes.
pub open spec fn digits_value(s: Seq<u8>) -> nat
    decreases s.len(),
{
    if s.len() == 0 {
        0
    } else {
        digits_value(s.drop_last()) * 10 + (s.last() - 48) as nat
    }
}

/// The digits of an unsigned number written with an optional leading `+`.
pub open spec fn unsigned_digits(s: Seq<u8>) -> Seq<u8> {
    if s.len() > 0 && s[0] == 43 {
        s.drop_first()
    } else {
        s
    }
}

/// The `usize` that `s` denotes in decimal, if any.
pub open spec fn parse_usize_spec(s: Seq<u8>) -> Option<usize> {
    let d = unsigned_digits(s);
    if d.len() > 0 && all_digits(d) && digits_value(d) <= usize::MAX {
        Some(digits_value(d) as usize)
    } else {
        None
    }
}

/// The bytes of `Content-Length`.
pub open spec fn content_length_key() -> Seq<u8> {
    seq![67u8, 111, 110, 116, 101, 110, 116, 45, 76, 101, 110, 103, 116, 104]
}

pub open spec fn crlf() -> Seq<u8> {
    seq![13u8, 10]
}

/// What one line of a header block means.
#[derive(PartialEq, Eq, Structural, Debug, Clone, Copy)]
pub enum HeaderLine {
    /// The blank line that ends the header block.
    End,
    /// A `Content-Length` header with its value.
    ContentLength(usize),
    /// A `Content-Length` header whose value is not a length.
    InvalidLength,
    /// Any other `key: value` header.
    Other,
    /// A line without a `": "` delimiter, which is skipped.
    Stray,
}

pub open spec fn header_line_spec(l: Seq<u8>) -> HeaderLine {
    if l == crlf() {
        HeaderLine::End
    } else {
        let t = trim(l);
        match find_delim(t, 0) {
            None => HeaderLine::Stray,
            Some(k) => if t.subrange(0, k) == content_length_key() {
                match parse_usize_spec(t.subrange(k + 2, t.len() as int)) {
                    Some(n) => HeaderLine::ContentLength(n),
                    None => HeaderLine::InvalidLength,
                }
            } else {
                HeaderLine::Other
            },
        }
    }
}

fn is_ws_byte(b: u8) -> (r: bool)
    ensures
        r == is_ws(b),
{
    b == 32 || (9 <= b && b <= 13)
}

proof fn lemma_digits_value_prefix(t: Seq<u8>, k: int)
    requires
        0 <= k <= t.len(),
    ensures
        digits_value(t.subrange(0, k)) <= digits_value(t),
    decreases t.len(),
{
    if k < t.len() {
        lemma_digits_value_prefix(t.drop_last(), k);
        assert(t.drop_last().subrange(0, k) =~= t.subrange(0, k));
    } else {
        assert(t.subrange(0, k) =~= t);
    }
}

/// Bounds `(a, b)` with `trim(s[lo..hi]) == s[a..b]`.
fn trim_range(s: &[u8], lo: usize, hi: usize) -> (r: (usize, usize))
    requires
        lo <= hi <= s@.len(),
    ensures
        lo <= r.0 <= r.1 <= hi,
        trim(s@.subrange(lo as int, hi as int)) == s@.subrange(r.0 as int, r.1 as int),
{
    let mut a: usize = lo;
    while a < hi && is_ws_byte(s[a])
        invariant
            lo <= a <= hi <= s@.len(),
            trim_start(s@.subrange(lo as int, hi as int)) == trim_start(s@.subrange(a as int, hi as int)),
        decreases hi - a,
    {
        assert(s@.subrange(a as int, hi as int).drop_first() =~= s@.subrange(a + 1, hi as int));
        a = a + 1;
    }
    let mut b: usize = hi;
    while b > a && is_ws_byte(s[b - 1])
        invariant
            lo <= a <= b <= hi <= s@.len(),
            trim_end(s@.subrange(a as int, hi as int)) == trim_end(s@.subrange(a as int, b as int)),
        decreases b,
    {
        assert(s@.subrange(a as int, b as int).drop_last() =~= s@.subrange(a as int, b - 1));
        b = b - 1;
    }
    (a, b)
}

/// Where `": "` first starts in `s[a..b]`, relative to `a`.
fn find_delim_range(s: &[u8], a: usize, b: usize) -> (r: Option<usize>)
    requires
        a <= b <= s@.len(),
    ensures
        r matches Some(k) ==> a + k + 1 < b,
        find_delim(s@.subrange(a as int, b as int), 0) == match r {
            Some(k) => Some(k as int),
            None => None::<int>,
        },
{
    let ghost t = s@.subrange(a as int, b as int);
    let mut k: usize = 0;
    while b - a - k > 1
        invariant
            a <= b <= s@.len(),
            k <= b - a,
            t == s@.subrange(a as int, b as int),
            find_delim(t, 0) == find_delim(t, k as int),
        decreases b - a - k,
    {
        if s[a + k] == 58 && s[a + k + 1] == 32 {
            return Some(k);
        }
        k = k + 1;
    }
    None
}

/// The `usize` written in decimal in `s[a..b]`, with an optional leading `+`.
fn parse_usize_range(s: &[u8], a: usize, b: usize) -> (r: Option<usize>)
    requires
        a <= b <= s@.len(),
    ensures
        r == parse_usize_spec(s@.subrange(a as int, b as int)),
{
    let ghost t = s@.subrange(a as int, b as int);
    let mut i: usize = a;
    if i < b && s[i] == 43 {
        i = i + 1;
        assert(t.drop_first() =~= s@.subrange(i as int, b as int));
    } else {
        assert(t =~= s@.subrange(i as int, b as int));
    }
    let start = i;
    let ghost d = s@.subrange(start as int, b as int);
    assert(d == unsigned_digits(t));
    if i >= b {
        assert(d.len() == 0);
        return None;
    }
    let mut v: usize = 0;
    while i < b
        invariant
            start <= i <= b <= s@.len(),
            d == s@.subrange(start as int, b as int),
            d == unsigned_digits(t),
            t == s@.subrange(a as int, b as int),
            d.len() > 0,
            all_digits(s@.subrange(start as int, i as int)),
            v as nat == digits_value(s@.subrange(start as int, i as int)),
        decreases b - i,
    {
        let c = s[i];
        let ghost next = s@.subrange(start as int, i + 1);
        assert(next.drop_last() =~= s@.subrange(start as int, i as int));
        if c < 48 || c > 57 {
            assert(!is_digit(d[i - start]));
            return None;
        }
        let w = match v.checked_mul(10) {
            Some(m) => m.checked_add((c - 48) as usize),
            None => None,
        };
        match w {
            Some(nv) => {
                v = nv;
            },
            None => {
                proof {
                    assert(next.last() == c);
                    assert(digits_value(next) == v * 10 + (c - 48));
                    if all_digits(d) {
                        assert(d.subrange(0, i + 1 - start) =~= next);
                        lemma_digits_value_prefix(d, i + 1 - start);
                    }
                }
                return None;
            },
        }
        i = i + 1;
        assert(all_digits(s@.subrange(start as int, i as int)));
    }
    assert(s@.subrange(start as int, i as int) =~= d);
    Some(v)
}


fn key_matches(s: &[u8], a: usize, e: usize) -> (r: bool)
    requires
        a <= e <= s@.len(),
    ensures
        r == (s@.subrange(a as int, e as int) == content_length_key()),
{
    let key: Vec<u8> = vec![67, 111, 110, 116, 101, 110, 116, 45, 76, 101, 110, 103, 116, 104];
    assert(key@ =~= content_length_key());
    if e - a != key.len() {
        return false;
    }
    let mut i: usize = 0;
    while i < key.len()
        invariant
            a <= e <= s@.len(),
            e - a == key@.len(),
            key@ == content_length_key(),
            i <= key@.len(),
            forall|j: int| 0 <= j < i ==> s@[a + j] == key@[j],
        decreases key.len() - i,
    {
        if s[a + i] != key[i] {
            assert(s@.subrange(a as int, e as int)[i as int] != content_length_key()[i as int]);
            return false;
        }
        i = i + 1;
    }
    assert(s@.subrange(a as int, e as int) =~= content_length_key());
    true
}

/// What the line `s[lo..hi]` means as a header line.
fn classify_range(s: &[u8], lo: usize, hi: usize) -> (r: HeaderLine)
    requires
        lo <= hi <= s@.len(),
    ensures
        r == header_line_spec(s@.subrange(lo as int, hi as int)),
{
    let ghost l = s@.subrange(lo as int, hi as int);
    if hi - lo == 2 && s[lo] == 13 && s[lo + 1] == 10 {
        assert(l =~= crlf());
        return HeaderLine::End;
    }
    assert(l != crlf()) by {
        if l == crlf() {
            assert(l[0] == 13 && l[1] == 10);
        }
    }
    let (a, b) = trim_range(s, lo, hi);
    let ghost t = s@.subrange(a as int, b as int);
    match find_delim_range(s, a, b) {
        None => HeaderLine::Stray,
        Some(k) => {
            assert(t.subrange(0, k as int) =~= s@.subrange(a as int, a + k));
            assert(t.subrange(k + 2, t.len() as int) =~= s@.subrange(a + k + 2, b as int));
            if key_matches(s, a, a + k) {
                match parse_usize_range(s, a + k + 2, b) {
                    Some(n) => HeaderLine::ContentLength(n),
                    None => HeaderLine::InvalidLength,
                }
            } else {
                HeaderLine::Other
            }
        },
    }
}

/// What one header line means, read as `read_line` hands it over (with its line end).
pub fn classify_header_line(line: &[u8]) -> (r: HeaderLine)
    ensures
        r == header_line_spec(line@),
{
    assert(line@.subrange(0, line@.len() as int) =~= line@);
    classify_range(line, 0, line.len())
}

/// Why reading a frame failed.
#[derive(PartialEq, Eq, Structural, Debug, Clone, Copy)]
pub enum DecodeError {
    /// The stream ended before a header block was complete.
    StreamClosed,
    /// A `Content-Length` value is not a decimal length.
    InvalidContentLength,
    /// The header block ended without a `Content-Length`.
    MissingContentLength,
    /// The stream ended before the whole body was read.
    TruncatedBody,
    /// The body is not valid UTF-8.
    InvalidUtf8,
    /// The body is neither a response nor a call.
    InvalidMessage,
    /// Reading the stream failed.
    Io,
}

impl DecodeError {
    /// A malformed frame, as opposed to a clean end of the stream.
    pub open spec fn is_malformed_spec(self) -> bool {
        self != DecodeError::StreamClosed
    }

    pub fn is_malformed(&self) -> (r: bool)
        ensures
            r == self.is_malformed_spec(),
    {
        !matches!(self, DecodeError::StreamClosed)
    }
}

/// The outcome of feeding one line to a header block.
#[derive(PartialEq, Eq, Structural, Debug, Clone, Copy)]
pub enum HeaderStep {
    /// The block goes on.
    NeedMore,
    /// The block ended; the body has this many bytes.
    Complete(usize),
    /// The frame is malformed.
    Failed(DecodeError),
}

/// The length seen so far and the outcome after one more line.
pub open spec fn feed_spec(cl: Option<usize>, line: Seq<u8>) -> (Option<usize>, HeaderStep) {
    match header_line_spec(line) {
        HeaderLine::End => match cl {
            Some(n) => (cl, HeaderStep::Complete(n)),
            None => (cl, HeaderStep::Failed(DecodeError::MissingContentLength)),
        },
        HeaderLine::ContentLength(n) => (Some(n), HeaderStep::NeedMore),
        HeaderLine::InvalidLength => (cl, HeaderStep::Failed(DecodeError::InvalidContentLength)),
        _ => (cl, HeaderStep::NeedMore),
    }
}

/// A header block read line by line; a later `Content-Length` replaces an earlier one.
pub struct HeaderBlock {
    pub content_length: Option<usize>,
}

impl HeaderBlock {
    pub fn new() -> (r: HeaderBlock)
        ensures
            r.content_length is None,
    {
        HeaderBlock { content_length: None }
    }

    fn feed_range(&mut self, s: &[u8], lo: usize, hi: usize) -> (r: HeaderStep)
        requires
            lo <= hi <= s@.len(),
        ensures
            (final(self).content_length, r) == feed_spec(old(self).content_length, s@.subrange(lo as int, hi as int)),
    {
        match classify_range(s, lo, hi) {
            HeaderLine::End => match self.content_length {
                Some(n) => HeaderStep::Complete(n),
                None => HeaderStep::Failed(DecodeError::MissingContentLength),
            },
            HeaderLine::ContentLength(n) => {
                self.content_length = Some(n);
                HeaderStep::NeedMore
            },
            HeaderLine::InvalidLength => HeaderStep::Failed(DecodeError::InvalidContentLength),
            _ => HeaderStep::NeedMore,
        }
    }

    /// Takes one line of the header block, with its line end.
    pub fn feed(&mut self, line: &[u8]) -> (r: HeaderStep)
        ensures
            (final(self).content_length, r) == feed_spec(old(self).content_length, line@),
    {
        assert(line@.subrange(0, line@.len() as int) =~= line@);
        self.feed_range(line, 0, line.len())
    }
}

/// Reads a header block from `s`, line by line from `start`, now at `pos`; gives the
/// position where the body starts and its length.
pub open spec fn scan_headers(s: Seq<u8>, pos: int, start: int, cl: Option<usize>) -> Result<(int, usize), DecodeError>
    decreases s.len() - pos,
{
    if pos < 0 || start < 0 || start > pos {
        Err(DecodeError::StreamClosed)
    } else if pos >= s.len() {
        if start < s.len() && header_line_spec(s.subrange(start, s.len() as int)) == HeaderLine::InvalidLength {
            Err(DecodeError::InvalidContentLength)
        } else {
            Err(DecodeError::StreamClosed)
        }
    } else if s[pos] == 10 {
        let (cl2, step) = feed_spec(cl, s.subrange(start, pos + 1));
        match step {
            HeaderStep::NeedMore => scan_headers(s, pos + 1, pos + 1, cl2),
            HeaderStep::Complete(n) => Ok((pos + 1, n)),
            HeaderStep::Failed(e) => Err(e),
        }
    } else {
        scan_headers(s, pos + 1, start, cl)
    }
}

/// Where a frame's body lies in the input.
#[derive(PartialEq, Eq, Structural, Debug, Clone, Copy)]
pub struct Frame {
    pub start: usize,
    pub len: usize,
}

/// The first frame in `s`, as a stream holding exactly `s` yields it.
pub open spec fn frame_spec(s: Seq<u8>) -> Result<Frame, DecodeError> {
    match scan_headers(s, 0, 0, None) {
        Err(e) => Err(e),
        Ok((p, n)) => if p + n > s.len() {
            Err(DecodeError::TruncatedBody)
        } else if !valid_utf8(s.subrange(p, p + n)) {
            Err(DecodeError::InvalidUtf8)
        } else {
            Ok(Frame { start: p as usize, len: n })
        },
    }
}

/// Relies on std::str::from_utf8: `Ok` exactly when the bytes are valid UTF-8.
#[verifier::external_body]
fn utf8_range(s: &[u8], lo: usize, hi: usize) -> (r: bool)
    requires
        lo <= hi <= s@.len(),
    ensures
        r == valid_utf8(s@.subrange(lo as int, hi as int)),
{
    std::str::from_utf8(&s[lo..hi]).is_ok()
}

/// Checks a body read after a header block: it must be valid UTF-8.
pub fn check_body(body: &[u8]) -> (r: Result<(), DecodeError>)
    ensures
        r is Ok <==> valid_utf8(body@),
        r matches Err(e) ==> e == DecodeError::InvalidUtf8,
{
    assert(body@.subrange(0, body@.len() as int) =~= body@);
    if utf8_range(body, 0, body.len()) {
        Ok(())
    } else {
        Err(DecodeError::InvalidUtf8)
    }
}

/// Decodes the first frame of `input`, which holds all that the stream will yield.
pub fn decode_frame(input: &[u8]) -> (r: Result<Frame, DecodeError>)
    ensures
        r == frame_spec(input@),
{
    let mut block = HeaderBlock::new();
    let mut pos: usize = 0;
    let mut start: usize = 0;
    while pos < input.len()
        invariant
            start <= pos <= input@.len(),
            scan_headers(input@, 0, 0, None) == scan_headers(input@, pos as int, start as int, block.content_length),
        decreases input.len() - pos,
    {
        if input[pos] == 10 {
            match block.feed_range(input, start, pos + 1) {
                HeaderStep::NeedMore => {
                    start = pos + 1;
                },
                HeaderStep::Complete(n) => {
                    let body_start = pos + 1;
                    if n > input.len() - body_start {
                        return Err(DecodeError::TruncatedBody);
                    }
                    if !utf8_range(input, body_start, body_start + n) {
                        return Err(DecodeError::InvalidUtf8);
                    }
                    return Ok(Frame { start: body_start, len: n });
                },
                HeaderStep::Failed(e) => {
                    return Err(e);
                },
            }
        }
        pos = pos + 1;
    }
    if start < input.len() && classify_range(input, start, input.len()) == HeaderLine::InvalidLength {
        Err(DecodeError::InvalidContentLength)
    } else {
        Err(DecodeError::StreamClosed)
    }
}

/// The decimal digits of `n`.
pub open spec fn decimal(n: nat) -> Seq<u8>
    decreases n,
{
    if n < 10 {
        seq![(48 + n) as u8]
    } else {
        decimal(n / 10).push((48 + n % 10) as u8)
    }
}

/// The bytes of a frame that carries `body`.
pub open spec fn frame_bytes(body: Seq<u8>) -> Seq<u8> {
    content_length_key() + seq![58u8, 32] + decimal(body.len()) + crlf() + crlf() + body
}

fn push_decimal(out: &mut Vec<u8>, n: usize)
    ensures
        final(out)@ == old(out)@ + decimal(n as nat),
    decreases n,
{
    if n >= 10 {
        push_decimal(out, n / 10);
    }
    out.push((48 + n % 10) as u8);
    proof {
        if n >= 10 {
            assert(final(out)@ =~= old(out)@ + decimal(n as nat));
        } else {
            assert(final(out)@ =~= old(out)@ + decimal(n as nat));
        }
    }
}

/// The frame that carries `body`: `Content-Length: <n>\r\n\r\n` and the body.
pub fn encode_frame(body: &[u8]) -> (r: Vec<u8>)
    ensures
        r@ == frame_bytes(body@),
{
    let mut out: Vec<u8> = vec![67, 111, 110, 116, 101, 110, 116, 45, 76, 101, 110, 103, 116, 104, 58, 32];
    push_decimal(&mut out, body.len());
    out.push(13);
    out.push(10);
    out.push(13);
    out.push(10);
    let ghost head = out@;
    let mut i: usize = 0;
    while i < body.len()
        invariant
            i <= body@.len(),
            out@ == head + body@.subrange(0, i as int),
        decreases body.len() - i,
    {
        out.push(body[i]);
        assert(out@ =~= head + body@.subrange(0, i + 1));
        i = i + 1;
    }
    assert(body@.subrange(0, body@.len() as int) =~= body@);
    assert(out@ =~= frame_bytes(body@));
    out
}


proof fn lemma_decimal(n: nat)
    ensures
        decimal(n).len() >= 1,
        all_digits(decimal(n)),
        digits_value(decimal(n)) == n,
    decreases n,
{
    if n >= 10 {
        lemma_decimal(n / 10);
        let d = decimal(n);
        assert(d.drop_last() =~= decimal(n / 10));
        assert(d.last() == (48 + n % 10) as u8);
        assert(((48 + n % 10) as u8 - 48) as nat == n % 10);
        assert((n / 10) * 10 + n % 10 == n);
        assert(digits_value(d) == digits_value(d.drop_last()) * 10 + (d.last() - 48) as nat);
        assert forall|i: int| 0 <= i < d.len() implies is_digit(#[trigger] d[i]) by {
            if i < d.len() - 1 {
                assert(d[i] == decimal(n / 10)[i]);
            }
        }
    } else {
        let d = decimal(n);
        assert(d.drop_last() =~= Seq::<u8>::empty());
        assert(d.last() == (48 + n) as u8);
        assert(digits_value(d.drop_last()) == 0);
        assert(digits_value(d) == digits_value(d.drop_last()) * 10 + (d.last() - 48) as nat);
    }
}

proof fn lemma_scan_skip(s: Seq<u8>, pos: int, e: int, start: int, cl: Option<usize>)
    requires
        0 <= start <= pos <= e < s.len(),
        forall|i: int| pos <= i < e ==> s[i] != 10,
    ensures
        scan_headers(s, pos, start, cl) == scan_headers(s, e, start, cl),
    decreases e - pos,
{
    if pos < e {
        lemma_scan_skip(s, pos + 1, e, start, cl);
    }
}

proof fn lemma_find_delim_skip(t: Seq<u8>, k: int, e: int)
    requires
        0 <= k <= e,
        e + 1 < t.len(),
        forall|i: int| k <= i < e ==> t[i] != 58,
    ensures
        find_delim(t, k) == find_delim(t, e),
    decreases e - k,
{
    if k < e {
        lemma_find_delim_skip(t, k + 1, e);
    }
}

/// The first line of a frame whose body has `n` bytes.
pub open spec fn length_line(n: nat) -> Seq<u8> {
    content_length_key() + seq![58u8, 32] + decimal(n) + crlf()
}

proof fn lemma_length_line(n: nat)
    requires
        n <= usize::MAX,
    ensures
        header_line_spec(length_line(n)) == HeaderLine::ContentLength(n as usize),
        forall|i: int| 0 <= i < length_line(n).len() - 1 ==> length_line(n)[i] != 10,
        length_line(n).last() == 10,
        length_line(n).len() == 18 + decimal(n).len(),
{
    let d = decimal(n);
    lemma_decimal(n);
    let key = content_length_key();
    let line = length_line(n);
    let dl = d.len() as int;
    assert forall|i: int| 0 <= i < 14 implies line[i] == key[i] && key[i] != 10 && key[i] != 58 by {}
    assert(line[14] == 58 && line[15] == 32);
    assert forall|i: int| 16 <= i < 16 + dl implies line[i] == d[i - 16] by {}
    assert(line[16 + dl] == 13 && line[17 + dl] == 10);
    assert forall|i: int| 0 <= i < line.len() - 1 implies line[i] != 10 by {
        if 16 <= i < 16 + dl {
            assert(is_digit(d[i - 16]));
        }
    }
    assert(line != crlf()) by {
        assert(line.len() != 2);
    }
    assert(trim_start(line) == line);
    let t = line.subrange(0, 16 + dl);
    assert(line.drop_last().drop_last() =~= t);
    assert(is_digit(d[dl - 1]));
    assert(t.last() == d[dl - 1]);
    assert(trim_end(line) == trim_end(line.drop_last()));
    assert(trim_end(line.drop_last()) == trim_end(t));
    assert(trim_end(t) == t);
    assert(trim(line) == t);
    lemma_find_delim_skip(t, 0, 14);
    assert(delim_at(t, 14));
    assert(find_delim(t, 0) == Some(14int));
    assert(t.subrange(0, 14) =~= key);
    assert(t.subrange(16, t.len() as int) =~= d);
    assert(unsigned_digits(d) == d);
}

/// Where the body of `frame_bytes(body)` starts.
pub open spec fn frame_body_start(body: Seq<u8>) -> int {
    20 + decimal(body.len()).len() as int
}

proof fn lemma_scan_frame(body: Seq<u8>)
    requires
        body.len() <= usize::MAX,
    ensures
        scan_headers(frame_bytes(body), 0, 0, None) == Ok::<(int, usize), DecodeError>(
            (frame_body_start(body), body.len() as usize),
        ),
        frame_bytes(body).len() == frame_body_start(body) + body.len(),
        frame_bytes(body).subrange(frame_body_start(body), frame_body_start(body) + body.len()) == body,
{
    let n = body.len();
    lemma_length_line(n);
    let line = length_line(n);
    let s = frame_bytes(body);
    assert(s =~= line + crlf() + body);
    let nl = line.len() - 1;
    let p = nl + 3;
    assert forall|i: int| 0 <= i < nl implies s[i] != 10 by {
        assert(s[i] == line[i]);
    }
    assert(s[nl] == 10);
    lemma_scan_skip(s, 0, nl, 0, None);
    assert(s.subrange(0, nl + 1) =~= line);
    assert(s[nl + 1] == 13 && s[nl + 2] == 10);
    assert(s.subrange(nl + 1, nl + 3) =~= crlf());
    assert(scan_headers(s, nl + 1, nl + 1, Some(n as usize)) == scan_headers(s, nl + 2, nl + 1, Some(n as usize)));
    assert(scan_headers(s, nl + 2, nl + 1, Some(n as usize)) == Ok::<(int, usize), DecodeError>((p, n as usize)));
    assert(s.subrange(p, p + n) =~= body);
}

/// Decoding the frame that carries a UTF-8 body gives back exactly that body.
pub proof fn law_frame_round_trip(body: Seq<u8>)
    requires
        valid_utf8(body),
        body.len() <= usize::MAX,
    ensures
        frame_spec(frame_bytes(body)) == Ok::<Frame, DecodeError>(
            Frame { start: frame_body_start(body) as usize, len: body.len() as usize },
        ),
        frame_bytes(body).subrange(frame_body_start(body), frame_body_start(body) + body.len()) == body,
{
    lemma_scan_frame(body);
}

proof fn lemma_scan_shift(pre: Seq<u8>, s: Seq<u8>, pos: int, start: int, cl: Option<usize>)
    requires
        0 <= start <= pos <= s.len(),
    ensures
        scan_headers(pre + s, pre.len() + pos, pre.len() + start, cl) == match scan_headers(s, pos, start, cl) {
            Ok((p, n)) => Ok::<(int, usize), DecodeError>((pre.len() + p, n)),
            Err(e) => Err(e),
        },
    decreases s.len() - pos,
{
    let t = pre + s;
    let o = pre.len() as int;
    if pos >= s.len() {
        assert(t.subrange(o + start, t.len() as int) =~= s.subrange(start, s.len() as int));
    } else {
        assert(t[o + pos] == s[pos]);
        assert(t.subrange(o + start, o + pos + 1) =~= s.subrange(start, pos + 1));
        let (cl2, step) = feed_spec(cl, s.subrange(start, pos + 1));
        if s[pos] == 10 {
            if step == HeaderStep::NeedMore {
                lemma_scan_shift(pre, s, pos + 1, pos + 1, cl2);
            }
        } else {
            lemma_scan_shift(pre, s, pos + 1, start, cl);
        }
    }
}

/// A stray line that is no header, before a frame, is skipped: the frame still
/// decodes to its body.
pub proof fn law_stray_line_skipped(line: Seq<u8>, body: Seq<u8>)
    requires
        header_line_spec(line) == HeaderLine::Stray,
        line.len() > 0,
        line.last() == 10,
        forall|i: int| 0 <= i < line.len() - 1 ==> line[i] != 10,
        valid_utf8(body),
        body.len() <= usize::MAX,
    ensures
        frame_spec(line + frame_bytes(body)) == Ok::<Frame, DecodeError>(
            Frame { start: (line.len() + frame_body_start(body)) as usize, len: body.len() as usize },
        ),
        (line + frame_bytes(body)).subrange(
            line.len() + frame_body_start(body),
            line.len() + frame_body_start(body) + body.len(),
        ) == body,
{
    let f = frame_bytes(body);
    let s = line + f;
    let l = line.len() as int;
    lemma_scan_frame(body);
    assert forall|i: int| 0 <= i < l - 1 implies s[i] != 10 by {
        assert(s[i] == line[i]);
    }
    assert(s[l - 1] == 10);
    lemma_scan_skip(s, 0, l - 1, 0, None);
    assert(s.subrange(0, l) =~= line);
    lemma_scan_shift(line, f, 0, 0, None);
    let p = l + frame_body_start(body);
    assert(s.subrange(p, p + body.len()) =~= f.subrange(frame_body_start(body), frame_body_start(body) + body.len()));
}

} // verus!
