use crate::codec::{decimal, decimal_text};
use vstd::prelude::*;
use vstd::string::StringExecFns;

verus! {

/// The longest header accepted, in bytes.
pub const MAX_HEADER: usize = 8192;

/// The longest body accepted, in bytes.
pub const MAX_BODY: usize = 1048576;

/// Why a frame's header was refused.
#[derive(Debug, Clone, Copy, PartialEq, Eq, Structural)]
pub enum FrameError {
    /// The header or the announced body passes its limit.
    FrameTooLarge,
    /// No well-formed `Content-Length` line.
    BadEncoding,
}

/// CR LF starts at `i`.
pub open spec fn crlf_at(h: Seq<u8>, i: int) -> bool {
    0 <= i && i + 1 < h.len() && h[i] == 13 && h[i + 1] == 10
}

/// CR LF CR LF starts at `i`.
pub open spec fn blank_line_at(h: Seq<u8>, i: int) -> bool {
    crlf_at(h, i) && crlf_at(h, i + 2)
}

/// A header line starts at `i`.
pub open spec fn line_start(h: Seq<u8>, i: int) -> bool {
    i == 0 || (i >= 2 && crlf_at(h, i - 2))
}

/// The bytes of `Content-Length: `.
pub open spec fn length_key() -> Seq<u8> {
    seq![67u8, 111, 110, 116, 101, 110, 116, 45, 76, 101, 110, 103, 116, 104, 58, 32]
}

/// A `Content-Length` line starts at `i`.
pub open spec fn length_line_at(h: Seq<u8>, i: int) -> bool {
    line_start(h, i) && 0 <= i && i + 16 <= h.len() && h.subrange(i, i + 16) == length_key()
}

/// The first `Content-Length` line at or after `from`.
pub open spec fn first_length_line(h: Seq<u8>, from: int) -> Option<int>
    decreases h.len() - from,
{
    if from < 0 || from >= h.len() {
        None
    } else if length_line_at(h, from) {
        Some(from)
    } else {
        first_length_line(h, from + 1)
    }
}

/// Where the line holding `i` ends: at the next CR LF, or at the end.
pub open spec fn line_end(h: Seq<u8>, i: int) -> int
    decreases h.len() - i,
{
    if i < 0 || i >= h.len() {
        h.len() as int
    } else if crlf_at(h, i) {
        i
    } else {
        line_end(h, i + 1)
    }
}

pub open spec fn is_digit(b: u8) -> bool {
    48 <= b <= 57
}

/// The number that decimal digits spell.
pub open spec fn digits_value(s: Seq<u8>) -> nat
    decreases s.len(),
{
    if s.len() == 0 {
        0
    } else {
        digits_value(s.drop_last()) * 10 + (s.last() - 48) as nat
    }
}

/// From `i` on, the header is a run of `Key: Value` lines joined by CR LF:
/// each line a non-empty key, then `: `, then a value. `state` is 0 at the
/// start of a line, 1 inside a key, 2 inside a value.
pub open spec fn lines_ok(h: Seq<u8>, i: int, state: int) -> bool
    decreases h.len() - i,
{
    if i < 0 || i >= h.len() {
        state == 2
    } else if crlf_at(h, i) {
        state == 2 && lines_ok(h, i + 2, 0)
    } else if state == 1 && i + 1 < h.len() && h[i] == 58 && h[i + 1] == 32 {
        lines_ok(h, i + 2, 2)
    } else if state == 0 {
        lines_ok(h, i + 1, 1)
    } else {
        lines_ok(h, i + 1, state)
    }
}

/// What a header announces as its body's length.
pub open spec fn content_length_of(h: Seq<u8>) -> Result<nat, FrameError> {
    if h.len() > MAX_HEADER {
        Err(FrameError::FrameTooLarge)
    } else if !lines_ok(h, 0, 0) {
        Err(FrameError::BadEncoding)
    } else {
        match first_length_line(h, 0) {
            None => Err(FrameError::BadEncoding),
            Some(i) => {
                let v = h.subrange(i + 16, line_end(h, i + 16));
                if v.len() == 0 || !(forall|k: int| 0 <= k < v.len() ==> is_digit(#[trigger] v[k])) {
                    Err(FrameError::BadEncoding)
                } else if digits_value(v) > MAX_BODY {
                    Err(FrameError::FrameTooLarge)
                } else {
                    Ok(digits_value(v))
                }
            },
        }
    }
}

proof fn lemma_value_grows(s: Seq<u8>, k: int)
    requires
        0 <= k <= s.len(),
        forall|j: int| 0 <= j < s.len() ==> is_digit(#[trigger] s[j]),
    ensures
        digits_value(s.subrange(0, k)) <= digits_value(s),
    decreases s.len() - k,
{
    if k < s.len() {
        let p = s.subrange(0, k + 1);
        assert(p.drop_last() =~= s.subrange(0, k));
        lemma_value_grows(s, k + 1);
    } else {
        assert(s.subrange(0, k) =~= s);
    }
}

/// The header that announces a body of `len` bytes.
pub open spec fn frame_head_text(len: nat) -> Seq<char> {
    "Content-Length: "@ + decimal_text(len) + "\r\n\r\n"@
}

/// Builds the header that announces a body of `len` bytes.
pub fn frame_head(len: usize) -> (r: String)
    ensures
        r@ == frame_head_text(len as nat),
{
    let mut head = "Content-Length: ".to_owned();
    let digits = decimal(len as u64);
    head.append(digits.as_str());
    head.append("\r\n\r\n");
    head
}

/// Where the header ends: the first CR LF CR LF, if there is one.
pub fn header_end(buf: &[u8]) -> (r: Option<usize>)
    ensures
        match r {
            Some(i) => blank_line_at(buf@, i as int) && forall|j: int| 0 <= j < i ==> !blank_line_at(buf@, j),
            None => forall|j: int| 0 <= j < buf@.len() ==> !blank_line_at(buf@, j),
        },
{
    let mut i: usize = 0;
    while i < buf.len() && buf.len() - i > 3
        invariant
            forall|j: int| 0 <= j < i ==> !blank_line_at(buf@, j),
        decreases buf@.len() - i,
    {
        if buf[i] == 13 && buf[i + 1] == 10 && buf[i + 2] == 13 && buf[i + 3] == 10 {
            return Some(i);
        }
        i = i + 1;
    }
    None
}

fn lines_ok_exec(h: &[u8]) -> (r: bool)
    ensures
        r == lines_ok(h@, 0, 0),
{
    let n = h.len();
    let mut i: usize = 0;
    let mut state: u8 = 0;
    while i < n
        invariant
            n == h@.len(),
            i <= n + 1,
            state <= 2,
            lines_ok(h@, 0, 0) == lines_ok(h@, i as int, state as int),
        decreases n + 1 - i,
    {
        if n - i > 1 && h[i] == 13 && h[i + 1] == 10 {
            if state != 2 {
                return false;
            }
            state = 0;
            i = i + 2;
        } else if state == 1 && n - i > 1 && h[i] == 58 && h[i + 1] == 32 {
            state = 2;
            i = i + 2;
        } else {
            if state == 0 {
                state = 1;
            }
            i = i + 1;
        }
    }
    state == 2
}

fn length_line_at_exec(h: &[u8], i: usize) -> (r: bool)
    requires
        i < h@.len(),
    ensures
        r == length_line_at(h@, i as int),
{
    if !(i == 0 || (i >= 2 && h[i - 2] == 13 && h[i - 1] == 10)) {
        return false;
    }
    if h.len() - i < 16 {
        return false;
    }
    let n = h.len();
    let key: [u8; 16] = [67u8, 111, 110, 116, 101, 110, 116, 45, 76, 101, 110, 103, 116, 104, 58, 32];
    let mut k: usize = 0;
    while k < 16
        invariant
            k <= 16,
            n == h@.len(),
            i + 16 <= n,
            key@ == length_key(),
            forall|j: int| 0 <= j < k ==> h@[i + j] == length_key()[j],
        decreases 16 - k,
    {
        if h[i + k] != key[k] {
            proof {
                assert(h@.subrange(i as int, i + 16)[k as int] != length_key()[k as int]);
            }
            return false;
        }
        k = k + 1;
    }
    proof {
        assert(h@.subrange(i as int, i + 16) =~= length_key());
    }
    true
}

/// The body length that a header announces, checked against the limits.
/// `header` is the text before the blank line.
pub fn content_length(header: &[u8]) -> (r: Result<usize, FrameError>)
    ensures
        match content_length_of(header@) {
            Ok(v) => r == Ok::<usize, FrameError>(v as usize),
            Err(e) => r == Err::<usize, FrameError>(e),
        },
{
    if header.len() > MAX_HEADER {
        return Err(FrameError::FrameTooLarge);
    }
    if !lines_ok_exec(header) {
        return Err(FrameError::BadEncoding);
    }
    let ghost h = header@;
    // the first line that starts with the key
    let mut i: usize = 0;
    let mut found = false;
    while i < header.len() && !found
        invariant
            h == header@,
            i <= header@.len(),
            first_length_line(h, 0) == first_length_line(h, i as int),
            found ==> i < header@.len() && length_line_at(h, i as int),
        decreases header@.len() - i + (if found { 0int } else { 1int }),
    {
        if length_line_at_exec(header, i) {
            found = true;
        } else {
            i = i + 1;
        }
    }
    if i == header.len() {
        return Err(FrameError::BadEncoding);
    }
    let start = i + 16;
    // the end of that line
    let mut e: usize = start;
    let mut at_crlf = false;
    while e < header.len() && !at_crlf
        invariant
            h == header@,
            start <= e <= header@.len(),
            line_end(h, start as int) == line_end(h, e as int),
            at_crlf ==> crlf_at(h, e as int),
        decreases header@.len() - e + (if at_crlf { 0int } else { 1int }),
    {
        if header.len() - e > 1 && header[e] == 13 && header[e + 1] == 10 {
            at_crlf = true;
        } else {
            e = e + 1;
        }
    }
    proof {
        assert(line_end(h, e as int) == e);
        assert(first_length_line(h, i as int) == Some(i as int));
    }
    if e == start {
        return Err(FrameError::BadEncoding);
    }
    let ghost v = h.subrange(start as int, e as int);
    let mut k: usize = start;
    while k < e
        invariant
            h == header@,
            start == i + 16,
            first_length_line(h, 0) == Some(i as int),
            lines_ok(h, 0, 0),
            line_end(h, start as int) == e as int,
            e > start,
            header@.len() <= MAX_HEADER,
            start <= k <= e,
            e <= header@.len(),
            v == h.subrange(start as int, e as int),
            forall|j: int| start <= j < k ==> is_digit(#[trigger] h[j]),
        decreases e - k,
    {
        if header[k] < 48 || header[k] > 57 {
            proof {
                assert(!is_digit(v[k - start]));
            }
            return Err(FrameError::BadEncoding);
        }
        k = k + 1;
    }
    proof {
        assert forall|j: int| 0 <= j < v.len() implies is_digit(#[trigger] v[j]) by {
            assert(v[j] == h[start + j]);
        }
    }
    let mut value: usize = 0;
    let mut k: usize = start;
    while k < e
        invariant
            h == header@,
            start == i + 16,
            first_length_line(h, 0) == Some(i as int),
            lines_ok(h, 0, 0),
            line_end(h, start as int) == e as int,
            e > start,
            header@.len() <= MAX_HEADER,
            start <= k <= e,
            e <= header@.len(),
            v == h.subrange(start as int, e as int),
            forall|j: int| 0 <= j < v.len() ==> is_digit(#[trigger] v[j]),
            value == digits_value(v.subrange(0, k - start)),
            value <= MAX_BODY,
        decreases e - k,
    {
        proof {
            assert(v.subrange(0, k - start + 1).drop_last() =~= v.subrange(0, k - start));
            assert(v[k - start] == header@[k as int]);
        }
        let next = value * 10 + (header[k] - 48) as usize;
        if next > MAX_BODY {
            proof {
                lemma_value_grows(v, k - start + 1);
            }
            return Err(FrameError::FrameTooLarge);
        }
        value = next;
        k = k + 1;
    }
    proof {
        assert(v.subrange(0, v.len() as int) =~= v);
    }
    Ok(value)
}

} // verus!
