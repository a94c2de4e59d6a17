//! Display names in headers: quoted strings, or RFC 2047 encoded-words where
//! a name holds bytes outside printable ASCII.
use crate::codec::{column_after, emit, hex_digit, hex_digit_of, qp_escape};
use vstd::prelude::*;
use vstd::string::StringSliceAdditionalSpecFns;

verus! {

/// Payload length from which a new encoded-word is started at the next
/// character, so that one word stays within a line.
pub const WORD_SPLIT: usize = 48;

/// A name that can stand as a quoted string: printable ASCII only.
pub open spec fn phrase_safe(s: Seq<u8>) -> bool {
    forall|i: int| 0 <= i < s.len() ==> 32 <= #[trigger] s[i] <= 126
}

pub open spec fn quoted_piece(b: u8) -> Seq<u8> {
    if b == 34 || b == 92 {
        seq![92u8, b]
    } else {
        seq![b]
    }
}

/// The first `n` bytes of `s` with `\` before each `"` and `\`.
pub open spec fn quoted_prefix(s: Seq<u8>, n: int) -> Seq<u8>
    decreases n,
{
    if n <= 0 {
        seq![]
    } else {
        quoted_prefix(s, n - 1) + quoted_piece(s[n - 1])
    }
}

pub open spec fn is_alnum(b: u8) -> bool {
    (48 <= b <= 57) || (65 <= b <= 90) || (97 <= b <= 122)
}

/// Encoding of one byte inside a `Q` encoded-word.
pub open spec fn q_token(b: u8) -> Seq<u8> {
    if is_alnum(b) {
        seq![b]
    } else if b == 32 {
        seq![95u8]
    } else {
        qp_escape(b)
    }
}

/// A byte that starts a UTF-8 character, where a word may end.
pub open spec fn char_start(b: u8) -> bool {
    b < 128 || b >= 192
}

/// Whether a new encoded-word starts at byte `n - 1`.
pub open spec fn splits_at(s: Seq<u8>, n: int) -> bool
    decreases n, 0int,
{
    n > 1 && char_start(s[n - 1]) && payload_len(s, n - 1) >= WORD_SPLIT
}

/// Length of the payload of the last encoded-word after the first `n` bytes,
/// counted up to `WORD_SPLIT`.
pub open spec fn payload_len(s: Seq<u8>, n: int) -> int
    decreases n, 1int,
{
    if n <= 0 {
        0
    } else {
        let p = (if splits_at(s, n) {
            0
        } else {
            payload_len(s, n - 1)
        }) + q_token(s[n - 1]).len();
        if p > WORD_SPLIT {
            WORD_SPLIT as int
        } else {
            p
        }
    }
}

/// `?=`, a fold, and the opening of the next word.
pub open spec fn word_break() -> Seq<u8> {
    seq![63u8, 61u8, 13u8, 10u8, 9u8] + word_open()
}

/// `=?UTF-8?Q?`
pub open spec fn word_open() -> Seq<u8> {
    seq![61u8, 63u8, 85u8, 84u8, 70u8, 45u8, 56u8, 63u8, 81u8, 63u8]
}

/// The words' text for the first `n` bytes, from after the first opening.
pub open spec fn words_prefix(s: Seq<u8>, n: int) -> Seq<u8>
    decreases n,
{
    if n <= 0 {
        seq![]
    } else {
        words_prefix(s, n - 1) + (if splits_at(s, n) {
            word_break()
        } else {
            seq![]
        }) + q_token(s[n - 1])
    }
}

/// A display name as it stands in a header.
pub open spec fn rfc2047_of(s: Seq<u8>) -> Seq<u8> {
    if phrase_safe(s) {
        seq![34u8] + quoted_prefix(s, s.len() as int) + seq![34u8]
    } else {
        word_open() + words_prefix(s, s.len() as int) + seq![63u8, 61u8]
    }
}

fn push_seq3(out: &mut Vec<u8>, a: u8, b: u8, c: u8)
    ensures
        final(out)@ == old(out)@ + seq![a, b, c],
{
    out.push(a);
    out.push(b);
    out.push(c);
    assert(final(out)@ =~= old(out)@ + seq![a, b, c]);
}

fn push_word_open(out: &mut Vec<u8>)
    ensures
        final(out)@ == old(out)@ + word_open(),
{
    push_seq3(out, 61, 63, 85);
    push_seq3(out, 84, 70, 45);
    push_seq3(out, 56, 63, 81);
    out.push(63);
    assert(final(out)@ =~= old(out)@ + word_open());
}

/// Free text as it stands in a header: as it is where it is printable
/// ASCII, else as encoded-words.
pub open spec fn text_of(s: Seq<u8>) -> Seq<u8> {
    if phrase_safe(s) {
        s
    } else {
        word_open() + words_prefix(s, s.len() as int) + seq![63u8, 61u8]
    }
}

fn is_phrase_safe(name: &[u8]) -> (r: bool)
    ensures
        r == phrase_safe(name@),
{
    let n = name.len();
    let mut safe = true;
    let mut i: usize = 0;
    while i < n
        invariant
            n == name@.len(),
            i <= n,
            safe == forall|j: int| 0 <= j < i ==> 32 <= #[trigger] name@[j] <= 126,
        decreases n - i,
    {
        if name[i] < 32 || name[i] > 126 {
            safe = false;
        }
        i = i + 1;
    }
    safe
}

fn quoted_bytes(name: &[u8]) -> (r: Vec<u8>)
    ensures
        r@ == seq![34u8] + quoted_prefix(name@, name@.len() as int) + seq![34u8],
{
    let n = name.len();
    let mut out: Vec<u8> = Vec::new();
    out.push(34);
    let mut k: usize = 0;
    while k < n
        invariant
            n == name@.len(),
            k <= n,
            out@ == seq![34u8] + quoted_prefix(name@, k as int),
        decreases n - k,
    {
        let b = name[k];
        if b == 34 || b == 92 {
            out.push(92);
        }
        out.push(b);
        k = k + 1;
        assert(out@ =~= seq![34u8] + quoted_prefix(name@, k as int));
    }
    out.push(34);
    assert(out@ =~= seq![34u8] + quoted_prefix(name@, n as int) + seq![34u8]);
    out
}

fn words_bytes(name: &[u8]) -> (r: Vec<u8>)
    ensures
        r@ == word_open() + words_prefix(name@, name@.len() as int) + seq![63u8, 61u8],
{
    let n = name.len();
    let mut out: Vec<u8> = Vec::new();
    push_word_open(&mut out);
    let mut plen: usize = 0;
    let mut k: usize = 0;
    while k < n
        invariant
            n == name@.len(),
            k <= n,
            out@ == word_open() + words_prefix(name@, k as int),
            plen as int == payload_len(name@, k as int),
            plen <= WORD_SPLIT,
        decreases n - k,
    {
        let b = name[k];
        let split = k > 0 && (b < 128 || b >= 192) && plen >= WORD_SPLIT;
        if split {
            push_seq3(&mut out, 63, 61, 13);
            out.push(10);
            out.push(9);
            push_word_open(&mut out);
            plen = 0;
        }
        if (48 <= b && b <= 57) || (65 <= b && b <= 90) || (97 <= b && b <= 122) {
            out.push(b);
            plen = plen + 1;
        } else if b == 32 {
            out.push(95);
            plen = plen + 1;
        } else {
            push_seq3(&mut out, 61, hex_digit(b / 16), hex_digit(b % 16));
            plen = plen + 3;
        }
        if plen > WORD_SPLIT {
            plen = WORD_SPLIT;
        }
        k = k + 1;
        assert(splits_at(name@, k as int) == split);
        assert(out@ =~= word_open() + words_prefix(name@, k as int));
    }
    out.push(63);
    out.push(61);
    assert(out@ =~= word_open() + words_prefix(name@, n as int) + seq![63u8, 61u8]);
    out
}

/// The bytes of `name` as it stands in a header.
pub fn rfc2047_bytes(name: &[u8]) -> (r: Vec<u8>)
    ensures
        r@ == rfc2047_of(name@),
{
    if is_phrase_safe(name) {
        quoted_bytes(name)
    } else {
        words_bytes(name)
    }
}

/// Appends `name` as it stands in a header and returns the column reached
/// from `col`.
pub fn rfc2047_encode(name: &str, output: &mut Vec<u8>, col: usize) -> (r: usize)
    ensures
        final(output)@ == old(output)@ + rfc2047_of(name.spec_bytes()),
        r == column_after(col as int, rfc2047_of(name.spec_bytes())),
{
    let v = rfc2047_bytes(name.as_bytes());
    emit(output, v.as_slice(), col)
}

/// Appends free text as it stands in a header and returns the column
/// reached from `col`.
pub fn text_encode(text: &str, output: &mut Vec<u8>, col: usize) -> (r: usize)
    ensures
        final(output)@ == old(output)@ + text_of(text.spec_bytes()),
        r == column_after(col as int, text_of(text.spec_bytes())),
{
    let b = text.as_bytes();
    if is_phrase_safe(b) {
        emit(output, b, col)
    } else {
        let v = words_bytes(b);
        emit(output, v.as_slice(), col)
    }
}

} // verus!
