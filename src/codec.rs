//! Transfer encodings of RFC 2045: quoted-printable, base64 and the choice
//! between them and plain 7-bit text.
use vstd::prelude::*;
use vstd::string::StringSliceAdditionalSpecFns;

verus! {

/// Longest line, in bytes, that the encoders produce.
pub const LINE_LIMIT: usize = 76;

/// The upper-case hexadecimal digit for a value below 16.
pub open spec fn hex_digit_of(n: u8) -> u8 {
    if n < 10 {
        (48 + n) as u8
    } else {
        (55 + n) as u8
    }
}

pub fn hex_digit(n: u8) -> (r: u8)
    requires
        n < 16,
    ensures
        r == hex_digit_of(n),
{
    if n < 10 {
        48 + n
    } else {
        55 + n
    }
}

pub open spec fn crlf() -> Seq<u8> {
    seq![13u8, 10u8]
}

/// Bytes that quoted-printable writes as they are.
pub open spec fn qp_literal(b: u8) -> bool {
    32 <= b <= 126 && b != 61
}

/// `=XX` with upper-case hexadecimal digits.
pub open spec fn qp_escape(b: u8) -> Seq<u8> {
    seq![61u8, hex_digit_of(b / 16), hex_digit_of(b % 16)]
}

pub open spec fn qp_token(b: u8) -> Seq<u8> {
    if qp_literal(b) {
        seq![b]
    } else {
        qp_escape(b)
    }
}

/// Whether position `i` of a body starts a line break: `\r\n`, or a bare `\n`.
/// Returns the number of input bytes the break takes, 0 when there is none.
pub open spec fn qp_break_len(s: Seq<u8>, i: int, is_body: bool) -> int {
    if !is_body {
        0
    } else if s[i] == 13 && i + 1 < s.len() && s[i + 1] == 10 {
        2
    } else if s[i] == 10 {
        1
    } else {
        0
    }
}

/// Quoted-printable output for `s[i..]` when `col` bytes stand on the current
/// line. A token that would take the line past 75 bytes is put after a soft
/// break `=\r\n`, so no line exceeds 76 bytes with its `=`. In a body, line
/// breaks (`\r\n` or a bare `\n`) are written as `\r\n`.
pub open spec fn qp_from(s: Seq<u8>, i: int, col: int, is_body: bool) -> Seq<u8>
    decreases s.len() - i,
{
    if i < 0 || i >= s.len() {
        seq![]
    } else if qp_break_len(s, i, is_body) > 0 {
        crlf() + qp_from(s, i + qp_break_len(s, i, is_body), 0, is_body)
    } else {
        let t = qp_token(s[i]);
        if col + t.len() > LINE_LIMIT - 1 {
            seq![61u8] + crlf() + t + qp_from(s, i + 1, t.len() as int, is_body)
        } else {
            t + qp_from(s, i + 1, col + t.len(), is_body)
        }
    }
}

pub open spec fn quoted_printable_of(s: Seq<u8>, is_body: bool) -> Seq<u8> {
    qp_from(s, 0, 0, is_body)
}

/// Appends the quoted-printable encoding of `input` to `output` and returns the
/// number of bytes appended.
pub fn quoted_printable_encode(input: &[u8], output: &mut Vec<u8>, is_body: bool) -> (r: usize)
    ensures
        final(output)@ == old(output)@ + quoted_printable_of(input@, is_body),
        r == quoted_printable_of(input@, is_body).len(),
{
    let ghost start = output@;
    let ghost target = start + quoted_printable_of(input@, is_body);
    let mut i: usize = 0;
    let mut col: usize = 0;
    let start_len = output.len();
    while i < input.len()
        invariant
            i <= input@.len(),
            col <= LINE_LIMIT - 1,
            output@ + qp_from(input@, i as int, col as int, is_body) == target,
        decreases input.len() - i,
    {
        let ghost before = output@;
        let b = input[i];
        if is_body && b == 13 && i + 1 < input.len() && input[i + 1] == 10 {
            output.push(13);
            output.push(10);
            col = 0;
            i = i + 2;
            assert(output@ + qp_from(input@, i as int, 0, is_body) =~= before + (crlf()
                + qp_from(input@, i as int, 0, is_body)));
        } else if is_body && b == 10 {
            output.push(13);
            output.push(10);
            col = 0;
            i = i + 1;
            assert(output@ + qp_from(input@, i as int, 0, is_body) =~= before + (crlf()
                + qp_from(input@, i as int, 0, is_body)));
        } else {
            let tlen: usize = if 32 <= b && b <= 126 && b != 61 { 1 } else { 3 };
            let ghost t = qp_token(b);
            let brk: bool = col + tlen > LINE_LIMIT - 1;
            if brk {
                output.push(61);
                output.push(13);
                output.push(10);
                col = 0;
            }
            if tlen == 1 {
                output.push(b);
            } else {
                output.push(61);
                output.push(hex_digit(b / 16));
                output.push(hex_digit(b % 16));
            }
            col = col + tlen;
            i = i + 1;
            if brk {
                assert(output@ + qp_from(input@, i as int, col as int, is_body) =~= before + (
                seq![61u8] + crlf() + t + qp_from(input@, i as int, col as int, is_body)));
            } else {
                assert(output@ + qp_from(input@, i as int, col as int, is_body) =~= before + (t
                    + qp_from(input@, i as int, col as int, is_body)));
            }
        }
    }
    assert(qp_from(input@, i as int, col as int, is_body) =~= seq![]);
    assert(output@ =~= target);
    output.len() - start_len
}


/// The base64 alphabet of RFC 4648.
pub open spec fn b64_char(n: int) -> u8 {
    if n < 26 {
        (65 + n) as u8
    } else if n < 52 {
        (97 + n - 26) as u8
    } else if n < 62 {
        (48 + n - 52) as u8
    } else if n == 62 {
        43u8
    } else {
        47u8
    }
}

/// Base64 of `s` on one line, with `=` padding.
pub open spec fn b64_raw(s: Seq<u8>) -> Seq<u8>
    decreases s.len(),
{
    if s.len() == 0 {
        seq![]
    } else if s.len() == 1 {
        seq![b64_char((s[0] / 4) as int), b64_char(((s[0] % 4) * 16) as int), 61u8, 61u8]
    } else if s.len() == 2 {
        seq![
            b64_char((s[0] / 4) as int),
            b64_char(((s[0] % 4) * 16 + s[1] / 16) as int),
            b64_char(((s[1] % 16) * 4) as int),
            61u8,
        ]
    } else {
        seq![
            b64_char((s[0] / 4) as int),
            b64_char(((s[0] % 4) * 16 + s[1] / 16) as int),
            b64_char(((s[1] % 16) * 4 + s[2] / 64) as int),
            b64_char((s[2] % 64) as int),
        ] + b64_raw(s.subrange(3, s.len() as int))
    }
}

/// `e` cut into lines of 76 bytes, each line ended by `\r\n`.
pub open spec fn fold_lines(e: Seq<u8>) -> Seq<u8>
    decreases e.len(),
{
    if e.len() == 0 {
        seq![]
    } else if e.len() <= LINE_LIMIT {
        e + crlf()
    } else {
        e.subrange(0, LINE_LIMIT as int) + crlf() + fold_lines(
            e.subrange(LINE_LIMIT as int, e.len() as int),
        )
    }
}

pub open spec fn base64_of(s: Seq<u8>) -> Seq<u8> {
    fold_lines(b64_raw(s))
}

fn b64_digit(n: u8) -> (r: u8)
    requires
        n < 64,
    ensures
        r == b64_char(n as int),
{
    if n < 26 {
        65 + n
    } else if n < 52 {
        97 + n - 26
    } else if n < 62 {
        48 + n - 52
    } else if n == 62 {
        43
    } else {
        47
    }
}

fn base64_raw(input: &[u8]) -> (r: Vec<u8>)
    ensures
        r@ == b64_raw(input@),
{
    let mut out: Vec<u8> = Vec::new();
    let n = input.len();
    let mut i: usize = 0;
    assert(input@.subrange(0, n as int) =~= input@);
    assert(out@ + b64_raw(input@) =~= b64_raw(input@));
    while i < n
        invariant
            n == input@.len(),
            i <= n,
            out@ + b64_raw(input@.subrange(i as int, n as int)) == b64_raw(input@),
        decreases n - i,
    {
        let ghost rest = input@.subrange(i as int, n as int);
        let ghost before = out@;
        let b0 = input[i];
        if n - i == 1 {
            out.push(b64_digit(b0 / 4));
            out.push(b64_digit((b0 % 4) * 16));
            out.push(61);
            out.push(61);
            i = n;
        } else if n - i == 2 {
            let b1 = input[i + 1];
            out.push(b64_digit(b0 / 4));
            out.push(b64_digit((b0 % 4) * 16 + b1 / 16));
            out.push(b64_digit((b1 % 16) * 4));
            out.push(61);
            i = n;
        } else {
            let b1 = input[i + 1];
            let b2 = input[i + 2];
            out.push(b64_digit(b0 / 4));
            out.push(b64_digit((b0 % 4) * 16 + b1 / 16));
            out.push(b64_digit((b1 % 16) * 4 + b2 / 64));
            out.push(b64_digit(b2 % 64));
            i = i + 3;
            assert(rest.subrange(3, rest.len() as int) =~= input@.subrange(i as int, n as int));
        }
        assert(out@ + b64_raw(input@.subrange(i as int, n as int)) =~= before + b64_raw(rest));
    }
    assert(input@.subrange(i as int, n as int) =~= seq![]);
    assert(out@ =~= b64_raw(input@));
    out
}

/// Appends the base64 encoding of `input`, in lines of 76 bytes ended by
/// `\r\n`, to `output` and returns the number of bytes appended.
pub fn base64_encode(input: &[u8], output: &mut Vec<u8>) -> (r: usize)
    ensures
        final(output)@ == old(output)@ + base64_of(input@),
        r == base64_of(input@).len(),
{
    let raw = base64_raw(input);
    let ghost start = output@;
    let start_len = output.len();
    let n = raw.len();
    let mut i: usize = 0;
    assert(raw@.subrange(0, n as int) =~= raw@);
    while i < n
        invariant
            n == raw@.len(),
            i <= n,
            output@ + fold_lines(raw@.subrange(i as int, n as int)) == start + fold_lines(raw@),
        decreases n - i,
    {
        let ghost rest = raw@.subrange(i as int, n as int);
        let ghost before = output@;
        let end: usize = if n - i <= LINE_LIMIT { n } else { i + LINE_LIMIT };
        let mut j: usize = i;
        while j < end
            invariant
                i <= j <= end <= n,
                n == raw@.len(),
                output@ == before + raw@.subrange(i as int, j as int),
            decreases end - j,
        {
            output.push(raw[j]);
            j = j + 1;
            assert(output@ =~= before + raw@.subrange(i as int, j as int));
        }
        output.push(13);
        output.push(10);
        if end < n {
            assert(rest.subrange(0, LINE_LIMIT as int) =~= raw@.subrange(i as int, end as int));
            assert(rest.subrange(LINE_LIMIT as int, rest.len() as int) =~= raw@.subrange(
                end as int,
                n as int,
            ));
        } else {
            assert(rest =~= raw@.subrange(i as int, end as int));
            assert(raw@.subrange(end as int, n as int) =~= seq![]);
        }
        i = end;
        assert(output@ + fold_lines(raw@.subrange(i as int, n as int)) =~= before + fold_lines(
            rest,
        ));
    }
    assert(raw@.subrange(i as int, n as int) =~= seq![]);
    assert(raw@.subrange(0, n as int) =~= raw@);
    assert(output@ =~= start + fold_lines(raw@));
    output.len() - start_len
}


/// Appends `bytes` to `output`.
pub fn push_bytes(output: &mut Vec<u8>, bytes: &[u8])
    ensures
        final(output)@ == old(output)@ + bytes@,
{
    let ghost start = output@;
    let mut i: usize = 0;
    while i < bytes.len()
        invariant
            i <= bytes@.len(),
            output@ == start + bytes@.subrange(0, i as int),
        decreases bytes.len() - i,
    {
        output.push(bytes[i]);
        i = i + 1;
        assert(output@ =~= start + bytes@.subrange(0, i as int));
    }
    assert(bytes@.subrange(0, i as int) =~= bytes@);
}

/// Appends the UTF-8 bytes of `s` to `output`.
pub fn push_str(output: &mut Vec<u8>, s: &str)
    ensures
        final(output)@ == old(output)@ + s.spec_bytes(),
{
    push_bytes(output, s.as_bytes());
}

/// Transfer encoding of a part's content.
#[derive(PartialEq, Eq, Structural, Clone, Copy, Debug)]
pub enum EncodingType {
    SevenBit,
    QuotedPrintable,
    Base64,
}

/// Bytes that may stand in a 7-bit body as they are.
pub open spec fn seven_bit_byte(b: u8) -> bool {
    (32 <= b <= 126) || b == 9 || b == 13 || b == 10
}

/// Length of the line that the first `n` bytes of `s` end on; `\r` is not
/// counted and `\n` starts a new line.
pub open spec fn line_col(s: Seq<u8>, n: int) -> int
    decreases n,
{
    if n <= 0 {
        0
    } else if s[n - 1] == 10 {
        0
    } else if s[n - 1] == 13 {
        line_col(s, n - 1)
    } else {
        line_col(s, n - 1) + 1
    }
}

/// `s` may be sent as 7-bit text: only printable ASCII, tabs and line
/// breaks, and no line over 76 bytes.
pub open spec fn fits_seven_bit(s: Seq<u8>) -> bool {
    forall|i: int| 0 <= i < s.len() ==> seven_bit_byte(#[trigger] s[i]) && line_col(s, i + 1) <= LINE_LIMIT
}

/// Bytes that quoted-printable has to escape; line breaks of a body are not.
pub open spec fn needs_escape(b: u8, is_body: bool) -> bool {
    !qp_literal(b) && !(is_body && (b == 13 || b == 10))
}

/// Number of bytes among the first `n` of `s` that need escaping.
pub open spec fn escape_count(s: Seq<u8>, n: int, is_body: bool) -> int
    decreases n,
{
    if n <= 0 {
        0
    } else {
        escape_count(s, n - 1, is_body) + if needs_escape(s[n - 1], is_body) {
            1int
        } else {
            0int
        }
    }
}

/// 7-bit where it fits; quoted-printable where at most a quarter of the
/// bytes need escaping; base64 otherwise.
pub open spec fn encoding_of(s: Seq<u8>, is_body: bool) -> EncodingType {
    if fits_seven_bit(s) {
        EncodingType::SevenBit
    } else if escape_count(s, s.len() as int, is_body) <= s.len() / 4 {
        EncodingType::QuotedPrintable
    } else {
        EncodingType::Base64
    }
}

/// Chooses the transfer encoding of `input` in one pass over it.
pub fn get_encoding_type(input: &[u8], is_body: bool) -> (r: EncodingType)
    ensures
        r == encoding_of(input@, is_body),
{
    let mut fits = true;
    let mut col: usize = 0;
    let mut escapes: usize = 0;
    let mut i: usize = 0;
    while i < input.len()
        invariant
            i <= input@.len(),
            col as int == line_col(input@, i as int),
            col <= i,
            escapes as int == escape_count(input@, i as int, is_body),
            escapes <= i,
            fits == forall|j: int|
                0 <= j < i ==> seven_bit_byte(#[trigger] input@[j]) && line_col(input@, j + 1)
                    <= LINE_LIMIT,
        decreases input.len() - i,
    {
        let b = input[i];
        if b == 10 {
            col = 0;
        } else if b != 13 {
            col = col + 1;
        }
        if !((32 <= b && b <= 126) || b == 9 || b == 13 || b == 10) || col > LINE_LIMIT {
            fits = false;
        }
        if !(32 <= b && b <= 126 && b != 61) && !(is_body && (b == 13 || b == 10)) {
            escapes = escapes + 1;
        }
        i = i + 1;
    }
    if fits {
        EncodingType::SevenBit
    } else if escapes <= input.len() / 4 {
        EncodingType::QuotedPrintable
    } else {
        EncodingType::Base64
    }
}

/// A body sent as 7-bit text: in a body, a `\n` not preceded by `\r` becomes
/// `\r\n`; otherwise the bytes are unchanged. This is the output for the
/// first `n` bytes.
pub open spec fn seven_bit_prefix(s: Seq<u8>, n: int, is_body: bool) -> Seq<u8>
    decreases n,
{
    if n <= 0 {
        seq![]
    } else if is_body && s[n - 1] == 10 && (n == 1 || s[n - 2] != 13) {
        seven_bit_prefix(s, n - 1, is_body) + crlf()
    } else {
        seven_bit_prefix(s, n - 1, is_body).push(s[n - 1])
    }
}

pub open spec fn seven_bit_of(s: Seq<u8>, is_body: bool) -> Seq<u8> {
    seven_bit_prefix(s, s.len() as int, is_body)
}

/// Appends `input` as 7-bit text.
pub fn seven_bit_encode(input: &[u8], output: &mut Vec<u8>, is_body: bool)
    ensures
        final(output)@ == old(output)@ + seven_bit_of(input@, is_body),
{
    let ghost start = output@;
    let mut prev: u8 = 0;
    let mut i: usize = 0;
    while i < input.len()
        invariant
            i <= input@.len(),
            output@ == start + seven_bit_prefix(input@, i as int, is_body),
            i > 0 ==> prev == input@[i - 1],
        decreases input.len() - i,
    {
        let b = input[i];
        if is_body && b == 10 && (i == 0 || prev != 13) {
            output.push(13);
        }
        output.push(b);
        prev = b;
        i = i + 1;
        assert(output@ =~= start + seven_bit_prefix(input@, i as int, is_body));
    }
}

/// The header line naming an encoding, with the blank line after it.
pub open spec fn encoding_header(e: EncodingType) -> Seq<u8> {
    match e {
        EncodingType::SevenBit => "Content-Transfer-Encoding: 7bit\r\n\r\n".spec_bytes(),
        EncodingType::QuotedPrintable => "Content-Transfer-Encoding: quoted-printable\r\n\r\n".spec_bytes(),
        EncodingType::Base64 => "Content-Transfer-Encoding: base64\r\n\r\n".spec_bytes(),
    }
}

/// The encoded content in encoding `e`.
pub open spec fn encoded_as(s: Seq<u8>, e: EncodingType, is_body: bool) -> Seq<u8> {
    match e {
        EncodingType::SevenBit => seven_bit_of(s, is_body),
        EncodingType::QuotedPrintable => quoted_printable_of(s, is_body),
        EncodingType::Base64 => base64_of(s),
    }
}

/// Appends the `Content-Transfer-Encoding` header for `e`, a blank line and
/// `input` encoded in `e`.
pub fn write_encoded(input: &[u8], output: &mut Vec<u8>, e: EncodingType, is_body: bool)
    ensures
        final(output)@ == old(output)@ + encoding_header(e) + encoded_as(input@, e, is_body),
{
    match e {
        EncodingType::SevenBit => {
            push_str(output, "Content-Transfer-Encoding: 7bit\r\n\r\n");
            seven_bit_encode(input, output, is_body);
        },
        EncodingType::QuotedPrintable => {
            push_str(output, "Content-Transfer-Encoding: quoted-printable\r\n\r\n");
            quoted_printable_encode(input, output, is_body);
        },
        EncodingType::Base64 => {
            push_str(output, "Content-Transfer-Encoding: base64\r\n\r\n");
            base64_encode(input, output);
        },
    }
}

/// Chooses the transfer encoding of `input` and appends its header and the
/// encoded content.
pub fn detect_encoding(input: &[u8], output: &mut Vec<u8>, is_body: bool)
    ensures
        final(output)@ == old(output)@ + encoding_header(encoding_of(input@, is_body))
            + encoded_as(input@, encoding_of(input@, is_body), is_body),
{
    let e = get_encoding_type(input, is_body);
    write_encoded(input, output, e, is_body);
}


/// `x` capped at the largest `usize`.
pub open spec fn sat(x: int) -> int {
    if x > usize::MAX {
        usize::MAX as int
    } else {
        x
    }
}

/// The column after writing `s` from column `c`: a `\n` starts a new line at
/// column 0 and every other byte moves one column on. The count stops at the
/// largest `usize`.
pub open spec fn column_after(c: int, s: Seq<u8>) -> int
    decreases s.len(),
{
    if s.len() == 0 {
        c
    } else if s.last() == 10 {
        0
    } else {
        sat(column_after(c, s.drop_last()) + 1)
    }
}

pub proof fn lemma_column_after_bounds(c: int, s: Seq<u8>)
    requires
        0 <= c <= usize::MAX,
    ensures
        0 <= column_after(c, s) <= usize::MAX,
    decreases s.len(),
{
    if s.len() > 0 {
        lemma_column_after_bounds(c, s.drop_last());
    }
}

/// Writing `a` and then `b` ends in the column that writing `a + b` does.
pub proof fn lemma_column_after_concat(c: int, a: Seq<u8>, b: Seq<u8>)
    ensures
        column_after(c, a + b) == column_after(column_after(c, a), b),
    decreases b.len(),
{
    if b.len() == 0 {
        assert(a + b =~= a);
    } else {
        assert((a + b).drop_last() =~= a + b.drop_last());
        assert((a + b).last() == b.last());
        lemma_column_after_concat(c, a, b.drop_last());
    }
}

/// No line of `s`, written from column `c`, is longer than `limit`: the
/// column before each `\r`, and at the end, is at most `limit`.
pub open spec fn lines_within(s: Seq<u8>, c: int, limit: int) -> bool {
    forall|i: int|
        0 <= i <= s.len() && (i == s.len() || s[i] == 13) ==> column_after(
            c,
            #[trigger] s.subrange(0, i),
        ) <= limit
}

pub open spec fn no_breaks(s: Seq<u8>) -> bool {
    forall|i: int| 0 <= i < s.len() ==> #[trigger] s[i] != 10 && s[i] != 13
}

proof fn lemma_column_plain(c: int, s: Seq<u8>)
    requires
        0 <= c <= usize::MAX,
        no_breaks(s),
    ensures
        column_after(c, s) == sat(c + s.len()),
    decreases s.len(),
{
    if s.len() > 0 {
        let d = s.drop_last();
        assert(no_breaks(d)) by {
            assert forall|i: int| 0 <= i < d.len() implies #[trigger] d[i] != 10 && d[i] != 13 by {
                assert(d[i] == s[i]);
            }
        }
        lemma_column_plain(c, d);
        assert(s[s.len() - 1] != 10);
        assert(s.last() == s[s.len() - 1]);
        assert(column_after(c, s) == sat(column_after(c, d) + 1));
        assert(d.len() + 1 == s.len());
    }
}

proof fn lemma_lines_plain(s: Seq<u8>, c: int, limit: int)
    requires
        no_breaks(s),
        0 <= c,
        c + s.len() <= limit <= usize::MAX,
    ensures
        lines_within(s, c, limit),
{
    assert forall|i: int|
        0 <= i <= s.len() && (i == s.len() || s[i] == 13) implies column_after(
        c,
        #[trigger] s.subrange(0, i),
    ) <= limit by {
        assert(i == s.len());
        assert(s.subrange(0, i) =~= s);
        lemma_column_plain(c, s);
    }
}

proof fn lemma_lines_crlf(c: int, limit: int)
    requires
        0 <= c <= limit,
    ensures
        lines_within(crlf(), c, limit),
        column_after(c, crlf()) == 0,
{
    let s = crlf();
    assert(s.last() == 10u8);
    assert forall|i: int|
        0 <= i <= s.len() && (i == s.len() || s[i] == 13) implies column_after(
        c,
        #[trigger] s.subrange(0, i),
    ) <= limit by {
        if i == 0 {
            assert(s.subrange(0, 0).len() == 0);
        } else {
            assert(i == 2);
            assert(s.subrange(0, 2) =~= s);
        }
    }
}

proof fn lemma_lines_concat(a: Seq<u8>, b: Seq<u8>, c: int, limit: int)
    requires
        lines_within(a, c, limit),
        lines_within(b, column_after(c, a), limit),
    ensures
        lines_within(a + b, c, limit),
{
    let s = a + b;
    assert forall|i: int|
        0 <= i <= s.len() && (i == s.len() || s[i] == 13) implies column_after(
        c,
        #[trigger] s.subrange(0, i),
    ) <= limit by {
        if i < a.len() {
            assert(s.subrange(0, i) =~= a.subrange(0, i));
            assert(s[i] == a[i]);
        } else if i == a.len() {
            assert(s.subrange(0, i) =~= a);
            assert(a.subrange(0, a.len() as int) =~= a);
            assert(b.subrange(0, 0) =~= Seq::<u8>::empty());
            if b.len() > 0 {
                assert(s[i] == b[0]);
            }
        } else {
            let j = i - a.len();
            assert(s.subrange(0, i) =~= a + b.subrange(0, j));
            lemma_column_after_concat(c, a, b.subrange(0, j));
            if i < s.len() {
                assert(s[i] == b[j]);
            }
        }
    }
}

/// No line of a quoted-printable output is longer than 76 bytes.
pub proof fn lemma_qp_lines(s: Seq<u8>, i: int, col: int, is_body: bool)
    requires
        0 <= col <= LINE_LIMIT - 1,
    ensures
        lines_within(qp_from(s, i, col, is_body), col, LINE_LIMIT as int),
    decreases s.len() - i,
{
    if i < 0 || i >= s.len() {
        lemma_lines_plain(seq![], col, LINE_LIMIT as int);
        assert(qp_from(s, i, col, is_body) =~= seq![]);
    } else if qp_break_len(s, i, is_body) > 0 {
        let rest = qp_from(s, i + qp_break_len(s, i, is_body), 0, is_body);
        lemma_qp_lines(s, i + qp_break_len(s, i, is_body), 0, is_body);
        lemma_lines_crlf(col, LINE_LIMIT as int);
        lemma_lines_concat(crlf(), rest, col, LINE_LIMIT as int);
    } else {
        let t = qp_token(s[i]);
        assert(no_breaks(t));
        if col + t.len() > LINE_LIMIT - 1 {
            let rest = qp_from(s, i + 1, t.len() as int, is_body);
            lemma_qp_lines(s, i + 1, t.len() as int, is_body);
            lemma_lines_plain(seq![61u8], col, LINE_LIMIT as int);
            assert(no_breaks(seq![61u8]));
            lemma_column_plain(col, seq![61u8]);
            lemma_lines_crlf(col + 1, LINE_LIMIT as int);
            lemma_lines_concat(seq![61u8], crlf(), col, LINE_LIMIT as int);
            lemma_column_after_concat(col, seq![61u8], crlf());
            lemma_lines_plain(t, 0, LINE_LIMIT as int);
            lemma_lines_concat(seq![61u8] + crlf(), t, col, LINE_LIMIT as int);
            lemma_column_after_concat(col, seq![61u8] + crlf(), t);
            lemma_column_plain(0, t);
            lemma_lines_concat(seq![61u8] + crlf() + t, rest, col, LINE_LIMIT as int);
        } else {
            let rest = qp_from(s, i + 1, col + t.len(), is_body);
            lemma_qp_lines(s, i + 1, col + t.len(), is_body);
            lemma_lines_plain(t, col, LINE_LIMIT as int);
            lemma_column_plain(col, t);
            lemma_lines_concat(t, rest, col, LINE_LIMIT as int);
        }
    }
}

/// No line of the quoted-printable encoding of any input is longer than 76
/// bytes.
pub proof fn lemma_quoted_printable_lines(s: Seq<u8>, is_body: bool)
    ensures
        lines_within(quoted_printable_of(s, is_body), 0, LINE_LIMIT as int),
{
    lemma_qp_lines(s, 0, 0, is_body);
}

proof fn lemma_b64_no_breaks(s: Seq<u8>)
    ensures
        no_breaks(b64_raw(s)),
    decreases s.len(),
{
    if s.len() >= 3 {
        lemma_b64_no_breaks(s.subrange(3, s.len() as int));
    }
}

proof fn lemma_fold_lines_within(e: Seq<u8>)
    requires
        no_breaks(e),
    ensures
        lines_within(fold_lines(e), 0, LINE_LIMIT as int),
    decreases e.len(),
{
    if e.len() == 0 {
        lemma_lines_plain(seq![], 0, LINE_LIMIT as int);
        assert(fold_lines(e) =~= seq![]);
    } else if e.len() <= LINE_LIMIT {
        lemma_lines_plain(e, 0, LINE_LIMIT as int);
        lemma_column_plain(0, e);
        lemma_lines_crlf(e.len() as int, LINE_LIMIT as int);
        lemma_lines_concat(e, crlf(), 0, LINE_LIMIT as int);
    } else {
        let head = e.subrange(0, LINE_LIMIT as int);
        let tail = e.subrange(LINE_LIMIT as int, e.len() as int);
        assert(no_breaks(head)) by {
            assert forall|i: int| 0 <= i < head.len() implies #[trigger] head[i] != 10 && head[i] != 13 by {
                assert(head[i] == e[i]);
            }
        }
        assert(no_breaks(tail)) by {
            assert forall|i: int| 0 <= i < tail.len() implies #[trigger] tail[i] != 10 && tail[i] != 13 by {
                assert(tail[i] == e[i + LINE_LIMIT]);
            }
        }
        lemma_fold_lines_within(tail);
        lemma_lines_plain(head, 0, LINE_LIMIT as int);
        lemma_column_plain(0, head);
        lemma_lines_crlf(LINE_LIMIT as int, LINE_LIMIT as int);
        lemma_lines_concat(head, crlf(), 0, LINE_LIMIT as int);
        lemma_column_after_concat(0, head, crlf());
        lemma_lines_concat(head + crlf(), fold_lines(tail), 0, LINE_LIMIT as int);
    }
}

/// No line of the base64 encoding of any input is longer than 76 bytes.
pub proof fn lemma_base64_lines(s: Seq<u8>)
    ensures
        lines_within(base64_of(s), 0, LINE_LIMIT as int),
{
    lemma_b64_no_breaks(s);
    lemma_fold_lines_within(b64_raw(s));
}

/// Value of a hexadecimal digit.
pub open spec fn hex_value(b: u8) -> int {
    if 48 <= b <= 57 {
        b - 48
    } else if 65 <= b <= 70 {
        b - 55
    } else if 97 <= b <= 102 {
        b - 87
    } else {
        0
    }
}

/// A standard quoted-printable decoder: soft breaks `=\r\n` vanish, `=XY`
/// stands for the byte `XY`, other bytes stand for themselves.
pub open spec fn qp_decode(s: Seq<u8>) -> Seq<u8>
    decreases s.len(),
{
    if s.len() == 0 {
        seq![]
    } else if s.len() >= 3 && s[0] == 61 && s[1] == 13 && s[2] == 10 {
        qp_decode(s.subrange(3, s.len() as int))
    } else if s.len() >= 3 && s[0] == 61 {
        seq![(hex_value(s[1]) * 16 + hex_value(s[2])) as u8] + qp_decode(
            s.subrange(3, s.len() as int),
        )
    } else {
        seq![s[0]] + qp_decode(s.subrange(1, s.len() as int))
    }
}

/// Every `\n` from position `i` on follows a `\r`.
pub open spec fn lf_after_cr(s: Seq<u8>, i: int) -> bool {
    forall|k: int| i <= k < s.len() && #[trigger] s[k] == 10 ==> k > i && s[k - 1] == 13
}

proof fn lemma_decode_token(b: u8, rest: Seq<u8>)
    ensures
        qp_decode(qp_token(b) + rest) == seq![b] + qp_decode(rest),
{
    let t = qp_token(b);
    let s = t + rest;
    if qp_literal(b) {
        assert(s[0] == b);
        assert(s.subrange(1, s.len() as int) =~= rest);
    } else {
        let hi = b / 16;
        let lo = b % 16;
        assert(s[0] == 61u8);
        assert(s[1] == hex_digit_of(hi));
        assert(s[2] == hex_digit_of(lo));
        assert(hex_value(hex_digit_of(hi)) == hi);
        assert(hex_value(hex_digit_of(lo)) == lo);
        assert(s.subrange(3, s.len() as int) =~= rest);
        assert((hi * 16 + lo) as u8 == b);
    }
}

proof fn lemma_qp_round_trip_from(s: Seq<u8>, i: int, col: int, is_body: bool)
    requires
        0 <= i <= s.len(),
        is_body ==> lf_after_cr(s, i),
    ensures
        qp_decode(qp_from(s, i, col, is_body)) == s.subrange(i, s.len() as int),
    decreases s.len() - i,
{
    if i >= s.len() {
        assert(s.subrange(i, s.len() as int) =~= seq![]);
    } else if qp_break_len(s, i, is_body) > 0 {
        if s[i] == 10 {
            assert(false);
        }
        assert(qp_break_len(s, i, is_body) == 2);
        let rest = qp_from(s, i + 2, 0, is_body);
        assert(is_body ==> lf_after_cr(s, i + 2)) by {
            if is_body {
                assert forall|k: int| i + 2 <= k < s.len() && #[trigger] s[k] == 10 implies k > i
                    + 2 && s[k - 1] == 13 by {
                    assert(k > i && s[k - 1] == 13);
                }
            }
        }
        lemma_qp_round_trip_from(s, i + 2, 0, is_body);
        let o = crlf() + rest;
        assert(o[0] == 13u8);
        assert(o.subrange(1, o.len() as int) =~= seq![10u8] + rest);
        assert((seq![10u8] + rest).subrange(1, rest.len() + 1int) =~= rest);
        assert((seq![10u8] + rest)[0] == 10u8);
        assert(qp_decode(seq![10u8] + rest) == seq![10u8] + qp_decode(rest));
        assert(qp_decode(o) == seq![13u8] + qp_decode(seq![10u8] + rest));
        assert(qp_from(s, i, col, is_body) == o);
        assert(qp_decode(o) =~= seq![13u8, 10u8] + qp_decode(rest));
        assert(s.subrange(i, s.len() as int) =~= seq![s[i], s[i + 1]] + s.subrange(
            i + 2,
            s.len() as int,
        ));
    } else {
        let t = qp_token(s[i]);
        assert(is_body ==> lf_after_cr(s, i + 1)) by {
            if is_body {
                assert forall|k: int| i + 1 <= k < s.len() && #[trigger] s[k] == 10 implies k > i
                    + 1 && s[k - 1] == 13 by {
                    assert(k > i && s[k - 1] == 13);
                }
            }
        }
        let rest = if col + t.len() > LINE_LIMIT - 1 {
            qp_from(s, i + 1, t.len() as int, is_body)
        } else {
            qp_from(s, i + 1, col + t.len(), is_body)
        };
        if col + t.len() > LINE_LIMIT - 1 {
            lemma_qp_round_trip_from(s, i + 1, t.len() as int, is_body);
        } else {
            lemma_qp_round_trip_from(s, i + 1, col + t.len(), is_body);
        }
        lemma_decode_token(s[i], rest);
        if col + t.len() > LINE_LIMIT - 1 {
            let o = seq![61u8] + crlf() + t + rest;
            assert(o[0] == 61u8 && o[1] == 13u8 && o[2] == 10u8);
            assert(o.subrange(3, o.len() as int) =~= t + rest);
            assert(qp_from(s, i, col, is_body) == o);
            assert(qp_decode(o) == qp_decode(t + rest));
        } else {
            assert(qp_from(s, i, col, is_body) == t + rest);
        }
        assert(s.subrange(i, s.len() as int) =~= seq![s[i]] + s.subrange(i + 1, s.len() as int));
    }
}

/// Decoding the quoted-printable encoding gives the input back, for a body
/// whose every `\n` follows a `\r` (a bare `\n` of a body becomes `\r\n`)
/// and for any other content.
pub proof fn lemma_quoted_printable_round_trip(s: Seq<u8>, is_body: bool)
    requires
        is_body ==> lf_after_cr(s, 0),
    ensures
        qp_decode(quoted_printable_of(s, is_body)) == s,
{
    lemma_qp_round_trip_from(s, 0, 0, is_body);
    assert(s.subrange(0, s.len() as int) =~= s);
}

/// Position of a byte in the base64 alphabet.
pub open spec fn b64_index(c: u8) -> int {
    if 65 <= c <= 90 {
        c - 65
    } else if 97 <= c <= 122 {
        c - 71
    } else if 48 <= c <= 57 {
        c + 4
    } else if c == 43 {
        62
    } else {
        63
    }
}

/// `s` without its `\r` and `\n` bytes.
pub open spec fn strip_breaks(s: Seq<u8>) -> Seq<u8>
    decreases s.len(),
{
    if s.len() == 0 {
        seq![]
    } else if s.last() == 13 || s.last() == 10 {
        strip_breaks(s.drop_last())
    } else {
        strip_breaks(s.drop_last()).push(s.last())
    }
}

/// A standard base64 decoder on one line: four characters give three bytes,
/// fewer where `=` pads.
pub open spec fn b64_decode_raw(e: Seq<u8>) -> Seq<u8>
    decreases e.len(),
{
    if e.len() < 4 {
        seq![]
    } else {
        let v0 = b64_index(e[0]);
        let v1 = b64_index(e[1]);
        let v2 = b64_index(e[2]);
        let v3 = b64_index(e[3]);
        let rest = b64_decode_raw(e.subrange(4, e.len() as int));
        if e[2] == 61 {
            seq![(v0 * 4 + v1 / 16) as u8] + rest
        } else if e[3] == 61 {
            seq![(v0 * 4 + v1 / 16) as u8, ((v1 % 16) * 16 + v2 / 4) as u8] + rest
        } else {
            seq![
                (v0 * 4 + v1 / 16) as u8,
                ((v1 % 16) * 16 + v2 / 4) as u8,
                ((v2 % 4) * 64 + v3) as u8,
            ] + rest
        }
    }
}

/// A standard base64 decoder: line breaks are skipped.
pub open spec fn b64_decode(s: Seq<u8>) -> Seq<u8> {
    b64_decode_raw(strip_breaks(s))
}

proof fn lemma_strip_concat(a: Seq<u8>, b: Seq<u8>)
    ensures
        strip_breaks(a + b) == strip_breaks(a) + strip_breaks(b),
    decreases b.len(),
{
    if b.len() == 0 {
        assert(a + b =~= a);
        assert(strip_breaks(a) + strip_breaks(b) =~= strip_breaks(a));
    } else {
        assert((a + b).drop_last() =~= a + b.drop_last());
        assert((a + b).last() == b.last());
        lemma_strip_concat(a, b.drop_last());
        if !(b.last() == 13 || b.last() == 10) {
            assert(strip_breaks(a) + strip_breaks(b.drop_last()).push(b.last()) =~= (
            strip_breaks(a) + strip_breaks(b.drop_last())).push(b.last()));
        }
    }
}

proof fn lemma_strip_plain(s: Seq<u8>)
    requires
        no_breaks(s),
    ensures
        strip_breaks(s) == s,
    decreases s.len(),
{
    if s.len() > 0 {
        let d = s.drop_last();
        assert(no_breaks(d)) by {
            assert forall|i: int| 0 <= i < d.len() implies #[trigger] d[i] != 10 && d[i] != 13 by {
                assert(d[i] == s[i]);
            }
        }
        lemma_strip_plain(d);
        assert(s.last() == s[s.len() - 1]);
        assert(d.push(s.last()) =~= s);
    }
}

proof fn lemma_strip_fold(e: Seq<u8>)
    requires
        no_breaks(e),
    ensures
        strip_breaks(fold_lines(e)) == e,
    decreases e.len(),
{
    let c = crlf();
    assert(strip_breaks(c) =~= seq![]) by {
        assert(c.last() == 10u8);
        assert(c.drop_last() =~= seq![13u8]);
        assert(c.drop_last().last() == 13u8);
        assert(c.drop_last().drop_last() =~= Seq::<u8>::empty());
        assert(strip_breaks(Seq::<u8>::empty()) =~= seq![]);
        assert(strip_breaks(c.drop_last()) == strip_breaks(c.drop_last().drop_last()));
        assert(strip_breaks(c) == strip_breaks(c.drop_last()));
    }
    if e.len() == 0 {
        assert(fold_lines(e) =~= seq![]);
    } else if e.len() <= LINE_LIMIT {
        lemma_strip_concat(e, c);
        lemma_strip_plain(e);
        assert(e + seq![] =~= e);
    } else {
        let head = e.subrange(0, LINE_LIMIT as int);
        let tail = e.subrange(LINE_LIMIT as int, e.len() as int);
        assert(no_breaks(head)) by {
            assert forall|i: int| 0 <= i < head.len() implies #[trigger] head[i] != 10 && head[i] != 13 by {
                assert(head[i] == e[i]);
            }
        }
        assert(no_breaks(tail)) by {
            assert forall|i: int| 0 <= i < tail.len() implies #[trigger] tail[i] != 10 && tail[i] != 13 by {
                assert(tail[i] == e[i + LINE_LIMIT]);
            }
        }
        lemma_strip_fold(tail);
        lemma_strip_plain(head);
        lemma_strip_concat(head, c);
        lemma_strip_concat(head + c, fold_lines(tail));
        assert(head + seq![] =~= head);
        assert(head + tail =~= e);
    }
}

proof fn lemma_b64_index(n: int)
    requires
        0 <= n < 64,
    ensures
        b64_index(b64_char(n)) == n,
        b64_char(n) != 61,
{
}

proof fn lemma_b64_round_trip_raw(s: Seq<u8>)
    ensures
        b64_decode_raw(b64_raw(s)) == s,
    decreases s.len(),
{
    if s.len() == 0 {
        assert(b64_raw(s) =~= seq![]);
        assert(s =~= seq![]);
    } else {
        let s0 = s[0] as int;
        let v0 = s0 / 4;
        let v1 = (s0 % 4) * 16 + (if s.len() >= 2 { s[1] as int / 16 } else { 0 });
        lemma_b64_index(v0);
        lemma_b64_index(v1);
        assert(((v0 * 4 + v1 / 16) as u8) == s[0]) by (nonlinear_arith)
            requires
                v0 == s0 / 4,
                0 <= s0 < 256,
                s0 == s[0] as int,
                v1 == (s0 % 4) * 16 + (if s.len() >= 2 { s[1] as int / 16 } else { 0 }),
                s.len() >= 2 ==> 0 <= s[1] < 256,
        ;
        if s.len() == 1 {
            let e = b64_raw(s);
            lemma_b64_index((s0 % 4) * 16);
            assert(e[2] == 61u8);
            assert(e[0] == b64_char(v0) && e[1] == b64_char(v1));
            assert(e.subrange(4, e.len() as int) =~= Seq::<u8>::empty());
            assert(b64_decode_raw(Seq::<u8>::empty()) =~= seq![]);
            assert(seq![s[0]] =~= s);
            assert(b64_decode_raw(e) =~= seq![s[0]]);
        } else {
            let s1 = s[1] as int;
            let v2 = (s1 % 16) * 4 + (if s.len() >= 3 { s[2] as int / 64 } else { 0 });
            lemma_b64_index(v2);
            assert((((v1 % 16) * 16 + v2 / 4) as u8) == s[1]) by (nonlinear_arith)
                requires
                    v1 == (s0 % 4) * 16 + s1 / 16,
                    0 <= s0 < 256,
                    0 <= s1 < 256,
                    s1 == s[1] as int,
                    v2 == (s1 % 16) * 4 + (if s.len() >= 3 { s[2] as int / 64 } else { 0 }),
                    s.len() >= 3 ==> 0 <= s[2] < 256,
            ;
            if s.len() == 2 {
                let e = b64_raw(s);
                assert(e[3] == 61u8);
                assert(e[0] == b64_char(v0) && e[1] == b64_char(v1) && e[2] == b64_char(v2));
                assert(e.subrange(4, e.len() as int) =~= Seq::<u8>::empty());
                assert(b64_decode_raw(Seq::<u8>::empty()) =~= seq![]);
                assert(seq![s[0], s[1]] =~= s);
                assert(b64_decode_raw(e) =~= seq![s[0], s[1]]);
            } else {
                let s2 = s[2] as int;
                let v3 = s2 % 64;
                lemma_b64_index(v3);
                assert((((v2 % 4) * 64 + v3) as u8) == s[2]) by (nonlinear_arith)
                    requires
                        v2 == (s1 % 16) * 4 + s2 / 64,
                        v3 == s2 % 64,
                        0 <= s2 < 256,
                        s2 == s[2] as int,
                ;
                let rest = s.subrange(3, s.len() as int);
                lemma_b64_round_trip_raw(rest);
                let e = b64_raw(s);
                let q = seq![b64_char(v0), b64_char(v1), b64_char(v2), b64_char(v3)];
                assert(e == q + b64_raw(rest));
                assert(e.subrange(4, e.len() as int) =~= b64_raw(rest));
                assert(e[0] == b64_char(v0) && e[1] == b64_char(v1) && e[2] == b64_char(v2)
                    && e[3] == b64_char(v3));
                assert(b64_decode_raw(e) =~= seq![s[0], s[1], s[2]] + rest);
                assert(seq![s[0], s[1], s[2]] + rest =~= s);
            }
        }
    }
}

/// Decoding the base64 encoding of any input, line breaks included, gives
/// the input back.
pub proof fn lemma_base64_round_trip(s: Seq<u8>)
    ensures
        b64_decode(base64_of(s)) == s,
{
    lemma_b64_no_breaks(s);
    lemma_strip_fold(b64_raw(s));
    lemma_b64_round_trip_raw(s);
}

/// Appends `bytes` to `output` and returns the column reached from `col`.
pub fn emit(output: &mut Vec<u8>, bytes: &[u8], col: usize) -> (r: usize)
    ensures
        final(output)@ == old(output)@ + bytes@,
        r == column_after(col as int, bytes@),
{
    let ghost start = output@;
    let mut c: usize = col;
    let mut i: usize = 0;
    while i < bytes.len()
        invariant
            i <= bytes@.len(),
            output@ == start + bytes@.subrange(0, i as int),
            c == column_after(col as int, bytes@.subrange(0, i as int)),
        decreases bytes.len() - i,
    {
        let b = bytes[i];
        output.push(b);
        proof {
            assert(bytes@.subrange(0, i + 1).drop_last() =~= bytes@.subrange(0, i as int));
        }
        if b == 10 {
            c = 0;
        } else if c < usize::MAX {
            c = c + 1;
        }
        i = i + 1;
        assert(output@ =~= start + bytes@.subrange(0, i as int));
    }
    assert(bytes@.subrange(0, i as int) =~= bytes@);
    c
}

/// Whether `col + a + b + extra` reaches the line limit.
pub fn reaches_limit(col: usize, a: usize, b: usize, extra: usize) -> (r: bool)
    ensures
        r == (col + a + b + extra >= LINE_LIMIT),
{
    (col as u128) + (a as u128) + (b as u128) + (extra as u128) >= LINE_LIMIT as u128
}

/// Appends one byte and returns the column reached from `col`.
pub fn emit_byte(output: &mut Vec<u8>, b: u8, col: usize) -> (r: usize)
    ensures
        final(output)@ == old(output)@ + seq![b],
        r == column_after(col as int, seq![b]),
{
    output.push(b);
    assert(final(output)@ =~= old(output)@ + seq![b]);
    assert(seq![b].drop_last() =~= Seq::<u8>::empty());
    assert(seq![b].last() == b);
    assert(column_after(col as int, Seq::<u8>::empty()) == col);
    if b == 10 {
        0
    } else if col < usize::MAX {
        col + 1
    } else {
        col
    }
}

/// Appends two bytes and returns the column reached from `col`.
pub fn emit_pair(output: &mut Vec<u8>, a: u8, b: u8, col: usize) -> (r: usize)
    ensures
        final(output)@ == old(output)@ + seq![a, b],
        r == column_after(col as int, seq![a, b]),
{
    let c = emit_byte(output, a, col);
    let r = emit_byte(output, b, c);
    proof {
        lemma_column_after_concat(col as int, seq![a], seq![b]);
        assert(seq![a] + seq![b] =~= seq![a, b]);
    }
    assert(final(output)@ =~= old(output)@ + seq![a, b]);
    r
}

/// Appends a fold, `\r\n\t`, and returns the column reached, 1.
pub fn emit_fold(output: &mut Vec<u8>, col: usize) -> (r: usize)
    ensures
        final(output)@ == old(output)@ + seq![13u8, 10u8, 9u8],
        r == column_after(col as int, seq![13u8, 10u8, 9u8]),
        r == 1,
{
    let c = emit_pair(output, 13, 10, col);
    let r = emit_byte(output, 9, c);
    proof {
        lemma_column_after_concat(col as int, seq![13u8, 10u8], seq![9u8]);
        assert(seq![13u8, 10u8] + seq![9u8] =~= seq![13u8, 10u8, 9u8]);
        assert(seq![13u8, 10u8, 9u8].drop_last() =~= seq![13u8, 10u8]);
        assert(seq![13u8, 10u8, 9u8].last() == 9u8);
        assert(seq![13u8, 10u8].last() == 10u8);
        assert(column_after(c as int, seq![9u8]) == 1);
    }
    assert(final(output)@ =~= old(output)@ + seq![13u8, 10u8, 9u8]);
    r
}

/// Appends the UTF-8 bytes of `s` and returns the column reached from `col`.
pub fn emit_str(output: &mut Vec<u8>, s: &str, col: usize) -> (r: usize)
    ensures
        final(output)@ == old(output)@ + s.spec_bytes(),
        r == column_after(col as int, s.spec_bytes()),
{
    emit(output, s.as_bytes(), col)
}

} // verus!
