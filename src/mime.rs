//! MIME parts and the writer that walks a part tree with an explicit stack.
use crate::address::bytes_of;
use crate::boundary::{boundary_of, now_nanos, BoundaryGenerator};
use crate::codec::{
    base64_encode, base64_of, crlf, detect_encoding, emit_pair, encoded_as,
    encoding_header, encoding_of, push_bytes, push_str, sat, EncodingType,
};
use crate::header::{
    attachment_word, attr_views, keys_unique, content_type_out, find_key, type_attrs_out, header_out, header_wf, is_text_type, key_index, key_set, set_key,
    ContentType, HeaderType,
};
use vstd::prelude::*;
use vstd::string::StringSliceAdditionalSpecFns;

verus! {

/// MIME part of an e-mail: its headers, in order, with unique names, and
/// its body.
pub struct MimePart {
    pub headers: Vec<(String, HeaderType)>,
    pub contents: BodyPart,
}

/// Body of a MIME part.
pub enum BodyPart {
    Text(String),
    Binary(Vec<u8>),
    Multipart(Vec<MimePart>),
}

/// A text body.
impl From<String> for BodyPart {
    fn from(value: String) -> (r: BodyPart) {
        BodyPart::Text(value)
    }
}

impl vstd::std_specs::convert::FromSpecImpl<String> for BodyPart {
    open spec fn obeys_from_spec() -> bool {
        true
    }

    open spec fn from_spec(v: String) -> BodyPart {
        BodyPart::Text(v)
    }
}

/// A binary body.
impl From<Vec<u8>> for BodyPart {
    fn from(value: Vec<u8>) -> (r: BodyPart) {
        BodyPart::Binary(value)
    }
}

impl vstd::std_specs::convert::FromSpecImpl<Vec<u8>> for BodyPart {
    open spec fn obeys_from_spec() -> bool {
        true
    }

    open spec fn from_spec(v: Vec<u8>) -> BodyPart {
        BodyPart::Binary(v)
    }
}

/// Why a part tree could not be written.
#[derive(PartialEq, Eq, Structural, Clone, Copy, Debug)]
pub enum MimeError {
    /// An address header holds a group inside a group or a list.
    InvalidAddress,
    /// A multipart part's `Content-Type` is neither a content type nor raw.
    UnsupportedContentType,
}

/// Number of parts in the tree under `p`, `p` included.
pub open spec fn part_size(p: MimePart) -> nat
    decreases p, 0int,
{
    match p.contents {
        BodyPart::Multipart(v) => 1 + parts_size(v@, v@.len() as int),
        _ => 1,
    }
}

/// Number of parts in the trees under the first `n` of `s`.
pub open spec fn parts_size(s: Seq<MimePart>, n: int) -> nat
    decreases s, n,
{
    if n <= 0 || n > s.len() {
        0
    } else {
        parts_size(s, n - 1) + part_size(s[n - 1])
    }
}


/// A multipart part's `Content-Type`, if present, is a content type or raw.
pub open spec fn content_type_supported(v: Seq<(String, HeaderType)>) -> bool {
    let i = key_index(v, "Content-Type"@, 0);
    i < 0 || v[i].1 is ContentType || v[i].1 is Raw
}

/// Every part under `p` can be written: its header values can, and a
/// multipart's `Content-Type` is supported.
pub open spec fn tree_wf(p: MimePart) -> bool
    decreases p, 0int,
{
    headers_wf(p.headers@) && match p.contents {
        BodyPart::Multipart(v) => content_type_supported(p.headers@) && trees_wf(
            v@,
            v@.len() as int,
        ),
        _ => true,
    }
}

/// The trees under the first `n` of `s` can be written.
pub open spec fn trees_wf(s: Seq<MimePart>, n: int) -> bool
    decreases s, n,
{
    if n <= 0 || n > s.len() {
        true
    } else {
        trees_wf(s, n - 1) && tree_wf(s[n - 1])
    }
}

proof fn lemma_trees_wf_tail(s: Seq<MimePart>, n: int)
    requires
        1 <= n <= s.len(),
    ensures
        trees_wf(s, n) == (tree_wf(s[0]) && trees_wf(s.subrange(1, s.len() as int), n - 1)),
    decreases n,
{
    let t = s.subrange(1, s.len() as int);
    if n > 1 {
        lemma_trees_wf_tail(s, n - 1);
        assert(t[n - 2] == s[n - 1]);
    } else {
        assert(trees_wf(s, 0));
        assert(trees_wf(t, 0));
    }
}

proof fn lemma_parts_size_prefix(s: Seq<MimePart>, t: Seq<MimePart>, k: int)
    requires
        0 <= k <= s.len(),
        k <= t.len(),
        forall|i: int| 0 <= i < k ==> s[i] == t[i],
    ensures
        parts_size(s, k) == parts_size(t, k),
    decreases k,
{
    if k > 0 {
        lemma_parts_size_prefix(s, t, k - 1);
    }
}

/// Sizes of the trees after the first of `s`.
proof fn lemma_parts_size_tail(s: Seq<MimePart>, n: int)
    requires
        1 <= n <= s.len(),
    ensures
        parts_size(s, n) == part_size(s[0]) + parts_size(s.subrange(1, s.len() as int), n - 1),
    decreases n,
{
    let t = s.subrange(1, s.len() as int);
    if n > 1 {
        lemma_parts_size_tail(s, n - 1);
        assert(t[n - 2] == s[n - 1]);
        assert(parts_size(t, n - 1) == parts_size(t, n - 2) + part_size(t[n - 2]));
        assert(parts_size(s, n) == parts_size(s, n - 1) + part_size(s[n - 1]));
    } else {
        assert(parts_size(s, 0) == 0);
        assert(parts_size(t, 0) == 0);
        assert(parts_size(s, 1) == parts_size(s, 0) + part_size(s[0]));
    }
}

/// Parts still to write in the stacked sibling lists, the first `n` of them.
pub open spec fn stack_size(st: Seq<(Vec<MimePart>, Option<Vec<u8>>)>, n: int) -> nat
    decreases n,
{
    if n <= 0 || n > st.len() {
        0
    } else {
        stack_size(st, n - 1) + parts_size(st[n - 1].0@, st[n - 1].0@.len() as int)
    }
}

proof fn lemma_stack_size_prefix(
    s: Seq<(Vec<MimePart>, Option<Vec<u8>>)>,
    t: Seq<(Vec<MimePart>, Option<Vec<u8>>)>,
    k: int,
)
    requires
        0 <= k <= s.len(),
        k <= t.len(),
        forall|i: int| 0 <= i < k ==> s[i] == t[i],
    ensures
        stack_size(s, k) == stack_size(t, k),
    decreases k,
{
    if k > 0 {
        lemma_stack_size_prefix(s, t, k - 1);
    }
}

/// Column at which a header's value starts: after its name and `: `.
pub open spec fn value_col(name: String) -> int {
    sat(bytes_of(name).len() + 2int)
}

/// `Name: value\r\n`
pub open spec fn header_line(name: String, h: HeaderType) -> Seq<u8> {
    bytes_of(name) + seq![58u8, 32u8] + header_out(h, value_col(name))
}

/// The first `n` header lines.
pub open spec fn headers_out(v: Seq<(String, HeaderType)>, n: int) -> Seq<u8>
    decreases n,
{
    if n <= 0 || n > v.len() {
        seq![]
    } else {
        headers_out(v, n - 1) + header_line(v[n - 1].0, v[n - 1].1)
    }
}

pub open spec fn headers_wf(v: Seq<(String, HeaderType)>) -> bool {
    forall|i: int| 0 <= i < v.len() ==> header_wf(#[trigger] v[i].1)
}

/// A `Content-Disposition` header says `attachment`.
pub open spec fn marks_attachment(v: Seq<(String, HeaderType)>) -> bool {
    exists|i: int|
        0 <= i < v.len() && (#[trigger] v[i]).0@ == "Content-Disposition"@ && match v[i].1 {
            HeaderType::ContentType(ct) => bytes_of(ct.c_type) == attachment_word(),
            _ => false,
        }
}

/// A `Content-Type` header names a `text/` type.
pub open spec fn marks_text(v: Seq<(String, HeaderType)>) -> bool {
    exists|i: int|
        0 <= i < v.len() && (#[trigger] v[i]).0@ == "Content-Type"@ && match v[i].1 {
            HeaderType::ContentType(ct) => is_text_type(bytes_of(ct.c_type)),
            _ => false,
        }
}

/// Content in the encoding chosen for it, after its header.
pub open spec fn chosen_out(s: Seq<u8>, is_body: bool) -> Seq<u8> {
    encoding_header(encoding_of(s, is_body)) + encoded_as(s, encoding_of(s, is_body), is_body)
}

/// A leaf part: its header lines, then its content. Text is encoded as
/// chosen, normalising line breaks unless the part is an attachment; binary
/// content that is not of a text type is always base64.
pub open spec fn leaf_out(v: Seq<(String, HeaderType)>, body: BodyPart) -> Seq<u8> {
    headers_out(v, v.len() as int) + match body {
        BodyPart::Text(t) => chosen_out(bytes_of(t), !marks_attachment(v)),
        BodyPart::Binary(b) => if !marks_text(v) {
            encoding_header(EncodingType::Base64) + base64_of(b@)
        } else {
            chosen_out(b@, !marks_attachment(v))
        },
        BodyPart::Multipart(_) => seq![],
    }
}

/// A binary part whose `Content-Type` is not a text type is sent as base64,
/// whatever its content and whether or not it is an attachment.
pub proof fn lemma_binary_non_text_is_base64(v: Seq<(String, HeaderType)>, b: Vec<u8>)
    requires
        !marks_text(v),
    ensures
        leaf_out(v, BodyPart::Binary(b)) == headers_out(v, v.len() as int) + encoding_header(
            EncodingType::Base64,
        ) + base64_of(b@),
{
}

fn string_of(s: &str) -> (r: String)
    ensures
        r@ == s@,
{
    s.to_owned()
}

/// Whether every header value can be written.
pub fn headers_ok(v: &Vec<(String, HeaderType)>) -> (r: bool)
    ensures
        r == headers_wf(v@),
{
    let mut i: usize = 0;
    while i < v.len()
        invariant
            i <= v@.len(),
            forall|j: int| 0 <= j < i ==> header_wf(#[trigger] v@[j].1),
        decreases v.len() - i,
    {
        let ok = match &v[i].1 {
            HeaderType::Address(a) => crate::address::address_is_wf(a),
            _ => true,
        };
        if !ok {
            return false;
        }
        i = i + 1;
    }
    true
}

/// Appends `Name: value\r\n`.
fn write_header_line(name: &String, h: &HeaderType, output: &mut Vec<u8>)
    requires
        header_wf(*h),
    ensures
        final(output)@ == old(output)@ + header_line(*name, *h),
{
    let ghost start = output@;
    push_str(output, name.as_str());
    let nl = name.as_str().as_bytes().len();
    let col = if nl <= usize::MAX - 2 {
        nl + 2
    } else {
        usize::MAX
    };
    emit_pair(output, 58, 32, 0);
    h.write_header(output, col);
    assert(output@ =~= start + header_line(*name, *h));
}

/// Appends every header line, in order.
pub fn write_headers(v: &Vec<(String, HeaderType)>, output: &mut Vec<u8>)
    requires
        headers_wf(v@),
    ensures
        final(output)@ == old(output)@ + headers_out(v@, v@.len() as int),
{
    let ghost start = output@;
    let mut i: usize = 0;
    while i < v.len()
        invariant
            i <= v@.len(),
            headers_wf(v@),
            output@ == start + headers_out(v@, i as int),
        decreases v.len() - i,
    {
        assert(header_wf(v@[i as int].1));
        write_header_line(&v[i].0, &v[i].1, output);
        i = i + 1;
        assert(output@ =~= start + headers_out(v@, i as int));
    }
}

fn header_flag(v: &Vec<(String, HeaderType)>, text: bool) -> (r: bool)
    ensures
        text ==> r == marks_text(v@),
        !text ==> r == marks_attachment(v@),
{
    let key = if text {
        string_of("Content-Type")
    } else {
        string_of("Content-Disposition")
    };
    let mut i: usize = 0;
    while i < v.len()
        invariant
            i <= v@.len(),
            text ==> key@ == "Content-Type"@,
            !text ==> key@ == "Content-Disposition"@,
            text ==> forall|j: int|
                0 <= j < i ==> !((#[trigger] v@[j]).0@ == "Content-Type"@ && match v@[j].1 {
                    HeaderType::ContentType(ct) => is_text_type(bytes_of(ct.c_type)),
                    _ => false,
                }),
            !text ==> forall|j: int|
                0 <= j < i ==> !((#[trigger] v@[j]).0@ == "Content-Disposition"@ && match v@[j].1 {
                    HeaderType::ContentType(ct) => bytes_of(ct.c_type) == attachment_word(),
                    _ => false,
                }),
        decreases v.len() - i,
    {
        if v[i].0 == key {
            match v[i].1.as_content_type() {
                Some(ct) => {
                    let hit = if text {
                        ct.is_text()
                    } else {
                        ct.is_attachment()
                    };
                    if hit {
                        return true;
                    }
                },
                None => {},
            }
        }
        i = i + 1;
    }
    false
}

/// Appends a leaf part: its header lines, its transfer encoding and its
/// encoded content.
pub fn write_leaf(headers: &Vec<(String, HeaderType)>, body: &BodyPart, output: &mut Vec<u8>)
    requires
        headers_wf(headers@),
    ensures
        final(output)@ == old(output)@ + leaf_out(headers@, *body),
{
    let ghost start = output@;
    write_headers(headers, output);
    match body {
        BodyPart::Text(t) => {
            let att = header_flag(headers, false);
            detect_encoding(t.as_str().as_bytes(), output, !att);
        },
        BodyPart::Binary(b) => {
            let is_text = header_flag(headers, true);
            if !is_text {
                push_str(output, "Content-Transfer-Encoding: base64\r\n\r\n");
                base64_encode(b.as_slice(), output);
            } else {
                let att = header_flag(headers, false);
                detect_encoding(b.as_slice(), output, !att);
            }
        },
        BodyPart::Multipart(_) => {},
    }
    assert(output@ =~= start + leaf_out(headers@, *body));
}


/// `b` extends `a`.
#[verifier::opaque]
pub open spec fn extends(a: Seq<u8>, b: Seq<u8>) -> bool {
    a.len() <= b.len() && forall|i: int| 0 <= i < a.len() ==> #[trigger] b[i] == a[i]
}

proof fn lemma_extends_append(a: Seq<u8>, b: Seq<u8>, t: Seq<u8>)
    requires
        extends(a, b),
    ensures
        extends(a, b + t),
{
    reveal(extends);
    assert forall|i: int| 0 <= i < a.len() implies #[trigger] (b + t)[i] == a[i] by {
        assert((b + t)[i] == b[i]);
    }
}

proof fn lemma_extends_refl(a: Seq<u8>)
    ensures
        extends(a, a),
{
    reveal(extends);
}

/// The bytes of `s`, copied.
fn bytes_vec(s: &String) -> (r: Vec<u8>)
    ensures
        r@ == bytes_of(*s),
{
    let mut v: Vec<u8> = Vec::new();
    push_bytes(&mut v, s.as_str().as_bytes());
    assert(v@ =~= bytes_of(*s));
    v
}

/// `boundary="`
pub open spec fn boundary_key() -> Seq<u8> {
    seq![98u8, 111u8, 117u8, 110u8, 100u8, 97u8, 114u8, 121u8, 61u8, 34u8]
}

/// Whether `boundary="` starts at position `i` of `s`.
pub open spec fn key_at(s: Seq<u8>, i: int) -> bool {
    0 <= i && i + 10 <= s.len() && s.subrange(i, i + 10) == boundary_key()
}

fn key_at_exec(s: &[u8], i: usize) -> (r: bool)
    requires
        i <= s@.len(),
    ensures
        r == key_at(s@, i as int),
{
    if s.len() - i < 10 {
        return false;
    }
    let r = s[i] == 98 && s[i + 1] == 111 && s[i + 2] == 117 && s[i + 3] == 110 && s[i + 4]
        == 100 && s[i + 5] == 97 && s[i + 6] == 114 && s[i + 7] == 121 && s[i + 8] == 61 && s[i
        + 9] == 34;
    assert(r ==> s@.subrange(i as int, i + 10) =~= boundary_key());
    let ghost w = s@.subrange(i as int, i + 10);
    assert(w == boundary_key() ==> w[0] == 98u8 && w[1] == 111u8 && w[2] == 117u8 && w[3] == 110u8
        && w[4] == 100u8 && w[5] == 97u8 && w[6] == 114u8 && w[7] == 121u8 && w[8] == 61u8 && w[9]
        == 34u8);
    r
}

/// Position of the first `"` from `j` on, or -1.
pub open spec fn first_quote(s: Seq<u8>, j: int) -> int
    decreases s.len() - j,
{
    if j < 0 || j >= s.len() {
        -1
    } else if s[j] == 34 {
        j
    } else {
        first_quote(s, j + 1)
    }
}

/// The quoted value after the first `boundary="`, from position `i` on,
/// that a closing `"` follows: up to that quote.
pub open spec fn raw_boundary_from(s: Seq<u8>, i: int) -> Option<Seq<u8>>
    decreases s.len() - i,
{
    if i < 0 || i >= s.len() {
        None
    } else if key_at(s, i) && first_quote(s, i + 10) >= 0 {
        Some(s.subrange(i + 10, first_quote(s, i + 10)))
    } else {
        raw_boundary_from(s, i + 1)
    }
}

/// The boundary that a raw `Content-Type` value declares, if any.
pub open spec fn raw_boundary_of(s: Seq<u8>) -> Option<Seq<u8>> {
    raw_boundary_from(s, 0)
}

fn raw_boundary(s: &[u8]) -> (r: Option<Vec<u8>>)
    ensures
        match r {
            Some(v) => raw_boundary_of(s@) == Some(v@),
            None => raw_boundary_of(s@) is None,
        },
{
    let n = s.len();
    let mut i: usize = 0;
    while i < n
        invariant
            n == s@.len(),
            i <= n,
            raw_boundary_of(s@) == raw_boundary_from(s@, i as int),
        decreases n - i,
    {
        if key_at_exec(s, i) {
            let mut v: Vec<u8> = Vec::new();
            let mut e: usize = i + 10;
            while e < n
                invariant
                    n == s@.len(),
                    key_at(s@, i as int),
                    i + 10 <= e <= n,
                    v@ == s@.subrange(i + 10, e as int),
                    first_quote(s@, i + 10) == first_quote(s@, e as int),
                    raw_boundary_of(s@) == raw_boundary_from(s@, i as int),
                decreases n - e,
            {
                if s[e] == 34 {
                    assert(first_quote(s@, e as int) == e);
                    return Some(v);
                }
                v.push(s[e]);
                e = e + 1;
                assert(v@ =~= s@.subrange(i + 10, e as int));
            }
            assert(first_quote(s@, e as int) == -1);
        }
        i = i + 1;
    }
    None
}

/// `Content-Type: `
pub open spec fn ct_prefix() -> Seq<u8> {
    "Content-Type: ".spec_bytes()
}

pub open spec fn ct_index(v: Seq<(String, HeaderType)>) -> int {
    key_index(v, "Content-Type"@, 0)
}

/// The headers of a multipart part other than its `Content-Type`.
pub open spec fn other_headers(v: Seq<(String, HeaderType)>) -> Seq<(String, HeaderType)> {
    if ct_index(v) < 0 {
        v
    } else {
        v.remove(ct_index(v))
    }
}

/// The boundary of a multipart part whose headers are `v`: the one its
/// `Content-Type` declares, else `fresh`.
pub open spec fn head_boundary(v: Seq<(String, HeaderType)>, fresh: Seq<u8>) -> Seq<u8> {
    if ct_index(v) < 0 {
        fresh
    } else {
        match v[ct_index(v)].1 {
            HeaderType::ContentType(ct) => {
                let j = key_index(ct.attributes@, "boundary"@, 0);
                if j >= 0 {
                    bytes_of(ct.attributes@[j].1)
                } else {
                    fresh
                }
            },
            HeaderType::Raw(r) => match raw_boundary_of(bytes_of(r)) {
                Some(x) => x,
                None => fresh,
            },
            _ => fresh,
        }
    }
}

/// The `Content-Type` line of a multipart part: the declared value with a
/// `boundary` attribute added where it has none; `multipart/mixed` with
/// `fresh` where there is none.
pub open spec fn head_type_line(v: Seq<(String, HeaderType)>, fresh: Seq<u8>) -> Seq<u8> {
    if ct_index(v) < 0 {
        ct_prefix() + type_attrs_out(
            "multipart/mixed".spec_bytes(),
            seq![("boundary".spec_bytes(), fresh)],
            14,
        )
    } else {
        match v[ct_index(v)].1 {
            HeaderType::ContentType(ct) => {
                let w = attr_views(ct.attributes@);
                ct_prefix() + type_attrs_out(
                    bytes_of(ct.c_type),
                    if key_index(ct.attributes@, "boundary"@, 0) >= 0 {
                        w
                    } else {
                        w.push(("boundary".spec_bytes(), fresh))
                    },
                    14,
                )
            },
            HeaderType::Raw(r) => ct_prefix() + bytes_of(r) + (if raw_boundary_of(
                bytes_of(r),
            ) is None {
                "; boundary=\"".spec_bytes() + fresh + "\"".spec_bytes()
            } else {
                seq![]
            }) + crlf(),
            _ => seq![],
        }
    }
}

/// The head of a multipart part: its `Content-Type` line, its other header
/// lines and a blank line.
pub open spec fn head_out(v: Seq<(String, HeaderType)>, fresh: Seq<u8>) -> Seq<u8> {
    head_type_line(v, fresh) + headers_out(other_headers(v), other_headers(v).len() as int)
        + crlf()
}

/// Writes the head of a multipart part and returns its boundary; a declared
/// boundary is kept, else `fresh` is added.
pub fn write_multipart_head(
    headers: Vec<(String, HeaderType)>,
    fresh: String,
    output: &mut Vec<u8>,
) -> (r: Result<Vec<u8>, MimeError>)
    requires
        headers_wf(headers@),
    ensures
        content_type_supported(headers@) ==> (r matches Ok(b) && b@ == head_boundary(
            headers@,
            bytes_of(fresh),
        ) && final(output)@ == old(output)@ + head_out(headers@, bytes_of(fresh))),
        !content_type_supported(headers@) ==> r == Err::<Vec<u8>, MimeError>(
            MimeError::UnsupportedContentType,
        ),
        r is Err ==> final(output)@ == old(output)@,
{
    let ghost start = output@;
    let ghost h0 = headers@;
    let mut headers = headers;
    let key = string_of("Content-Type");
    let b: Vec<u8>;
    match find_key(&headers, &key) {
        Some(i) => {
            let ghost before = headers@;
            let (_, value) = headers.remove(i);
            assert(headers_wf(headers@)) by {
                assert forall|j: int| 0 <= j < headers@.len() implies header_wf(
                    #[trigger] headers@[j].1,
                ) by {
                    if j < i {
                        assert(headers@[j] == before[j]);
                    } else {
                        assert(headers@[j] == before[j + 1]);
                    }
                }
            }
            match value {
                HeaderType::ContentType(ct) => {
                    let mut ct = ct;
                    let ghost w = attr_views(ct.attributes@);
                    let bk = string_of("boundary");
                    match find_key(&ct.attributes, &bk) {
                        Some(j) => {
                            b = bytes_vec(&ct.attributes[j].1);
                        },
                        None => {
                            b = bytes_vec(&fresh);
                            set_key(&mut ct.attributes, bk, fresh);
                            assert(attr_views(ct.attributes@) =~= w.push(
                                ("boundary".spec_bytes(), b@),
                            ));
                        },
                    }
                    push_str(output, "Content-Type: ");
                    ct.write_header(output, 14);
                },
                HeaderType::Raw(raw) => {
                    push_str(output, "Content-Type: ");
                    push_str(output, raw.as_str());
                    match raw_boundary(raw.as_str().as_bytes()) {
                        Some(v) => {
                            b = v;
                        },
                        None => {
                            b = bytes_vec(&fresh);
                            push_str(output, "; boundary=\"");
                            push_str(output, fresh.as_str());
                            push_str(output, "\"");
                        },
                    }
                    emit_pair(output, 13, 10, 0);
                },
                _ => {
                    return Err(MimeError::UnsupportedContentType);
                },
            }
        },
        None => {
            b = bytes_vec(&fresh);
            let ct = ContentType::new("multipart/mixed").attribute("boundary", fresh.as_str());
            assert(attr_views(ct.attributes@) =~= seq![("boundary".spec_bytes(), b@)]);
            push_str(output, "Content-Type: ");
            ct.write_header(output, 14);
        },
    }
    let ghost mid = output@;
    assert(mid =~= start + head_type_line(h0, bytes_of(fresh)));
    write_headers(&headers, output);
    emit_pair(output, 13, 10, 0);
    assert(output@ =~= start + head_out(h0, bytes_of(fresh)));
    Ok(b)
}

/// Appends `\r\n--boundary` and then `tail`.
fn write_delimiter(b: &Vec<u8>, tail_dashes: bool, output: &mut Vec<u8>)
    ensures
        final(output)@ == old(output)@ + seq![13u8, 10u8, 45u8, 45u8] + b@ + (if tail_dashes {
            seq![45u8, 45u8, 13u8, 10u8]
        } else {
            seq![13u8, 10u8]
        }),
{
    let ghost start = output@;
    emit_pair(output, 13, 10, 0);
    emit_pair(output, 45, 45, 0);
    push_bytes(output, b.as_slice());
    if tail_dashes {
        emit_pair(output, 45, 45, 0);
    }
    emit_pair(output, 13, 10, 0);
    assert(output@ =~= start + seq![13u8, 10u8, 45u8, 45u8] + b@ + (if tail_dashes {
        seq![45u8, 45u8, 13u8, 10u8]
    } else {
        seq![13u8, 10u8]
    }));
}

/// A header list holding `Content-Type` only.
pub open spec fn only_content_type(v: Seq<(String, HeaderType)>, ct: ContentType) -> bool {
    v.len() == 1 && v[0].0@ == "Content-Type"@ && v[0].1 == HeaderType::ContentType(ct)
}

/// A `ContentType` of type `t` with `charset="utf-8"`.
pub open spec fn utf8_type(ct: ContentType, t: Seq<char>) -> bool {
    ct.c_type@ == t && ct.attributes@.len() == 1 && ct.attributes@[0].0@ == "charset"@
        && ct.attributes@[0].1@ == "utf-8"@
}

fn content_type_headers(ct: ContentType) -> (r: Vec<(String, HeaderType)>)
    ensures
        only_content_type(r@, ct),
{
    let mut v: Vec<(String, HeaderType)> = Vec::new();
    v.push((string_of("Content-Type"), HeaderType::ContentType(ct)));
    v
}

fn utf8_content_type(t: &str) -> (r: ContentType)
    ensures
        utf8_type(r, t@),
{
    let mut ct = ContentType::new(t);
    ct.attributes.push((string_of("charset"), string_of("utf-8")));
    ct
}

impl MimePart {
    /// A part with the given content type and body.
    pub fn new(content_type: ContentType, contents: BodyPart) -> (r: MimePart)
        ensures
            keys_unique(r.headers@),
            only_content_type(r.headers@, content_type),
            r.contents == contents,
    {
        MimePart { headers: content_type_headers(content_type), contents }
    }

    /// A `multipart/*` part holding `contents`.
    pub fn new_multipart(content_type: &str, contents: Vec<MimePart>) -> (r: MimePart)
        ensures
            keys_unique(r.headers@),
            r.headers@.len() == 1,
            r.headers@[0].0@ == "Content-Type"@,
            r.headers@[0].1 matches HeaderType::ContentType(ct) && ct.c_type@ == content_type@
                && ct.attributes@.len() == 0,
            r.contents == BodyPart::Multipart(contents),
    {
        MimePart {
            headers: content_type_headers(ContentType::new(content_type)),
            contents: BodyPart::Multipart(contents),
        }
    }

    /// A `text/plain` part in UTF-8.
    pub fn new_text(contents: &str) -> (r: MimePart)
        ensures
            keys_unique(r.headers@),
            r.headers@.len() == 1,
            r.headers@[0].0@ == "Content-Type"@,
            r.headers@[0].1 matches HeaderType::ContentType(ct) && utf8_type(ct, "text/plain"@),
            r.contents matches BodyPart::Text(t) && t@ == contents@,
    {
        MimePart {
            headers: content_type_headers(utf8_content_type("text/plain")),
            contents: BodyPart::Text(string_of(contents)),
        }
    }

    /// A `text/*` part of the given type in UTF-8.
    pub fn new_text_other(content_type: &str, contents: &str) -> (r: MimePart)
        ensures
            keys_unique(r.headers@),
            r.headers@.len() == 1,
            r.headers@[0].0@ == "Content-Type"@,
            r.headers@[0].1 matches HeaderType::ContentType(ct) && utf8_type(ct, content_type@),
            r.contents matches BodyPart::Text(t) && t@ == contents@,
    {
        MimePart {
            headers: content_type_headers(utf8_content_type(content_type)),
            contents: BodyPart::Text(string_of(contents)),
        }
    }

    /// A `text/html` part in UTF-8.
    pub fn new_html(contents: &str) -> (r: MimePart)
        ensures
            keys_unique(r.headers@),
            r.headers@.len() == 1,
            r.headers@[0].0@ == "Content-Type"@,
            r.headers@[0].1 matches HeaderType::ContentType(ct) && utf8_type(ct, "text/html"@),
            r.contents matches BodyPart::Text(t) && t@ == contents@,
    {
        MimePart {
            headers: content_type_headers(utf8_content_type("text/html")),
            contents: BodyPart::Text(string_of(contents)),
        }
    }

    /// A binary part of the given type.
    pub fn new_binary(c_type: &str, contents: Vec<u8>) -> (r: MimePart)
        ensures
            keys_unique(r.headers@),
            r.headers@.len() == 1,
            r.headers@[0].0@ == "Content-Type"@,
            r.headers@[0].1 matches HeaderType::ContentType(ct) && ct.c_type@ == c_type@
                && ct.attributes@.len() == 0,
            r.contents == BodyPart::Binary(contents),
    {
        MimePart {
            headers: content_type_headers(ContentType::new(c_type)),
            contents: BodyPart::Binary(contents),
        }
    }

    /// Sets header `name` to `value`: in place where the name is present,
    /// else after the others.
    pub fn header(self, name: &str, value: HeaderType) -> (r: MimePart)
        ensures
            exists|k: String| k@ == name@ && r.headers@ == key_set(self.headers@, k, value),
            keys_unique(self.headers@) ==> keys_unique(r.headers@),
            r.contents == self.contents,
    {
        let mut p = self;
        let k = string_of(name);
        set_key(&mut p.headers, k, value);
        p
    }

    /// Marks the part as an attachment with the given file name.
    pub fn attachment(self, filename: &str) -> (r: MimePart)
        ensures
            keys_unique(self.headers@) ==> keys_unique(r.headers@),
            r.contents == self.contents,
            exists|k: String, ct: ContentType|
                k@ == "Content-Disposition"@ && ct.c_type@ == "attachment"@ && ct.attributes@.len()
                    == 1 && ct.attributes@[0].0@ == "filename"@ && ct.attributes@[0].1@ == filename@
                    && r.headers@ == key_set(self.headers@, k, HeaderType::ContentType(ct)),
    {
        let ct = ContentType::new("attachment").attribute("filename", filename);
        assert(ct.attributes@.len() == 1);
        self.header("Content-Disposition", HeaderType::ContentType(ct))
    }

    /// Marks the part as inline.
    pub fn inline(self) -> (r: MimePart)
        ensures
            keys_unique(self.headers@) ==> keys_unique(r.headers@),
            r.contents == self.contents,
            exists|k: String, ct: ContentType|
                k@ == "Content-Disposition"@ && ct.c_type@ == "inline"@ && ct.attributes@.len() == 0
                    && r.headers@ == key_set(self.headers@, k, HeaderType::ContentType(ct)),
    {
        let ct = ContentType::new("inline");
        self.header("Content-Disposition", HeaderType::ContentType(ct))
    }

    /// Sets the `Content-Language` header.
    pub fn language(self, value: &str) -> (r: MimePart)
        ensures
            keys_unique(self.headers@) ==> keys_unique(r.headers@),
            r.contents == self.contents,
            exists|k: String, t: String|
                k@ == "Content-Language"@ && t@ == value@ && r.headers@ == key_set(
                    self.headers@,
                    k,
                    HeaderType::Text(t),
                ),
    {
        let t = string_of(value);
        self.header("Content-Language", HeaderType::Text(t))
    }

    /// Sets the `Content-ID` header.
    pub fn cid(self, value: &str) -> (r: MimePart)
        ensures
            keys_unique(self.headers@) ==> keys_unique(r.headers@),
            r.contents == self.contents,
            exists|k: String, t: String|
                k@ == "Content-ID"@ && t@ == value@ && r.headers@ == key_set(
                    self.headers@,
                    k,
                    HeaderType::MessageId(t),
                ),
    {
        let t = string_of(value);
        self.header("Content-ID", HeaderType::MessageId(t))
    }

    /// Sets the `Content-Location` header.
    pub fn location(self, value: &str) -> (r: MimePart)
        ensures
            keys_unique(self.headers@) ==> keys_unique(r.headers@),
            r.contents == self.contents,
            exists|k: String, t: String|
                k@ == "Content-Location"@ && t@ == value@ && r.headers@ == key_set(
                    self.headers@,
                    k,
                    HeaderType::Raw(t),
                ),
    {
        let t = string_of(value);
        self.header("Content-Location", HeaderType::Raw(t))
    }

    /// Adds a part to a multipart body; other bodies are left as they are.
    pub fn add_part(&mut self, part: MimePart)
        ensures
            final(self).headers == old(self).headers,
            match old(self).contents {
                BodyPart::Multipart(v) => final(self).contents matches BodyPart::Multipart(w)
                    && w@ == v@.push(part),
                _ => final(self).contents == old(self).contents,
            },
    {
        match &mut self.contents {
            BodyPart::Multipart(parts) => parts.push(part),
            _ => {},
        }
    }
}

/// The boundary made for the `c`-th multipart without one of its own.
pub open spec fn fresh_at(nanos: u128, host: u64, c: nat) -> Seq<u8> {
    boundary_of(nanos, (c % 0x1_0000_0000_0000_0000) as u64, host)
}

/// `\r\n--b\r\n` before a child; nothing at the top.
pub open spec fn delim(b: Option<Seq<u8>>) -> Seq<u8> {
    match b {
        Some(x) => seq![13u8, 10u8, 45u8, 45u8] + x + seq![13u8, 10u8],
        None => seq![],
    }
}

/// `\r\n--b--\r\n` after the last child; nothing at the top.
pub open spec fn close(b: Option<Seq<u8>>) -> Seq<u8> {
    match b {
        Some(x) => seq![13u8, 10u8, 45u8, 45u8] + x + seq![45u8, 45u8, 13u8, 10u8],
        None => seq![],
    }
}

pub open spec fn opt_view(b: Option<Vec<u8>>) -> Option<Seq<u8>> {
    match b {
        Some(v) => Some(v@),
        None => None,
    }
}

/// What is written for part `p` when `c` multiparts came before it, with
/// the count after it: a leaf as `leaf_out`; a multipart as its head, each
/// child after `\r\n--b\r\n`, then `\r\n--b--\r\n`, where `b` is its
/// declared boundary or else `fresh_at(nanos, host, c)`.
pub open spec fn part_out(p: MimePart, nanos: u128, host: u64, c: nat) -> (Seq<u8>, nat)
    decreases p, 0int,
{
    match p.contents {
        BodyPart::Multipart(v) => {
            let f = fresh_at(nanos, host, c);
            let nb = head_boundary(p.headers@, f);
            let y = items_from(v@, 0, Some(nb), nanos, host, c + 1);
            (head_out(p.headers@, f) + y.0 + close(Some(nb)), y.1)
        },
        _ => (leaf_out(p.headers@, p.contents), c),
    }
}

/// What is written for `s[k..]`, each part after `delim(b)`.
pub open spec fn items_from(
    s: Seq<MimePart>,
    k: int,
    b: Option<Seq<u8>>,
    nanos: u128,
    host: u64,
    c: nat,
) -> (Seq<u8>, nat)
    decreases s, s.len() - k,
{
    if k < 0 || k >= s.len() {
        (seq![], c)
    } else {
        let x = part_out(s[k], nanos, host, c);
        let y = items_from(s, k + 1, b, nanos, host, x.1);
        (delim(b) + x.0 + y.0, y.1)
    }
}

/// What is still to be written for the stacked sibling lists, top first.
pub open spec fn stack_out(
    st: Seq<(Vec<MimePart>, Option<Vec<u8>>)>,
    nanos: u128,
    host: u64,
    c: nat,
) -> Seq<u8>
    decreases st.len(),
{
    if st.len() == 0 {
        seq![]
    } else {
        let f = st.last();
        let y = items_from(f.0@, 0, opt_view(f.1), nanos, host, c);
        y.0 + close(opt_view(f.1)) + stack_out(st.drop_last(), nanos, host, y.1)
    }
}

/// What is still to be written in a state of the walk.
#[verifier::opaque]
pub open spec fn rest_out(
    it: Seq<MimePart>,
    b: Option<Seq<u8>>,
    st: Seq<(Vec<MimePart>, Option<Vec<u8>>)>,
    nanos: u128,
    host: u64,
    c: nat,
) -> Seq<u8> {
    let y = items_from(it, 0, b, nanos, host, c);
    y.0 + close(b) + stack_out(st, nanos, host, y.1)
}

proof fn lemma_items_shift(
    s: Seq<MimePart>,
    k: int,
    b: Option<Seq<u8>>,
    nanos: u128,
    host: u64,
    c: nat,
)
    requires
        0 <= k,
        s.len() >= 1,
    ensures
        items_from(s, k + 1, b, nanos, host, c) == items_from(
            s.subrange(1, s.len() as int),
            k,
            b,
            nanos,
            host,
            c,
        ),
    decreases s.len() - k,
{
    let t = s.subrange(1, s.len() as int);
    if k + 1 < s.len() {
        assert(t[k] == s[k + 1]);
        let x = part_out(s[k + 1], nanos, host, c);
        lemma_items_shift(s, k + 1, b, nanos, host, x.1);
    }
}

#[verifier::opaque]
pub open spec fn frames_wf(st: Seq<(Vec<MimePart>, Option<Vec<u8>>)>) -> bool {
    forall|j: int| 0 <= j < st.len() ==> trees_wf(#[trigger] st[j].0@, st[j].0@.len() as int)
}

proof fn lemma_frames_push(
    st0: Seq<(Vec<MimePart>, Option<Vec<u8>>)>,
    f: (Vec<MimePart>, Option<Vec<u8>>),
)
    ensures
        frames_wf(st0.push(f)) == (frames_wf(st0) && trees_wf(f.0@, f.0@.len() as int)),
{
    reveal(frames_wf);
    let st1 = st0.push(f);
    if frames_wf(st0) && trees_wf(f.0@, f.0@.len() as int) {
        assert forall|j: int| 0 <= j < st1.len() implies trees_wf(
            #[trigger] st1[j].0@,
            st1[j].0@.len() as int,
        ) by {
            if j < st0.len() {
                assert(st1[j] == st0[j]);
            }
        }
    }
    if frames_wf(st1) {
        assert(st1[st0.len() as int] == f);
        assert forall|j: int| 0 <= j < st0.len() implies trees_wf(
            #[trigger] st0[j].0@,
            st0[j].0@.len() as int,
        ) by {
            assert(st1[j] == st0[j]);
        }
    }
}

/// Writing a leaf at the front of the current siblings.
proof fn lemma_step_leaf(
    it0: Seq<MimePart>,
    bo: Option<Seq<u8>>,
    st: Seq<(Vec<MimePart>, Option<Vec<u8>>)>,
    nanos: u128,
    host: u64,
    c: nat,
)
    requires
        it0.len() >= 1,
        !(it0[0].contents is Multipart),
    ensures
        rest_out(it0, bo, st, nanos, host, c) == delim(bo) + leaf_out(
            it0[0].headers@,
            it0[0].contents,
        ) + rest_out(it0.subrange(1, it0.len() as int), bo, st, nanos, host, c),
{
    reveal(rest_out);
    lemma_items_shift(it0, 0, bo, nanos, host, c);
    let tail = it0.subrange(1, it0.len() as int);
    let y = items_from(tail, 0, bo, nanos, host, c);
    assert(part_out(it0[0], nanos, host, c) == (leaf_out(it0[0].headers@, it0[0].contents), c));
    assert(rest_out(it0, bo, st, nanos, host, c) =~= delim(bo) + leaf_out(
        it0[0].headers@,
        it0[0].contents,
    ) + (y.0 + close(bo) + stack_out(st, nanos, host, y.1)));
}

#[verifier::rlimit(60)]
/// Entering a multipart at the front of the current siblings: its head is
/// written, its children become the current siblings under its boundary,
/// and the rest of the siblings go on the stack.
proof fn lemma_step_multipart(
    it0: Seq<MimePart>,
    bo: Option<Seq<u8>>,
    st: Seq<(Vec<MimePart>, Option<Vec<u8>>)>,
    nanos: u128,
    host: u64,
    c: nat,
    parts: Vec<MimePart>,
    f: (Vec<MimePart>, Option<Vec<u8>>),
)
    requires
        it0.len() >= 1,
        it0[0].contents == BodyPart::Multipart(parts),
        f.0@ == it0.subrange(1, it0.len() as int),
        opt_view(f.1) == bo,
    ensures
        rest_out(it0, bo, st, nanos, host, c) == delim(bo) + head_out(
            it0[0].headers@,
            fresh_at(nanos, host, c),
        ) + rest_out(
            parts@,
            Some(head_boundary(it0[0].headers@, fresh_at(nanos, host, c))),
            st.push(f),
            nanos,
            host,
            c + 1,
        ),
{
    reveal(rest_out);
    let p = it0[0];
    let fr = fresh_at(nanos, host, c);
    let nb = head_boundary(p.headers@, fr);
    let y = items_from(parts@, 0, Some(nb), nanos, host, c + 1);
    lemma_items_shift(it0, 0, bo, nanos, host, y.1);
    let tail = it0.subrange(1, it0.len() as int);
    let z = items_from(tail, 0, bo, nanos, host, y.1);
    let st1 = st.push(f);
    assert(st1.last() == f);
    assert(st1.drop_last() =~= st);
    let h = head_out(p.headers@, fr);
    let sb = stack_out(st, nanos, host, z.1);
    assert(stack_out(st1, nanos, host, y.1) == z.0 + close(bo) + sb);
    assert(part_out(p, nanos, host, c) == (h + y.0 + close(Some(nb)), y.1));
    assert(items_from(it0, 0, bo, nanos, host, c) == (delim(bo) + (h + y.0 + close(Some(nb)))
        + z.0, z.1));
    assert(rest_out(it0, bo, st, nanos, host, c) == delim(bo) + (h + y.0 + close(Some(nb))) + z.0
        + close(bo) + sb);
    assert(rest_out(parts@, Some(nb), st1, nanos, host, c + 1) == y.0 + close(Some(nb)) + (z.0
        + close(bo) + sb));
    assert(delim(bo) + (h + y.0 + close(Some(nb))) + z.0 + close(bo) + sb =~= delim(bo) + h + (y.0
        + close(Some(nb)) + (z.0 + close(bo) + sb)));
}

/// Leaving finished siblings: their closing line, then the frame below.
proof fn lemma_step_pop(
    bo: Option<Seq<u8>>,
    st: Seq<(Vec<MimePart>, Option<Vec<u8>>)>,
    nanos: u128,
    host: u64,
    c: nat,
)
    requires
        st.len() >= 1,
    ensures
        rest_out(Seq::<MimePart>::empty(), bo, st, nanos, host, c) == close(bo) + rest_out(
            st.last().0@,
            opt_view(st.last().1),
            st.drop_last(),
            nanos,
            host,
            c,
        ),
{
    reveal(rest_out);
    assert(rest_out(Seq::<MimePart>::empty(), bo, st, nanos, host, c) =~= close(bo) + stack_out(
        st,
        nanos,
        host,
        c,
    ));
}

/// The walk starts with the root alone and an empty stack.
proof fn lemma_step_start(p: MimePart, it: Seq<MimePart>, nanos: u128, host: u64, c: nat)
    requires
        it == seq![p],
    ensures
        rest_out(it, None, Seq::<(Vec<MimePart>, Option<Vec<u8>>)>::empty(), nanos, host, c)
            == part_out(p, nanos, host, c).0,
{
    reveal(rest_out);
    let x = part_out(p, nanos, host, c);
    assert(items_from(it, 1, None, nanos, host, x.1) == (Seq::<u8>::empty(), x.1));
    assert(items_from(it, 0, None, nanos, host, c).0 =~= x.0);
}

/// The walk ends with no siblings left and an empty stack.
proof fn lemma_step_end(bo: Option<Seq<u8>>, nanos: u128, host: u64, c: nat)
    ensures
        rest_out(
            Seq::<MimePart>::empty(),
            bo,
            Seq::<(Vec<MimePart>, Option<Vec<u8>>)>::empty(),
            nanos,
            host,
            c,
        ) == close(bo),
{
    reveal(rest_out);
    assert(close(bo) + Seq::<u8>::empty() =~= close(bo));
}

impl MimePart {
    /// Writes the part tree, making boundaries with `gen` at timestamp
    /// `nanos`: each leaf's headers and encoded content, each multipart's
    /// head, then its children after `\r\n--boundary\r\n` each, then
    /// `\r\n--boundary--\r\n`. Nested multiparts are walked with an explicit
    /// stack of pending siblings and their boundary, not by recursion.
    /// Succeeds exactly when every part's header values can be written and
    /// every multipart's `Content-Type` is absent, a content type or raw.
    #[verifier::rlimit(100)]
    #[verifier::spinoff_prover]
    pub fn write_part_at(
        self,
        gen: &mut BoundaryGenerator,
        nanos: u128,
        output: &mut Vec<u8>,
    ) -> (r: Result<(), MimeError>)
        ensures
            extends(old(output)@, final(output)@),
            r is Ok <==> tree_wf(self),
            r is Ok ==> final(output)@ == old(output)@ + part_out(
                self,
                nanos,
                old(gen).host,
                old(gen).counter as nat,
            ).0,
            final(gen).host == old(gen).host,
    {
        let ghost start = output@;
        let ghost host = gen.host;
        let ghost c0 = gen.counter as nat;
        let ghost target = start + part_out(self, nanos, host, c0).0;
        let ghost mut c: nat = c0;
        let mut stack: Vec<(Vec<MimePart>, Option<Vec<u8>>)> = Vec::new();
        let mut it: Vec<MimePart> = Vec::new();
        it.push(self);
        let mut boundary: Option<Vec<u8>> = None;
        proof {
            assert(it@[0] == self);
            assert(trees_wf(it@, 0));
            assert(trees_wf(it@, 1) == (trees_wf(it@, 0) && tree_wf(it@[0])));
            reveal(frames_wf);
            assert(it@ =~= seq![self]);
            lemma_extends_refl(start);
            assert(stack@ =~= Seq::<(Vec<MimePart>, Option<Vec<u8>>)>::empty());
            lemma_step_start(self, it@, nanos, host, c);
            assert(output@ + rest_out(it@, None, stack@, nanos, host, c) =~= target);
        }
        loop
            invariant
                start == old(output)@,
                extends(start, output@),
                host == old(gen).host,
                target == start + part_out(self, nanos, old(gen).host, old(gen).counter as nat).0,
                gen.host == host,
                gen.counter as nat == c % 0x1_0000_0000_0000_0000,
                tree_wf(self) == (trees_wf(it@, it@.len() as int) && frames_wf(stack@)),
                tree_wf(self) ==> output@ + rest_out(
                    it@,
                    opt_view(boundary),
                    stack@,
                    nanos,
                    host,
                    c,
                ) == target,
            decreases parts_size(it@, it@.len() as int) + stack_size(stack@, stack@.len() as int),
                stack@.len(),
        {
            let ghost m0 = parts_size(it@, it@.len() as int) + stack_size(stack@, stack@.len() as int);
            let ghost l0 = stack@.len();
            while it.len() > 0
                invariant
                    start == old(output)@,
                    extends(start, output@),
                    host == old(gen).host,
                    target == start + part_out(self, nanos, old(gen).host, old(gen).counter as nat).0,
                    gen.host == host,
                    gen.counter as nat == c % 0x1_0000_0000_0000_0000,
                    tree_wf(self) == (trees_wf(it@, it@.len() as int) && frames_wf(stack@)),
                    tree_wf(self) ==> output@ + rest_out(
                        it@,
                        opt_view(boundary),
                        stack@,
                        nanos,
                        host,
                        c,
                    ) == target,
                    parts_size(it@, it@.len() as int) + stack_size(stack@, stack@.len() as int) <= m0,
                    parts_size(it@, it@.len() as int) + stack_size(stack@, stack@.len() as int) == m0
                        ==> stack@.len() == l0,
                decreases parts_size(it@, it@.len() as int) + stack_size(stack@, stack@.len() as int),
            {
                let ghost it0 = it@;
                let ghost before = output@;
                let ghost bo = opt_view(boundary);
                let ghost x = part_out(it0[0], nanos, host, c);
                proof {
                    lemma_parts_size_tail(it0, it0.len() as int);
                    lemma_trees_wf_tail(it0, it0.len() as int);
                    lemma_items_shift(it0, 0, bo, nanos, host, x.1);
                }
                let part = it.remove(0);
                assert(it@ =~= it0.subrange(1, it0.len() as int));
                match &boundary {
                    Some(b) => write_delimiter(b, false, output),
                    None => {},
                }
                assert(output@ =~= before + delim(bo));
                proof {
                    lemma_extends_append(start, before, delim(bo));
                }
                if !headers_ok(&part.headers) {
                    return Err(MimeError::InvalidAddress);
                }
                let ghost pv = part;
                assert(pv == it0[0]);
                let MimePart { headers, contents } = part;
                match contents {
                    BodyPart::Multipart(parts) => {
                        let ghost pvec = parts;
                        let ghost mid = output@;
                        let ghost hv = headers@;
                        let fresh = gen.next_with_time(nanos);
                        let b = match write_multipart_head(headers, fresh, output) {
                            Ok(b) => b,
                            Err(e) => {
                                return Err(e);
                            },
                        };
                        proof {
                            lemma_extends_append(start, mid, head_out(hv, fresh_at(nanos, host, c)));
                        }
                        let ghost st0 = stack@;
                        let ghost tail = it@;
                        let prev = it;
                        it = parts;
                        stack.push((prev, boundary));
                        boundary = Some(b);
                        proof {
                            lemma_stack_size_prefix(st0, stack@, st0.len() as int);
                            lemma_frames_push(st0, stack@.last());
                            assert(stack@ =~= st0.push(stack@.last()));
                            lemma_step_multipart(it0, bo, st0, nanos, host, c, pvec, stack@.last());
                            c = c + 1;
                            assert(output@ + rest_out(
                                it@,
                                opt_view(boundary),
                                stack@,
                                nanos,
                                host,
                                c,
                            ) =~= before + rest_out(it0, bo, st0, nanos, host, (c - 1) as nat));
                        }
                    },
                    contents => {
                        let ghost mid = output@;
                        write_leaf(&headers, &contents, output);
                        proof {
                            lemma_extends_append(start, mid, leaf_out(headers@, contents));
                            lemma_step_leaf(it0, bo, stack@, nanos, host, c);
                            if tree_wf(self) {
                                assert(output@ + rest_out(
                                    it@,
                                    opt_view(boundary),
                                    stack@,
                                    nanos,
                                    host,
                                    c,
                                ) =~= before + rest_out(it0, bo, stack@, nanos, host, c));
                            }
                        }
                    },
                }
            }
            assert(it@ =~= Seq::<MimePart>::empty());
            let ghost before = output@;
            match &boundary {
                Some(b) => {
                    write_delimiter(b, true, output);
                },
                None => {},
            }
            assert(output@ =~= before + close(opt_view(boundary)));
            proof {
                lemma_extends_append(start, before, close(opt_view(boundary)));
            }
            let ghost st0 = stack@;
            let ghost b0 = opt_view(boundary);
            match stack.pop() {
                Some(frame) => {
                    proof {
                        lemma_stack_size_prefix(st0, stack@, stack@.len() as int);
                    }
                    let (prev, b) = frame;
                    it = prev;
                    boundary = b;
                    proof {
                        assert(stack@ =~= st0.drop_last());
                        assert(st0 =~= stack@.push(st0.last()));
                        lemma_frames_push(stack@, st0.last());
                        lemma_step_pop(b0, st0, nanos, host, c);
                        assert(trees_wf(Seq::<MimePart>::empty(), 0));
                        if tree_wf(self) {
                            assert(output@ + rest_out(
                                it@,
                                opt_view(boundary),
                                stack@,
                                nanos,
                                host,
                                c,
                            ) =~= before + rest_out(Seq::<MimePart>::empty(), b0, st0, nanos, host, c));
                        }
                    }
                },
                None => {
                    proof {
                        assert(st0 =~= Seq::<(Vec<MimePart>, Option<Vec<u8>>)>::empty());
                        lemma_step_end(b0, nanos, host, c);
                        reveal(frames_wf);
                        assert(trees_wf(it@, 0));
                    }
                    assert(output@ =~= before + rest_out(Seq::<MimePart>::empty(), b0, st0, nanos, host, c));
                    return Ok(());
                },
            }
        }
    }

    /// Writes the part tree with boundaries made by `gen` at the current
    /// time; see `write_part_at`.
    pub fn write_part_with(self, gen: &mut BoundaryGenerator, output: &mut Vec<u8>) -> (r: Result<
        (),
        MimeError,
    >)
        ensures
            extends(old(output)@, final(output)@),
            r is Ok <==> tree_wf(self),
            r is Ok ==> exists|nanos: u128|
                final(output)@ == old(output)@ + part_out(
                    self,
                    nanos,
                    old(gen).host,
                    old(gen).counter as nat,
                ).0,
            final(gen).host == old(gen).host,
    {
        let nanos = now_nanos();
        self.write_part_at(gen, nanos, output)
    }

    /// Writes the part tree with boundaries from a generator seeded with
    /// this host's name, at the current time; see `write_part_at`.
    pub fn write_part(self, output: &mut Vec<u8>) -> (r: Result<(), MimeError>)
        ensures
            extends(old(output)@, final(output)@),
            r is Ok <==> tree_wf(self),
            r is Ok ==> exists|nanos: u128, host: u64|
                final(output)@ == old(output)@ + part_out(self, nanos, host, 0).0,
    {
        let mut gen = BoundaryGenerator::new();
        self.write_part_with(&mut gen, output)
    }
}

} // verus!
