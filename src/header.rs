//! Header values of a MIME part and their rendering.
use crate::address::{address_out, address_wf, bytes_of, fold_seq, Address};
use crate::codec::{
    column_after, crlf, emit, emit_byte, emit_fold, emit_pair, emit_str,
    lemma_column_after_concat, reaches_limit, LINE_LIMIT,
};
use crate::rfc2047::{text_encode, text_of};
use vstd::prelude::*;
use vstd::string::StringSliceAdditionalSpecFns;

verus! {

/// A `Content-Type`-like value: a type and its attributes, in order, with
/// unique names.
pub struct ContentType {
    pub c_type: String,
    pub attributes: Vec<(String, String)>,
}

/// A header value.
pub enum HeaderType {
    ContentType(ContentType),
    Raw(String),
    Text(String),
    MessageId(String),
    Address(Address),
}

/// The first index from `i` on whose name is `k`, or -1.
pub open spec fn key_index<X>(v: Seq<(String, X)>, k: Seq<char>, i: int) -> int
    decreases v.len() - i,
{
    if i < 0 || i >= v.len() {
        -1
    } else if v[i].0@ == k {
        i
    } else {
        key_index(v, k, i + 1)
    }
}

/// `v` with the value under name `k` set to `x`: in place where the name is
/// present, else at the end.
pub open spec fn key_set<X>(v: Seq<(String, X)>, k: String, x: X) -> Seq<(String, X)> {
    let i = key_index(v, k@, 0);
    if i >= 0 {
        v.update(i, (v[i].0, x))
    } else {
        v.push((k, x))
    }
}

/// No two entries share a name.
pub open spec fn keys_unique<X>(v: Seq<(String, X)>) -> bool {
    forall|i: int, j: int| 0 <= i < j < v.len() ==> v[i].0@ != v[j].0@
}

proof fn lemma_key_index_absent<X>(v: Seq<(String, X)>, k: Seq<char>, i: int)
    requires
        0 <= i,
        key_index(v, k, i) == -1,
    ensures
        forall|j: int| i <= j < v.len() ==> v[j].0@ != k,
    decreases v.len() - i,
{
    if i < v.len() {
        lemma_key_index_absent(v, k, i + 1);
    }
}

proof fn lemma_key_index_found<X>(v: Seq<(String, X)>, k: Seq<char>, i: int)
    requires
        0 <= i,
    ensures
        key_index(v, k, i) == -1 || (i <= key_index(v, k, i) < v.len() && v[key_index(
            v,
            k,
            i,
        )].0@ == k),
    decreases v.len() - i,
{
    if i < v.len() && v[i].0@ != k {
        lemma_key_index_found(v, k, i + 1);
    }
}

/// Setting a value keeps names unique.
pub proof fn lemma_key_set_unique<X>(v: Seq<(String, X)>, k: String, x: X)
    requires
        keys_unique(v),
    ensures
        keys_unique(key_set(v, k, x)),
{
    let i = key_index(v, k@, 0);
    if i >= 0 {
        lemma_key_index_found(v, k@, 0);
        let w = key_set(v, k, x);
        assert forall|a: int, b: int| 0 <= a < b < w.len() implies w[a].0@ != w[b].0@ by {
            assert(w[a].0 == v[a].0);
            assert(w[b].0 == v[b].0);
        }
    } else {
        lemma_key_index_found(v, k@, 0);
        lemma_key_index_absent(v, k@, 0);
    }
}

/// Finds the first entry named `k`.
pub fn find_key<X>(v: &Vec<(String, X)>, k: &String) -> (r: Option<usize>)
    ensures
        match r {
            Some(i) => i < v@.len() && i as int == key_index(v@, k@, 0),
            None => key_index(v@, k@, 0) == -1,
        },
{
    let mut i: usize = 0;
    while i < v.len()
        invariant
            i <= v@.len(),
            key_index(v@, k@, 0) == key_index(v@, k@, i as int),
        decreases v.len() - i,
    {
        if v[i].0 == *k {
            return Some(i);
        }
        i = i + 1;
    }
    None
}

/// Sets the value under name `k`.
pub fn set_key<X>(v: &mut Vec<(String, X)>, k: String, x: X)
    ensures
        final(v)@ == key_set(old(v)@, k, x),
        keys_unique(old(v)@) ==> keys_unique(final(v)@),
{
    proof {
        if keys_unique(v@) {
            lemma_key_set_unique(v@, k, x);
        }
    }
    match find_key(v, &k) {
        Some(i) => {
            let (name, _) = v.remove(i);
            v.insert(i, (name, x));
            assert(final(v)@ =~= key_set(old(v)@, k, x));
        },
        None => {
            v.push((k, x));
        },
    }
}

fn string_of(s: &str) -> (r: String)
    ensures
        r@ == s@,
{
    s.to_owned()
}

/// `text/`
pub open spec fn text_prefix() -> Seq<u8> {
    seq![116u8, 101u8, 120u8, 116u8, 47u8]
}

/// `attachment`
pub open spec fn attachment_word() -> Seq<u8> {
    seq![97u8, 116u8, 116u8, 97u8, 99u8, 104u8, 109u8, 101u8, 110u8, 116u8]
}

pub open spec fn is_text_type(t: Seq<u8>) -> bool {
    t.len() >= 5 && t.subrange(0, 5) == text_prefix()
}

/// One attribute written from column `c`: `;`, a fold or a space, and
/// `key="value"`. The fold comes where the attribute would reach column 76.
pub open spec fn attr_out(k: Seq<u8>, x: Seq<u8>, c: int) -> Seq<u8> {
    seq![59u8] + (if c + k.len() + x.len() + 5 >= LINE_LIMIT {
        fold_seq()
    } else {
        seq![32u8]
    }) + k + seq![61u8, 34u8] + x + seq![34u8]
}

/// The attributes as byte strings.
pub open spec fn attr_views(v: Seq<(String, String)>) -> Seq<(Seq<u8>, Seq<u8>)> {
    v.map_values(|p: (String, String)| (bytes_of(p.0), bytes_of(p.1)))
}

/// The first `n` attributes written from column `col`.
pub open spec fn attrs_out(w: Seq<(Seq<u8>, Seq<u8>)>, n: int, col: int) -> Seq<u8>
    decreases n,
{
    if n <= 0 || n > w.len() {
        seq![]
    } else {
        let prev = attrs_out(w, n - 1, col);
        prev + attr_out(w[n - 1].0, w[n - 1].1, column_after(col, prev))
    }
}

/// A type and attributes, as bytes, written from column `col` and ended by
/// `\r\n`.
pub open spec fn type_attrs_out(t: Seq<u8>, w: Seq<(Seq<u8>, Seq<u8>)>, col: int) -> Seq<u8> {
    t + attrs_out(w, w.len() as int, column_after(col, t)) + crlf()
}

/// A content type written from column `col`, ended by `\r\n`.
pub open spec fn content_type_out(ct: ContentType, col: int) -> Seq<u8> {
    type_attrs_out(bytes_of(ct.c_type), attr_views(ct.attributes@), col)
}

/// A header value written from column `col`, ended by `\r\n`.
pub open spec fn header_out(h: HeaderType, col: int) -> Seq<u8> {
    match h {
        HeaderType::ContentType(ct) => content_type_out(ct, col),
        HeaderType::Raw(s) => bytes_of(s) + crlf(),
        HeaderType::Text(s) => text_of(bytes_of(s)) + crlf(),
        HeaderType::MessageId(s) => seq![60u8] + bytes_of(s) + seq![62u8] + crlf(),
        HeaderType::Address(a) => address_out(a, col),
    }
}

pub open spec fn header_wf(h: HeaderType) -> bool {
    match h {
        HeaderType::Address(a) => address_wf(a),
        _ => true,
    }
}

fn write_attr(k: &String, x: &String, output: &mut Vec<u8>, col: usize) -> (r: usize)
    ensures
        final(output)@ == old(output)@ + attr_out(bytes_of(*k), bytes_of(*x), col as int),
        r == column_after(col as int, attr_out(bytes_of(*k), bytes_of(*x), col as int)),
{
    let ghost start = output@;
    let ghost kb = bytes_of(*k);
    let ghost xb = bytes_of(*x);
    let fold = reaches_limit(col, k.as_str().as_bytes().len(), x.as_str().as_bytes().len(), 5);
    let mut c = emit_byte(output, 59, col);
    let ghost mut acc: Seq<u8> = seq![59u8];
    let ghost mid = if fold {
        fold_seq()
    } else {
        seq![32u8]
    };
    if fold {
        c = emit_fold(output, c);
    } else {
        c = emit_byte(output, 32, c);
    }
    proof {
        lemma_column_after_concat(col as int, acc, mid);
        acc = acc + mid;
    }
    c = emit_str(output, k.as_str(), c);
    proof {
        lemma_column_after_concat(col as int, acc, kb);
        acc = acc + kb;
    }
    c = emit_pair(output, 61, 34, c);
    proof {
        lemma_column_after_concat(col as int, acc, seq![61u8, 34u8]);
        acc = acc + seq![61u8, 34u8];
    }
    c = emit_str(output, x.as_str(), c);
    proof {
        lemma_column_after_concat(col as int, acc, xb);
        acc = acc + xb;
    }
    c = emit_byte(output, 34, c);
    proof {
        lemma_column_after_concat(col as int, acc, seq![34u8]);
        acc = acc + seq![34u8];
    }
    assert(acc =~= attr_out(kb, xb, col as int));
    assert(output@ =~= start + acc);
    c
}

impl ContentType {
    /// A content type without attributes.
    pub fn new(c_type: &str) -> (r: ContentType)
        ensures
            r.c_type@ == c_type@,
            r.attributes@ == Seq::<(String, String)>::empty(),
    {
        ContentType { c_type: string_of(c_type), attributes: Vec::new() }
    }

    /// Sets attribute `key` to `value`.
    pub fn attribute(self, key: &str, value: &str) -> (r: ContentType)
        ensures
            r.c_type == self.c_type,
            exists|k: String, x: String|
                k@ == key@ && x@ == value@ && r.attributes@ == key_set(self.attributes@, k, x),
    {
        let mut ct = self;
        let k = string_of(key);
        let x = string_of(value);
        set_key(&mut ct.attributes, k, x);
        ct
    }

    /// Whether the type is `text/...`.
    pub fn is_text(&self) -> (r: bool)
        ensures
            r == is_text_type(bytes_of(self.c_type)),
    {
        let b = self.c_type.as_str().as_bytes();
        let r = b.len() >= 5 && b[0] == 116 && b[1] == 101 && b[2] == 120 && b[3] == 116 && b[4]
            == 47;
        assert(r ==> b@.subrange(0, 5) =~= text_prefix());
        r
    }

    /// Whether the type is `attachment`.
    pub fn is_attachment(&self) -> (r: bool)
        ensures
            r == (bytes_of(self.c_type) == attachment_word()),
    {
        let b = self.c_type.as_str().as_bytes();
        let r = b.len() == 10 && b[0] == 97 && b[1] == 116 && b[2] == 116 && b[3] == 97 && b[4]
            == 99 && b[5] == 104 && b[6] == 109 && b[7] == 101 && b[8] == 110 && b[9] == 116;
        assert(r ==> b@ =~= attachment_word());
        r
    }

    /// Appends the content type from column `col`, ended by `\r\n`.
    pub fn write_header(&self, output: &mut Vec<u8>, col: usize)
        ensures
            final(output)@ == old(output)@ + content_type_out(*self, col as int),
    {
        let ghost start = output@;
        let c0 = emit_str(output, self.c_type.as_str(), col);
        let ghost v = self.attributes@;
        let n = self.attributes.len();
        let ghost base = output@;
        let mut c: usize = c0;
        let mut i: usize = 0;
        let ghost mut acc: Seq<u8> = seq![];
        while i < n
            invariant
                n == v.len(),
                v == self.attributes@,
                i <= n,
                acc == attrs_out(attr_views(v), i as int, c0 as int),
                output@ == base + acc,
                c == column_after(c0 as int, acc),
            decreases n - i,
        {
            let (k, x) = (&self.attributes[i].0, &self.attributes[i].1);
            let ghost c_prev = c as int;
            c = write_attr(k, x, output, c);
            proof {
                lemma_column_after_concat(c0 as int, acc, attr_out(bytes_of(*k), bytes_of(*x), c_prev));
                acc = acc + attr_out(bytes_of(*k), bytes_of(*x), c_prev);
            }
            i = i + 1;
            assert(attr_views(v)[i - 1] == (bytes_of(*k), bytes_of(*x)));
            assert(acc =~= attrs_out(attr_views(v), i as int, c0 as int));
        }
        output.push(13);
        output.push(10);
        assert(output@ =~= start + content_type_out(*self, col as int));
    }
}

impl HeaderType {
    /// The content type that this value is, if it is one.
    pub fn as_content_type(&self) -> (r: Option<&ContentType>)
        ensures
            match *self {
                HeaderType::ContentType(ct) => r == Some(&ct),
                _ => r is None,
            },
    {
        match self {
            HeaderType::ContentType(ct) => Some(ct),
            _ => None,
        }
    }

    /// Appends the value from column `col`, ended by `\r\n`.
    pub fn write_header(&self, output: &mut Vec<u8>, col: usize)
        requires
            header_wf(*self),
        ensures
            final(output)@ == old(output)@ + header_out(*self, col as int),
    {
        let ghost start = output@;
        match self {
            HeaderType::ContentType(ct) => ct.write_header(output, col),
            HeaderType::Raw(s) => {
                emit_str(output, s.as_str(), col);
                emit_pair(output, 13, 10, 0);
            },
            HeaderType::Text(s) => {
                text_encode(s.as_str(), output, col);
                emit_pair(output, 13, 10, 0);
            },
            HeaderType::MessageId(s) => {
                emit_byte(output, 60, col);
                emit_str(output, s.as_str(), col);
                emit_byte(output, 62, col);
                emit_pair(output, 13, 10, 0);
            },
            HeaderType::Address(a) => a.write_header(output, col),
        }
        assert(output@ =~= start + header_out(*self, col as int));
    }
}

} // verus!
