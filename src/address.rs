//! RFC 5322 addresses and their rendering as header values, folded at 76
//! columns.
use crate::codec::{
    column_after, emit_byte, emit_fold, emit_pair, emit_str, lemma_column_after_concat, reaches_limit, LINE_LIMIT,
};
use crate::rfc2047::{rfc2047_encode, rfc2047_of};
use vstd::prelude::*;
use vstd::string::StringSliceAdditionalSpecFns;
use vstd::utf8::encode_utf8;

verus! {

/// RFC 5322 e-mail address.
pub struct EmailAddress {
    pub name: Option<String>,
    pub email: String,
}

/// RFC 5322 group of e-mail addresses.
pub struct GroupedAddresses {
    pub name: Option<String>,
    pub addresses: Vec<Address>,
}

/// RFC 5322 address: one address, a group, or a list of either.
pub enum Address {
    Address(EmailAddress),
    Group(GroupedAddresses),
    List(Vec<Address>),
}

/// A named address from `(name, email)`.
impl From<(String, String)> for Address {
    fn from(value: (String, String)) -> (r: Address) {
        Address::Address(EmailAddress { name: Some(value.0), email: value.1 })
    }
}

impl vstd::std_specs::convert::FromSpecImpl<(String, String)> for Address {
    open spec fn obeys_from_spec() -> bool {
        true
    }

    open spec fn from_spec(v: (String, String)) -> Address {
        Address::Address(EmailAddress { name: Some(v.0), email: v.1 })
    }
}

/// An address without a display name.
impl From<String> for Address {
    fn from(value: String) -> (r: Address) {
        Address::Address(EmailAddress { name: None, email: value })
    }
}

impl vstd::std_specs::convert::FromSpecImpl<String> for Address {
    open spec fn obeys_from_spec() -> bool {
        true
    }

    open spec fn from_spec(v: String) -> Address {
        Address::Address(EmailAddress { name: None, email: v })
    }
}

/// The UTF-8 bytes of a string.
pub open spec fn bytes_of(s: String) -> Seq<u8> {
    encode_utf8(s@)
}

pub open spec fn fold_seq() -> Seq<u8> {
    seq![13u8, 10u8, 9u8]
}

pub open spec fn space_seq() -> Seq<u8> {
    seq![32u8]
}

pub open spec fn comma_seq() -> Seq<u8> {
    seq![44u8, 32u8]
}

pub open spec fn semicolon_seq() -> Seq<u8> {
    seq![59u8, 32u8]
}

pub open spec fn colon_seq() -> Seq<u8> {
    seq![58u8, 32u8]
}

/// `<email>`
pub open spec fn angle(email: Seq<u8>) -> Seq<u8> {
    seq![60u8] + email + seq![62u8]
}

/// An address from column `col`: the display name, if any, then `<email>`,
/// after a fold where the address would reach column 76.
pub open spec fn email_out(a: EmailAddress, col: int) -> Seq<u8> {
    match a.name {
        Some(n) => {
            let o = rfc2047_of(bytes_of(n));
            if column_after(col, o) + bytes_of(a.email).len() + 2 >= LINE_LIMIT {
                o + fold_seq() + angle(bytes_of(a.email))
            } else {
                o + space_seq() + angle(bytes_of(a.email))
            }
        },
        None => angle(bytes_of(a.email)),
    }
}

/// Width that an address is taken to need when deciding on a fold.
pub open spec fn email_width(a: EmailAddress) -> int {
    bytes_of(a.email).len() + 2 + match a.name {
        Some(n) => bytes_of(n).len() + 3int,
        None => 0int,
    }
}

/// Width that a group is taken to need when deciding on a fold.
pub open spec fn group_width(g: GroupedAddresses) -> int {
    match g.name {
        Some(n) => bytes_of(n).len() + 2int,
        None => 0int,
    }
}

pub open spec fn is_single(a: Address) -> bool {
    a is Address
}

/// A group holds single addresses only.
pub open spec fn group_wf(g: GroupedAddresses) -> bool {
    forall|i: int| 0 <= i < g.addresses@.len() ==> is_single(#[trigger] g.addresses@[i])
}

/// Every group, at the top or in a list, holds single addresses only.
pub open spec fn address_wf(a: Address) -> bool {
    match a {
        Address::Address(_) => true,
        Address::Group(g) => group_wf(g),
        Address::List(v) => forall|i: int|
            0 <= i < v@.len() ==> match #[trigger] v@[i] {
                Address::Group(g) => group_wf(g),
                _ => true,
            },
    }
}

/// The members of a group, the first `n` of them, from column `col`: each
/// after a fold where its width would reach column 76, separated by `, `.
pub open spec fn members_out(v: Seq<Address>, n: int, col: int) -> Seq<u8>
    decreases n,
{
    if n <= 0 || n > v.len() {
        seq![]
    } else {
        let prev = members_out(v, n - 1, col);
        let c = column_after(col, prev);
        match v[n - 1] {
            Address::Address(a) => {
                let fold = c + email_width(a) >= LINE_LIMIT;
                let c2 = if fold {
                    1
                } else {
                    c
                };
                prev + (if fold {
                    fold_seq()
                } else {
                    seq![]
                }) + email_out(a, c2) + (if n < v.len() {
                    comma_seq()
                } else {
                    seq![]
                })
            },
            _ => prev,
        }
    }
}

pub open spec fn group_head(g: GroupedAddresses) -> Seq<u8> {
    match g.name {
        Some(n) => rfc2047_of(bytes_of(n)) + colon_seq(),
        None => seq![],
    }
}

/// A group from column `col`: its name and `: `, then its members.
pub open spec fn group_out(g: GroupedAddresses, col: int) -> Seq<u8> {
    group_head(g) + members_out(
        g.addresses@,
        g.addresses@.len() as int,
        column_after(col, group_head(g)),
    )
}

/// One item of a list written from column `c`: after a fold where its width
/// would reach column 76; an address followed by `, ` and a group by `; `
/// where `more` items follow. A list inside a list takes no room.
pub open spec fn list_item_out(item: Address, c: int, more: bool) -> Seq<u8> {
    match item {
        Address::Address(a) => {
            let fold = c + email_width(a) >= LINE_LIMIT;
            (if fold {
                fold_seq()
            } else {
                seq![]
            }) + email_out(
                a,
                if fold {
                    1
                } else {
                    c
                },
            ) + (if more {
                comma_seq()
            } else {
                seq![]
            })
        },
        Address::Group(g) => {
            let fold = c + group_width(g) >= LINE_LIMIT;
            (if fold {
                fold_seq()
            } else {
                seq![]
            }) + group_out(
                g,
                if fold {
                    1
                } else {
                    c
                },
            ) + (if more {
                semicolon_seq()
            } else {
                seq![]
            })
        },
        Address::List(_) => seq![],
    }
}

/// The first `n` items of a list from column `col`.
pub open spec fn list_out(v: Seq<Address>, n: int, col: int) -> Seq<u8>
    decreases n,
{
    if n <= 0 || n > v.len() {
        seq![]
    } else {
        let prev = list_out(v, n - 1, col);
        prev + list_item_out(v[n - 1], column_after(col, prev), n < v.len())
    }
}

/// An address header's value from column `col`, ended by `\r\n`.
pub open spec fn address_out(a: Address, col: int) -> Seq<u8> {
    address_body(a, col) + seq![13u8, 10u8]
}

pub open spec fn address_body(a: Address, col: int) -> Seq<u8> {
    match a {
        Address::Address(e) => email_out(e, col),
        Address::Group(g) => group_out(g, col),
        Address::List(v) => list_out(v@, v@.len() as int, col),
    }
}

/// `n` holds the same text as `m`, or both are absent.
pub open spec fn same_name(n: Option<String>, m: Option<&str>) -> bool {
    match (n, m) {
        (Some(a), Some(b)) => a@ == b@,
        (None, None) => true,
        _ => false,
    }
}

fn string_of(s: &str) -> (r: String)
    ensures
        r@ == s@,
{
    s.to_owned()
}

/// Whether the address can be written: no group inside a group or a list
/// holds anything but single addresses.
pub fn address_is_wf(a: &Address) -> (r: bool)
    ensures
        r == address_wf(*a),
{
    match a {
        Address::Address(_) => true,
        Address::Group(g) => group_is_wf(g),
        Address::List(v) => {
            let mut i: usize = 0;
            while i < v.len()
                invariant
                    *a == Address::List(*v),
                    i <= v@.len(),
                    forall|j: int|
                        0 <= j < i ==> match #[trigger] v@[j] {
                            Address::Group(g) => group_wf(g),
                            _ => true,
                        },
                decreases v.len() - i,
            {
                let ok = match &v[i] {
                    Address::Group(g) => group_is_wf(g),
                    _ => true,
                };
                if !ok {
                    assert(!match v@[i as int] {
                        Address::Group(g) => group_wf(g),
                        _ => true,
                    });
                    assert(!address_wf(*a));
                    return false;
                }
                i = i + 1;
            }
            true
        },
    }
}

fn group_is_wf(g: &GroupedAddresses) -> (r: bool)
    ensures
        r == group_wf(*g),
{
    let mut i: usize = 0;
    while i < g.addresses.len()
        invariant
            i <= g.addresses@.len(),
            forall|j: int| 0 <= j < i ==> is_single(#[trigger] g.addresses@[j]),
        decreases g.addresses.len() - i,
    {
        let ok = match &g.addresses[i] {
            Address::Address(_) => true,
            _ => false,
        };
        if !ok {
            return false;
        }
        i = i + 1;
    }
    true
}

impl EmailAddress {
    /// Appends the address from column `col` and returns the column reached.
    pub fn write_header(&self, output: &mut Vec<u8>, col: usize) -> (r: usize)
        ensures
            final(output)@ == old(output)@ + email_out(*self, col as int),
            r == column_after(col as int, email_out(*self, col as int)),
    {
        let ghost start = output@;
        let email = self.email.as_str();
        let mut c: usize = col;
        let ghost mut done: Seq<u8> = seq![];
        match &self.name {
            Some(n) => {
                c = rfc2047_encode(n.as_str(), output, c);
                proof { done = rfc2047_of(bytes_of(*n)); }
                let ghost d0 = done;
                let ghost ee = bytes_of(self.email);
                assert(self.name == Some(*n));
                if reaches_limit(c, email.as_bytes().len(), 2, 0) {
                    c = emit_fold(output, c);
                    proof {
                        lemma_column_after_concat(col as int, d0, fold_seq());
                        done = d0 + fold_seq();
                        assert(done + angle(ee) =~= email_out(*self, col as int));
                    }
                } else {
                    c = emit_byte(output, 32, c);
                    proof {
                        lemma_column_after_concat(col as int, d0, space_seq());
                        done = d0 + space_seq();
                        assert(done + angle(ee) =~= email_out(*self, col as int));
                    }
                }
            },
            None => {},
        }
        let ghost d1 = done;
        c = emit_byte(output, 60, c);
        c = emit_str(output, email, c);
        c = emit_byte(output, 62, c);
        proof {
            let e = email.spec_bytes();
            lemma_column_after_concat(col as int, d1, seq![60u8]);
            lemma_column_after_concat(col as int, d1 + seq![60u8], e);
            lemma_column_after_concat(col as int, d1 + seq![60u8] + e, seq![62u8]);
            assert(d1 + seq![60u8] + e + seq![62u8] =~= d1 + angle(e));
            assert(e == bytes_of(self.email));
            assert(d1 + angle(e) =~= email_out(*self, col as int));
            assert(output@ =~= start + email_out(*self, col as int));
        }
        c
    }
}


/// Whether an address of this width, written from column `c`, reaches the
/// line limit.
fn group_reaches_limit(g: &GroupedAddresses, c: usize) -> (r: bool)
    ensures
        r == (c + group_width(*g) >= LINE_LIMIT),
{
    match &g.name {
        Some(n) => reaches_limit(c, n.as_str().as_bytes().len(), 0, 2),
        None => reaches_limit(c, 0, 0, 0),
    }
}

fn email_reaches_limit(a: &EmailAddress, c: usize) -> (r: bool)
    ensures
        r == (c + email_width(*a) >= LINE_LIMIT),
{
    match &a.name {
        Some(n) => reaches_limit(c, a.email.as_str().as_bytes().len(), n.as_str().as_bytes().len(), 5),
        None => reaches_limit(c, a.email.as_str().as_bytes().len(), 0, 2),
    }
}

impl GroupedAddresses {
    /// Appends the group from column `col` and returns the column reached.
    pub fn write_header(&self, output: &mut Vec<u8>, col: usize) -> (r: usize)
        requires
            group_wf(*self),
        ensures
            final(output)@ == old(output)@ + group_out(*self, col as int),
            r == column_after(col as int, group_out(*self, col as int)),
    {
        let ghost start = output@;
        let mut c: usize = col;
        let ghost mut head: Seq<u8> = seq![];
        match &self.name {
            Some(n) => {
                c = rfc2047_encode(n.as_str(), output, c);
                let ghost o = rfc2047_of(bytes_of(*n));
                c = emit_pair(output, 58, 32, c);
                proof {
                    lemma_column_after_concat(col as int, o, colon_seq());
                    head = o + colon_seq();
                }
            },
            None => {},
        }
        assert(head == group_head(*self));
        assert(output@ =~= start + head);
        let ghost c0 = c as int;
        let ghost v = self.addresses@;
        let n = self.addresses.len();
        let mut i: usize = 0;
        let ghost mut acc: Seq<u8> = seq![];
        while i < n
            invariant
                n == v.len(),
                v == self.addresses@,
                group_wf(*self),
                i <= n,
                acc == members_out(v, i as int, c0),
                output@ == start + head + acc,
                c == column_after(c0, acc),
            decreases n - i,
        {
            assert(is_single(v[i as int]));
            let a = self.addresses[i].unwrap_address();
            let ghost c_prev = c as int;
            if email_reaches_limit(a, c) {
                c = emit_fold(output, c);
                proof {
                    lemma_column_after_concat(c0, acc, fold_seq());
                    acc = acc + fold_seq();
                }
            }
            let ghost c_mid = c as int;
            c = a.write_header(output, c);
            proof {
                lemma_column_after_concat(c0, acc, email_out(*a, c_mid));
                acc = acc + email_out(*a, c_mid);
            }
            if i + 1 < n {
                c = emit_pair(output, 44, 32, c);
                proof {
                    lemma_column_after_concat(c0, acc, comma_seq());
                    acc = acc + comma_seq();
                }
            }
            i = i + 1;
            proof {
                assert(v[i - 1] == Address::Address(*a));
                assert(acc =~= members_out(v, i as int, c0));
            }
            assert(output@ =~= start + head + acc);
        }
        proof {
            lemma_column_after_concat(col as int, head, acc);
            assert(head + acc =~= group_out(*self, col as int));
        }
        assert(output@ =~= start + group_out(*self, col as int));
        c
    }
}

impl Address {
    /// An RFC 5322 e-mail address.
    pub fn new_address(name: Option<&str>, email: &str) -> (r: Address)
        ensures
            r is Address,
            same_name(r->Address_0.name, name),
            r->Address_0.email@ == email@,
    {
        let name = match name {
            Some(n) => Some(string_of(n)),
            None => None,
        };
        Address::Address(EmailAddress { name, email: string_of(email) })
    }

    /// An RFC 5322 group of addresses.
    pub fn new_group(name: Option<&str>, addresses: Vec<Address>) -> (r: Address)
        ensures
            r is Group,
            same_name(r->Group_0.name, name),
            r->Group_0.addresses == addresses,
    {
        let name = match name {
            Some(n) => Some(string_of(n)),
            None => None,
        };
        Address::Group(GroupedAddresses { name, addresses })
    }

    /// A list of addresses.
    pub fn new_list(items: Vec<Address>) -> (r: Address)
        ensures
            r == Address::List(items),
    {
        Address::List(items)
    }

    /// Appends one item of a list from column `col` and returns the column
    /// reached.
    #[verifier::rlimit(50)]
    fn write_list_item(item: &Address, more: bool, output: &mut Vec<u8>, col: usize) -> (r: usize)
        requires
            match *item {
                Address::Group(g) => group_wf(g),
                _ => true,
            },
        ensures
            final(output)@ == old(output)@ + list_item_out(*item, col as int, more),
            r == column_after(col as int, list_item_out(*item, col as int, more)),
    {
        let ghost start = output@;
        let ghost c0 = col as int;
        let mut c: usize = col;
        let ghost mut acc: Seq<u8> = seq![];
            match item {
            Address::Address(a) => {
                if email_reaches_limit(a, c) {
                    c = emit_fold(output, c);
                    proof {
                        lemma_column_after_concat(c0, acc, fold_seq());
                        acc = acc + fold_seq();
                    }
                }
                let ghost c_mid = c as int;
                c = a.write_header(output, c);
                proof {
                    lemma_column_after_concat(c0, acc, email_out(*a, c_mid));
                    acc = acc + email_out(*a, c_mid);
                }
                if more {
                    c = emit_pair(output, 44, 32, c);
                    proof {
                        lemma_column_after_concat(c0, acc, comma_seq());
                        acc = acc + comma_seq();
                    }
                }
            },
            Address::Group(g) => {
                if group_reaches_limit(g, c) {
                    c = emit_fold(output, c);
                    proof {
                        lemma_column_after_concat(c0, acc, fold_seq());
                        acc = acc + fold_seq();
                    }
                }
                let ghost c_mid = c as int;
                c = g.write_header(output, c);
                proof {
                    lemma_column_after_concat(c0, acc, group_out(*g, c_mid));
                    acc = acc + group_out(*g, c_mid);
                }
                if more {
                    c = emit_pair(output, 59, 32, c);
                    proof {
                        lemma_column_after_concat(c0, acc, semicolon_seq());
                        acc = acc + semicolon_seq();
                    }
                }
            },
            Address::List(_) => {},
        }
        assert(acc =~= list_item_out(*item, col as int, more));
        assert(output@ =~= start + acc);
        c
    }

    /// Appends the list's items from column `col` and returns the column
    /// reached.
    fn write_list(items: &Vec<Address>, output: &mut Vec<u8>, col: usize) -> (r: usize)
        requires
            address_wf(Address::List(*items)),
        ensures
            final(output)@ == old(output)@ + list_out(items@, items@.len() as int, col as int),
            r == column_after(col as int, list_out(items@, items@.len() as int, col as int)),
    {
        let ghost start = output@;
        let ghost c0 = col as int;
        let ghost v = items@;
        let n = items.len();
        let mut c: usize = col;
        let mut i: usize = 0;
        let ghost mut acc: Seq<u8> = seq![];
        while i < n
            invariant
                n == v.len(),
                v == items@,
                address_wf(Address::List(*items)),
                i <= n,
                acc == list_out(v, i as int, c0),
                output@ == start + acc,
                c == column_after(c0, acc),
            decreases n - i,
        {
            let item = &items[i];
            assert(*item == v[i as int]);
            let ghost c_prev = c as int;
            c = Address::write_list_item(item, i + 1 < n, output, c);
            proof {
                lemma_column_after_concat(c0, acc, list_item_out(*item, c_prev, i + 1 < n));
                acc = acc + list_item_out(*item, c_prev, i + 1 < n);
            }
            i = i + 1;
            assert(acc =~= list_out(v, i as int, c0));
            assert(output@ =~= start + acc);
        }
        c
    }

    /// Appends the address as a header value, written from column `col` and
    /// ended by `\r\n`.
    pub fn write_header(&self, output: &mut Vec<u8>, col: usize)
        requires
            address_wf(*self),
        ensures
            final(output)@ == old(output)@ + address_out(*self, col as int),
    {
        let ghost start = output@;
        match self {
            Address::Address(a) => {
                a.write_header(output, col);
            },
            Address::Group(g) => {
                g.write_header(output, col);
            },
            Address::List(v) => {
                Address::write_list(v, output, col);
            },
        }
        output.push(13);
        output.push(10);
        assert(output@ =~= start + address_out(*self, col as int));
    }

    /// The single address that this address is.
    pub fn unwrap_address(&self) -> (r: &EmailAddress)
        requires
            is_single(*self),
        ensures
            *self == Address::Address(*r),
    {
        match self {
            Address::Address(a) => a,
            _ => vstd::pervasive::unreached(),
        }
    }
}

} // verus!
