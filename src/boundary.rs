//! Boundaries of multipart bodies: three lower-case hexadecimal groups made
//! from a timestamp, a per-generator counter mixed with a multiplicative
//! constant, and a hash of the host.
use crate::address::bytes_of;
use std::hash::{Hash, Hasher};
use vstd::prelude::*;

verus! {

/// Odd constant that mixes the counter; multiplying by it is a bijection on
/// 64-bit words.
pub const MIX: u64 = 11400714819323198485;

pub open spec fn lower_hex_digit(d: nat) -> u8 {
    if d < 10 {
        (48 + d) as u8
    } else {
        (87 + d) as u8
    }
}

/// `n` in lower-case hexadecimal, without leading zeros.
pub open spec fn hex_lower(n: nat) -> Seq<u8>
    decreases n,
{
    if n < 16 {
        seq![lower_hex_digit(n)]
    } else {
        hex_lower(n / 16) + seq![lower_hex_digit(n % 16)]
    }
}

/// The counter's contribution: `(host + counter) * MIX` on 64-bit words.
pub open spec fn mix(host: u64, counter: u64) -> u64 {
    (((host as int + counter as int) % 0x1_0000_0000_0000_0000) * MIX as int
        % 0x1_0000_0000_0000_0000) as u64
}

/// `<nanos>_<mix>_<host>` in hexadecimal.
pub open spec fn boundary_of(nanos: u128, counter: u64, host: u64) -> Seq<u8> {
    hex_lower(nanos as nat) + seq![95u8] + hex_lower(mix(host, counter) as nat) + seq![95u8]
        + hex_lower(host as nat)
}

fn push_hex(n: u128, out: &mut Vec<u8>)
    ensures
        final(out)@ == old(out)@ + hex_lower(n as nat),
    decreases n,
{
    if n >= 16 {
        push_hex(n / 16, out);
    }
    let d = (n % 16) as u8;
    out.push(if d < 10 { 48 + d } else { 87 + d });
    assert(final(out)@ =~= old(out)@ + hex_lower(n as nat));
}

fn mix_exec(host: u64, counter: u64) -> (r: u64)
    ensures
        r == mix(host, counter),
{
    let s = host.wrapping_add(counter);
    let r = s.wrapping_mul(MIX);
    r
}

/// Relies on `String::from_utf8`, which hands back the bytes it is given
/// as a string where they are valid UTF-8, as ASCII is.
#[verifier::external_body]
fn ascii_string(v: Vec<u8>) -> (r: String)
    requires
        forall|i: int| 0 <= i < v@.len() ==> v@[i] < 128,
    ensures
        bytes_of(r) == v@,
{
    match String::from_utf8(v) {
        Ok(s) => s,
        Err(_) => String::new(),
    }
}

/// Relies on `gethostname::gethostname`: the name of this machine, read as
/// UTF-8 with invalid bytes replaced.
#[verifier::external_body]
fn host_name() -> String {
    gethostname::gethostname().to_string_lossy().into_owned()
}

/// Relies on std's `DefaultHasher`: a 64-bit hash of the bytes, of which
/// nothing is promised.
#[verifier::external_body]
fn hash_bytes(b: &[u8]) -> u64 {
    let mut s = std::collections::hash_map::DefaultHasher::new();
    b.hash(&mut s);
    s.finish()
}

/// Relies on `SystemTime::now`: nanoseconds since the Unix epoch, 0 where the
/// clock stands before it.
#[verifier::external_body]
pub(crate) fn now_nanos() -> u128 {
    match std::time::SystemTime::now().duration_since(std::time::UNIX_EPOCH) {
        Ok(d) => d.as_nanos(),
        Err(_) => 0,
    }
}

pub open spec fn is_lower_hex(b: u8) -> bool {
    (48 <= b <= 57) || (97 <= b <= 102)
}

pub proof fn lemma_hex_lower_digits(n: nat)
    ensures
        hex_lower(n).len() >= 1,
        forall|i: int| 0 <= i < hex_lower(n).len() ==> is_lower_hex(#[trigger] hex_lower(n)[i]),
    decreases n,
{
    if n >= 16 {
        lemma_hex_lower_digits(n / 16);
        let a = hex_lower(n / 16);
        let x = lower_hex_digit(n % 16);
        assert(hex_lower(n) == a + seq![x]);
        assert forall|i: int| 0 <= i < hex_lower(n).len() implies is_lower_hex(
            #[trigger] hex_lower(n)[i],
        ) by {
            if i < a.len() {
                assert(hex_lower(n)[i] == a[i]);
            } else {
                assert(hex_lower(n)[i] == x);
            }
        }
    } else {
        assert(hex_lower(n) == seq![lower_hex_digit(n)]);
    }
}

/// Multiplying by `MIX` and then by its inverse gives the word back.
proof fn lemma_mix_inverse(x: u64)
    ensures
        ((x as int * MIX as int) % 0x1_0000_0000_0000_0000) * 17428512612931826493int
            % 0x1_0000_0000_0000_0000 == x as int,
{
    let y: u64 = x.wrapping_mul(MIX);
    assert(y.wrapping_mul(17428512612931826493u64) == x) by (bit_vector)
        requires
            y == x.wrapping_mul(11400714819323198485u64),
    ;
}

/// Different counters on one host give different mixed words.
proof fn lemma_mix_injective(host: u64, c1: u64, c2: u64)
    requires
        mix(host, c1) == mix(host, c2),
    ensures
        c1 == c2,
{
    let x1 = ((host as int + c1 as int) % 0x1_0000_0000_0000_0000) as u64;
    let x2 = ((host as int + c2 as int) % 0x1_0000_0000_0000_0000) as u64;
    lemma_mix_inverse(x1);
    lemma_mix_inverse(x2);
}

/// Hexadecimal writing is one to one.
proof fn lemma_hex_lower_injective(a: nat, b: nat)
    requires
        hex_lower(a) == hex_lower(b),
    ensures
        a == b,
    decreases a + b,
{
    let ha = hex_lower(a);
    if a < 16 && b < 16 {
        assert(ha[0] == hex_lower(b)[0]);
    } else if a >= 16 && b >= 16 {
        lemma_hex_lower_digits(a / 16);
        lemma_hex_lower_digits(b / 16);
        assert(ha.last() == lower_hex_digit(a % 16));
        assert(hex_lower(b).last() == lower_hex_digit(b % 16));
        assert(hex_lower(a / 16) =~= ha.drop_last());
        assert(hex_lower(b / 16) =~= hex_lower(b).drop_last());
        lemma_hex_lower_injective(a / 16, b / 16);
    } else if a < 16 {
        lemma_hex_lower_digits(b / 16);
        assert(ha.len() == 1);
        assert(hex_lower(b).len() >= 2);
    } else {
        lemma_hex_lower_digits(a / 16);
        assert(hex_lower(b).len() == 1);
        assert(ha.len() >= 2);
    }
}

/// In `x + "_" + y` with `x` made of hexadecimal digits, `x` ends where the
/// first `_` stands.
proof fn lemma_split_at_underscore(x1: Seq<u8>, y1: Seq<u8>, x2: Seq<u8>, y2: Seq<u8>)
    requires
        forall|i: int| 0 <= i < x1.len() ==> is_lower_hex(#[trigger] x1[i]),
        forall|i: int| 0 <= i < x2.len() ==> is_lower_hex(#[trigger] x2[i]),
        x1 + seq![95u8] + y1 == x2 + seq![95u8] + y2,
    ensures
        x1 == x2,
        y1 == y2,
{
    let s = x1 + seq![95u8] + y1;
    let t = x2 + seq![95u8] + y2;
    if x1.len() < x2.len() {
        assert(s[x1.len() as int] == 95u8);
        assert(t[x1.len() as int] == x2[x1.len() as int]);
    } else if x2.len() < x1.len() {
        assert(t[x2.len() as int] == 95u8);
        assert(s[x2.len() as int] == x1[x2.len() as int]);
    } else {
        assert(x1 =~= s.subrange(0, x1.len() as int));
        assert(x2 =~= t.subrange(0, x2.len() as int));
        assert(y1 =~= s.subrange(x1.len() + 1int, s.len() as int));
        assert(y2 =~= t.subrange(x2.len() + 1int, t.len() as int));
    }
}

/// Boundaries made on one host with different counters differ, whatever
/// the timestamps: a generator's successive boundaries are distinct.
pub proof fn lemma_boundaries_distinct(n1: u128, c1: u64, n2: u128, c2: u64, host: u64)
    requires
        c1 != c2,
    ensures
        boundary_of(n1, c1, host) != boundary_of(n2, c2, host),
{
    if boundary_of(n1, c1, host) == boundary_of(n2, c2, host) {
        let a1 = hex_lower(n1 as nat);
        let a2 = hex_lower(n2 as nat);
        let m1 = hex_lower(mix(host, c1) as nat);
        let m2 = hex_lower(mix(host, c2) as nat);
        let h = hex_lower(host as nat);
        lemma_hex_lower_digits(n1 as nat);
        lemma_hex_lower_digits(n2 as nat);
        lemma_hex_lower_digits(mix(host, c1) as nat);
        lemma_hex_lower_digits(mix(host, c2) as nat);
        assert(a1 + seq![95u8] + (m1 + seq![95u8] + h) =~= boundary_of(n1, c1, host));
        assert(a2 + seq![95u8] + (m2 + seq![95u8] + h) =~= boundary_of(n2, c2, host));
        lemma_split_at_underscore(a1, m1 + seq![95u8] + h, a2, m2 + seq![95u8] + h);
        lemma_split_at_underscore(m1, h, m2, h);
        lemma_hex_lower_injective(mix(host, c1) as nat, mix(host, c2) as nat);
        lemma_mix_injective(host, c1, c2);
    }
}

/// A generator hands out distinct boundaries for up to 2^64 calls in a row:
/// the counters of the `i`-th and `j`-th call differ.
pub proof fn lemma_generator_distinct(c: u64, i: nat, j: nat, n1: u128, n2: u128, host: u64)
    requires
        i < j < 0x1_0000_0000_0000_0000,
    ensures
        boundary_of(n1, ((c + i) % 0x1_0000_0000_0000_0000) as u64, host) != boundary_of(
            n2,
            ((c + j) % 0x1_0000_0000_0000_0000) as u64,
            host,
        ),
{
    let ci = ((c + i) % 0x1_0000_0000_0000_0000) as u64;
    let cj = ((c + j) % 0x1_0000_0000_0000_0000) as u64;
    assert(ci != cj);
    lemma_boundaries_distinct(n1, ci, n2, cj, host);
}

/// The boundary `<nanos>_<mix>_<host>`.
pub fn format_boundary(nanos: u128, counter: u64, host: u64) -> (r: String)
    ensures
        bytes_of(r) == boundary_of(nanos, counter, host),
{
    let mut v: Vec<u8> = Vec::new();
    push_hex(nanos, &mut v);
    v.push(95);
    push_hex(mix_exec(host, counter) as u128, &mut v);
    v.push(95);
    push_hex(host as u128, &mut v);
    proof {
        lemma_hex_lower_digits(nanos as nat);
        lemma_hex_lower_digits(mix(host, counter) as nat);
        lemma_hex_lower_digits(host as nat);
        assert(v@ =~= boundary_of(nanos, counter, host));
        let a = hex_lower(nanos as nat);
        let m = hex_lower(mix(host, counter) as nat);
        let h = hex_lower(host as nat);
        assert forall|i: int| 0 <= i < v@.len() implies v@[i] < 128 by {
            if i < a.len() {
                assert(v@[i] == a[i]);
            } else if i == a.len() {
            } else if i < a.len() + 1 + m.len() {
                assert(v@[i] == m[i - a.len() - 1]);
            } else if i == a.len() + 1 + m.len() {
            } else {
                assert(v@[i] == h[i - a.len() - 2 - m.len()]);
            }
        }
    }
    ascii_string(v)
}

/// Source of boundaries for one writer: a host hash and a counter that
/// moves on with every boundary.
pub struct BoundaryGenerator {
    pub host: u64,
    pub counter: u64,
}

impl BoundaryGenerator {
    /// A generator seeded with a hash of this machine's name.
    pub fn new() -> (r: BoundaryGenerator)
        ensures
            r.counter == 0,
    {
        let name = host_name();
        BoundaryGenerator { host: hash_bytes(name.as_str().as_bytes()), counter: 0 }
    }

    /// A generator with the given host hash and counter.
    pub fn with_state(host: u64, counter: u64) -> (r: BoundaryGenerator)
        ensures
            r.host == host,
            r.counter == counter,
    {
        BoundaryGenerator { host, counter }
    }

    /// The boundary for timestamp `nanos`; the counter moves on by one.
    pub fn next_with_time(&mut self, nanos: u128) -> (r: String)
        ensures
            bytes_of(r) == boundary_of(nanos, old(self).counter, old(self).host),
            final(self).host == old(self).host,
            final(self).counter == (old(self).counter + 1) % 0x1_0000_0000_0000_0000,
    {
        let r = format_boundary(nanos, self.counter, self.host);
        self.counter = self.counter.wrapping_add(1);
        r
    }

    /// The boundary for the current time; the counter moves on by one.
    pub fn next(&mut self) -> (r: String)
        ensures
            exists|nanos: u128| bytes_of(r) == boundary_of(nanos, old(self).counter, old(self).host),
            final(self).host == old(self).host,
            final(self).counter == (old(self).counter + 1) % 0x1_0000_0000_0000_0000,
    {
        let nanos = now_nanos();
        self.next_with_time(nanos)
    }
}

} // verus!
