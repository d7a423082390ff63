//! The binary codec of every protocol value: fixed-width big-endian integers,
//! sequences prefixed by a 64-bit length, enum variants by a 32-bit index,
//! options by a one-byte tag. A decoder reads from a position and leaves any
//! bytes after the value alone.

use vstd::prelude::*;
use vstd::utf8::{decode_utf8, encode_utf8, valid_utf8};

verus! {

broadcast use vstd::utf8::encode_utf8_valid_utf8, vstd::utf8::encode_utf8_decode_utf8,
    vstd::utf8::decode_utf8_encode_utf8;

pub open spec fn pow256(n: nat) -> nat
    decreases n,
{
    if n == 0 {
        1
    } else {
        256 * pow256((n - 1) as nat)
    }
}

/// The `n` low-order bytes of `v`, most significant first.
pub open spec fn be(v: nat, n: nat) -> Seq<u8>
    decreases n,
{
    if n == 0 {
        Seq::empty()
    } else {
        be(v / 256, (n - 1) as nat).push((v % 256) as u8)
    }
}

/// The number that big-endian bytes stand for.
pub open spec fn be_val(s: Seq<u8>) -> nat
    decreases s.len(),
{
    if s.len() == 0 {
        0
    } else {
        be_val(s.drop_last()) * 256 + s.last() as nat
    }
}

/// `e` stands in `data` from `pos` on.
pub open spec fn at(data: Seq<u8>, pos: int, e: Seq<u8>) -> bool {
    0 <= pos && pos + e.len() <= data.len() && data.subrange(pos, pos + e.len()) == e
}

proof fn lemma_pow256_positive(n: nat)
    ensures
        pow256(n) >= 1,
    decreases n,
{
    if n > 0 {
        lemma_pow256_positive((n - 1) as nat);
    }
}

proof fn lemma_pow256_mono(a: nat, b: nat)
    requires
        a <= b,
    ensures
        pow256(a) <= pow256(b),
    decreases b,
{
    if a < b {
        lemma_pow256_mono(a, (b - 1) as nat);
        lemma_pow256_positive((b - 1) as nat);
    }
}

pub broadcast proof fn lemma_be_len(v: nat, n: nat)
    ensures
        #[trigger] be(v, n).len() == n,
    decreases n,
{
    if n > 0 {
        lemma_be_len(v / 256, (n - 1) as nat);
    }
}

pub proof fn lemma_be_round(v: nat, n: nat)
    requires
        v < pow256(n),
    ensures
        be_val(be(v, n)) == v,
    decreases n,
{
    if n == 0 {
    } else {
        let q = v / 256;
        assert(q < pow256((n - 1) as nat)) by (nonlinear_arith)
            requires
                v < 256 * pow256((n - 1) as nat),
                q == v / 256,
        ;
        lemma_be_round(q, (n - 1) as nat);
        assert(be(v, n).drop_last() =~= be(q, (n - 1) as nat));
        assert(q * 256 + v % 256 == v) by (nonlinear_arith)
            requires
                q == v / 256,
        ;
    }
}

proof fn lemma_be_val_bound(s: Seq<u8>)
    ensures
        be_val(s) < pow256(s.len()),
    decreases s.len(),
{
    if s.len() > 0 {
        lemma_be_val_bound(s.drop_last());
        let a = be_val(s.drop_last());
        let p = pow256(s.drop_last().len());
        assert(a * 256 + s.last() < 256 * p) by (nonlinear_arith)
            requires
                a < p,
                s.last() < 256,
        ;
    }
}

pub proof fn lemma_be_of_val(s: Seq<u8>)
    ensures
        be(be_val(s), s.len()) == s,
    decreases s.len(),
{
    if s.len() > 0 {
        let a = be_val(s.drop_last());
        let v = be_val(s);
        assert(v / 256 == a && v % 256 == s.last()) by (nonlinear_arith)
            requires
                v == a * 256 + s.last(),
                s.last() < 256,
        ;
        lemma_be_of_val(s.drop_last());
        assert(be(v, s.len()) =~= s);
    }
}

pub proof fn lemma_at_split(data: Seq<u8>, pos: int, a: Seq<u8>, b: Seq<u8>)
    requires
        at(data, pos, a + b),
    ensures
        at(data, pos, a),
        at(data, pos + a.len(), b),
{
    let whole = data.subrange(pos, pos + a.len() + b.len());
    assert(whole == a + b);
    assert(data.subrange(pos, pos + a.len()) =~= whole.subrange(0, a.len() as int));
    assert(whole.subrange(0, a.len() as int) =~= a);
    assert(data.subrange(pos + a.len(), pos + a.len() + b.len()) =~= whole.subrange(
        a.len() as int,
        (a.len() + b.len()) as int,
    ));
    assert(whole.subrange(a.len() as int, (a.len() + b.len()) as int) =~= b);
}

pub proof fn lemma_at_join(data: Seq<u8>, pos: int, a: Seq<u8>, b: Seq<u8>)
    requires
        at(data, pos, a),
        at(data, pos + a.len(), b),
    ensures
        at(data, pos, a + b),
{
    assert(data.subrange(pos, pos + a.len() + b.len()) =~= a + b);
}

pub proof fn lemma_at_split3(data: Seq<u8>, pos: int, a: Seq<u8>, b: Seq<u8>, c: Seq<u8>)
    requires
        at(data, pos, a + b + c),
    ensures
        at(data, pos, a),
        at(data, pos + a.len(), b),
        at(data, pos + a.len() + b.len(), c),
{
    lemma_at_split(data, pos, a + b, c);
    lemma_at_split(data, pos, a, b);
}

pub proof fn lemma_at_join3(data: Seq<u8>, pos: int, a: Seq<u8>, b: Seq<u8>, c: Seq<u8>)
    requires
        at(data, pos, a),
        at(data, pos + a.len(), b),
        at(data, pos + a.len() + b.len(), c),
    ensures
        at(data, pos, a + b + c),
{
    lemma_at_join(data, pos, a, b);
    lemma_at_join(data, pos, a + b, c);
}

/// Appends the `n` low-order bytes of `v`, most significant first.
fn push_be(out: &mut Vec<u8>, v: u128, n: usize)
    requires
        n <= 16,
    ensures
        final(out)@ == old(out)@ + be(v as nat, n as nat),
{
    let mut bytes: Vec<u8> = Vec::new();
    let mut k: usize = 0;
    while k < n
        invariant
            k <= n,
            bytes@.len() == k,
        decreases n - k,
    {
        bytes.push(0);
        k = k + 1;
    }
    let mut x: u128 = v;
    let mut i: usize = n;
    while i > 0
        invariant
            i <= n,
            bytes@.len() == n,
            be(v as nat, n as nat) == be(x as nat, i as nat) + bytes@.skip(i as int),
        decreases i,
    {
        let ghost before = bytes@;
        let ghost x0 = x;
        i = i - 1;
        bytes.set(i, (x % 256) as u8);
        x = x / 256;
        proof {
            assert(bytes@.skip(i as int) =~= seq![(x0 % 256) as u8] + before.skip(i + 1));
            assert(be(x0 as nat, (i + 1) as nat) == be(x as nat, i as nat).push((x0 % 256) as u8));
            assert(be(x as nat, i as nat).push((x0 % 256) as u8) + before.skip(i + 1) =~= be(
                x as nat,
                i as nat,
            ) + bytes@.skip(i as int));
        }
    }
    proof {
        assert(bytes@.skip(0) =~= bytes@);
    }
    let mut bs = bytes;
    out.append(&mut bs);
}

proof fn lemma_read_step(data: Seq<u8>, pos: int, i: nat, acc: nat)
    requires
        0 <= pos,
        pos + i < data.len(),
        i < 16,
        acc == be_val(data.subrange(pos, pos + i)),
        acc < pow256(i),
    ensures
        acc * 256 + data[pos + i] < pow256(16),
        acc * 256 + data[pos + i] < pow256(i + 1),
        acc * 256 + data[pos + i] == be_val(data.subrange(pos, pos + i + 1)),
{
    lemma_pow256_mono(i + 1, 16);
    let b = data[pos + i];
    assert(acc * 256 + b < 256 * pow256(i)) by (nonlinear_arith)
        requires
            acc < pow256(i),
            b < 256,
    ;
    assert(data.subrange(pos, pos + i + 1).drop_last() =~= data.subrange(pos, pos + i));
}

/// The number held by the `n` bytes at `pos`, big-endian.
fn read_be(data: &[u8], pos: usize, n: usize) -> (v: u128)
    requires
        n <= 16,
        pos + n <= data@.len(),
    ensures
        v == be_val(data@.subrange(pos as int, pos + n)),
        v < pow256(n as nat),
{
    let len = data.len();
    proof {
        reveal_with_fuel(pow256, 17);
    }
    let mut acc: u128 = 0;
    let mut i: usize = 0;
    while i < n
        invariant
            len == data@.len(),
            i <= n <= 16,
            pos + n <= data@.len(),
            acc == be_val(data@.subrange(pos as int, pos + i)),
            acc < pow256(i as nat),
            pow256(16) == 0x1_0000_0000_0000_0000_0000_0000_0000_0000,
        decreases n - i,
    {
        let b = data[pos + i];
        proof {
            lemma_read_step(data@, pos as int, i as nat, acc as nat);
        }
        acc = acc * 256 + b as u128;
        i = i + 1;
    }
    acc
}

pub open spec fn enc_u8(v: u8) -> Seq<u8> {
    seq![v]
}

pub open spec fn enc_u16(v: u16) -> Seq<u8> {
    be(v as nat, 2)
}

pub open spec fn enc_u32(v: u32) -> Seq<u8> {
    be(v as nat, 4)
}

pub open spec fn enc_u64(v: u64) -> Seq<u8> {
    be(v as nat, 8)
}

pub open spec fn enc_u128(v: u128) -> Seq<u8> {
    be(v as nat, 16)
}

/// A signed number in two's complement.
pub open spec fn enc_i32(v: i32) -> Seq<u8> {
    if v >= 0 {
        be(v as nat, 4)
    } else {
        be((v + 0x1_0000_0000) as nat, 4)
    }
}

pub open spec fn enc_i8(v: i8) -> Seq<u8> {
    if v >= 0 {
        seq![v as u8]
    } else {
        seq![(v + 256) as u8]
    }
}

pub open spec fn enc_bool(v: bool) -> Seq<u8> {
    if v {
        seq![1u8]
    } else {
        seq![0u8]
    }
}

pub fn encode_u16(out: &mut Vec<u8>, v: u16)
    ensures
        final(out)@ == old(out)@ + enc_u16(v),
{
    push_be(out, v as u128, 2);
}

pub fn encode_u32(out: &mut Vec<u8>, v: u32)
    ensures
        final(out)@ == old(out)@ + enc_u32(v),
{
    push_be(out, v as u128, 4);
}

pub fn encode_u64(out: &mut Vec<u8>, v: u64)
    ensures
        final(out)@ == old(out)@ + enc_u64(v),
{
    push_be(out, v as u128, 8);
}

pub fn encode_u128(out: &mut Vec<u8>, v: u128)
    ensures
        final(out)@ == old(out)@ + enc_u128(v),
{
    push_be(out, v, 16);
}

pub fn encode_i32(out: &mut Vec<u8>, v: i32)
    ensures
        final(out)@ == old(out)@ + enc_i32(v),
{
    if v >= 0 {
        push_be(out, v as u128, 4);
    } else {
        let shifted: i32 = v + 0x7fff_ffff + 1;
        let u: u128 = shifted as u128 + 0x8000_0000;
        push_be(out, u, 4);
    }
}

pub fn encode_i8(out: &mut Vec<u8>, v: i8)
    ensures
        final(out)@ == old(out)@ + enc_i8(v),
{
    if v >= 0 {
        out.push(v as u8);
    } else {
        let shifted: i8 = v + 127 + 1;
        out.push(shifted as u8 + 128);
    }
    proof {
        assert(final(out)@ =~= old(out)@ + enc_i8(v));
    }
}

pub fn encode_u8(out: &mut Vec<u8>, v: u8)
    ensures
        final(out)@ == old(out)@ + enc_u8(v),
{
    out.push(v);
    proof {
        assert(final(out)@ =~= old(out)@ + enc_u8(v));
    }
}

pub fn encode_bool(out: &mut Vec<u8>, v: bool)
    ensures
        final(out)@ == old(out)@ + enc_bool(v),
{
    out.push(if v { 1 } else { 0 });
    proof {
        assert(final(out)@ =~= old(out)@ + enc_bool(v));
    }
}

/// Appends the bytes of `b`.
pub fn append_bytes(out: &mut Vec<u8>, b: &[u8])
    ensures
        final(out)@ == old(out)@ + b@,
{
    let ghost start = out@;
    let mut i: usize = 0;
    while i < b.len()
        invariant
            i <= b@.len(),
            out@ == start + b@.subrange(0, i as int),
        decreases b@.len() - i,
    {
        out.push(b[i]);
        i = i + 1;
        proof {
            assert(out@ =~= start + b@.subrange(0, i as int));
        }
    }
    proof {
        assert(b@.subrange(0, b@.len() as int) =~= b@);
    }
}

/// The bytes of `data` from `from` to `to`.
pub fn copy_range(data: &[u8], from: usize, to: usize) -> (r: Vec<u8>)
    requires
        from <= to <= data@.len(),
    ensures
        r@ == data@.subrange(from as int, to as int),
{
    let mut r: Vec<u8> = Vec::new();
    let mut i: usize = from;
    while i < to
        invariant
            from <= i <= to <= data@.len(),
            r@ == data@.subrange(from as int, i as int),
        decreases to - i,
    {
        r.push(data[i]);
        i = i + 1;
        proof {
            assert(r@ =~= data@.subrange(from as int, i as int));
        }
    }
    r
}

/// Relies on String::from_utf8: it accepts exactly the well-formed UTF-8 byte
/// sequences and keeps the characters that they encode.
#[verifier::external_body]
fn string_from_utf8(bytes: Vec<u8>) -> (r: Option<String>)
    ensures
        r is Some <==> valid_utf8(bytes@),
        r matches Some(s) ==> s@ == decode_utf8(bytes@),
{
    String::from_utf8(bytes).ok()
}

/// The `n` bytes at `pos` read as a big-endian number.
fn parse_be(data: &[u8], pos: usize, n: usize) -> (r: Option<(u128, usize)>)
    requires
        n <= 16,
    ensures
        r is Some <==> pos + n <= data@.len(),
        r matches Some((v, end)) ==> end == pos + n && v < pow256(n as nat) && at(
            data@,
            pos as int,
            be(v as nat, n as nat),
        ),
        forall|v: nat|
            v < pow256(n as nat) && #[trigger] at(data@, pos as int, be(v, n as nat)) ==> (r matches Some(
                (w, end),
            ) && w == v),
{
    let len = data.len();
    if pos > len || len - pos < n {
        proof {
            assert forall|x: nat| !#[trigger] at(data@, pos as int, be(x, n as nat)) by {
                lemma_be_len(x, n as nat);
            }
        }
        return None;
    }
    let v = read_be(data, pos, n);
    proof {
        let sub = data@.subrange(pos as int, pos + n);
        lemma_be_of_val(sub);
        lemma_be_len(v as nat, n as nat);
        assert forall|x: nat|
            x < pow256(n as nat) && #[trigger] at(data@, pos as int, be(x, n as nat)) implies x == v by {
            lemma_be_len(x, n as nat);
            lemma_be_round(x, n as nat);
        }
    }
    Some((v, pos + n))
}

pub fn parse_u8(data: &[u8], pos: usize) -> (r: Option<(u8, usize)>)
    ensures
        r is Some <==> pos + 1 <= data@.len(),
        r matches Some((v, end)) ==> end == pos + 1 && at(data@, pos as int, enc_u8(v)),
        forall|v: u8| #[trigger] at(data@, pos as int, enc_u8(v)) ==> r == Some((v, (pos + 1) as usize)),
{
    if pos < data.len() {
        proof {
            assert(data@.subrange(pos as int, pos + 1) =~= seq![data@[pos as int]]);
            assert forall|v: u8| #[trigger] at(data@, pos as int, enc_u8(v)) implies v == data@[pos as int] by {
                assert(data@.subrange(pos as int, pos + 1)[0] == enc_u8(v)[0]);
            }
        }
        Some((data[pos], pos + 1))
    } else {
        proof {
            assert forall|v: u8| !#[trigger] at(data@, pos as int, enc_u8(v)) by {
                assert(enc_u8(v).len() == 1);
            }
        }
        None
    }
}

pub fn parse_u16(data: &[u8], pos: usize) -> (r: Option<(u16, usize)>)
    ensures
        r is Some <==> pos + 2 <= data@.len(),
        r matches Some((v, end)) ==> end == pos + 2 && at(data@, pos as int, enc_u16(v)),
        forall|v: u16| #[trigger] at(data@, pos as int, enc_u16(v)) ==> r == Some((v, (pos + 2) as usize)),
{
    proof {
        reveal_with_fuel(pow256, 3);
    }
    match parse_be(data, pos, 2) {
        Some((v, end)) => Some((v as u16, end)),
        None => None,
    }
}

pub fn parse_u32(data: &[u8], pos: usize) -> (r: Option<(u32, usize)>)
    ensures
        r is Some <==> pos + 4 <= data@.len(),
        r matches Some((v, end)) ==> end == pos + 4 && at(data@, pos as int, enc_u32(v)),
        forall|v: u32| #[trigger] at(data@, pos as int, enc_u32(v)) ==> r == Some((v, (pos + 4) as usize)),
{
    proof {
        reveal_with_fuel(pow256, 5);
    }
    match parse_be(data, pos, 4) {
        Some((v, end)) => Some((v as u32, end)),
        None => None,
    }
}

pub fn parse_u64(data: &[u8], pos: usize) -> (r: Option<(u64, usize)>)
    ensures
        r is Some <==> pos + 8 <= data@.len(),
        r matches Some((v, end)) ==> end == pos + 8 && at(data@, pos as int, enc_u64(v)),
        forall|v: u64| #[trigger] at(data@, pos as int, enc_u64(v)) ==> r == Some((v, (pos + 8) as usize)),
{
    proof {
        reveal_with_fuel(pow256, 9);
    }
    match parse_be(data, pos, 8) {
        Some((v, end)) => Some((v as u64, end)),
        None => None,
    }
}

pub fn parse_u128(data: &[u8], pos: usize) -> (r: Option<(u128, usize)>)
    ensures
        r is Some <==> pos + 16 <= data@.len(),
        r matches Some((v, end)) ==> end == pos + 16 && at(data@, pos as int, enc_u128(v)),
        forall|v: u128| #[trigger] at(data@, pos as int, enc_u128(v)) ==> r == Some((v, (pos + 16) as usize)),
{
    proof {
        reveal_with_fuel(pow256, 17);
    }
    parse_be(data, pos, 16)
}

pub fn parse_i32(data: &[u8], pos: usize) -> (r: Option<(i32, usize)>)
    ensures
        r is Some <==> pos + 4 <= data@.len(),
        r matches Some((v, end)) ==> end == pos + 4 && at(data@, pos as int, enc_i32(v)),
        forall|v: i32| #[trigger] at(data@, pos as int, enc_i32(v)) ==> r == Some((v, (pos + 4) as usize)),
{
    proof {
        reveal_with_fuel(pow256, 5);
    }
    match parse_be(data, pos, 4) {
        Some((u, end)) => {
            let v: i32 = if u < 0x8000_0000 {
                u as i32
            } else {
                ((u - 0x8000_0000) as i32) - 0x7fff_ffff - 1
            };
            proof {
                assert forall|x: i32| #[trigger] at(data@, pos as int, enc_i32(x)) implies x == v by {
                    if x >= 0 {
                        assert(at(data@, pos as int, be(x as nat, 4)));
                    } else {
                        assert(at(data@, pos as int, be((x + 0x1_0000_0000) as nat, 4)));
                    }
                }
            }
            Some((v, end))
        },
        None => None,
    }
}

pub fn parse_i8(data: &[u8], pos: usize) -> (r: Option<(i8, usize)>)
    ensures
        r is Some <==> pos + 1 <= data@.len(),
        r matches Some((v, end)) ==> end == pos + 1 && at(data@, pos as int, enc_i8(v)),
        forall|v: i8| #[trigger] at(data@, pos as int, enc_i8(v)) ==> r == Some((v, (pos + 1) as usize)),
{
    match parse_u8(data, pos) {
        Some((u, end)) => {
            let v: i8 = if u < 128 {
                u as i8
            } else {
                ((u - 128) as i8) - 127 - 1
            };
            proof {
                assert forall|x: i8| #[trigger] at(data@, pos as int, enc_i8(x)) implies x == v by {
                    if x >= 0 {
                        assert(at(data@, pos as int, enc_u8(x as u8)));
                    } else {
                        assert(at(data@, pos as int, enc_u8((x + 256) as u8)));
                    }
                }
            }
            Some((v, end))
        },
        None => {
            proof {
                assert forall|x: i8| !#[trigger] at(data@, pos as int, enc_i8(x)) by {
                    if x >= 0 {
                        assert(!at(data@, pos as int, enc_u8(x as u8)));
                    } else {
                        assert(!at(data@, pos as int, enc_u8((x + 256) as u8)));
                    }
                }
            }
            None
        },
    }
}

pub fn parse_bool(data: &[u8], pos: usize) -> (r: Option<(bool, usize)>)
    ensures
        r matches Some((v, end)) ==> end == pos + 1 && at(data@, pos as int, enc_bool(v)),
        forall|v: bool| #[trigger] at(data@, pos as int, enc_bool(v)) ==> r == Some((v, (pos + 1) as usize)),
{
    match parse_u8(data, pos) {
        Some((0, end)) => {
            proof {
                assert(at(data@, pos as int, enc_u8(0)));
                assert forall|x: bool| #[trigger] at(data@, pos as int, enc_bool(x)) implies !x by {
                    if x {
                        assert(at(data@, pos as int, enc_u8(1)));
                    }
                }
            }
            Some((false, end))
        },
        Some((1, end)) => {
            proof {
                assert(at(data@, pos as int, enc_u8(1)));
                assert forall|x: bool| #[trigger] at(data@, pos as int, enc_bool(x)) implies x by {
                    if !x {
                        assert(at(data@, pos as int, enc_u8(0)));
                    }
                }
            }
            Some((true, end))
        },
        _ => {
            proof {
                assert forall|x: bool| !#[trigger] at(data@, pos as int, enc_bool(x)) by {
                    if x {
                        assert(!at(data@, pos as int, enc_u8(1)));
                    } else {
                        assert(!at(data@, pos as int, enc_u8(0)));
                    }
                }
            }
            None
        },
    }
}

/// A key travels as its 32 bytes, with no length.
pub fn encode_key(out: &mut Vec<u8>, k: &[u8; 32])
    ensures
        final(out)@ == old(out)@ + k@,
{
    append_bytes(out, k.as_slice());
}

pub fn parse_key(data: &[u8], pos: usize) -> (r: Option<([u8; 32], usize)>)
    ensures
        r matches Some((v, end)) ==> end == pos + 32 && at(data@, pos as int, v@),
        forall|v: [u8; 32]| #[trigger] at(data@, pos as int, v@) ==> (r matches Some((w, end)) && w
            == v && end == pos + 32),
{
    let len = data.len();
    if pos > len || len - pos < 32 {
        proof {
            assert forall|v: [u8; 32]| !#[trigger] at(data@, pos as int, v@) by {
            }
        }
        return None;
    }
    let mut k = [0u8; 32];
    let mut i: usize = 0;
    while i < 32
        invariant
            i <= 32,
            len == data@.len(),
            pos + 32 <= data@.len(),
            k@.len() == 32,
            forall|j: int| 0 <= j < i ==> k@[j] == data@[pos + j],
        decreases 32 - i,
    {
        k.set(i, data[pos + i]);
        i = i + 1;
    }
    proof {
        assert(data@.subrange(pos as int, pos + 32) =~= k@);
        assert forall|v: [u8; 32]| #[trigger] at(data@, pos as int, v@) implies k == v by {
            assert forall|j: int| 0 <= j < 32 implies k[j] == v[j] by {
                assert(k@[j] == v@[j]);
            }
            assert(k =~= v);
        }
    }
    Some((k, pos + 32))
}

pub open spec fn enc_bytes(b: Seq<u8>) -> Seq<u8> {
    be(b.len(), 8) + b
}

pub open spec fn enc_str(s: Seq<char>) -> Seq<u8> {
    enc_bytes(encode_utf8(s))
}

pub fn encode_bytes(out: &mut Vec<u8>, b: &[u8])
    ensures
        final(out)@ == old(out)@ + enc_bytes(b@),
{
    encode_u64(out, b.len() as u64);
    append_bytes(out, b);
    proof {
        assert(final(out)@ =~= old(out)@ + enc_bytes(b@));
    }
}

pub fn encode_string(out: &mut Vec<u8>, s: &String)
    ensures
        final(out)@ == old(out)@ + enc_str(s@),
{
    encode_bytes(out, s.as_str().as_bytes());
}

pub fn parse_bytes(data: &[u8], pos: usize) -> (r: Option<(Vec<u8>, usize)>)
    ensures
        r matches Some((v, end)) ==> end == pos + enc_bytes(v@).len() && at(data@, pos as int, enc_bytes(v@)),
        forall|v: Seq<u8>| #[trigger] at(data@, pos as int, enc_bytes(v)) ==> (r matches Some((w, end))
            && w@ == v),
{
    let len = data.len();
    proof {
        reveal_with_fuel(pow256, 9);
    }
    let (n, start) = match parse_be(data, pos, 8) {
        Some(p) => p,
        None => {
            proof {
                assert forall|v: Seq<u8>| !#[trigger] at(data@, pos as int, enc_bytes(v)) by {
                    lemma_be_len(v.len(), 8);
                }
            }
            return None;
        },
    };
    if n > (len - start) as u128 {
        proof {
            assert forall|v: Seq<u8>| !#[trigger] at(data@, pos as int, enc_bytes(v)) by {
                lemma_be_len(v.len(), 8);
                if at(data@, pos as int, enc_bytes(v)) {
                    lemma_at_split(data@, pos as int, be(v.len(), 8), v);
                }
            }
        }
        return None;
    }
    let stop = start + n as usize;
    let v = copy_range(data, start, stop);
    proof {
        lemma_be_len(n as nat, 8);
        lemma_at_join(data@, pos as int, be(n as nat, 8), v@);
        assert forall|x: Seq<u8>| #[trigger] at(data@, pos as int, enc_bytes(x)) implies x == v@ by {
            lemma_be_len(x.len(), 8);
            lemma_at_split(data@, pos as int, be(x.len(), 8), x);
            assert(x.len() < pow256(8)) by {
                lemma_be_len(x.len(), 8);
            }
        }
    }
    Some((v, stop))
}

pub fn parse_string(data: &[u8], pos: usize) -> (r: Option<(String, usize)>)
    ensures
        r matches Some((v, end)) ==> end == pos + enc_str(v@).len() && at(data@, pos as int, enc_str(v@)),
        forall|v: Seq<char>| #[trigger] at(data@, pos as int, enc_str(v)) ==> (r matches Some((w, end))
            && w@ == v),
{
    match parse_bytes(data, pos) {
        None => {
            proof {
                assert forall|v: Seq<char>| !#[trigger] at(data@, pos as int, enc_str(v)) by {
                    if at(data@, pos as int, enc_str(v)) {
                        assert(at(data@, pos as int, enc_bytes(encode_utf8(v))));
                    }
                }
            }
            None
        },
        Some((b, end)) => {
            let ghost bv = b@;
            match string_from_utf8(b) {
                None => {
                    proof {
                        assert forall|v: Seq<char>| !#[trigger] at(data@, pos as int, enc_str(v)) by {
                            if at(data@, pos as int, enc_str(v)) {
                                assert(at(data@, pos as int, enc_bytes(encode_utf8(v))));
                            }
                        }
                    }
                    None
                },
                Some(s) => {
                    proof {
                        assert forall|v: Seq<char>| #[trigger] at(data@, pos as int, enc_str(v)) implies s@ == v by {
                            assert(at(data@, pos as int, enc_bytes(encode_utf8(v))));
                        }
                    }
                    Some((s, end))
                },
            }
        },
    }
}

} // verus!
