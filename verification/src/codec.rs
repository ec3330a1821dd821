//! Wire codec: one event per frame.
//!
//! A frame is an 8-byte little-endian unsigned length followed by the
//! payload. The payload is a self-describing UTF-8 text encoding of one
//! event: a one-byte tag chooses the kind, and each field follows in a
//! fixed order. Numbers travel as fixed-width hexadecimal in least-
//! significant-digit-first order; character strings travel as a 16-digit
//! byte length followed by their UTF-8 bytes; binary blobs travel as two
//! hexadecimal digits per byte. Unknown tags and malformed fields are
//! rejected, never skipped.

use crate::communication::Event;
use crate::communication::EventData;
use crate::communication::EventDataV;
use crate::communication::EventV;
use crate::communication::evs_view;
use crate::communication::Layer;
use crate::communication::NameMap;
use crate::communication::Pos;
use crate::communication::State;
use crate::communication::StateV;
use crate::communication::Token;
use crate::communication::TokenV;
use vstd::arithmetic::div_mod::lemma_div_denominator;
use vstd::prelude::*;
use vstd::string::StrSliceExecFns;
use vstd::utf8::decode_utf8;
use vstd::utf8::encode_utf8;
use vstd::utf8::encode_utf8_decode_utf8;
use vstd::utf8::encode_utf8_valid_utf8;
use vstd::utf8::valid_utf8;

verus! {

/// Sixteen to the power `k`.
pub open spec fn pow16(k: nat) -> nat
    decreases k,
{
    if k == 0 {
        1
    } else {
        16 * pow16((k - 1) as nat)
    }
}

pub proof fn lemma_pow16_pos(k: nat)
    ensures
        pow16(k) >= 1,
    decreases k,
{
    if k > 0 {
        lemma_pow16_pos((k - 1) as nat);
    }
}

pub proof fn lemma_pow16_mono(a: nat, b: nat)
    requires
        a <= b,
    ensures
        pow16(a) <= pow16(b),
    decreases b,
{
    if a < b {
        lemma_pow16_mono(a, (b - 1) as nat);
        lemma_pow16_pos((b - 1) as nat);
    }
}

/// The powers the codec uses, as literals.
pub proof fn lemma_pow16_vals()
    ensures
        pow16(2) == 0x100,
        pow16(8) == 0x100000000,
        pow16(16) == 0x10000000000000000,
{
    reveal_with_fuel(pow16, 17);
}

/// Whether a byte is an ASCII hexadecimal digit of this codec
/// (0-9 or lowercase a-f).
pub open spec fn is_hex_digit(b: u8) -> bool {
    (48 <= b <= 57) || (97 <= b <= 102)
}

/// The digit byte for a value below sixteen.
pub open spec fn hex_digit(d: int) -> u8 {
    if 0 <= d < 10 {
        (48 + d) as u8
    } else if d < 16 {
        (87 + d) as u8
    } else {
        0
    }
}

/// The value of a digit byte.
pub open spec fn digit_val(b: u8) -> int {
    if 48 <= b <= 57 {
        b - 48
    } else if 97 <= b <= 102 {
        b - 87
    } else {
        -1
    }
}

/// All bytes are hexadecimal digits.
pub open spec fn all_hex(s: Seq<u8>) -> bool {
    forall|i: int| 0 <= i < s.len() ==> is_hex_digit(#[trigger] s[i])
}

/// `v` as exactly `k` hexadecimal digits, least significant first.
pub open spec fn enc_hex(v: nat, k: nat) -> Seq<u8>
    decreases k,
{
    if k == 0 {
        Seq::empty()
    } else {
        seq![hex_digit((v % 16) as int)] + enc_hex(v / 16, (k - 1) as nat)
    }
}

/// The value of a least-significant-first digit string.
pub open spec fn hex_val(s: Seq<u8>) -> nat
    decreases s.len(),
{
    if s.len() == 0 {
        0
    } else {
        (digit_val(s[0]) + 16 * hex_val(s.drop_first())) as nat
    }
}

pub proof fn lemma_enc_hex_shape(v: nat, k: nat)
    ensures
        enc_hex(v, k).len() == k,
        all_hex(enc_hex(v, k)),
    decreases k,
{
    if k > 0 {
        lemma_enc_hex_shape(v / 16, (k - 1) as nat);
        let s = enc_hex(v, k);
        let rest = enc_hex(v / 16, (k - 1) as nat);
        assert forall|i: int| 0 <= i < s.len() implies is_hex_digit(#[trigger] s[i]) by {
            if i > 0 {
                assert(s[i] == rest[i - 1]);
            }
        }
    }
}

/// Digits written by `enc_hex` read back as the value they came from.
pub proof fn lemma_enc_hex_val(v: nat, k: nat)
    requires
        v < pow16(k),
    ensures
        hex_val(enc_hex(v, k)) == v,
    decreases k,
{
    if k > 0 {
        lemma_pow16_pos((k - 1) as nat);
        assert(v / 16 < pow16((k - 1) as nat)) by (nonlinear_arith)
            requires
                v < 16 * pow16((k - 1) as nat),
                pow16((k - 1) as nat) >= 1,
        ;
        lemma_enc_hex_val(v / 16, (k - 1) as nat);
        let s = enc_hex(v, k);
        let rest = enc_hex(v / 16, (k - 1) as nat);
        assert(s.drop_first() =~= rest);
        assert(digit_val(hex_digit((v % 16) as int)) == v % 16);
    }
}

/// A digit string's value is bounded by the power of its width.
pub proof fn lemma_hex_val_bound(s: Seq<u8>)
    requires
        all_hex(s),
    ensures
        hex_val(s) < pow16(s.len()),
    decreases s.len(),
{
    if s.len() > 0 {
        assert(all_hex(s.drop_first())) by {
            assert(forall|i: int|
                0 <= i < s.drop_first().len() ==> #[trigger] s.drop_first()[i] == s[i + 1]);
        }
        lemma_hex_val_bound(s.drop_first());
        assert(is_hex_digit(s[0]));
    }
}

/// Parses `k` digits at `i`: the value and the position after, or
/// nothing when fewer than `k` digit bytes stand there.
pub open spec fn sp_hex(s: Seq<u8>, i: int, k: nat) -> Option<(nat, int)> {
    if 0 <= i && i + k <= s.len() && all_hex(s.subrange(i, i + k)) {
        Some((hex_val(s.subrange(i, i + k)), i + k))
    } else {
        None
    }
}

/// Round trip: digits placed by `enc_hex` parse back to the value.
pub proof fn lemma_sp_hex_enc(s: Seq<u8>, i: int, v: nat, k: nat)
    requires
        0 <= i,
        i + k <= s.len(),
        v < pow16(k),
        s.subrange(i, i + k) =~= enc_hex(v, k),
    ensures
        sp_hex(s, i, k) == Some((v, i + k)),
{
    lemma_enc_hex_shape(v, k);
    lemma_enc_hex_val(v, k);
}

/// One more digit extends an `enc_hex` string at its most significant
/// end.
pub proof fn lemma_enc_hex_snoc(v: nat, i: nat)
    ensures
        enc_hex(v, i + 1) =~= enc_hex(v, i) + seq![hex_digit(((v / pow16(i)) % 16) as int)],
    decreases i,
{
    if i == 0 {
        assert(pow16(0) == 1);
        assert(v / pow16(0) == v) by (nonlinear_arith)
            requires
                pow16(0) == 1,
        ;
        assert(enc_hex(v, 0) == Seq::<u8>::empty());
        assert(enc_hex(v / 16, 0) == Seq::<u8>::empty());
        assert(enc_hex(v, 1) == seq![hex_digit((v % 16) as int)] + enc_hex(v / 16, 0));
        assert(enc_hex(v, 1) =~= enc_hex(v, 0) + seq![hex_digit(((v / pow16(0)) % 16) as int)]);
    } else {
        lemma_enc_hex_snoc(v / 16, (i - 1) as nat);
        lemma_pow16_pos((i - 1) as nat);
        lemma_div_denominator(v as int, 16, pow16((i - 1) as nat) as int);
        assert(pow16(i) == 16 * pow16((i - 1) as nat));
        assert((v / 16) / pow16((i - 1) as nat) == v / pow16(i));
        let d0 = hex_digit((v % 16) as int);
        let last = hex_digit(((v / pow16(i)) % 16) as int);
        assert(enc_hex(v, i + 1) == seq![d0] + enc_hex(v / 16, i));
        assert(enc_hex(v / 16, i) =~= enc_hex(v / 16, (i - 1) as nat) + seq![last]);
        assert(enc_hex(v, i) == seq![d0] + enc_hex(v / 16, (i - 1) as nat));
        assert(enc_hex(v, i + 1) =~= (seq![d0] + enc_hex(v / 16, (i - 1) as nat)) + seq![last]);
    }
}

/// Appends `v` to `out` as `k` hexadecimal digits, least significant
/// first.
pub fn push_hex(out: &mut Vec<u8>, v: u64, k: usize)
    requires
        k <= 16,
        (v as nat) < pow16(k as nat),
    ensures
        final(out)@ =~= old(out)@ + enc_hex(v as nat, k as nat),
{
    proof {
        assert(pow16(0) == 1);
        assert((v as nat) / pow16(0) == v as nat) by (nonlinear_arith)
            requires
                pow16(0) == 1,
        ;
    }
    let mut x = v;
    let mut t: usize = 0;
    while t < k
        invariant
            t <= k,
            k <= 16,
            x as nat == (v as nat) / pow16(t as nat),
            out@ =~= old(out)@ + enc_hex(v as nat, t as nat),
        decreases k - t,
    {
        let d = (x % 16) as u8;
        out.push(
            if d < 10 {
                48 + d
            } else {
                87 + d
            },
        );
        proof {
            lemma_enc_hex_snoc(v as nat, t as nat);
            lemma_pow16_pos(t as nat);
            lemma_div_denominator(v as int, pow16(t as nat) as int, 16);
            assert((v as nat) / pow16(t as nat) / 16 == (v as nat) / (pow16(t as nat) * 16));
            assert(pow16(t as nat) * 16 == pow16((t + 1) as nat)) by {
                assert(pow16((t + 1) as nat) == 16 * pow16(t as nat));
            }
        }
        x = x / 16;
        t = t + 1;
    }
}

/// Reads `k` hexadecimal digits at `pos`, exactly as `sp_hex` describes.
pub fn parse_hex(buf: &Vec<u8>, pos: usize, k: usize) -> (r: Option<(u64, usize)>)
    requires
        k <= 16,
    ensures
        r is Some <==> sp_hex(buf@, pos as int, k as nat) is Some,
        r matches Some(p) ==> sp_hex(buf@, pos as int, k as nat) == Some(
            (p.0 as nat, p.1 as int),
        ),
{
    proof {
        lemma_pow16_vals();
    }
    if pos > buf.len() || k > buf.len() - pos {
        return None;
    }
    let mut acc: u64 = 0;
    let mut t: usize = 0;
    while t < k
        invariant
            t <= k,
            k <= 16,
            pos + k <= buf.len(),
            pow16(16) == 0x10000000000000000,
            all_hex(buf@.subrange((pos + k - t) as int, (pos + k) as int)),
            acc as nat == hex_val(buf@.subrange((pos + k - t) as int, (pos + k) as int)),
            (acc as nat) < pow16(t as nat),
        decreases k - t,
    {
        let b = buf[pos + k - 1 - t];
        let dv: u8 = if 48 <= b && b <= 57 {
            b - 48
        } else if 97 <= b && b <= 102 {
            b - 87
        } else {
            proof {
                let whole = buf@.subrange(pos as int, (pos + k) as int);
                assert(whole[(k - 1 - t) as int] == b);
                assert(!all_hex(whole));
            }
            return None;
        };
        proof {
            let prior = buf@.subrange((pos + k - t) as int, (pos + k) as int);
            let now = buf@.subrange((pos + k - t - 1) as int, (pos + k) as int);
            assert(now[0] == b);
            assert(now.drop_first() =~= prior);
            assert forall|ii: int| 0 <= ii < now.len() implies is_hex_digit(#[trigger] now[ii]) by {
                if ii > 0 {
                    assert(now[ii] == prior[ii - 1]);
                }
            }
            lemma_pow16_mono((t + 1) as nat, 16);
            lemma_pow16_pos(t as nat);
            assert(pow16((t + 1) as nat) == 16 * pow16(t as nat));
            assert(16 * (acc as nat) + 15 < 16 * pow16(t as nat));
        }
        acc = dv as u64 + 16 * acc;
        t = t + 1;
    }
    proof {
        assert(buf@.subrange((pos + k - k) as int, (pos + k) as int) =~= buf@.subrange(
            pos as int,
            (pos + k) as int,
        ));
    }
    Some((acc, pos + k))
}

/// A slice equal to a concatenation splits into slices equal to the
/// parts.
pub proof fn lemma_concat_split(s: Seq<u8>, i: int, a: Seq<u8>, b: Seq<u8>)
    requires
        0 <= i,
        i + a.len() + b.len() <= s.len(),
        s.subrange(i, i + a.len() + b.len()) =~= a + b,
    ensures
        s.subrange(i, i + a.len()) =~= a,
        s.subrange(i + a.len(), i + a.len() + b.len()) =~= b,
{
    let whole = s.subrange(i, i + a.len() + b.len());
    assert forall|t: int| 0 <= t < a.len() implies s.subrange(i, i + a.len())[t] == a[t] by {
        assert(whole[t] == (a + b)[t]);
    }
    assert forall|t: int|
        0 <= t < b.len() implies s.subrange(i + a.len(), i + a.len() + b.len())[t] == b[t] by {
        assert(whole[t + a.len()] == (a + b)[t + a.len()]);
    }
}

/// Whether a character string's UTF-8 form fits the 16-digit length
/// field.
pub open spec fn str_ok(cs: Seq<char>) -> bool {
    encode_utf8(cs).len() < pow16(16)
}

/// A character string on the wire: 16 length digits, then its UTF-8
/// bytes.
pub open spec fn enc_str(cs: Seq<char>) -> Seq<u8> {
    enc_hex(encode_utf8(cs).len(), 16) + encode_utf8(cs)
}

/// Parses a character string at `i`.
pub open spec fn sp_str(s: Seq<u8>, i: int) -> Option<(Seq<char>, int)> {
    match sp_hex(s, i, 16) {
        Some((n, j)) => if j + n <= s.len() && valid_utf8(s.subrange(j, j + n)) {
            Some((decode_utf8(s.subrange(j, j + n)), j + n))
        } else {
            None
        },
        None => None,
    }
}

/// Round trip: a string placed by `enc_str` parses back to its
/// characters.
pub proof fn lemma_sp_str_enc(s: Seq<u8>, i: int, cs: Seq<char>)
    requires
        0 <= i,
        str_ok(cs),
        i + enc_str(cs).len() <= s.len(),
        s.subrange(i, i + enc_str(cs).len()) =~= enc_str(cs),
    ensures
        sp_str(s, i) == Some((cs, i + enc_str(cs).len())),
{
    broadcast use encode_utf8_valid_utf8, encode_utf8_decode_utf8;

    let u = encode_utf8(cs);
    let pre = enc_hex(u.len(), 16);
    lemma_enc_hex_shape(u.len(), 16);
    lemma_concat_split(s, i, pre, u);
    lemma_sp_hex_enc(s, i, u.len(), 16);
    assert(s.subrange(i + 16, i + 16 + u.len()) =~= u);
}

/// Relies on `String::from_utf8`: it succeeds exactly on valid UTF-8
/// input, and then returns the string whose UTF-8 encoding is that
/// input — the characters vstd's UTF-8 theory names `decode_utf8`.
#[verifier::external_body]
fn bytes_to_string(v: Vec<u8>) -> (r: Option<String>)
    ensures
        r is Some <==> valid_utf8(v@),
        r matches Some(s) ==> s@ == decode_utf8(v@) && encode_utf8(s@) == v@,
{
    match String::from_utf8(v) {
        Ok(s) => Some(s),
        Err(_) => None,
    }
}

/// Appends a character string segment to `out`.
pub fn push_str(out: &mut Vec<u8>, s: &String)
    ensures
        final(out)@ =~= old(out)@ + enc_str(s@),
        str_ok(s@),
{
    let mut bv = s.as_str().as_bytes_vec();
    proof {
        lemma_pow16_vals();
    }
    push_hex(out, bv.len() as u64, 16);
    out.append(&mut bv);
}

/// Reads a character string segment at `pos`, exactly as `sp_str`
/// describes.
pub fn parse_str(buf: &Vec<u8>, pos: usize) -> (r: Option<(String, usize)>)
    ensures
        r is Some <==> sp_str(buf@, pos as int) is Some,
        r matches Some(p) ==> sp_str(buf@, pos as int) == Some((p.0@, p.1 as int)),
{
    let (n, j) = match parse_hex(buf, pos, 16) {
        Some(p) => p,
        None => {
            return None;
        },
    };
    if n > (buf.len() - j) as u64 {
        return None;
    }
    let m = n as usize;
    let mut tmp: Vec<u8> = Vec::new();
    let mut t: usize = 0;
    while t < m
        invariant
            j + m <= buf.len(),
            t <= m,
            tmp@ =~= buf@.subrange(j as int, (j + t) as int),
        decreases m - t,
    {
        tmp.push(buf[j + t]);
        t = t + 1;
        proof {
            assert(tmp@ =~= buf@.subrange(j as int, (j + t) as int));
        }
    }
    match bytes_to_string(tmp) {
        Some(s) => Some((s, j + m)),
        None => None,
    }
}

/// Whether a blob fits the 16-digit length field.
pub open spec fn blob_ok(bs: Seq<u8>) -> bool {
    bs.len() < pow16(16)
}

/// Each byte as two digits, least significant first.
pub open spec fn enc_pairs(bs: Seq<u8>) -> Seq<u8>
    decreases bs.len(),
{
    if bs.len() == 0 {
        Seq::empty()
    } else {
        enc_hex(bs[0] as nat, 2) + enc_pairs(bs.drop_first())
    }
}

/// A binary blob on the wire: 16 length digits, then two digits per
/// byte.
pub open spec fn enc_blob(bs: Seq<u8>) -> Seq<u8> {
    enc_hex(bs.len(), 16) + enc_pairs(bs)
}

/// Parses `n` byte pairs at `i`.
pub open spec fn sp_pairs(s: Seq<u8>, i: int, n: nat) -> Option<(Seq<u8>, int)>
    decreases n,
{
    if n == 0 {
        Some((Seq::empty(), i))
    } else {
        match sp_hex(s, i, 2) {
            Some((b, j)) => match sp_pairs(s, j, (n - 1) as nat) {
                Some((rest, end)) => Some((seq![b as u8] + rest, end)),
                None => None,
            },
            None => None,
        }
    }
}

/// Parses a blob at `i`.
pub open spec fn sp_blob(s: Seq<u8>, i: int) -> Option<(Seq<u8>, int)> {
    match sp_hex(s, i, 16) {
        Some((n, j)) => sp_pairs(s, j, n),
        None => None,
    }
}

pub proof fn lemma_enc_pairs_len(bs: Seq<u8>)
    ensures
        enc_pairs(bs).len() == 2 * bs.len(),
    decreases bs.len(),
{
    if bs.len() > 0 {
        lemma_enc_pairs_len(bs.drop_first());
        lemma_enc_hex_shape(bs[0] as nat, 2);
    }
}

/// Shape facts of `sp_pairs`: a success holds `n` bytes and ends `2n`
/// later; too little input fails.
pub proof fn lemma_sp_pairs_props(s: Seq<u8>, i: int, n: nat)
    ensures
        sp_pairs(s, i, n) matches Some(p) ==> p.0.len() == n && p.1 == i + 2 * n,
        n > 0 && i + 2 * n > s.len() ==> sp_pairs(s, i, n) is None,
    decreases n,
{
    if n > 0 {
        match sp_hex(s, i, 2) {
            Some((b, j)) => {
                assert(j == i + 2);
                lemma_sp_pairs_props(s, j, (n - 1) as nat);
                assert(i + 2 * n == j + 2 * ((n - 1) as nat));
                if i + 2 * n > s.len() {
                    assert(j + 2 * ((n - 1) as nat) > s.len());
                    assert(sp_pairs(s, j, (n - 1) as nat) is None);
                    assert(sp_pairs(s, i, n) is None);
                }
            },
            None => {
                assert(sp_pairs(s, i, n) is None);
            },
        }
    }
}

/// Parsing `a + b` pairs is parsing `a`, then `b` where that stopped.
pub proof fn lemma_sp_pairs_split(s: Seq<u8>, i: int, a: nat, b: nat)
    ensures
        sp_pairs(s, i, a) is None ==> sp_pairs(s, i, (a + b) as nat) is None,
        sp_pairs(s, i, a) matches Some(p1) ==> (match sp_pairs(s, p1.1, b) {
            Some(p2) => sp_pairs(s, i, (a + b) as nat) == Some((p1.0 + p2.0, p2.1)),
            None => sp_pairs(s, i, (a + b) as nat) is None,
        }),
    decreases a,
{
    if a == 0 {
        match sp_pairs(s, i, a) {
            Some(p1) => {
                match sp_pairs(s, p1.1, b) {
                    Some(p2) => {
                        assert(p1.0 + p2.0 =~= p2.0);
                    },
                    None => {},
                }
            },
            None => {},
        }
    } else {
        match sp_hex(s, i, 2) {
            Some((byte, j)) => {
                lemma_sp_pairs_split(s, j, (a - 1) as nat, b);
                match sp_pairs(s, j, (a - 1) as nat) {
                    Some(q1) => {
                        match sp_pairs(s, q1.1, b) {
                            Some(q2) => {
                                assert((seq![byte as u8] + q1.0) + q2.0 =~= seq![byte as u8] + (q1.0
                                    + q2.0));
                            },
                            None => {},
                        }
                    },
                    None => {},
                }
            },
            None => {},
        }
    }
}

/// Round trip: pairs placed by `enc_pairs` parse back to the bytes.
pub proof fn lemma_sp_pairs_enc(s: Seq<u8>, i: int, bs: Seq<u8>)
    requires
        0 <= i,
        i + 2 * bs.len() <= s.len(),
        s.subrange(i, i + 2 * bs.len()) =~= enc_pairs(bs),
    ensures
        sp_pairs(s, i, bs.len()) == Some((bs, i + 2 * bs.len())),
    decreases bs.len(),
{
    if bs.len() > 0 {
        let head = enc_hex(bs[0] as nat, 2);
        let rest = enc_pairs(bs.drop_first());
        lemma_enc_hex_shape(bs[0] as nat, 2);
        lemma_enc_pairs_len(bs.drop_first());
        lemma_concat_split(s, i, head, rest);
        lemma_pow16_vals();
        lemma_sp_hex_enc(s, i, bs[0] as nat, 2);
        lemma_sp_pairs_enc(s, i + 2, bs.drop_first());
        assert(seq![bs[0]] + bs.drop_first() =~= bs);
    }
}

/// Appends a blob segment to `out`.
pub fn push_blob(out: &mut Vec<u8>, bytes: &Vec<u8>)
    ensures
        final(out)@ =~= old(out)@ + enc_blob(bytes@),
        blob_ok(bytes@),
{
    proof {
        lemma_pow16_vals();
    }
    push_hex(out, bytes.len() as u64, 16);
    let ghost mid = out@;
    let n = bytes.len();
    let mut t: usize = 0;
    while t < n
        invariant
            n == bytes@.len(),
            t <= n,
            pow16(2) == 0x100,
            out@ =~= mid + enc_pairs(bytes@.take(t as int)),
        decreases n - t,
    {
        push_hex(out, bytes[t] as u64, 2);
        proof {
            lemma_enc_pairs_snoc(bytes@, t as int);
        }
        t = t + 1;
    }
    proof {
        assert(bytes@.take(n as int) =~= bytes@);
    }
}

/// One more byte extends `enc_pairs` of a prefix.
proof fn lemma_enc_pairs_snoc(bs: Seq<u8>, t: int)
    requires
        0 <= t < bs.len(),
    ensures
        enc_pairs(bs.take(t + 1)) =~= enc_pairs(bs.take(t)) + enc_hex(bs[t] as nat, 2),
    decreases t,
{
    if t == 0 {
        assert(bs.take(1) =~= seq![bs[0]]);
        assert(bs.take(1).drop_first() =~= Seq::<u8>::empty());
        assert(bs.take(0) =~= Seq::<u8>::empty());
    } else {
        lemma_enc_pairs_snoc(bs.drop_first(), t - 1);
        let d = bs.drop_first();
        let h0 = enc_hex(bs[0] as nat, 2);
        assert(bs.take(t + 1).drop_first() =~= d.take(t));
        assert(bs.take(t).drop_first() =~= d.take(t - 1));
        assert(bs.take(t + 1)[0] == bs[0]);
        assert(bs.take(t)[0] == bs[0]);
        assert(d[t - 1] == bs[t]);
        assert(enc_pairs(bs.take(t + 1)) == h0 + enc_pairs(d.take(t)));
        assert(enc_pairs(d.take(t)) =~= enc_pairs(d.take(t - 1)) + enc_hex(bs[t] as nat, 2));
        assert(enc_pairs(bs.take(t)) == h0 + enc_pairs(d.take(t - 1)));
        assert(enc_pairs(bs.take(t + 1)) =~= (h0 + enc_pairs(d.take(t - 1))) + enc_hex(
            bs[t] as nat,
            2,
        ));
    }
}

/// Reads a blob segment at `pos`, exactly as `sp_blob` describes.
pub fn parse_blob(buf: &Vec<u8>, pos: usize) -> (r: Option<(Vec<u8>, usize)>)
    ensures
        r is Some <==> sp_blob(buf@, pos as int) is Some,
        r matches Some(p) ==> sp_blob(buf@, pos as int) == Some((p.0@, p.1 as int)),
{
    let (n, j) = match parse_hex(buf, pos, 16) {
        Some(p) => p,
        None => {
            return None;
        },
    };
    proof {
        lemma_pow16_vals();
        lemma_sp_pairs_props(buf@, j as int, n as nat);
    }
    if n > ((buf.len() - j) / 2) as u64 {
        proof {
            let l = buf@.len() - j;
            assert(l < 2 * (l / 2 + 1));
            assert((j as int) + 2 * (n as nat) > buf@.len());
        }
        return None;
    }
    let m = n as usize;
    let mut acc: Vec<u8> = Vec::new();
    let mut cur = j;
    let mut t: usize = 0;
    while t < m
        invariant
            t <= m,
            j <= cur <= buf.len(),
            pow16(2) == 0x100,
            sp_hex(buf@, pos as int, 16) == Some((m as nat, j as int)),
            sp_pairs(buf@, j as int, t as nat) == Some((acc@, cur as int)),
            cur as int == j + 2 * t,
            j + 2 * m <= buf.len(),
        decreases m - t,
    {
        match parse_hex(buf, cur, 2) {
            Some((b, nc)) => {
                proof {
                    lemma_hex_val_bound(buf@.subrange(cur as int, cur + 2));
                    assert(b < 0x100);
                    lemma_sp_pairs_split(buf@, j as int, t as nat, 1);
                    assert(sp_pairs(buf@, cur as int, 1) == Some(
                        (seq![b as u8], nc as int),
                    )) by {
                        assert(sp_pairs(buf@, nc as int, 0) == Some(
                            (Seq::<u8>::empty(), nc as int),
                        ));
                        assert(seq![b as u8] + Seq::<u8>::empty() =~= seq![b as u8]);
                    }
                }
                acc.push(b as u8);
                proof {
                    assert(acc@ =~= sp_pairs(buf@, j as int, (t + 1) as nat)->Some_0.0);
                }
                cur = nc;
            },
            None => {
                proof {
                    assert(sp_pairs(buf@, cur as int, (m - t) as nat) is None);
                    lemma_sp_pairs_split(buf@, j as int, t as nat, (m - t) as nat);
                    assert(sp_pairs(buf@, j as int, m as nat) is None);
                    assert(sp_blob(buf@, pos as int) is None);
                }
                return None;
            },
        }
        t = t + 1;
    }
    Some((acc, cur))
}

/// The signed 32-bit range.
pub open spec fn i32_ok(x: int) -> bool {
    -0x80000000 <= x < 0x80000000
}

/// The unsigned value whose 8 digits stand for `x`.
pub open spec fn to_u32n(x: int) -> nat {
    if x >= 0 {
        x as nat
    } else {
        (x + 0x100000000) as nat
    }
}

/// A signed 32-bit integer on the wire: 8 digits of its two's
/// complement value.
pub open spec fn enc_i32(x: int) -> Seq<u8> {
    enc_hex(to_u32n(x), 8)
}

/// Parses a signed 32-bit integer at `i`.
pub open spec fn sp_i32(s: Seq<u8>, i: int) -> Option<(int, int)> {
    match sp_hex(s, i, 8) {
        Some((n, j)) => Some(
            (
                if n < 0x80000000 {
                    n as int
                } else {
                    n - 0x100000000
                },
                j,
            ),
        ),
        None => None,
    }
}

/// Round trip for signed 32-bit integers.
pub proof fn lemma_sp_i32_enc(s: Seq<u8>, i: int, x: int)
    requires
        0 <= i,
        i32_ok(x),
        i + 8 <= s.len(),
        s.subrange(i, i + 8) =~= enc_i32(x),
    ensures
        sp_i32(s, i) == Some((x, i + 8)),
{
    lemma_pow16_vals();
    lemma_sp_hex_enc(s, i, to_u32n(x), 8);
}

/// Appends a signed 32-bit integer segment to `out`.
pub fn push_i32(out: &mut Vec<u8>, v: i32)
    ensures
        final(out)@ =~= old(out)@ + enc_i32(v as int),
{
    proof {
        lemma_pow16_vals();
    }
    let u: u64 = if v >= 0 {
        v as u64
    } else {
        ((v as i64) + 0x100000000i64) as u64
    };
    push_hex(out, u, 8);
}

/// Reads a signed 32-bit integer segment at `pos`.
pub fn parse_i32(buf: &Vec<u8>, pos: usize) -> (r: Option<(i32, usize)>)
    ensures
        r is Some <==> sp_i32(buf@, pos as int) is Some,
        r matches Some(p) ==> sp_i32(buf@, pos as int) == Some((p.0 as int, p.1 as int)),
{
    proof {
        lemma_pow16_vals();
    }
    match parse_hex(buf, pos, 8) {
        Some((n, j)) => {
            proof {
                if sp_hex(buf@, pos as int, 8) matches Some(p) {
                    lemma_hex_val_bound(buf@.subrange(pos as int, pos + 8));
                }
            }
            let v: i32 = if n < 0x80000000 {
                n as i32
            } else {
                ((n as i64) - 0x100000000i64) as i32
            };
            Some((v, j))
        },
        None => None,
    }
}

/// An unsigned 128-bit integer on the wire: low quad then high quad.
pub open spec fn enc_u128(v: u128) -> Seq<u8> {
    enc_hex((v % 0x10000000000000000) as nat, 16) + enc_hex((v / 0x10000000000000000) as nat, 16)
}

/// Parses an unsigned 128-bit integer at `i`.
pub open spec fn sp_u128(s: Seq<u8>, i: int) -> Option<(u128, int)> {
    match sp_hex(s, i, 16) {
        Some((lo, j)) => match sp_hex(s, j, 16) {
            Some((hi, j2)) => Some(((lo + 0x10000000000000000 * hi) as u128, j2)),
            None => None,
        },
        None => None,
    }
}

/// Round trip for unsigned 128-bit integers.
pub proof fn lemma_sp_u128_enc(s: Seq<u8>, i: int, v: u128)
    requires
        0 <= i,
        i + 32 <= s.len(),
        s.subrange(i, i + 32) =~= enc_u128(v),
    ensures
        sp_u128(s, i) == Some((v, i + 32)),
{
    lemma_pow16_vals();
    let lo = (v % 0x10000000000000000) as nat;
    let hi = (v / 0x10000000000000000) as nat;
    lemma_enc_hex_shape(lo, 16);
    lemma_enc_hex_shape(hi, 16);
    lemma_concat_split(s, i, enc_hex(lo, 16), enc_hex(hi, 16));
    lemma_sp_hex_enc(s, i, lo, 16);
    lemma_sp_hex_enc(s, i + 16, hi, 16);
}

/// Appends an unsigned 128-bit integer segment to `out`.
pub fn push_u128(out: &mut Vec<u8>, v: u128)
    ensures
        final(out)@ =~= old(out)@ + enc_u128(v),
{
    proof {
        lemma_pow16_vals();
    }
    push_hex(out, (v % 0x10000000000000000u128) as u64, 16);
    push_hex(out, (v / 0x10000000000000000u128) as u64, 16);
}

/// Reads an unsigned 128-bit integer segment at `pos`.
pub fn parse_u128(buf: &Vec<u8>, pos: usize) -> (r: Option<(u128, usize)>)
    ensures
        r is Some <==> sp_u128(buf@, pos as int) is Some,
        r matches Some(p) ==> sp_u128(buf@, pos as int) == Some((p.0, p.1 as int)),
{
    proof {
        lemma_pow16_vals();
    }
    match parse_hex(buf, pos, 16) {
        Some((lo, j)) => {
            match parse_hex(buf, j, 16) {
                Some((hi, j2)) => {
                    proof {
                        lemma_hex_val_bound(buf@.subrange(pos as int, pos + 16));
                        lemma_hex_val_bound(buf@.subrange(j as int, j + 16));
                    }
                    Some(((lo as u128) + 0x10000000000000000u128 * (hi as u128), j2))
                },
                None => None,
            }
        },
        None => None,
    }
}

/// A layer on the wire: one tag byte.
pub open spec fn enc_layer(l: crate::communication::Layer) -> Seq<u8> {
    match l {
        crate::communication::Layer::Base => seq![98u8],
        crate::communication::Layer::Board => seq![109u8],
        crate::communication::Layer::Gm => seq![103u8],
    }
}

/// Parses a layer tag at `i`; unknown tags are rejected.
pub open spec fn sp_layer(s: Seq<u8>, i: int) -> Option<(crate::communication::Layer, int)> {
    if 0 <= i < s.len() {
        if s[i] == 98 {
            Some((crate::communication::Layer::Base, i + 1))
        } else if s[i] == 109 {
            Some((crate::communication::Layer::Board, i + 1))
        } else if s[i] == 103 {
            Some((crate::communication::Layer::Gm, i + 1))
        } else {
            None
        }
    } else {
        None
    }
}

/// Appends a layer tag to `out`.
pub fn push_layer(out: &mut Vec<u8>, l: &crate::communication::Layer)
    ensures
        final(out)@ =~= old(out)@ + enc_layer(*l),
{
    match l {
        crate::communication::Layer::Base => out.push(98u8),
        crate::communication::Layer::Board => out.push(109u8),
        crate::communication::Layer::Gm => out.push(103u8),
    }
}

/// Reads a layer tag at `pos`.
pub fn parse_layer(buf: &Vec<u8>, pos: usize) -> (r: Option<(
    crate::communication::Layer,
    usize,
)>)
    ensures
        r is Some <==> sp_layer(buf@, pos as int) is Some,
        r matches Some(p) ==> sp_layer(buf@, pos as int) == Some((p.0, p.1 as int)),
{
    if pos >= buf.len() {
        return None;
    }
    let b = buf[pos];
    if b == 98 {
        Some((crate::communication::Layer::Base, pos + 1))
    } else if b == 109 {
        Some((crate::communication::Layer::Board, pos + 1))
    } else if b == 103 {
        Some((crate::communication::Layer::Gm, pos + 1))
    } else {
        None
    }
}

/// Whether every numeric field of a token fits its wire width.
pub open spec fn token_ok(t: TokenV) -> bool {
    i32_ok(t.x) && i32_ok(t.y) && i32_ok(t.scale) && str_ok(t.image) && str_ok(t.display_name)
}

/// A token on the wire: location, scale, image name, display name.
pub open spec fn enc_token(t: TokenV) -> Seq<u8> {
    enc_i32(t.x) + enc_i32(t.y) + enc_i32(t.scale) + enc_str(t.image) + enc_str(t.display_name)
}

/// Parses a token at `i`.
pub open spec fn sp_token(s: Seq<u8>, i: int) -> Option<(TokenV, int)> {
    match sp_i32(s, i) {
        Some((x, i1)) => match sp_i32(s, i1) {
            Some((y, i2)) => match sp_i32(s, i2) {
                Some((sc, i3)) => match sp_str(s, i3) {
                    Some((img, i4)) => match sp_str(s, i4) {
                        Some((dn, i5)) => Some(
                            (TokenV { x, y, scale: sc, image: img, display_name: dn }, i5),
                        ),
                        None => None,
                    },
                    None => None,
                },
                None => None,
            },
            None => None,
        },
        None => None,
    }
}

/// Round trip for tokens.
pub proof fn lemma_sp_token_enc(s: Seq<u8>, i: int, t: TokenV)
    requires
        0 <= i,
        token_ok(t),
        i + enc_token(t).len() <= s.len(),
        s.subrange(i, i + enc_token(t).len()) =~= enc_token(t),
    ensures
        sp_token(s, i) == Some((t, i + enc_token(t).len())),
{
    lemma_enc_hex_shape(to_u32n(t.x), 8);
    lemma_enc_hex_shape(to_u32n(t.y), 8);
    lemma_enc_hex_shape(to_u32n(t.scale), 8);
    let e1 = enc_i32(t.x);
    let e2 = enc_i32(t.y);
    let e3 = enc_i32(t.scale);
    let e4 = enc_str(t.image);
    let e5 = enc_str(t.display_name);
    assert(enc_token(t) =~= e1 + (e2 + (e3 + (e4 + e5))));
    lemma_concat_split(s, i, e1, e2 + (e3 + (e4 + e5)));
    lemma_concat_split(s, i + e1.len(), e2, e3 + (e4 + e5));
    lemma_concat_split(s, i + e1.len() + e2.len(), e3, e4 + e5);
    lemma_concat_split(s, i + e1.len() + e2.len() + e3.len(), e4, e5);
    lemma_sp_i32_enc(s, i, t.x);
    lemma_sp_i32_enc(s, i + 8, t.y);
    lemma_sp_i32_enc(s, i + 16, t.scale);
    lemma_sp_str_enc(s, i + 24, t.image);
    lemma_sp_str_enc(s, i + 24 + e4.len(), t.display_name);
    assert(sp_token(s, i) matches Some(p) && p.0 =~= t);
}

/// Appends a token to `out`.
pub fn push_token(out: &mut Vec<u8>, t: &Token)
    ensures
        final(out)@ =~= old(out)@ + enc_token(t@),
        token_ok(t@),
{
    push_i32(out, t.location.x);
    push_i32(out, t.location.y);
    push_i32(out, t.scale);
    push_str(out, &t.image);
    push_str(out, &t.display_name);
}

/// Reads a token at `pos`, exactly as `sp_token` describes.
pub fn parse_token(buf: &Vec<u8>, pos: usize) -> (r: Option<(Token, usize)>)
    ensures
        r is Some <==> sp_token(buf@, pos as int) is Some,
        r matches Some(p) ==> sp_token(buf@, pos as int) == Some((p.0@, p.1 as int)),
{
    let (x, i1) = match parse_i32(buf, pos) {
        Some(p) => p,
        None => {
            return None;
        },
    };
    let (y, i2) = match parse_i32(buf, i1) {
        Some(p) => p,
        None => {
            return None;
        },
    };
    let (sc, i3) = match parse_i32(buf, i2) {
        Some(p) => p,
        None => {
            return None;
        },
    };
    let (img, i4) = match parse_str(buf, i3) {
        Some(p) => p,
        None => {
            return None;
        },
    };
    let (dn, i5) = match parse_str(buf, i4) {
        Some(p) => p,
        None => {
            return None;
        },
    };
    let t = Token { location: Pos { x, y }, scale: sc, image: img, display_name: dn };
    proof {
        assert(sp_token(buf@, pos as int) matches Some(p) && p.0 =~= t@);
    }
    Some((t, i5))
}

/// One chat line on the wire: author, then text.
pub open spec fn enc_msg(m: (Seq<char>, Seq<char>)) -> Seq<u8> {
    enc_str(m.0) + enc_str(m.1)
}

pub open spec fn msg_ok(m: (Seq<char>, Seq<char>)) -> bool {
    str_ok(m.0) && str_ok(m.1)
}

/// Parses one chat line at `i`.
pub open spec fn sp_msg(s: Seq<u8>, i: int) -> Option<((Seq<char>, Seq<char>), int)> {
    match sp_str(s, i) {
        Some((a, j)) => match sp_str(s, j) {
            Some((b, end)) => Some(((a, b), end)),
            None => None,
        },
        None => None,
    }
}

/// Round trip for one chat line.
pub proof fn lemma_sp_msg_enc(s: Seq<u8>, i: int, m: (Seq<char>, Seq<char>))
    requires
        0 <= i,
        msg_ok(m),
        i + enc_msg(m).len() <= s.len(),
        s.subrange(i, i + enc_msg(m).len()) =~= enc_msg(m),
    ensures
        sp_msg(s, i) == Some((m, i + enc_msg(m).len())),
{
    lemma_concat_split(s, i, enc_str(m.0), enc_str(m.1));
    lemma_sp_str_enc(s, i, m.0);
    lemma_sp_str_enc(s, i + enc_str(m.0).len(), m.1);
}

/// A list of chat lines, one after the other.
pub open spec fn enc_msgs(ms: Seq<(Seq<char>, Seq<char>)>) -> Seq<u8>
    decreases ms.len(),
{
    if ms.len() == 0 {
        Seq::empty()
    } else {
        enc_msg(ms[0]) + enc_msgs(ms.drop_first())
    }
}

pub open spec fn msgs_ok(ms: Seq<(Seq<char>, Seq<char>)>) -> bool {
    forall|i: int| 0 <= i < ms.len() ==> msg_ok(#[trigger] ms[i])
}

/// Parses `n` chat lines at `i`.
pub open spec fn sp_msgs(s: Seq<u8>, i: int, n: nat) -> Option<(Seq<(Seq<char>, Seq<char>)>, int)>
    decreases n,
{
    if n == 0 {
        Some((Seq::empty(), i))
    } else {
        match sp_msg(s, i) {
            Some((m, j)) => match sp_msgs(s, j, (n - 1) as nat) {
                Some((rest, end)) => Some((seq![m] + rest, end)),
                None => None,
            },
            None => None,
        }
    }
}

/// Parsing `a + b` chat lines is parsing `a`, then `b`.
pub proof fn lemma_sp_msgs_split(s: Seq<u8>, i: int, a: nat, b: nat)
    ensures
        sp_msgs(s, i, a) is None ==> sp_msgs(s, i, (a + b) as nat) is None,
        sp_msgs(s, i, a) matches Some(p1) ==> (match sp_msgs(s, p1.1, b) {
            Some(p2) => sp_msgs(s, i, (a + b) as nat) == Some((p1.0 + p2.0, p2.1)),
            None => sp_msgs(s, i, (a + b) as nat) is None,
        }),
    decreases a,
{
    if a == 0 {
        match sp_msgs(s, i, a) {
            Some(p1) => {
                match sp_msgs(s, p1.1, b) {
                    Some(p2) => {
                        assert(p1.0 + p2.0 =~= p2.0);
                    },
                    None => {},
                }
            },
            None => {},
        }
    } else {
        match sp_msg(s, i) {
            Some((m, j)) => {
                lemma_sp_msgs_split(s, j, (a - 1) as nat, b);
                match sp_msgs(s, j, (a - 1) as nat) {
                    Some(q1) => {
                        match sp_msgs(s, q1.1, b) {
                            Some(q2) => {
                                assert((seq![m] + q1.0) + q2.0 =~= seq![m] + (q1.0 + q2.0));
                            },
                            None => {},
                        }
                    },
                    None => {},
                }
            },
            None => {},
        }
    }
}

/// Round trip for a list of chat lines.
pub proof fn lemma_sp_msgs_enc(s: Seq<u8>, i: int, ms: Seq<(Seq<char>, Seq<char>)>)
    requires
        0 <= i,
        msgs_ok(ms),
        i + enc_msgs(ms).len() <= s.len(),
        s.subrange(i, i + enc_msgs(ms).len()) =~= enc_msgs(ms),
    ensures
        sp_msgs(s, i, ms.len()) == Some((ms, i + enc_msgs(ms).len())),
    decreases ms.len(),
{
    if ms.len() > 0 {
        let h = enc_msg(ms[0]);
        let rest = enc_msgs(ms.drop_first());
        lemma_concat_split(s, i, h, rest);
        lemma_sp_msg_enc(s, i, ms[0]);
        assert(msgs_ok(ms.drop_first())) by {
            assert(forall|t: int|
                0 <= t < ms.drop_first().len() ==> #[trigger] ms.drop_first()[t] == ms[t + 1]);
        }
        lemma_sp_msgs_enc(s, i + h.len(), ms.drop_first());
        assert(seq![ms[0]] + ms.drop_first() =~= ms);
    }
}

/// One more chat line extends `enc_msgs` of a prefix.
proof fn lemma_enc_msgs_snoc(ms: Seq<(Seq<char>, Seq<char>)>, t: int)
    requires
        0 <= t < ms.len(),
    ensures
        enc_msgs(ms.take(t + 1)) =~= enc_msgs(ms.take(t)) + enc_msg(ms[t]),
    decreases t,
{
    if t == 0 {
        assert(ms.take(1) =~= seq![ms[0]]);
        assert(ms.take(1).drop_first() =~= Seq::<(Seq<char>, Seq<char>)>::empty());
        assert(ms.take(0) =~= Seq::<(Seq<char>, Seq<char>)>::empty());
    } else {
        lemma_enc_msgs_snoc(ms.drop_first(), t - 1);
        let d = ms.drop_first();
        let h0 = enc_msg(ms[0]);
        assert(ms.take(t + 1).drop_first() =~= d.take(t));
        assert(ms.take(t).drop_first() =~= d.take(t - 1));
        assert(ms.take(t + 1)[0] == ms[0]);
        assert(ms.take(t)[0] == ms[0]);
        assert(d[t - 1] == ms[t]);
        assert(enc_msgs(ms.take(t + 1)) == h0 + enc_msgs(d.take(t)));
        assert(enc_msgs(d.take(t)) =~= enc_msgs(d.take(t - 1)) + enc_msg(ms[t]));
        assert(enc_msgs(ms.take(t)) == h0 + enc_msgs(d.take(t - 1)));
        assert(enc_msgs(ms.take(t + 1)) =~= (h0 + enc_msgs(d.take(t - 1))) + enc_msg(ms[t]));
    }
}

/// Appends a chat log to `out`: a 16-digit count, then each line.
pub fn push_msgs(out: &mut Vec<u8>, ms: &Vec<(String, String)>)
    ensures
        final(out)@ =~= old(out)@ + enc_hex(ms.deep_view().len(), 16) + enc_msgs(ms.deep_view()),
        msgs_ok(ms.deep_view()),
        ms.deep_view().len() < pow16(16),
{
    proof {
        lemma_pow16_vals();
    }
    push_hex(out, ms.len() as u64, 16);
    let ghost mid = out@;
    let n = ms.len();
    let mut t: usize = 0;
    while t < n
        invariant
            n == ms@.len(),
            t <= n,
            out@ =~= mid + enc_msgs(ms.deep_view().take(t as int)),
            forall|j: int| 0 <= j < t ==> msg_ok(#[trigger] ms.deep_view()[j]),
        decreases n - t,
    {
        push_str(out, &ms[t].0);
        push_str(out, &ms[t].1);
        proof {
            lemma_enc_msgs_snoc(ms.deep_view(), t as int);
            assert(ms.deep_view()[t as int] == (ms@[t as int].0@, ms@[t as int].1@));
        }
        t = t + 1;
    }
    proof {
        assert(ms.deep_view().take(n as int) =~= ms.deep_view());
    }
}

/// Reads `n` chat lines at `pos`, exactly as `sp_msgs` describes.
pub fn parse_msgs(buf: &Vec<u8>, pos: usize, n: u64) -> (r: Option<(Vec<(String, String)>, usize)>)
    ensures
        r is Some <==> sp_msgs(buf@, pos as int, n as nat) is Some,
        r matches Some(p) ==> sp_msgs(buf@, pos as int, n as nat) == Some(
            (p.0.deep_view(), p.1 as int),
        ),
{
    let mut acc: Vec<(String, String)> = Vec::new();
    let mut cur = pos;
    let mut t: u64 = 0;
    while t < n
        invariant
            t <= n,
            sp_msgs(buf@, pos as int, t as nat) == Some((acc.deep_view(), cur as int)),
        decreases n - t,
    {
        let (a, j) = match parse_str(buf, cur) {
            Some(p) => p,
            None => {
                proof {
                    assert(sp_msgs(buf@, cur as int, (n - t) as nat) is None);
                    lemma_sp_msgs_split(buf@, pos as int, t as nat, (n - t) as nat);
                }
                return None;
            },
        };
        let (b, end) = match parse_str(buf, j) {
            Some(p) => p,
            None => {
                proof {
                    assert(sp_msgs(buf@, cur as int, (n - t) as nat) is None);
                    lemma_sp_msgs_split(buf@, pos as int, t as nat, (n - t) as nat);
                }
                return None;
            },
        };
        proof {
            lemma_sp_msgs_split(buf@, pos as int, t as nat, 1);
            assert(sp_msgs(buf@, cur as int, 1) == Some((seq![(a@, b@)], end as int))) by {
                assert(sp_msgs(buf@, end as int, 0) == Some(
                    (Seq::<(Seq<char>, Seq<char>)>::empty(), end as int),
                ));
                assert(seq![(a@, b@)] + Seq::<(Seq<char>, Seq<char>)>::empty() =~= seq![(a@, b@)]);
            }
        }
        acc.push((a, b));
        proof {
            assert(acc.deep_view() =~= sp_msgs(buf@, pos as int, (t + 1) as nat)->Some_0.0);
        }
        cur = end;
        t = t + 1;
    }
    Some((acc, cur))
}

/// One token-map entry on the wire: the name, then the token.
pub open spec fn enc_ent(e: (Seq<char>, TokenV)) -> Seq<u8> {
    enc_str(e.0) + enc_token(e.1)
}

pub open spec fn ent_ok(e: (Seq<char>, TokenV)) -> bool {
    str_ok(e.0) && token_ok(e.1)
}

/// Parses one token-map entry at `i`.
pub open spec fn sp_ent(s: Seq<u8>, i: int) -> Option<((Seq<char>, TokenV), int)> {
    match sp_str(s, i) {
        Some((k, j)) => match sp_token(s, j) {
            Some((tv, end)) => Some(((k, tv), end)),
            None => None,
        },
        None => None,
    }
}

/// Round trip for one token-map entry.
pub proof fn lemma_sp_ent_enc(s: Seq<u8>, i: int, e: (Seq<char>, TokenV))
    requires
        0 <= i,
        ent_ok(e),
        i + enc_ent(e).len() <= s.len(),
        s.subrange(i, i + enc_ent(e).len()) =~= enc_ent(e),
    ensures
        sp_ent(s, i) == Some((e, i + enc_ent(e).len())),
{
    lemma_concat_split(s, i, enc_str(e.0), enc_token(e.1));
    lemma_sp_str_enc(s, i, e.0);
    lemma_sp_token_enc(s, i + enc_str(e.0).len(), e.1);
}

/// A list of token-map entries, one after the other.
pub open spec fn enc_ents(es: Seq<(Seq<char>, TokenV)>) -> Seq<u8>
    decreases es.len(),
{
    if es.len() == 0 {
        Seq::empty()
    } else {
        enc_ent(es[0]) + enc_ents(es.drop_first())
    }
}

pub open spec fn ents_ok(es: Seq<(Seq<char>, TokenV)>) -> bool {
    forall|i: int| 0 <= i < es.len() ==> ent_ok(#[trigger] es[i])
}

/// Parses `n` token-map entries at `i`.
pub open spec fn sp_ents(s: Seq<u8>, i: int, n: nat) -> Option<(Seq<(Seq<char>, TokenV)>, int)>
    decreases n,
{
    if n == 0 {
        Some((Seq::empty(), i))
    } else {
        match sp_ent(s, i) {
            Some((e, j)) => match sp_ents(s, j, (n - 1) as nat) {
                Some((rest, end)) => Some((seq![e] + rest, end)),
                None => None,
            },
            None => None,
        }
    }
}

/// Parsing `a + b` entries is parsing `a`, then `b`.
pub proof fn lemma_sp_ents_split(s: Seq<u8>, i: int, a: nat, b: nat)
    ensures
        sp_ents(s, i, a) is None ==> sp_ents(s, i, (a + b) as nat) is None,
        sp_ents(s, i, a) matches Some(p1) ==> (match sp_ents(s, p1.1, b) {
            Some(p2) => sp_ents(s, i, (a + b) as nat) == Some((p1.0 + p2.0, p2.1)),
            None => sp_ents(s, i, (a + b) as nat) is None,
        }),
    decreases a,
{
    if a == 0 {
        match sp_ents(s, i, a) {
            Some(p1) => {
                match sp_ents(s, p1.1, b) {
                    Some(p2) => {
                        assert(p1.0 + p2.0 =~= p2.0);
                    },
                    None => {},
                }
            },
            None => {},
        }
    } else {
        match sp_ent(s, i) {
            Some((e, j)) => {
                lemma_sp_ents_split(s, j, (a - 1) as nat, b);
                match sp_ents(s, j, (a - 1) as nat) {
                    Some(q1) => {
                        match sp_ents(s, q1.1, b) {
                            Some(q2) => {
                                assert((seq![e] + q1.0) + q2.0 =~= seq![e] + (q1.0 + q2.0));
                            },
                            None => {},
                        }
                    },
                    None => {},
                }
            },
            None => {},
        }
    }
}

/// Round trip for a list of token-map entries.
pub proof fn lemma_sp_ents_enc(s: Seq<u8>, i: int, es: Seq<(Seq<char>, TokenV)>)
    requires
        0 <= i,
        ents_ok(es),
        i + enc_ents(es).len() <= s.len(),
        s.subrange(i, i + enc_ents(es).len()) =~= enc_ents(es),
    ensures
        sp_ents(s, i, es.len()) == Some((es, i + enc_ents(es).len())),
    decreases es.len(),
{
    if es.len() > 0 {
        let h = enc_ent(es[0]);
        let rest = enc_ents(es.drop_first());
        lemma_concat_split(s, i, h, rest);
        lemma_sp_ent_enc(s, i, es[0]);
        assert(ents_ok(es.drop_first())) by {
            assert(forall|t: int|
                0 <= t < es.drop_first().len() ==> #[trigger] es.drop_first()[t] == es[t + 1]);
        }
        lemma_sp_ents_enc(s, i + h.len(), es.drop_first());
        assert(seq![es[0]] + es.drop_first() =~= es);
    }
}

/// One more entry extends `enc_ents` of a prefix.
proof fn lemma_enc_ents_snoc(es: Seq<(Seq<char>, TokenV)>, t: int)
    requires
        0 <= t < es.len(),
    ensures
        enc_ents(es.take(t + 1)) =~= enc_ents(es.take(t)) + enc_ent(es[t]),
    decreases t,
{
    if t == 0 {
        assert(es.take(1) =~= seq![es[0]]);
        assert(es.take(1).drop_first() =~= Seq::<(Seq<char>, TokenV)>::empty());
        assert(es.take(0) =~= Seq::<(Seq<char>, TokenV)>::empty());
    } else {
        lemma_enc_ents_snoc(es.drop_first(), t - 1);
        let d = es.drop_first();
        let h0 = enc_ent(es[0]);
        assert(es.take(t + 1).drop_first() =~= d.take(t));
        assert(es.take(t).drop_first() =~= d.take(t - 1));
        assert(es.take(t + 1)[0] == es[0]);
        assert(es.take(t)[0] == es[0]);
        assert(d[t - 1] == es[t]);
        assert(enc_ents(es.take(t + 1)) == h0 + enc_ents(d.take(t)));
        assert(enc_ents(d.take(t)) =~= enc_ents(d.take(t - 1)) + enc_ent(es[t]));
        assert(enc_ents(es.take(t)) == h0 + enc_ents(d.take(t - 1)));
        assert(enc_ents(es.take(t + 1)) =~= (h0 + enc_ents(d.take(t - 1))) + enc_ent(es[t]));
    }
}

/// Appends a token map to `out`: a 16-digit count, then each entry.
pub fn push_ents(out: &mut Vec<u8>, m: &NameMap<Token>)
    ensures
        final(out)@ =~= old(out)@ + enc_hex(m@.len(), 16) + enc_ents(m@),
        ents_ok(m@),
        m@.len() < pow16(16),
{
    proof {
        lemma_pow16_vals();
    }
    push_hex(out, m.entries.len() as u64, 16);
    let ghost mid = out@;
    let n = m.entries.len();
    let mut t: usize = 0;
    while t < n
        invariant
            n == m@.len(),
            out@ =~= mid + enc_ents(m@.take(t as int)),
            t <= n,
            forall|j: int| 0 <= j < t ==> ent_ok(#[trigger] m@[j]),
        decreases n - t,
    {
        push_str(out, &m.entries[t].0);
        push_token(out, &m.entries[t].1);
        proof {
            lemma_enc_ents_snoc(m@, t as int);
            assert(m@[t as int] == (m.entries@[t as int].0@, m.entries@[t as int].1@));
        }
        t = t + 1;
    }
    proof {
        assert(m@.take(n as int) =~= m@);
    }
}

/// The model pairs of an entry vector, name view by token view.
pub open spec fn ents_view(v: Seq<(String, Token)>) -> Seq<(Seq<char>, TokenV)> {
    Seq::new(v.len(), |i: int| (v[i].0@, v[i].1@))
}

/// Reads `n` token-map entries at `pos`, exactly as `sp_ents` describes.
pub fn parse_ents(buf: &Vec<u8>, pos: usize, n: u64) -> (r: Option<(Vec<(String, Token)>, usize)>)
    ensures
        r is Some <==> sp_ents(buf@, pos as int, n as nat) is Some,
        r matches Some(p) ==> sp_ents(buf@, pos as int, n as nat) == Some(
            (ents_view(p.0@), p.1 as int),
        ),
{
    let mut acc: Vec<(String, Token)> = Vec::new();
    let mut cur = pos;
    let mut t: u64 = 0;
    while t < n
        invariant
            t <= n,
            sp_ents(buf@, pos as int, t as nat) == Some((ents_view(acc@), cur as int)),
        decreases n - t,
    {
        let (k, j) = match parse_str(buf, cur) {
            Some(p) => p,
            None => {
                proof {
                    assert(sp_ents(buf@, cur as int, (n - t) as nat) is None);
                    lemma_sp_ents_split(buf@, pos as int, t as nat, (n - t) as nat);
                }
                return None;
            },
        };
        let (tok, end) = match parse_token(buf, j) {
            Some(p) => p,
            None => {
                proof {
                    assert(sp_ents(buf@, cur as int, (n - t) as nat) is None);
                    lemma_sp_ents_split(buf@, pos as int, t as nat, (n - t) as nat);
                }
                return None;
            },
        };
        proof {
            lemma_sp_ents_split(buf@, pos as int, t as nat, 1);
            assert(sp_ents(buf@, cur as int, 1) == Some((seq![(k@, tok@)], end as int))) by {
                assert(sp_ents(buf@, end as int, 0) == Some(
                    (Seq::<(Seq<char>, TokenV)>::empty(), end as int),
                ));
                assert(seq![(k@, tok@)] + Seq::<(Seq<char>, TokenV)>::empty() =~= seq![(k@, tok@)]);
            }
        }
        acc.push((k, tok));
        proof {
            assert(ents_view(acc@) =~= sp_ents(buf@, pos as int, (t + 1) as nat)->Some_0.0);
        }
        cur = end;
        t = t + 1;
    }
    Some((acc, cur))
}

/// A list of usernames, one after the other.
pub open spec fn enc_ppl(ps: Seq<Seq<char>>) -> Seq<u8>
    decreases ps.len(),
{
    if ps.len() == 0 {
        Seq::empty()
    } else {
        enc_str(ps[0]) + enc_ppl(ps.drop_first())
    }
}

pub open spec fn ppl_ok(ps: Seq<Seq<char>>) -> bool {
    forall|i: int| 0 <= i < ps.len() ==> str_ok(#[trigger] ps[i])
}

/// Parses `n` usernames at `i`.
pub open spec fn sp_ppl(s: Seq<u8>, i: int, n: nat) -> Option<(Seq<Seq<char>>, int)>
    decreases n,
{
    if n == 0 {
        Some((Seq::empty(), i))
    } else {
        match sp_str(s, i) {
            Some((cs, j)) => match sp_ppl(s, j, (n - 1) as nat) {
                Some((rest, end)) => Some((seq![cs] + rest, end)),
                None => None,
            },
            None => None,
        }
    }
}

/// Parsing `a + b` usernames is parsing `a`, then `b`.
pub proof fn lemma_sp_ppl_split(s: Seq<u8>, i: int, a: nat, b: nat)
    ensures
        sp_ppl(s, i, a) is None ==> sp_ppl(s, i, (a + b) as nat) is None,
        sp_ppl(s, i, a) matches Some(p1) ==> (match sp_ppl(s, p1.1, b) {
            Some(p2) => sp_ppl(s, i, (a + b) as nat) == Some((p1.0 + p2.0, p2.1)),
            None => sp_ppl(s, i, (a + b) as nat) is None,
        }),
    decreases a,
{
    if a == 0 {
        match sp_ppl(s, i, a) {
            Some(p1) => {
                match sp_ppl(s, p1.1, b) {
                    Some(p2) => {
                        assert(p1.0 + p2.0 =~= p2.0);
                    },
                    None => {},
                }
            },
            None => {},
        }
    } else {
        match sp_str(s, i) {
            Some((cs, j)) => {
                lemma_sp_ppl_split(s, j, (a - 1) as nat, b);
                match sp_ppl(s, j, (a - 1) as nat) {
                    Some(q1) => {
                        match sp_ppl(s, q1.1, b) {
                            Some(q2) => {
                                assert((seq![cs] + q1.0) + q2.0 =~= seq![cs] + (q1.0 + q2.0));
                            },
                            None => {},
                        }
                    },
                    None => {},
                }
            },
            None => {},
        }
    }
}

/// Round trip for a list of usernames.
pub proof fn lemma_sp_ppl_enc(s: Seq<u8>, i: int, ps: Seq<Seq<char>>)
    requires
        0 <= i,
        ppl_ok(ps),
        i + enc_ppl(ps).len() <= s.len(),
        s.subrange(i, i + enc_ppl(ps).len()) =~= enc_ppl(ps),
    ensures
        sp_ppl(s, i, ps.len()) == Some((ps, i + enc_ppl(ps).len())),
    decreases ps.len(),
{
    if ps.len() > 0 {
        let h = enc_str(ps[0]);
        let rest = enc_ppl(ps.drop_first());
        lemma_concat_split(s, i, h, rest);
        lemma_sp_str_enc(s, i, ps[0]);
        assert(ppl_ok(ps.drop_first())) by {
            assert(forall|t: int|
                0 <= t < ps.drop_first().len() ==> #[trigger] ps.drop_first()[t] == ps[t + 1]);
        }
        lemma_sp_ppl_enc(s, i + h.len(), ps.drop_first());
        assert(seq![ps[0]] + ps.drop_first() =~= ps);
    }
}

/// One more username extends `enc_ppl` of a prefix.
proof fn lemma_enc_ppl_snoc(ps: Seq<Seq<char>>, t: int)
    requires
        0 <= t < ps.len(),
    ensures
        enc_ppl(ps.take(t + 1)) =~= enc_ppl(ps.take(t)) + enc_str(ps[t]),
    decreases t,
{
    if t == 0 {
        assert(ps.take(1) =~= seq![ps[0]]);
        assert(ps.take(1).drop_first() =~= Seq::<Seq<char>>::empty());
        assert(ps.take(0) =~= Seq::<Seq<char>>::empty());
    } else {
        lemma_enc_ppl_snoc(ps.drop_first(), t - 1);
        let d = ps.drop_first();
        let h0 = enc_str(ps[0]);
        assert(ps.take(t + 1).drop_first() =~= d.take(t));
        assert(ps.take(t).drop_first() =~= d.take(t - 1));
        assert(ps.take(t + 1)[0] == ps[0]);
        assert(ps.take(t)[0] == ps[0]);
        assert(d[t - 1] == ps[t]);
        assert(enc_ppl(ps.take(t + 1)) == h0 + enc_ppl(d.take(t)));
        assert(enc_ppl(d.take(t)) =~= enc_ppl(d.take(t - 1)) + enc_str(ps[t]));
        assert(enc_ppl(ps.take(t)) == h0 + enc_ppl(d.take(t - 1)));
        assert(enc_ppl(ps.take(t + 1)) =~= (h0 + enc_ppl(d.take(t - 1))) + enc_str(ps[t]));
    }
}

/// Appends a username list to `out`: a 16-digit count, then each name.
pub fn push_ppl(out: &mut Vec<u8>, ps: &Vec<String>)
    ensures
        final(out)@ =~= old(out)@ + enc_hex(ps.deep_view().len(), 16) + enc_ppl(ps.deep_view()),
        ppl_ok(ps.deep_view()),
        ps.deep_view().len() < pow16(16),
{
    proof {
        lemma_pow16_vals();
    }
    push_hex(out, ps.len() as u64, 16);
    let ghost mid = out@;
    let n = ps.len();
    let mut t: usize = 0;
    while t < n
        invariant
            n == ps@.len(),
            t <= n,
            out@ =~= mid + enc_ppl(ps.deep_view().take(t as int)),
            forall|j: int| 0 <= j < t ==> str_ok(#[trigger] ps.deep_view()[j]),
        decreases n - t,
    {
        push_str(out, &ps[t]);
        proof {
            lemma_enc_ppl_snoc(ps.deep_view(), t as int);
            assert(ps.deep_view()[t as int] == ps@[t as int]@);
        }
        t = t + 1;
    }
    proof {
        assert(ps.deep_view().take(n as int) =~= ps.deep_view());
    }
}

/// Reads `n` usernames at `pos`, exactly as `sp_ppl` describes.
pub fn parse_ppl(buf: &Vec<u8>, pos: usize, n: u64) -> (r: Option<(Vec<String>, usize)>)
    ensures
        r is Some <==> sp_ppl(buf@, pos as int, n as nat) is Some,
        r matches Some(p) ==> sp_ppl(buf@, pos as int, n as nat) == Some(
            (p.0.deep_view(), p.1 as int),
        ),
{
    let mut acc: Vec<String> = Vec::new();
    let mut cur = pos;
    let mut t: u64 = 0;
    while t < n
        invariant
            t <= n,
            sp_ppl(buf@, pos as int, t as nat) == Some((acc.deep_view(), cur as int)),
        decreases n - t,
    {
        let (a, end) = match parse_str(buf, cur) {
            Some(p) => p,
            None => {
                proof {
                    assert(sp_ppl(buf@, cur as int, (n - t) as nat) is None);
                    lemma_sp_ppl_split(buf@, pos as int, t as nat, (n - t) as nat);
                }
                return None;
            },
        };
        proof {
            lemma_sp_ppl_split(buf@, pos as int, t as nat, 1);
            assert(sp_ppl(buf@, cur as int, 1) == Some((seq![a@], end as int))) by {
                assert(sp_ppl(buf@, end as int, 0) == Some((Seq::<Seq<char>>::empty(), end as int)));
                assert(seq![a@] + Seq::<Seq<char>>::empty() =~= seq![a@]);
            }
        }
        acc.push(a);
        proof {
            assert(acc.deep_view() =~= sp_ppl(buf@, pos as int, (t + 1) as nat)->Some_0.0);
        }
        cur = end;
        t = t + 1;
    }
    Some((acc, cur))
}

/// Whether every part of a state fits its wire widths.
pub open spec fn state_ok(st: StateV) -> bool {
    &&& str_ok(st.name)
    &&& msgs_ok(st.messages)
    &&& st.messages.len() < pow16(16)
    &&& ents_ok(st.tokens)
    &&& st.tokens.len() < pow16(16)
    &&& ents_ok(st.map)
    &&& st.map.len() < pow16(16)
    &&& ents_ok(st.gm)
    &&& st.gm.len() < pow16(16)
}

/// A full state snapshot on the wire: session name, chat log, then the
/// three layer maps, each list with its 16-digit count.
pub open spec fn enc_state(st: StateV) -> Seq<u8> {
    enc_str(st.name) + enc_hex(st.messages.len(), 16) + enc_msgs(st.messages) + enc_hex(
        st.tokens.len(),
        16,
    ) + enc_ents(st.tokens) + enc_hex(st.map.len(), 16) + enc_ents(st.map) + enc_hex(
        st.gm.len(),
        16,
    ) + enc_ents(st.gm)
}

/// Parses a state snapshot at `i`.
pub open spec fn sp_state(s: Seq<u8>, i: int) -> Option<(StateV, int)> {
    match sp_str(s, i) {
        Some((name, o1)) => match sp_hex(s, o1, 16) {
            Some((nm, o2)) => match sp_msgs(s, o2, nm) {
                Some((messages, o3)) => match sp_hex(s, o3, 16) {
                    Some((nt, o4)) => match sp_ents(s, o4, nt) {
                        Some((tokens, o5)) => match sp_hex(s, o5, 16) {
                            Some((nb, o6)) => match sp_ents(s, o6, nb) {
                                Some((map, o7)) => match sp_hex(s, o7, 16) {
                                    Some((ng, o8)) => match sp_ents(s, o8, ng) {
                                        Some((gm, o9)) => Some(
                                            (StateV { messages, tokens, map, gm, name }, o9),
                                        ),
                                        None => None,
                                    },
                                    None => None,
                                },
                                None => None,
                            },
                            None => None,
                        },
                        None => None,
                    },
                    None => None,
                },
                None => None,
            },
            None => None,
        },
        None => None,
    }
}

/// Round trip for state snapshots.
#[verifier::rlimit(80)]
#[verifier::spinoff_prover]
pub proof fn lemma_sp_state_enc(s: Seq<u8>, i: int, st: StateV)
    requires
        0 <= i,
        state_ok(st),
        i + enc_state(st).len() <= s.len(),
        s.subrange(i, i + enc_state(st).len()) =~= enc_state(st),
    ensures
        sp_state(s, i) == Some((st, i + enc_state(st).len())),
{
    let e1 = enc_str(st.name);
    let c2 = enc_hex(st.messages.len(), 16);
    let e3 = enc_msgs(st.messages);
    let c4 = enc_hex(st.tokens.len(), 16);
    let e5 = enc_ents(st.tokens);
    let c6 = enc_hex(st.map.len(), 16);
    let e7 = enc_ents(st.map);
    let c8 = enc_hex(st.gm.len(), 16);
    let e9 = enc_ents(st.gm);
    lemma_enc_hex_shape(st.messages.len(), 16);
    lemma_enc_hex_shape(st.tokens.len(), 16);
    lemma_enc_hex_shape(st.map.len(), 16);
    lemma_enc_hex_shape(st.gm.len(), 16);
    let r8 = c8 + e9;
    let r7 = e7 + r8;
    let r6 = c6 + r7;
    let r5 = e5 + r6;
    let r4 = c4 + r5;
    let r3 = e3 + r4;
    let r2 = c2 + r3;
    assert(enc_state(st) =~= e1 + r2);
    let o1 = i + e1.len();
    let o2 = o1 + 16;
    let o3 = o2 + e3.len();
    let o4 = o3 + 16;
    let o5 = o4 + e5.len();
    let o6 = o5 + 16;
    let o7 = o6 + e7.len();
    let o8 = o7 + 16;
    lemma_concat_split(s, i, e1, r2);
    lemma_concat_split(s, o1, c2, r3);
    lemma_concat_split(s, o2, e3, r4);
    lemma_concat_split(s, o3, c4, r5);
    lemma_concat_split(s, o4, e5, r6);
    lemma_concat_split(s, o5, c6, r7);
    lemma_concat_split(s, o6, e7, r8);
    lemma_concat_split(s, o7, c8, e9);
    lemma_sp_str_enc(s, i, st.name);
    lemma_sp_hex_enc(s, o1, st.messages.len(), 16);
    lemma_sp_msgs_enc(s, o2, st.messages);
    lemma_sp_hex_enc(s, o3, st.tokens.len(), 16);
    lemma_sp_ents_enc(s, o4, st.tokens);
    lemma_sp_hex_enc(s, o5, st.map.len(), 16);
    lemma_sp_ents_enc(s, o6, st.map);
    lemma_sp_hex_enc(s, o7, st.gm.len(), 16);
    lemma_sp_ents_enc(s, o8, st.gm);
    assert(sp_state(s, i) matches Some(p) && p.0 =~= st);
}

/// Appends a state snapshot to `out`.
pub fn push_state(out: &mut Vec<u8>, st: &State)
    ensures
        final(out)@ =~= old(out)@ + enc_state(st@),
        state_ok(st@),
{
    push_str(out, &st.name);
    push_msgs(out, &st.messages);
    push_ents(out, &st.tokens);
    push_ents(out, &st.map);
    push_ents(out, &st.gm);
}

/// Reads a state snapshot at `pos`, exactly as `sp_state` describes.
pub fn parse_state(buf: &Vec<u8>, pos: usize) -> (r: Option<(State, usize)>)
    ensures
        r is Some <==> sp_state(buf@, pos as int) is Some,
        r matches Some(p) ==> sp_state(buf@, pos as int) == Some((p.0@, p.1 as int)),
{
    let (name, o1) = match parse_str(buf, pos) {
        Some(p) => p,
        None => {
            return None;
        },
    };
    let (nm, o2) = match parse_hex(buf, o1, 16) {
        Some(p) => p,
        None => {
            return None;
        },
    };
    let (messages, o3) = match parse_msgs(buf, o2, nm) {
        Some(p) => p,
        None => {
            return None;
        },
    };
    let (nt, o4) = match parse_hex(buf, o3, 16) {
        Some(p) => p,
        None => {
            return None;
        },
    };
    let (tokens, o5) = match parse_ents(buf, o4, nt) {
        Some(p) => p,
        None => {
            return None;
        },
    };
    let (nb, o6) = match parse_hex(buf, o5, 16) {
        Some(p) => p,
        None => {
            return None;
        },
    };
    let (map, o7) = match parse_ents(buf, o6, nb) {
        Some(p) => p,
        None => {
            return None;
        },
    };
    let (ng, o8) = match parse_hex(buf, o7, 16) {
        Some(p) => p,
        None => {
            return None;
        },
    };
    let (gm, o9) = match parse_ents(buf, o8, ng) {
        Some(p) => p,
        None => {
            return None;
        },
    };
    let st = State {
        messages,
        tokens: NameMap { entries: tokens },
        map: NameMap { entries: map },
        gm: NameMap { entries: gm },
        name,
    };
    proof {
        assert(st@.tokens =~= ents_view(st.tokens.entries@));
        assert(st@.map =~= ents_view(st.map.entries@));
        assert(st@.gm =~= ents_view(st.gm.entries@));
        assert(sp_state(buf@, pos as int) matches Some(p) && p.0 =~= st@);
    }
    Some((st, o9))
}

/// Whether every part of an event payload fits its wire widths.
pub open spec fn data_ok(d: EventDataV) -> bool {
    match d {
        EventDataV::Message { from, contents, time_stamp } => str_ok(from) && str_ok(contents),
        EventDataV::Connection { username } => str_ok(username),
        EventDataV::Disconnection { username } => str_ok(username),
        EventDataV::Kill { password } => str_ok(password),
        EventDataV::TokenMoved { name, to, layer } => str_ok(name) && token_ok(to),
        EventDataV::TokenCreated { name, token, layer } => str_ok(name) && token_ok(token),
        EventDataV::TokenDestroyed { name, layer } => str_ok(name),
        EventDataV::ImageUpload { name, image } => str_ok(name) && blob_ok(image),
        EventDataV::SendState { state } => state_ok(state),
        EventDataV::PersonalUpdate { people } => ppl_ok(people) && people.len() < pow16(16),
        EventDataV::HeartBeat => true,
    }
}

/// An event payload on the wire: one tag byte, then the fields of that
/// kind in order.
pub open spec fn enc_data(d: EventDataV) -> Seq<u8> {
    match d {
        EventDataV::Message { from, contents, time_stamp } => seq![77u8] + enc_str(from) + enc_str(
            contents,
        ) + enc_u128(time_stamp),
        EventDataV::Connection { username } => seq![67u8] + enc_str(username),
        EventDataV::Disconnection { username } => seq![68u8] + enc_str(username),
        EventDataV::Kill { password } => seq![75u8] + enc_str(password),
        EventDataV::TokenMoved { name, to, layer } => seq![86u8] + enc_str(name) + enc_token(to)
            + enc_layer(layer),
        EventDataV::TokenCreated { name, token, layer } => seq![84u8] + enc_str(name) + enc_token(
            token,
        ) + enc_layer(layer),
        EventDataV::TokenDestroyed { name, layer } => seq![88u8] + enc_str(name) + enc_layer(layer),
        EventDataV::ImageUpload { name, image } => seq![73u8] + enc_str(name) + enc_blob(image),
        EventDataV::SendState { state } => seq![83u8] + enc_state(state),
        EventDataV::PersonalUpdate { people } => seq![80u8] + enc_hex(people.len(), 16) + enc_ppl(
            people,
        ),
        EventDataV::HeartBeat => seq![72u8],
    }
}

/// Parses an event payload at `i`; an unknown tag is rejected.
pub open spec fn sp_data(s: Seq<u8>, i: int) -> Option<(EventDataV, int)> {
    if !(0 <= i < s.len()) {
        None
    } else {
        let tag = s[i];
        if tag == 77 {
            match sp_str(s, i + 1) {
                Some((from, j1)) => match sp_str(s, j1) {
                    Some((contents, j2)) => match sp_u128(s, j2) {
                        Some((ts, j3)) => Some(
                            (EventDataV::Message { from, contents, time_stamp: ts }, j3),
                        ),
                        None => None,
                    },
                    None => None,
                },
                None => None,
            }
        } else if tag == 67 {
            match sp_str(s, i + 1) {
                Some((username, j1)) => Some((EventDataV::Connection { username }, j1)),
                None => None,
            }
        } else if tag == 68 {
            match sp_str(s, i + 1) {
                Some((username, j1)) => Some((EventDataV::Disconnection { username }, j1)),
                None => None,
            }
        } else if tag == 75 {
            match sp_str(s, i + 1) {
                Some((password, j1)) => Some((EventDataV::Kill { password }, j1)),
                None => None,
            }
        } else if tag == 86 {
            match sp_str(s, i + 1) {
                Some((name, j1)) => match sp_token(s, j1) {
                    Some((to, j2)) => match sp_layer(s, j2) {
                        Some((layer, j3)) => Some((EventDataV::TokenMoved { name, to, layer }, j3)),
                        None => None,
                    },
                    None => None,
                },
                None => None,
            }
        } else if tag == 84 {
            match sp_str(s, i + 1) {
                Some((name, j1)) => match sp_token(s, j1) {
                    Some((token, j2)) => match sp_layer(s, j2) {
                        Some((layer, j3)) => Some(
                            (EventDataV::TokenCreated { name, token, layer }, j3),
                        ),
                        None => None,
                    },
                    None => None,
                },
                None => None,
            }
        } else if tag == 88 {
            match sp_str(s, i + 1) {
                Some((name, j1)) => match sp_layer(s, j1) {
                    Some((layer, j2)) => Some((EventDataV::TokenDestroyed { name, layer }, j2)),
                    None => None,
                },
                None => None,
            }
        } else if tag == 73 {
            match sp_str(s, i + 1) {
                Some((name, j1)) => match sp_blob(s, j1) {
                    Some((image, j2)) => Some((EventDataV::ImageUpload { name, image }, j2)),
                    None => None,
                },
                None => None,
            }
        } else if tag == 83 {
            match sp_state(s, i + 1) {
                Some((state, j1)) => Some((EventDataV::SendState { state }, j1)),
                None => None,
            }
        } else if tag == 80 {
            match sp_hex(s, i + 1, 16) {
                Some((np, j1)) => match sp_ppl(s, j1, np) {
                    Some((people, j2)) => Some((EventDataV::PersonalUpdate { people }, j2)),
                    None => None,
                },
                None => None,
            }
        } else if tag == 72 {
            Some((EventDataV::HeartBeat, i + 1))
        } else {
            None
        }
    }
}

/// Round trip for a chat-message payload.
#[verifier::rlimit(60)]
#[verifier::spinoff_prover]
proof fn lemma_sp_data_enc_message(s: Seq<u8>, i: int, d: EventDataV)
    requires
        0 <= i,
        data_ok(d),
        d is Message,
        i + enc_data(d).len() <= s.len(),
        s.subrange(i, i + enc_data(d).len()) =~= enc_data(d),
    ensures
        sp_data(s, i) == Some((d, i + enc_data(d).len())),
{
    assert(s.subrange(i, i + enc_data(d).len())[0] == s[i]);
    if let EventDataV::Message { from, contents, time_stamp } = d {
        let e1 = enc_str(from);
        let e2 = enc_str(contents);
        let e3 = enc_u128(time_stamp);
        lemma_enc_hex_shape((time_stamp % 0x10000000000000000) as nat, 16);
        lemma_enc_hex_shape((time_stamp / 0x10000000000000000) as nat, 16);
        assert(enc_data(d) =~= seq![77u8] + (e1 + (e2 + e3)));
        lemma_concat_split(s, i, seq![77u8], e1 + (e2 + e3));
        lemma_concat_split(s, i + 1, e1, e2 + e3);
        lemma_concat_split(s, i + 1 + e1.len(), e2, e3);
        lemma_sp_str_enc(s, i + 1, from);
        lemma_sp_str_enc(s, i + 1 + e1.len(), contents);
        lemma_sp_u128_enc(s, i + 1 + e1.len() + e2.len(), time_stamp);
    }
}

/// Round trip for the two token-change payloads that carry a token.
#[verifier::rlimit(60)]
#[verifier::spinoff_prover]
proof fn lemma_sp_data_enc_token(s: Seq<u8>, i: int, d: EventDataV)
    requires
        0 <= i,
        data_ok(d),
        d is TokenMoved || d is TokenCreated,
        i + enc_data(d).len() <= s.len(),
        s.subrange(i, i + enc_data(d).len()) =~= enc_data(d),
    ensures
        sp_data(s, i) == Some((d, i + enc_data(d).len())),
{
    assert(s.subrange(i, i + enc_data(d).len())[0] == s[i]);
    match d {
        EventDataV::TokenMoved { name, to, layer } => {
            let e1 = enc_str(name);
            let e2 = enc_token(to);
            let e3 = enc_layer(layer);
            assert(enc_data(d) =~= seq![86u8] + (e1 + (e2 + e3)));
            lemma_concat_split(s, i, seq![86u8], e1 + (e2 + e3));
            lemma_concat_split(s, i + 1, e1, e2 + e3);
            lemma_concat_split(s, i + 1 + e1.len(), e2, e3);
            lemma_sp_str_enc(s, i + 1, name);
            lemma_sp_token_enc(s, i + 1 + e1.len(), to);
            assert(s.subrange(i + 1 + e1.len() + e2.len(), i + 1 + e1.len() + e2.len() + 1)[0] == s[
                i + 1 + e1.len() + e2.len()
            ]);
        },
        EventDataV::TokenCreated { name, token, layer } => {
            let e1 = enc_str(name);
            let e2 = enc_token(token);
            let e3 = enc_layer(layer);
            assert(enc_data(d) =~= seq![84u8] + (e1 + (e2 + e3)));
            lemma_concat_split(s, i, seq![84u8], e1 + (e2 + e3));
            lemma_concat_split(s, i + 1, e1, e2 + e3);
            lemma_concat_split(s, i + 1 + e1.len(), e2, e3);
            lemma_sp_str_enc(s, i + 1, name);
            lemma_sp_token_enc(s, i + 1 + e1.len(), token);
            assert(s.subrange(i + 1 + e1.len() + e2.len(), i + 1 + e1.len() + e2.len() + 1)[0] == s[
                i + 1 + e1.len() + e2.len()
            ]);
        },
        _ => {},
    }
}

/// Round trip for the image-upload payload.
#[verifier::rlimit(60)]
#[verifier::spinoff_prover]
proof fn lemma_sp_data_enc_image(s: Seq<u8>, i: int, d: EventDataV)
    requires
        0 <= i,
        data_ok(d),
        d is ImageUpload,
        i + enc_data(d).len() <= s.len(),
        s.subrange(i, i + enc_data(d).len()) =~= enc_data(d),
    ensures
        sp_data(s, i) == Some((d, i + enc_data(d).len())),
{
    assert(s.subrange(i, i + enc_data(d).len())[0] == s[i]);
    if let EventDataV::ImageUpload { name, image } = d {
        let e1 = enc_str(name);
        let e2 = enc_blob(image);
        lemma_enc_hex_shape(image.len(), 16);
        lemma_enc_pairs_len(image);
        assert(enc_data(d) =~= seq![73u8] + (e1 + e2));
        lemma_concat_split(s, i, seq![73u8], e1 + e2);
        lemma_concat_split(s, i + 1, e1, e2);
        lemma_sp_str_enc(s, i + 1, name);
        lemma_concat_split(s, i + 1 + e1.len(), enc_hex(image.len(), 16), enc_pairs(image));
        lemma_sp_hex_enc(s, i + 1 + e1.len(), image.len(), 16);
        lemma_sp_pairs_enc(s, i + 1 + e1.len() + 16, image);
    }
}

/// Round trip for the snapshot and roster payloads.
#[verifier::rlimit(60)]
#[verifier::spinoff_prover]
proof fn lemma_sp_data_enc_bulk(s: Seq<u8>, i: int, d: EventDataV)
    requires
        0 <= i,
        data_ok(d),
        d is SendState || d is PersonalUpdate || d is TokenDestroyed,
        i + enc_data(d).len() <= s.len(),
        s.subrange(i, i + enc_data(d).len()) =~= enc_data(d),
    ensures
        sp_data(s, i) == Some((d, i + enc_data(d).len())),
{
    assert(s.subrange(i, i + enc_data(d).len())[0] == s[i]);
    match d {
        EventDataV::SendState { state } => {
            lemma_concat_split(s, i, seq![83u8], enc_state(state));
            lemma_sp_state_enc(s, i + 1, state);
        },
        EventDataV::PersonalUpdate { people } => {
            let c = enc_hex(people.len(), 16);
            let e2 = enc_ppl(people);
            lemma_enc_hex_shape(people.len(), 16);
            assert(enc_data(d) =~= seq![80u8] + (c + e2));
            lemma_concat_split(s, i, seq![80u8], c + e2);
            lemma_concat_split(s, i + 1, c, e2);
            lemma_sp_hex_enc(s, i + 1, people.len(), 16);
            lemma_sp_ppl_enc(s, i + 1 + 16, people);
        },
        EventDataV::TokenDestroyed { name, layer } => {
            let e1 = enc_str(name);
            let e2 = enc_layer(layer);
            assert(enc_data(d) =~= seq![88u8] + (e1 + e2));
            lemma_concat_split(s, i, seq![88u8], e1 + e2);
            lemma_concat_split(s, i + 1, e1, e2);
            lemma_sp_str_enc(s, i + 1, name);
            assert(s.subrange(i + 1 + e1.len(), i + 1 + e1.len() + 1)[0] == s[i + 1 + e1.len()]);
        },
        _ => {},
    }
}

/// Round trip for event payloads.
#[verifier::rlimit(60)]
#[verifier::spinoff_prover]
pub proof fn lemma_sp_data_enc(s: Seq<u8>, i: int, d: EventDataV)
    requires
        0 <= i,
        data_ok(d),
        i + enc_data(d).len() <= s.len(),
        s.subrange(i, i + enc_data(d).len()) =~= enc_data(d),
    ensures
        sp_data(s, i) == Some((d, i + enc_data(d).len())),
{
    assert(s.subrange(i, i + enc_data(d).len())[0] == s[i]);
    match d {
        EventDataV::Message { from, contents, time_stamp } => {
            lemma_sp_data_enc_message(s, i, d);
        },
        EventDataV::Connection { username } => {
            lemma_concat_split(s, i, seq![67u8], enc_str(username));
            lemma_sp_str_enc(s, i + 1, username);
        },
        EventDataV::Disconnection { username } => {
            lemma_concat_split(s, i, seq![68u8], enc_str(username));
            lemma_sp_str_enc(s, i + 1, username);
        },
        EventDataV::Kill { password } => {
            lemma_concat_split(s, i, seq![75u8], enc_str(password));
            lemma_sp_str_enc(s, i + 1, password);
        },
        EventDataV::TokenMoved { name, to, layer } => {
            lemma_sp_data_enc_token(s, i, d);
        },
        EventDataV::TokenCreated { name, token, layer } => {
            lemma_sp_data_enc_token(s, i, d);
        },
        EventDataV::TokenDestroyed { name, layer } => {
            lemma_sp_data_enc_bulk(s, i, d);
        },
        EventDataV::ImageUpload { name, image } => {
            lemma_sp_data_enc_image(s, i, d);
        },
        EventDataV::SendState { state } => {
            lemma_sp_data_enc_bulk(s, i, d);
        },
        EventDataV::PersonalUpdate { people } => {
            lemma_sp_data_enc_bulk(s, i, d);
        },
        EventDataV::HeartBeat => {},
    }
}

/// Appends an event payload to `out`.
pub fn push_data(out: &mut Vec<u8>, d: &EventData)
    ensures
        final(out)@ =~= old(out)@ + enc_data(d@),
        data_ok(d@),
{
    match d {
        EventData::Message { from, contents, time_stamp } => {
            out.push(77u8);
            push_str(out, from);
            push_str(out, contents);
            push_u128(out, *time_stamp);
        },
        EventData::Connection { username } => {
            out.push(67u8);
            push_str(out, username);
        },
        EventData::Disconnection { username } => {
            out.push(68u8);
            push_str(out, username);
        },
        EventData::Kill { password } => {
            out.push(75u8);
            push_str(out, password);
        },
        EventData::TokenMoved { name, to, layer } => {
            out.push(86u8);
            push_str(out, name);
            push_token(out, to);
            push_layer(out, layer);
        },
        EventData::TokenCreated { name, token, layer } => {
            out.push(84u8);
            push_str(out, name);
            push_token(out, token);
            push_layer(out, layer);
        },
        EventData::TokenDestroyed { name, layer } => {
            out.push(88u8);
            push_str(out, name);
            push_layer(out, layer);
        },
        EventData::ImageUpload { name, image } => {
            out.push(73u8);
            push_str(out, name);
            push_blob(out, image);
        },
        EventData::SendState { state } => {
            out.push(83u8);
            push_state(out, state);
        },
        EventData::PersonalUpdate { people } => {
            out.push(80u8);
            push_ppl(out, people);
        },
        EventData::HeartBeat => {
            out.push(72u8);
        },
    }
}

/// Reads an event payload at `pos`, exactly as `sp_data` describes.
#[verifier::rlimit(80)]
#[verifier::spinoff_prover]
pub fn parse_data(buf: &Vec<u8>, pos: usize) -> (r: Option<(EventData, usize)>)
    ensures
        r is Some <==> sp_data(buf@, pos as int) is Some,
        r matches Some(p) ==> sp_data(buf@, pos as int) == Some((p.0@, p.1 as int)),
{
    if pos >= buf.len() {
        return None;
    }
    let tag = buf[pos];
    if tag == 77 {
        let (from, j1) = match parse_str(buf, pos + 1) {
            Some(p) => p,
            None => {
                return None;
            },
        };
        let (contents, j2) = match parse_str(buf, j1) {
            Some(p) => p,
            None => {
                return None;
            },
        };
        let (ts, j3) = match parse_u128(buf, j2) {
            Some(p) => p,
            None => {
                return None;
            },
        };
        Some((EventData::Message { from, contents, time_stamp: ts }, j3))
    } else if tag == 67 {
        match parse_str(buf, pos + 1) {
            Some((username, j1)) => Some((EventData::Connection { username }, j1)),
            None => None,
        }
    } else if tag == 68 {
        match parse_str(buf, pos + 1) {
            Some((username, j1)) => Some((EventData::Disconnection { username }, j1)),
            None => None,
        }
    } else if tag == 75 {
        match parse_str(buf, pos + 1) {
            Some((password, j1)) => Some((EventData::Kill { password }, j1)),
            None => None,
        }
    } else if tag == 86 {
        let (name, j1) = match parse_str(buf, pos + 1) {
            Some(p) => p,
            None => {
                return None;
            },
        };
        let (to, j2) = match parse_token(buf, j1) {
            Some(p) => p,
            None => {
                return None;
            },
        };
        let (layer, j3) = match parse_layer(buf, j2) {
            Some(p) => p,
            None => {
                return None;
            },
        };
        Some((EventData::TokenMoved { name, to, layer }, j3))
    } else if tag == 84 {
        let (name, j1) = match parse_str(buf, pos + 1) {
            Some(p) => p,
            None => {
                return None;
            },
        };
        let (token, j2) = match parse_token(buf, j1) {
            Some(p) => p,
            None => {
                return None;
            },
        };
        let (layer, j3) = match parse_layer(buf, j2) {
            Some(p) => p,
            None => {
                return None;
            },
        };
        Some((EventData::TokenCreated { name, token, layer }, j3))
    } else if tag == 88 {
        let (name, j1) = match parse_str(buf, pos + 1) {
            Some(p) => p,
            None => {
                return None;
            },
        };
        let (layer, j2) = match parse_layer(buf, j1) {
            Some(p) => p,
            None => {
                return None;
            },
        };
        Some((EventData::TokenDestroyed { name, layer }, j2))
    } else if tag == 73 {
        let (name, j1) = match parse_str(buf, pos + 1) {
            Some(p) => p,
            None => {
                return None;
            },
        };
        let (image, j2) = match parse_blob(buf, j1) {
            Some(p) => p,
            None => {
                return None;
            },
        };
        Some((EventData::ImageUpload { name, image }, j2))
    } else if tag == 83 {
        match parse_state(buf, pos + 1) {
            Some((state, j1)) => Some((EventData::SendState { state }, j1)),
            None => None,
        }
    } else if tag == 80 {
        let (np, j1) = match parse_hex(buf, pos + 1, 16) {
            Some(p) => p,
            None => {
                return None;
            },
        };
        let (people, j2) = match parse_ppl(buf, j1, np) {
            Some(p) => p,
            None => {
                return None;
            },
        };
        Some((EventData::PersonalUpdate { people }, j2))
    } else if tag == 72 {
        Some((EventData::HeartBeat, pos + 1))
    } else {
        None
    }
}

/// Whether an event fits the wire widths.
pub open spec fn event_ok(e: EventV) -> bool {
    str_ok(e.source) && data_ok(e.data)
}

/// A whole event on the wire: its source, then its payload.
pub open spec fn enc_event(e: EventV) -> Seq<u8> {
    enc_str(e.source) + enc_data(e.data)
}

/// Parses a whole event at `i`.
pub open spec fn sp_event(s: Seq<u8>, i: int) -> Option<(EventV, int)> {
    match sp_str(s, i) {
        Some((source, j)) => match sp_data(s, j) {
            Some((data, end)) => Some((EventV { source, data }, end)),
            None => None,
        },
        None => None,
    }
}

/// Round trip for whole events.
pub proof fn lemma_sp_event_enc(s: Seq<u8>, i: int, e: EventV)
    requires
        0 <= i,
        event_ok(e),
        i + enc_event(e).len() <= s.len(),
        s.subrange(i, i + enc_event(e).len()) =~= enc_event(e),
    ensures
        sp_event(s, i) == Some((e, i + enc_event(e).len())),
{
    lemma_concat_split(s, i, enc_str(e.source), enc_data(e.data));
    lemma_sp_str_enc(s, i, e.source);
    lemma_sp_data_enc(s, i + enc_str(e.source).len(), e.data);
    assert(sp_event(s, i) matches Some(p) && p.0 =~= e);
}

/// Round-trip law of the codec: decoding what `enc_event` wrote yields
/// the event it was given, for every event kind, whenever the event's
/// strings, blobs and lists fit the wire's 64-bit length fields.
pub proof fn lemma_event_round_trip(e: EventV)
    requires
        event_ok(e),
    ensures
        sp_event(enc_event(e), 0) == Some((e, enc_event(e).len() as int)),
{
    lemma_sp_event_enc(enc_event(e), 0, e);
}

/// Serializes one event to its payload bytes.
pub fn encode_event(e: &Event) -> (r: Vec<u8>)
    ensures
        r@ == enc_event(e@),
        event_ok(e@),
{
    let mut out: Vec<u8> = Vec::new();
    push_str(&mut out, &e.source);
    push_data(&mut out, &e.data);
    proof {
        assert(out@ =~= enc_event(e@));
    }
    out
}

/// A malformed or trailing-garbage payload; the offending connection is
/// dropped, never the process.
#[derive(Debug, Clone, Copy, PartialEq, Eq, Structural)]
pub struct ProtocolError;

/// Decodes one payload into an event. Fails on malformed fields, on an
/// unknown tag and on trailing bytes.
pub fn decode_event(buf: &Vec<u8>) -> (r: Result<Event, ProtocolError>)
    ensures
        r is Ok <==> (sp_event(buf@, 0) matches Some(p) && p.1 == buf@.len()),
        r matches Ok(ev) ==> sp_event(buf@, 0) == Some((ev@, buf@.len() as int)),
{
    match parse_str(buf, 0) {
        Some((source, j)) => {
            match parse_data(buf, j) {
                Some((data, end)) => {
                    if end == buf.len() {
                        let ev = Event { source, data };
                        proof {
                            assert(sp_event(buf@, 0) matches Some(p) && p.0 =~= ev@);
                        }
                        Ok(ev)
                    } else {
                        Err(ProtocolError)
                    }
                },
                None => Err(ProtocolError),
            }
        },
        None => Err(ProtocolError),
    }
}

/// One frame: an 8-byte little-endian length, then that many payload
/// bytes.
pub open spec fn frame_of(payload: Seq<u8>) -> Seq<u8>
    recommends
        payload.len() < 0x10000000000000000,
{
    vstd::bytes::spec_u64_to_le_bytes(payload.len() as u64) + payload
}

/// Whether buffered bytes hold at least one whole frame. Until they do,
/// polling consumes nothing: the length prefix stays in the buffer.
pub open spec fn frame_ready(s: Seq<u8>) -> bool {
    s.len() >= 8 && s.len() - 8 >= vstd::bytes::spec_u64_from_le_bytes(s.subrange(0, 8))
}

/// The announced payload length of the buffered frame.
pub open spec fn frame_len(s: Seq<u8>) -> int {
    vstd::bytes::spec_u64_from_le_bytes(s.subrange(0, 8)) as int
}

/// The first frame's payload bytes.
pub open spec fn frame_payload(s: Seq<u8>) -> Seq<u8> {
    s.subrange(8, 8 + frame_len(s))
}

/// What stays buffered after the first frame is consumed.
pub open spec fn frame_rest(s: Seq<u8>) -> Seq<u8> {
    s.subrange(8 + frame_len(s), s.len() as int)
}

/// The event a whole payload decodes to, if it is exactly one event.
pub open spec fn decode_payload(p: Seq<u8>) -> Option<EventV> {
    match sp_event(p, 0) {
        Some((e, end)) => if end == p.len() {
            Some(e)
        } else {
            None
        },
        None => None,
    }
}

/// The outcome of one poll: no whole frame buffered yet (not an
/// error), one decoded event, or a malformed frame whose connection
/// the caller must drop.
pub enum FrameStep {
    NoEventYet,
    Got(Event),
    Malformed,
}

/// Buffers bytes as they arrive off a stream and cuts whole frames
/// from the front. Feeding and polling never lose or reorder bytes,
/// and a poll never consumes a partial frame.
pub struct FrameReader {
    pub buf: Vec<u8>,
}

impl View for FrameReader {
    type V = Seq<u8>;

    open spec fn view(&self) -> Seq<u8> {
        self.buf@
    }
}

impl FrameReader {
    /// A reader with nothing buffered.
    pub fn new() -> (r: Self)
        ensures
            r@ =~= Seq::<u8>::empty(),
    {
        FrameReader { buf: Vec::new() }
    }

    /// Appends bytes read from the stream to the buffer.
    pub fn feed(&mut self, chunk: Vec<u8>)
        ensures
            final(self)@ == old(self)@ + chunk@,
    {
        let mut c = chunk;
        self.buf.append(&mut c);
    }

    /// Polls for one frame. Never blocks and never decodes a partial
    /// frame: with less than a whole frame buffered it reports
    /// `NoEventYet` and leaves the buffer untouched; otherwise it
    /// consumes exactly one frame and decodes its payload.
    pub fn try_next(&mut self) -> (r: FrameStep)
        ensures
            !frame_ready(old(self)@) ==> r is NoEventYet && final(self)@ == old(self)@,
            frame_ready(old(self)@) ==> {
                &&& final(self)@ == frame_rest(old(self)@)
                &&& (r is Got <==> decode_payload(frame_payload(old(self)@)) is Some)
                &&& (r matches FrameStep::Got(ev) ==> decode_payload(frame_payload(old(self)@))
                    == Some(ev@))
                &&& !(r is NoEventYet)
            },
    {
        if self.buf.len() < 8 {
            return FrameStep::NoEventYet;
        }
        let mut head: Vec<u8> = Vec::new();
        let mut t: usize = 0;
        while t < 8
            invariant
                t <= 8,
                self.buf@.len() >= 8,
                head@ =~= self.buf@.subrange(0, t as int),
            decreases 8 - t,
        {
            head.push(self.buf[t]);
            t = t + 1;
            proof {
                assert(head@ =~= self.buf@.subrange(0, t as int));
            }
        }
        let n = vstd::bytes::u64_from_le_bytes(head.as_slice());
        if ((self.buf.len() - 8) as u64) < n {
            return FrameStep::NoEventYet;
        }
        let m = n as usize;
        let mut payload: Vec<u8> = Vec::new();
        let mut t2: usize = 0;
        while t2 < m
            invariant
                t2 <= m,
                8 + m <= self.buf@.len(),
                8 + m <= usize::MAX,
                payload@ =~= self.buf@.subrange(8, 8 + t2 as int),
            decreases m - t2,
        {
            payload.push(self.buf[8 + t2]);
            t2 = t2 + 1;
            proof {
                assert(payload@ =~= self.buf@.subrange(8, 8 + t2 as int));
            }
        }
        let mut rest: Vec<u8> = Vec::new();
        let mut t3: usize = 8 + m;
        while t3 < self.buf.len()
            invariant
                8 + m <= t3 <= self.buf@.len(),
                rest@ =~= self.buf@.subrange(8 + m as int, t3 as int),
            decreases self.buf@.len() - t3,
        {
            rest.push(self.buf[t3]);
            t3 = t3 + 1;
            proof {
                assert(rest@ =~= self.buf@.subrange(8 + m as int, t3 as int));
            }
        }
        let ghost prior = self.buf@;
        self.buf = rest;
        match decode_event(&payload) {
            Ok(ev) => FrameStep::Got(ev),
            Err(_) => FrameStep::Malformed,
        }
    }
}

/// Everything repeated polling yields from buffered bytes: the
/// events of the whole frames at the front, in order, and then
/// either a stop at the first incomplete frame — its bytes stay
/// buffered — or a stop at the first malformed frame, after which
/// the caller must drop the connection.
pub open spec fn drained(s: Seq<u8>) -> (Seq<EventV>, Seq<u8>, bool)
    decreases s.len(),
{
    if !frame_ready(s) {
        (Seq::empty(), s, false)
    } else {
        match decode_payload(frame_payload(s)) {
            Some(e) => {
                let rest = drained(frame_rest(s));
                (seq![e] + rest.0, rest.1, rest.2)
            },
            None => (Seq::empty(), frame_rest(s), true),
        }
    }
}

impl FrameReader {
    /// Drains every whole frame already buffered for one connection,
    /// in arrival order, exactly as `drained` describes: the decoded
    /// events, and whether a malformed frame means the caller must
    /// drop the connection.
    pub fn drain_events(&mut self) -> (r: (Vec<Event>, bool))
        ensures
            evs_view(r.0@) == drained(old(self)@).0,
            final(self)@ == drained(old(self)@).1,
            r.1 == drained(old(self)@).2,
        decreases old(self)@.len(),
    {
        let ghost start = self@;
        match self.try_next() {
            FrameStep::Got(ev) => {
                proof {
                    assert(frame_ready(start));
                    assert(self@ == frame_rest(start));
                    assert(self@.len() < start.len());
                }
                let (rest_events, bad) = self.drain_events();
                let mut events = rest_events;
                let ghost epre = evs_view(events@);
                events.insert(0, ev);
                proof {
                    assert(evs_view(events@) =~= seq![ev@] + epre);
                    assert(drained(start).0 == seq![ev@] + drained(frame_rest(start)).0);
                }
                (events, bad)
            },
            FrameStep::NoEventYet => {
                proof {
                    assert(!frame_ready(start));
                }
                let events: Vec<Event> = Vec::new();
                proof {
                    assert(evs_view(events@) =~= Seq::<EventV>::empty());
                }
                (events, false)
            },
            FrameStep::Malformed => {
                proof {
                    assert(frame_ready(start));
                    assert(self@ == frame_rest(start));
                }
                let events: Vec<Event> = Vec::new();
                proof {
                    assert(evs_view(events@) =~= Seq::<EventV>::empty());
                }
                (events, true)
            },
        }
    }
}

/// Serializes one event as a whole frame, ready for one write.
pub fn encode_frame(e: &Event) -> (r: Vec<u8>)
    ensures
        r@ == frame_of(enc_event(e@)),
        event_ok(e@),
        enc_event(e@).len() < 0x10000000000000000,
{
    let payload = encode_event(e);
    let mut out = vstd::bytes::u64_to_le_bytes(payload.len() as u64);
    let mut p = payload;
    out.append(&mut p);
    proof {
        assert(out@ =~= frame_of(enc_event(e@)));
    }
    out
}

/// Any strict prefix of a frame is not ready: polling it consumes
/// nothing and yields no event, however often it is polled.
pub proof fn lemma_partial_frame_no_event(payload: Seq<u8>, k: int)
    requires
        payload.len() < 0x10000000000000000,
        0 <= k < frame_of(payload).len(),
    ensures
        !frame_ready(frame_of(payload).take(k)),
{
    vstd::bytes::lemma_auto_spec_u64_to_from_le_bytes();
    let f = frame_of(payload);
    let part = f.take(k);
    if k >= 8 {
        assert(part.subrange(0, 8) =~= vstd::bytes::spec_u64_to_le_bytes(payload.len() as u64));
        assert(part.len() - 8 < payload.len());
    }
}

/// A buffer that starts with one whole frame is ready; the poll cuts
/// exactly that frame, keeps the bytes behind it, and decodes the
/// frame's event.
pub proof fn lemma_full_frame_event(e: EventV, rest: Seq<u8>)
    requires
        event_ok(e),
        enc_event(e).len() < 0x10000000000000000,
    ensures
        frame_ready(frame_of(enc_event(e)) + rest),
        frame_payload(frame_of(enc_event(e)) + rest) == enc_event(e),
        frame_rest(frame_of(enc_event(e)) + rest) == rest,
        decode_payload(frame_payload(frame_of(enc_event(e)) + rest)) == Some(e),
{
    vstd::bytes::lemma_auto_spec_u64_to_from_le_bytes();
    let p = enc_event(e);
    let s = frame_of(p) + rest;
    assert(s.subrange(0, 8) =~= vstd::bytes::spec_u64_to_le_bytes(p.len() as u64));
    assert(frame_payload(s) =~= p);
    assert(frame_rest(s) =~= rest);
    lemma_event_round_trip(e);
}

} // verus!
