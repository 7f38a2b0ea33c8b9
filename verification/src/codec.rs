//! The textual encoding of a scene snapshot.
//!
//! The format is a self-describing, human-diffable byte text: a header
//! line `lights <count>`, then one fixed-width line per light holding
//! its kind and seven zero-padded decimal fields (position x y z,
//! color red green blue alpha, all in whole units).  Parsing is exact:
//! a serialized snapshot parses back to the very same records.

use vstd::prelude::*;
use crate::scene::LightKind;
use crate::snapshot::{ColorRgba, LightRec};

verus! {

/// Ten to the `k`.
pub open spec fn pow10(k: nat) -> nat
    decreases k,
{
    if k == 0 {
        1
    } else {
        10 * pow10((k - 1) as nat)
    }
}

/// The fixed-width decimal encoding of `n`: `w` digit bytes, most
/// significant first (`n` is taken modulo ten-to-the-`w`).
pub open spec fn enc_nat(n: nat, w: nat) -> Seq<u8>
    decreases w,
{
    if w == 0 {
        Seq::empty()
    } else {
        enc_nat(n / 10, (w - 1) as nat).push((48 + n % 10) as u8)
    }
}

/// `s` consists of decimal digit bytes only.
pub open spec fn is_digits(s: Seq<u8>) -> bool {
    forall|i: int| 0 <= i < s.len() ==> 48 <= #[trigger] s[i] <= 57
}

/// The numeric value of a digit string, most significant first.
pub open spec fn dec_val(s: Seq<u8>) -> int
    decreases s.len(),
{
    if s.len() == 0 {
        0
    } else {
        dec_val(s.drop_last()) * 10 + s.last() - 48
    }
}

pub proof fn lemma_pow10_pos(k: nat)
    ensures
        pow10(k) >= 1,
    decreases k,
{
    if k > 0 {
        lemma_pow10_pos((k - 1) as nat);
    }
}

pub proof fn lemma_pow10_mono(a: nat, b: nat)
    requires
        a <= b,
    ensures
        pow10(a) <= pow10(b),
    decreases b,
{
    if a < b && b > 0 {
        lemma_pow10_mono(a, (b - 1) as nat);
        lemma_pow10_pos((b - 1) as nat);
    }
}

/// The encoding always has exactly `w` bytes, all digits.
pub proof fn lemma_enc_shape(n: nat, w: nat)
    ensures
        enc_nat(n, w).len() == w,
        is_digits(enc_nat(n, w)),
    decreases w,
{
    if w > 0 {
        lemma_enc_shape(n / 10, (w - 1) as nat);
        let s = enc_nat(n, w);
        let p = enc_nat(n / 10, (w - 1) as nat);
        assert forall|i: int| 0 <= i < s.len() implies 48 <= #[trigger] s[i] <= 57 by {
            if i < p.len() {
                assert(s[i] == p[i]);
            } else {
                assert(s[i] == (48 + n % 10) as u8);
            }
        }
    }
}

/// Decoding is the inverse of encoding for values within width.
pub proof fn lemma_enc_dec(n: nat, w: nat)
    requires
        n < pow10(w),
    ensures
        enc_nat(n, w).len() == w,
        is_digits(enc_nat(n, w)),
        dec_val(enc_nat(n, w)) == n,
    decreases w,
{
    lemma_enc_shape(n, w);
    if w == 0 {
    } else {
        assert(pow10(w) == 10 * pow10((w - 1) as nat));
        assert(n / 10 < pow10((w - 1) as nat)) by {
            let p = pow10((w - 1) as nat);
            assert(n < 10 * p);
            assert(n / 10 < p) by (nonlinear_arith)
                requires
                    n < 10 * p,
                    p >= 0,
            ;
        }
        lemma_enc_dec(n / 10, (w - 1) as nat);
        let s = enc_nat(n, w);
        let p = enc_nat(n / 10, (w - 1) as nat);
        assert(s == p.push((48 + n % 10) as u8));
        assert(s.drop_last() =~= p);
        assert(s.last() == (48 + n % 10) as u8);
        assert(dec_val(s) == dec_val(p) * 10 + (48 + n % 10) - 48);
        assert((n / 10) * 10 + n % 10 == n) by {
            vstd::arithmetic::div_mod::lemma_fundamental_div_mod(n as int, 10);
        }
    }
}

/// The value of a digit string is bounded by ten-to-its-length.
pub proof fn lemma_dec_val_bound(s: Seq<u8>)
    requires
        is_digits(s),
    ensures
        0 <= dec_val(s) < pow10(s.len() as nat),
    decreases s.len(),
{
    if s.len() > 0 {
        assert(is_digits(s.drop_last())) by {
            assert(forall|i: int|
                0 <= i < s.drop_last().len() ==> #[trigger] s.drop_last()[i] == s[i]);
        }
        lemma_dec_val_bound(s.drop_last());
        assert(pow10(s.len() as nat) == 10 * pow10((s.len() - 1) as nat));
    }
}

/// Encode `n` as `w` zero-padded decimal digit bytes.
pub fn encode_fixed(n: u32, w: u32) -> (r: Vec<u8>)
    ensures
        r@ == enc_nat(n as nat, w as nat),
    decreases w,
{
    if w == 0 {
        let r: Vec<u8> = Vec::new();
        proof {
            assert(r@ =~= enc_nat(n as nat, 0));
        }
        r
    } else {
        let mut r = encode_fixed(n / 10, w - 1);
        r.push(48 + (n % 10) as u8);
        r
    }
}

/// Decode `w` bytes of `b` starting at `off` as a zero-padded decimal
/// number; `None` when some byte is not a digit.
pub fn decode_fixed(b: &Vec<u8>, off: usize, w: usize) -> (r: Option<u64>)
    requires
        off + w <= b@.len(),
        w <= 10,
    ensures
        r is Some <==> is_digits(b@.subrange(off as int, off as int + w as int)),
        r is Some ==> r.unwrap() as int == dec_val(b@.subrange(off as int, off as int + w as int)),
{
    let ghost s = b@.subrange(off as int, off as int + w as int);
    let total = b.len();
    let mut acc: u64 = 0;
    let mut k: usize = 0;
    proof {
        reveal_with_fuel(pow10, 11);
        assert(pow10(10) == 10000000000);
        assert(pow10(0) == 1);
        assert(s.take(0) =~= Seq::<u8>::empty());
    }
    while k < w
        invariant
            off + w <= b@.len(),
            total == b@.len(),
            w <= 10,
            k <= w,
            s == b@.subrange(off as int, off as int + w as int),
            is_digits(s.take(k as int)),
            acc as int == dec_val(s.take(k as int)),
            acc < pow10(k as nat),
            pow10(10) == 10000000000,
        decreases w - k,
    {
        let d = b[off + k];
        if d < 48 || d > 57 {
            proof {
                assert(s[k as int] == d);
                assert(!is_digits(s));
            }
            return None;
        }
        proof {
            lemma_pow10_mono(k as nat, 9);
            reveal_with_fuel(pow10, 11);
            assert(acc < pow10(9));
            let t1 = s.take(k as int + 1);
            assert(t1.drop_last() =~= s.take(k as int));
            assert(t1.last() == d);
            assert(is_digits(t1)) by {
                assert(forall|i: int| 0 <= i < k as int ==> t1[i] == s.take(k as int)[i]);
            }
            assert(pow10(k as nat + 1) == 10 * pow10(k as nat));
        }
        acc = acc * 10 + ((d - 48) as u64);
        k = k + 1;
    }
    proof {
        assert(s.take(w as int) =~= s);
    }
    Some(acc)
}

/// The byte standing for a light kind.
pub open spec fn kind_byte(k: LightKind) -> u8 {
    match k {
        LightKind::Point => 112,  // 'p'
        LightKind::Directional => 100,  // 'd'
        LightKind::Spot => 115,  // 's'
    }
}

/// The light kind a byte stands for.
pub open spec fn parse_kind(b: u8) -> Option<LightKind> {
    if b == 112 {
        Some(LightKind::Point)
    } else if b == 100 {
        Some(LightKind::Directional)
    } else if b == 115 {
        Some(LightKind::Spot)
    } else {
        None
    }
}

/// One encoded numeric field: a space, then ten digits.
pub open spec fn enc_field(n: u32) -> Seq<u8> {
    seq![32u8] + enc_nat(n as nat, 10)
}

/// One encoded light: kind byte, seven fields, newline; 79 bytes.
pub open spec fn light_bytes(l: LightRec) -> Seq<u8> {
    seq![kind_byte(l.kind)] + enc_field(l.x) + enc_field(l.y) + enc_field(l.z) + enc_field(
        l.color.red,
    ) + enc_field(l.color.green) + enc_field(l.color.blue) + enc_field(l.color.alpha) + seq![10u8]
}

/// The concatenated encodings of a light sequence.
pub open spec fn lights_bytes(ls: Seq<LightRec>) -> Seq<u8>
    decreases ls.len(),
{
    if ls.len() == 0 {
        Seq::empty()
    } else {
        light_bytes(ls[0]) + lights_bytes(ls.drop_first())
    }
}

/// The header literal `lights `.
pub open spec fn header_lit() -> Seq<u8> {
    seq![108u8, 105u8, 103u8, 104u8, 116u8, 115u8, 32u8]
}

/// The header line: `lights `, ten count digits, newline; 18 bytes.
pub open spec fn header_bytes(count: nat) -> Seq<u8> {
    header_lit() + enc_nat(count, 10) + seq![10u8]
}

/// A whole serialized snapshot: header line, then the light lines.
pub open spec fn snapshot_bytes(ls: Seq<LightRec>) -> Seq<u8> {
    header_bytes(ls.len() as nat) + lights_bytes(ls)
}

pub proof fn lemma_light_bytes_len(l: LightRec)
    ensures
        light_bytes(l).len() == 79,
{
    lemma_enc_shape(l.x as nat, 10);
    lemma_enc_shape(l.y as nat, 10);
    lemma_enc_shape(l.z as nat, 10);
    lemma_enc_shape(l.color.red as nat, 10);
    lemma_enc_shape(l.color.green as nat, 10);
    lemma_enc_shape(l.color.blue as nat, 10);
    lemma_enc_shape(l.color.alpha as nat, 10);
}

pub proof fn lemma_lights_bytes_len(ls: Seq<LightRec>)
    ensures
        lights_bytes(ls).len() == 79 * ls.len(),
    decreases ls.len(),
{
    if ls.len() > 0 {
        lemma_light_bytes_len(ls[0]);
        lemma_lights_bytes_len(ls.drop_first());
    }
}

/// Encoding one more light appends its bytes.
pub proof fn lemma_lights_bytes_snoc(ls: Seq<LightRec>, i: int)
    requires
        0 <= i < ls.len(),
    ensures
        lights_bytes(ls.take(i + 1)) == lights_bytes(ls.take(i)) + light_bytes(ls[i]),
    decreases i,
{
    if i == 0 {
        let one = ls.take(1);
        assert(one[0] == ls[0]);
        assert(one.drop_first() =~= Seq::<LightRec>::empty());
        assert(lights_bytes(Seq::<LightRec>::empty()) =~= Seq::<u8>::empty());
        assert(lights_bytes(ls.take(0)) =~= Seq::<u8>::empty());
        assert(lights_bytes(one) == light_bytes(one[0]) + lights_bytes(one.drop_first()));
        assert(lights_bytes(one) =~= light_bytes(ls[0]));
        assert(lights_bytes(ls.take(0)) + light_bytes(ls[0]) =~= light_bytes(ls[0]));
    } else {
        lemma_lights_bytes_snoc(ls.drop_first(), i - 1);
        assert(ls.take(i + 1).drop_first() =~= ls.drop_first().take(i));
        assert(ls.take(i).drop_first() =~= ls.drop_first().take(i - 1));
        assert(ls.take(i + 1)[0] == ls[0]);
        assert(ls.take(i)[0] == ls[0]);
        assert(ls.drop_first()[i - 1] == ls[i]);
        assert(lights_bytes(ls.take(i + 1)) == light_bytes(ls[0]) + lights_bytes(
            ls.drop_first().take(i),
        ));
        assert(lights_bytes(ls.take(i + 1)) =~= lights_bytes(ls.take(i)) + light_bytes(ls[i]));
    }
}

/// The bytes of light `i` sit at offset `79 * i` of the light lines.
pub proof fn lemma_lights_bytes_index(ls: Seq<LightRec>, i: int)
    requires
        0 <= i < ls.len(),
    ensures
        lights_bytes(ls).subrange(79 * i, 79 * i + 79) == light_bytes(ls[i]),
    decreases i,
{
    lemma_lights_bytes_len(ls);
    lemma_light_bytes_len(ls[0]);
    lemma_lights_bytes_len(ls.drop_first());
    if i == 0 {
        assert(lights_bytes(ls).subrange(0, 79) =~= light_bytes(ls[0]));
    } else {
        lemma_lights_bytes_index(ls.drop_first(), i - 1);
        assert(ls.drop_first()[i - 1] == ls[i]);
        assert(lights_bytes(ls).subrange(79 * i, 79 * i + 79) =~= lights_bytes(
            ls.drop_first(),
        ).subrange(79 * (i - 1), 79 * (i - 1) + 79));
    }
}

/// Append one encoded numeric field.
fn push_field(out: &mut Vec<u8>, n: u32)
    ensures
        final(out)@ == old(out)@ + enc_field(n),
{
    out.push(32);
    let mut d = encode_fixed(n, 10);
    out.append(&mut d);
    proof {
        assert(out@ =~= old(out)@ + enc_field(n));
    }
}

/// Append one encoded light line.
fn push_light(out: &mut Vec<u8>, l: &LightRec)
    ensures
        final(out)@ == old(out)@ + light_bytes(*l),
{
    match l.kind {
        LightKind::Point => out.push(112),
        LightKind::Directional => out.push(100),
        LightKind::Spot => out.push(115),
    }
    push_field(out, l.x);
    push_field(out, l.y);
    push_field(out, l.z);
    push_field(out, l.color.red);
    push_field(out, l.color.green);
    push_field(out, l.color.blue);
    push_field(out, l.color.alpha);
    out.push(10);
    proof {
        assert(out@ =~= old(out)@ + light_bytes(*l));
    }
}

/// Serialize a snapshot into its textual byte representation.
pub fn serialize_snapshot(lights: &Vec<LightRec>) -> (r: Vec<u8>)
    requires
        lights@.len() <= u32::MAX,
    ensures
        r@ == snapshot_bytes(lights@),
{
    let mut out: Vec<u8> = Vec::new();
    out.push(108);
    out.push(105);
    out.push(103);
    out.push(104);
    out.push(116);
    out.push(115);
    out.push(32);
    let cnt = lights.len() as u32;
    let mut digits = encode_fixed(cnt, 10);
    out.append(&mut digits);
    out.push(10);
    proof {
        assert(out@ =~= header_bytes(lights@.len() as nat));
        assert(lights@.take(0) =~= Seq::<LightRec>::empty());
    }
    let mut i: usize = 0;
    while i < lights.len()
        invariant
            i <= lights@.len(),
            out@ == header_bytes(lights@.len() as nat) + lights_bytes(lights@.take(i as int)),
        decreases lights@.len() - i,
    {
        let l = lights[i];
        push_light(&mut out, &l);
        proof {
            lemma_lights_bytes_snoc(lights@, i as int);
            assert(out@ =~= header_bytes(lights@.len() as nat) + lights_bytes(
                lights@.take(i as int + 1),
            ));
        }
        i = i + 1;
    }
    proof {
        assert(lights@.take(lights@.len() as int) =~= lights@);
    }
    out
}

/// The digit bytes of field `f` of an encoded light line `s`.
pub open spec fn field_at(s: Seq<u8>, f: int) -> Seq<u8> {
    s.subrange(2 + 11 * f, 12 + 11 * f)
}

/// `s` is a well-shaped light line: 79 bytes, a known kind byte, a
/// trailing newline, and seven space-separated digit fields that fit
/// the field type.
pub open spec fn light_ok(s: Seq<u8>) -> bool {
    &&& s.len() == 79
    &&& parse_kind(s[0]) is Some
    &&& s[78] == 10
    &&& forall|f: int|
        0 <= f < 7 ==> s[1 + 11 * f] == 32 && is_digits(#[trigger] field_at(s, f)) && dec_val(
            field_at(s, f),
        ) <= u32::MAX
}

/// Parse one 79-byte light line.
#[verifier::opaque]
pub open spec fn parse_light(s: Seq<u8>) -> Option<LightRec> {
    if light_ok(s) {
        match parse_kind(s[0]) {
            Some(k) => Some(
                LightRec {
                    kind: k,
                    x: dec_val(field_at(s, 0)) as u32,
                    y: dec_val(field_at(s, 1)) as u32,
                    z: dec_val(field_at(s, 2)) as u32,
                    color: ColorRgba {
                        red: dec_val(field_at(s, 3)) as u32,
                        green: dec_val(field_at(s, 4)) as u32,
                        blue: dec_val(field_at(s, 5)) as u32,
                        alpha: dec_val(field_at(s, 6)) as u32,
                    },
                },
            ),
            None => None,
        }
    } else {
        None
    }
}

/// `b` starts with a well-shaped header line.
pub open spec fn header_ok(b: Seq<u8>) -> bool {
    b.len() >= 18 && b.subrange(0, 7) == header_lit() && is_digits(b.subrange(7, 17)) && b[17]
        == 10
}

/// The light count announced by the header.
pub open spec fn count_of(b: Seq<u8>) -> int {
    dec_val(b.subrange(7, 17))
}

/// The bytes of light line `i` of a serialized snapshot.
pub open spec fn rec_at(b: Seq<u8>, i: int) -> Seq<u8> {
    b.subrange(18 + 79 * i, 18 + 79 * i + 79)
}

/// Parse a whole serialized snapshot: the header must be well shaped,
/// the length must match the announced count exactly, and every light
/// line must parse.
pub open spec fn parse_snapshot_spec(b: Seq<u8>) -> Option<Seq<LightRec>> {
    if header_ok(b) && b.len() == 18 + 79 * count_of(b) && (forall|i: int|
        0 <= i < count_of(b) ==> (#[trigger] parse_light(rec_at(b, i))) is Some) {
        Some(Seq::new(count_of(b) as nat, |i: int| parse_light(rec_at(b, i)).unwrap()))
    } else {
        None
    }
}

/// Decode field `f` of the light line at `off`: check its leading
/// space, its ten digits, and that the value fits the field type.
fn decode_field(b: &Vec<u8>, off: usize, f: usize) -> (r: Option<u32>)
    requires
        off + 79 <= b@.len(),
        f < 7,
    ensures
        ({
            let s = b@.subrange(off as int, off as int + 79);
            &&& (r is Some <==> (s[1 + 11 * f as int] == 32 && is_digits(field_at(s, f as int))
                && dec_val(field_at(s, f as int)) <= u32::MAX))
            &&& (r is Some ==> r.unwrap() as int == dec_val(field_at(s, f as int)))
        }),
{
    let ghost s = b@.subrange(off as int, off as int + 79);
    let _n = b.len();  // brings the byte length into range for index arithmetic
    if b[off + 1 + 11 * f] != 32 {
        proof {
            assert(s[1 + 11 * f as int] == b@[off as int + 1 + 11 * f as int]);
        }
        return None;
    }
    proof {
        assert(field_at(s, f as int) =~= b@.subrange(
            off as int + 2 + 11 * f as int,
            off as int + 12 + 11 * f as int,
        ));
    }
    let v = decode_fixed(b, off + 2 + 11 * f, 10);
    match v {
        Some(val) => {
            if val > 0xffff_ffff {
                proof {
                    lemma_dec_val_bound(field_at(s, f as int));
                }
                return None;
            }
            Some(val as u32)
        },
        None => None,
    }
}

/// Parse the 79-byte light line at `off`.
pub fn parse_light_at(b: &Vec<u8>, off: usize) -> (r: Option<LightRec>)
    requires
        off + 79 <= b@.len(),
    ensures
        r == parse_light(b@.subrange(off as int, off as int + 79)),
{
    let ghost s = b@.subrange(off as int, off as int + 79);
    let _n = b.len();  // brings the byte length into range for index arithmetic
    let kb = b[off];
    proof {
        reveal(parse_light);
        assert(s[0] == kb);
    }
    let kind: LightKind;
    if kb == 112 {
        kind = LightKind::Point;
    } else if kb == 100 {
        kind = LightKind::Directional;
    } else if kb == 115 {
        kind = LightKind::Spot;
    } else {
        proof {
            assert(!light_ok(s));
        }
        return None;
    }
    proof {
        assert(parse_kind(s[0]) == Some(kind));
    }
    if b[off + 78] != 10 {
        proof {
            assert(s[78] == b@[off as int + 78]);
            assert(!light_ok(s));
        }
        return None;
    }
    let x = match decode_field(b, off, 0) {
        Some(v) => v,
        None => {
            proof {
                assert(!light_ok(s));
            }
            return None;
        },
    };
    let y = match decode_field(b, off, 1) {
        Some(v) => v,
        None => {
            proof {
                assert(!light_ok(s));
            }
            return None;
        },
    };
    let z = match decode_field(b, off, 2) {
        Some(v) => v,
        None => {
            proof {
                assert(!light_ok(s));
            }
            return None;
        },
    };
    let red = match decode_field(b, off, 3) {
        Some(v) => v,
        None => {
            proof {
                assert(!light_ok(s));
            }
            return None;
        },
    };
    let green = match decode_field(b, off, 4) {
        Some(v) => v,
        None => {
            proof {
                assert(!light_ok(s));
            }
            return None;
        },
    };
    let blue = match decode_field(b, off, 5) {
        Some(v) => v,
        None => {
            proof {
                assert(!light_ok(s));
            }
            return None;
        },
    };
    let alpha = match decode_field(b, off, 6) {
        Some(v) => v,
        None => {
            proof {
                assert(!light_ok(s));
            }
            return None;
        },
    };
    proof {
        assert(s.len() == 79);
        assert forall|f: int|
            0 <= f < 7 implies s[1 + 11 * f] == 32 && is_digits(#[trigger] field_at(s, f))
            && dec_val(field_at(s, f)) <= u32::MAX by {
            if f == 0 {
            } else if f == 1 {
            } else if f == 2 {
            } else if f == 3 {
            } else if f == 4 {
            } else if f == 5 {
            } else {
                assert(f == 6);
            }
        }
        assert(light_ok(s));
    }
    Some(
        LightRec {
            kind,
            x,
            y,
            z,
            color: ColorRgba { red, green, blue, alpha },
        },
    )
}

/// Parse a serialized snapshot.  Succeeds exactly on byte strings of
/// the shape `parse_snapshot_spec` accepts, and then returns exactly
/// the lights they describe.
#[verifier::rlimit(60)]
pub fn parse_snapshot(bytes: &Vec<u8>) -> (r: Option<Vec<LightRec>>)
    ensures
        r is Some <==> parse_snapshot_spec(bytes@) is Some,
        r is Some ==> r.unwrap()@ == parse_snapshot_spec(bytes@).unwrap(),
{
    let n = bytes.len();
    if n < 18 {
        return None;
    }
    if bytes[0] != 108 || bytes[1] != 105 || bytes[2] != 103 || bytes[3] != 104 || bytes[4] != 116
        || bytes[5] != 115 || bytes[6] != 32 {
        proof {
            if bytes@.subrange(0, 7) == header_lit() {
                assert(bytes@[0] == bytes@.subrange(0, 7)[0]);
                assert(bytes@[1] == bytes@.subrange(0, 7)[1]);
                assert(bytes@[2] == bytes@.subrange(0, 7)[2]);
                assert(bytes@[3] == bytes@.subrange(0, 7)[3]);
                assert(bytes@[4] == bytes@.subrange(0, 7)[4]);
                assert(bytes@[5] == bytes@.subrange(0, 7)[5]);
                assert(bytes@[6] == bytes@.subrange(0, 7)[6]);
            }
        }
        return None;
    }
    proof {
        assert(bytes@.subrange(0, 7) =~= header_lit());
    }
    let cnt: u64;
    match decode_fixed(bytes, 7, 10) {
        Some(c) => {
            cnt = c;
        },
        None => {
            return None;
        },
    }
    if bytes[17] != 10 {
        return None;
    }
    proof {
        assert(header_ok(bytes@));
        assert(count_of(bytes@) == cnt as int);
        lemma_dec_val_bound(bytes@.subrange(7, 17));
        reveal_with_fuel(pow10, 11);
        assert(cnt < 10000000000);
    }
    let expected: u64 = 18 + 79 * cnt;
    if (n as u64) != expected {
        return None;
    }
    proof {
        assert(18 + 79 * (cnt as int) == n as int);
        assert(cnt as int <= 79 * (cnt as int));
        assert(cnt <= usize::MAX as u64);
    }
    let count = cnt as usize;
    let mut out: Vec<LightRec> = Vec::new();
    let mut i: usize = 0;
    while i < count
        invariant
            header_ok(bytes@),
            count_of(bytes@) == cnt as int,
            count as u64 == cnt,
            cnt < 10000000000,
            n == bytes@.len(),
            bytes@.len() == 18 + 79 * (cnt as int),
            i <= count,
            out@.len() == i as int,
            forall|k: int|
                0 <= k < i as int ==> (#[trigger] parse_light(rec_at(bytes@, k))) is Some
                    && out@[k] == parse_light(rec_at(bytes@, k)).unwrap(),
        decreases count - i,
    {
        let off = 18 + 79 * i;
        proof {
            assert(off as int + 79 <= bytes@.len());
        }
        match parse_light_at(bytes, off) {
            Some(l) => {
                proof {
                    assert(bytes@.subrange(off as int, off as int + 79) =~= rec_at(
                        bytes@,
                        i as int,
                    ));
                }
                out.push(l);
            },
            None => {
                proof {
                    assert(bytes@.subrange(off as int, off as int + 79) =~= rec_at(
                        bytes@,
                        i as int,
                    ));
                    assert(!(parse_light(rec_at(bytes@, i as int)) is Some));
                    assert(parse_snapshot_spec(bytes@) is None);
                }
                return None;
            },
        }
        i = i + 1;
    }
    proof {
        assert(parse_snapshot_spec(bytes@) is Some);
        assert(out@ =~= parse_snapshot_spec(bytes@).unwrap());
    }
    Some(out)
}

/// Serializing a snapshot and parsing it back yields the very same
/// records: entity count, light kind, position and color all survive
/// the round trip exactly.
pub proof fn lemma_snapshot_round_trip(ls: Seq<LightRec>)
    requires
        ls.len() <= u32::MAX,
    ensures
        parse_snapshot_spec(snapshot_bytes(ls)) == Some(ls),
{
    let b = snapshot_bytes(ls);
    reveal_with_fuel(pow10, 11);
    assert(ls.len() < pow10(10));
    lemma_enc_dec(ls.len() as nat, 10);
    lemma_lights_bytes_len(ls);
    assert(b.subrange(0, 7) =~= header_lit());
    assert(b.subrange(7, 17) =~= enc_nat(ls.len() as nat, 10));
    assert(b[17] == 10);
    assert(header_ok(b));
    assert(count_of(b) == ls.len());
    assert(b.len() == 18 + 79 * count_of(b));
    assert forall|i: int|
        0 <= i < count_of(b) implies (#[trigger] parse_light(rec_at(b, i))) is Some && parse_light(
        rec_at(b, i),
    ).unwrap() == ls[i] by {
        lemma_lights_bytes_index(ls, i);
        assert(rec_at(b, i) =~= lights_bytes(ls).subrange(79 * i, 79 * i + 79));
        lemma_light_round_trip(ls[i]);
    }
    assert(parse_snapshot_spec(b) is Some);
    assert(parse_snapshot_spec(b).unwrap() =~= ls);
}

/// One light line survives its round trip exactly.
pub proof fn lemma_light_round_trip(l: LightRec)
    ensures
        parse_light(light_bytes(l)) == Some(l),
{
    let s = light_bytes(l);
    reveal(parse_light);
    lemma_light_bytes_len(l);
    reveal_with_fuel(pow10, 11);
    lemma_enc_dec(l.x as nat, 10);
    lemma_enc_dec(l.y as nat, 10);
    lemma_enc_dec(l.z as nat, 10);
    lemma_enc_dec(l.color.red as nat, 10);
    lemma_enc_dec(l.color.green as nat, 10);
    lemma_enc_dec(l.color.blue as nat, 10);
    lemma_enc_dec(l.color.alpha as nat, 10);
    assert(s[0] == kind_byte(l.kind));
    assert(parse_kind(kind_byte(l.kind)) == Some(l.kind));
    assert(s[78] == 10);
    assert(field_at(s, 0) =~= enc_nat(l.x as nat, 10));
    assert(field_at(s, 1) =~= enc_nat(l.y as nat, 10));
    assert(field_at(s, 2) =~= enc_nat(l.z as nat, 10));
    assert(field_at(s, 3) =~= enc_nat(l.color.red as nat, 10));
    assert(field_at(s, 4) =~= enc_nat(l.color.green as nat, 10));
    assert(field_at(s, 5) =~= enc_nat(l.color.blue as nat, 10));
    assert(field_at(s, 6) =~= enc_nat(l.color.alpha as nat, 10));
    assert(s[1int] == 32);
    assert(s[12int] == 32);
    assert(s[23int] == 32);
    assert(s[34int] == 32);
    assert(s[45int] == 32);
    assert(s[56int] == 32);
    assert(s[67int] == 32);
    assert forall|f: int|
        0 <= f < 7 implies s[1 + 11 * f] == 32 && is_digits(#[trigger] field_at(s, f)) && dec_val(
        field_at(s, f),
    ) <= u32::MAX by {
        if f == 0 {
        } else if f == 1 {
        } else if f == 2 {
        } else if f == 3 {
        } else if f == 4 {
        } else if f == 5 {
        } else {
            assert(f == 6);
        }
    }
    assert(light_ok(s));
}

} // verus!
