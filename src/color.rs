use vstd::prelude::*;
use vstd::utf8::encode_utf8;

use crate::error::{ColorError, ParaFault};

verus! {

pub const COMMA: u8 = 44;

pub const DOT: u8 = 46;

pub const HASH: u8 = 35;

pub const PLUS: u8 = 43;

/// The UTF-8 bytes of a text.
pub open spec fn bytes_of(s: Seq<char>) -> Seq<u8> {
    encode_utf8(s)
}

pub open spec fn has_byte(b: Seq<u8>, x: u8) -> bool {
    exists|i: int| 0 <= i < b.len() && b[i] == x
}

/// The pieces of `b` between the separators `x`.
pub open spec fn split(b: Seq<u8>, x: u8) -> Seq<Seq<u8>>
    decreases b.len(),
{
    if b.len() == 0 {
        seq![seq![]]
    } else {
        let rest = split(b.drop_last(), x);
        if b.last() == x {
            rest.push(seq![])
        } else {
            rest.update(rest.len() - 1, rest.last().push(b.last()))
        }
    }
}

pub open spec fn is_digit(c: u8) -> bool {
    48 <= c <= 57
}

pub open spec fn all_digits(d: Seq<u8>) -> bool {
    forall|k: int| 0 <= k < d.len() ==> is_digit(#[trigger] d[k])
}

/// The number that decimal digits write.
pub open spec fn digits_value(d: Seq<u8>) -> nat
    decreases d.len(),
{
    if d.len() == 0 {
        0
    } else {
        digits_value(d.drop_last()) * 10 + (d.last() - 48) as nat
    }
}

/// A field without its sign: a `+` may stand before the digits.
pub open spec fn unsigned_part(f: Seq<u8>) -> Seq<u8> {
    if f.len() > 1 && f[0] == PLUS {
        f.drop_first()
    } else {
        f
    }
}

/// The value of an integer channel field, if it writes an integer from 0 to 255.
pub open spec fn channel_value(f: Seq<u8>) -> Option<u8> {
    let d = unsigned_part(f);
    if d.len() > 0 && all_digits(d) && digits_value(d) <= 255 {
        Some(digits_value(d) as u8)
    } else {
        None
    }
}

/// A color token as given, with what was read from it.
#[derive(Debug)]
pub enum RawColor {
    /// Three integer channels from 0 to 255, such as `171,193,35`.
    RgbU8((String, [u8; 3])),
    /// Three decimal channels from 0 to 1, such as `0.3,0.8,0.1`: the text of
    /// each field, to be read as a number where the color is converted.
    RgbF32((String, Vec<Vec<u8>>)),
    /// A hex code of 3 or 6 digits, with or without `#`, such as `#f034e6` or `f3e`.
    Hex(String),
}

impl RawColor {
    /// The token as it was given.
    pub open spec fn raw_text(&self) -> Seq<char> {
        match self {
            RawColor::RgbU8(t) => t.0@,
            RawColor::RgbF32(t) => t.0@,
            RawColor::Hex(s) => s@,
        }
    }

    /// What parsing `raw` gives: `r` is the one result that the format allows.
    pub open spec fn parsed(raw: Seq<char>, r: Result<RawColor, ColorError>) -> bool {
        let b = bytes_of(raw);
        let f = split(b, COMMA);
        if has_byte(b, COMMA) {
            if f.len() != 3 {
                r matches Err(ColorError::ParaError(ParaFault::RgbFieldCount { raw: s })) && s@ == raw
            } else if has_byte(b, DOT) {
                r matches Ok(RawColor::RgbF32(t)) && t.0@ == raw && t.1.deep_view() == f
            } else if channel_value(f[0]) is None {
                r matches Err(ColorError::ParaError(ParaFault::Channel { raw: s, field: x }))
                    && s@ == raw && x@ == f[0]
            } else if channel_value(f[1]) is None {
                r matches Err(ColorError::ParaError(ParaFault::Channel { raw: s, field: x }))
                    && s@ == raw && x@ == f[1]
            } else if channel_value(f[2]) is None {
                r matches Err(ColorError::ParaError(ParaFault::Channel { raw: s, field: x }))
                    && s@ == raw && x@ == f[2]
            } else {
                r matches Ok(RawColor::RgbU8(t)) && t.0@ == raw && t.1@ == seq![
                    channel_value(f[0])->0,
                    channel_value(f[1])->0,
                    channel_value(f[2])->0,
                ]
            }
        } else if b.len() > 0 && b[0] == HASH {
            if b.len() == 4 || b.len() == 7 {
                r matches Ok(RawColor::Hex(s)) && s@ == raw
            } else {
                r matches Err(ColorError::ParaError(ParaFault::HashHexLength { raw: s })) && s@ == raw
            }
        } else if b.len() == 3 || b.len() == 6 {
            r matches Ok(RawColor::Hex(s)) && s@ == raw
        } else {
            r matches Err(ColorError::ParaError(ParaFault::HexLength { raw: s })) && s@ == raw
        }
    }

    /// Reads a color token: an integer or a decimal triple when it holds a
    /// comma, else a hex code, whose digits are read only on conversion.
    pub fn new(raw: String) -> (r: Result<RawColor, ColorError>)
        ensures
            RawColor::parsed(raw@, r),
    {
        let b = raw.as_str().as_bytes();
        let has_comma = contains_byte(b, COMMA);
        if has_comma {
            let f = split_bytes(b, COMMA);
            proof {
                assert(f.deep_view().len() == f@.len());
                assert forall|k: int| 0 <= k < f@.len() implies f.deep_view()[k] == (#[trigger] f@[k])@ by {}
            }
            proof {
                assert(f.deep_view().len() == f@.len());
                assert forall|k: int| 0 <= k < f@.len() implies f.deep_view()[k] == (#[trigger] f@[k])@ by {}
            }
            if f.len() != 3 {
                return Err(ColorError::ParaError(ParaFault::RgbFieldCount { raw: raw.clone() }));
            }
            if contains_byte(b, DOT) {
                return Ok(RawColor::RgbF32((raw.clone(), f)));
            }
            let c0 = parse_channel(&f[0]);
            let c0 = match c0 {
                Some(v) => v,
                None => {
                    return Err(ColorError::ParaError(ParaFault::Channel { raw: raw.clone(), field: copy_bytes(&f[0]) }));
                }
            };
            let c1 = parse_channel(&f[1]);
            let c1 = match c1 {
                Some(v) => v,
                None => {
                    return Err(ColorError::ParaError(ParaFault::Channel { raw: raw.clone(), field: copy_bytes(&f[1]) }));
                }
            };
            let c2 = parse_channel(&f[2]);
            let c2 = match c2 {
                Some(v) => v,
                None => {
                    return Err(ColorError::ParaError(ParaFault::Channel { raw: raw.clone(), field: copy_bytes(&f[2]) }));
                }
            };
            Ok(RawColor::RgbU8((raw.clone(), [c0, c1, c2])))
        } else if b.len() > 0 && b[0] == HASH {
            if b.len() == 4 || b.len() == 7 {
                Ok(RawColor::Hex(raw.clone()))
            } else {
                Err(ColorError::ParaError(ParaFault::HashHexLength { raw: raw.clone() }))
            }
        } else if b.len() == 3 || b.len() == 6 {
            Ok(RawColor::Hex(raw.clone()))
        } else {
            Err(ColorError::ParaError(ParaFault::HexLength { raw: raw.clone() }))
        }
    }

    /// The token as it was given, for display.
    pub fn get_raw_color(&self) -> (r: String)
        ensures
            r@ == self.raw_text(),
    {
        match self {
            RawColor::RgbU8(t) => t.0.clone(),
            RawColor::RgbF32(t) => t.0.clone(),
            RawColor::Hex(s) => s.clone(),
        }
    }
}

/// A copy of an optional name.
pub(crate) fn clone_name(name: &Option<String>) -> (r: Option<String>)
    ensures
        r == *name,
{
    match name {
        Some(s) => Some(s.clone()),
        None => None,
    }
}

fn contains_byte(b: &[u8], x: u8) -> (r: bool)
    ensures
        r == has_byte(b@, x),
{
    let mut i: usize = 0;
    while i < b.len()
        invariant
            i <= b@.len(),
            forall|k: int| 0 <= k < i ==> b@[k] != x,
        decreases b@.len() - i,
    {
        if b[i] == x {
            return true;
        }
        i = i + 1;
    }
    false
}

fn copy_bytes(b: &Vec<u8>) -> (r: Vec<u8>)
    ensures
        r@ == b@,
{
    let mut r: Vec<u8> = Vec::new();
    let mut i: usize = 0;
    while i < b.len()
        invariant
            i <= b@.len(),
            r@ == b@.subrange(0, i as int),
        decreases b@.len() - i,
    {
        r.push(b[i]);
        i = i + 1;
        assert(r@ == b@.subrange(0, i as int));
    }
    r
}

proof fn lemma_split_nonempty(b: Seq<u8>, x: u8)
    ensures
        split(b, x).len() >= 1,
    decreases b.len(),
{
    if b.len() > 0 {
        lemma_split_nonempty(b.drop_last(), x);
    }
}

/// The pieces of `b` between the separators `x`.
fn split_bytes(b: &[u8], x: u8) -> (r: Vec<Vec<u8>>)
    ensures
        r.deep_view() == split(b@, x),
{
    let mut fields: Vec<Vec<u8>> = Vec::new();
    let mut cur: Vec<u8> = Vec::new();
    let mut i: usize = 0;
    while i < b.len()
        invariant
            i <= b@.len(),
            fields.deep_view().push(cur@) == split(b@.subrange(0, i as int), x),
        decreases b@.len() - i,
    {
        let ghost pre = b@.subrange(0, i as int);
        let ghost next = b@.subrange(0, i + 1);
        proof {
            assert(next.drop_last() == pre);
            lemma_split_nonempty(pre, x);
        }
        if b[i] == x {
            let ghost dv0 = fields.deep_view();
            let ghost c0 = cur@;
            let ghost v0 = fields@;
            fields.push(cur);
            cur = Vec::new();
            proof {
                assert(fields.deep_view().len() == dv0.len() + 1);
                assert forall|k: int| 0 <= k < fields.deep_view().len() implies #[trigger] fields.deep_view()[k] == dv0.push(c0)[k] by {
                    if k < dv0.len() {
                        assert(fields@[k] == v0[k]);
                    }
                }
                assert(fields.deep_view() =~= split(pre, x));
                assert(fields.deep_view().push(cur@) =~= split(next, x));
            }
        } else {
            let ghost old_cur = cur@;
            cur.push(b[i]);
            proof {
                assert(next.last() == b@[i as int]);
                assert(cur@ == old_cur.push(b@[i as int]));
                assert(fields.deep_view().push(cur@) =~= split(next, x));
            }
        }
        i = i + 1;
    }
    proof {
        assert(b@.subrange(0, b@.len() as int) == b@);
    }
    let ghost dv = fields.deep_view();
    let ghost last = cur@;
    let ghost v0 = fields@;
    fields.push(cur);
    proof {
        assert forall|k: int| 0 <= k < fields.deep_view().len() implies #[trigger] fields.deep_view()[k] == dv.push(last)[k] by {
            if k < dv.len() {
                assert(fields@[k] == v0[k]);
            }
        }
        assert(fields.deep_view() =~= dv.push(last));
    }
    fields
}

proof fn lemma_digits_grow(d: Seq<u8>, k: int)
    requires
        0 <= k <= d.len(),
        all_digits(d),
    ensures
        digits_value(d.subrange(0, k)) <= digits_value(d),
    decreases d.len() - k,
{
    if k < d.len() {
        lemma_digits_grow(d, k + 1);
        assert(d.subrange(0, k + 1).drop_last() == d.subrange(0, k));
        assert(d.subrange(0, k + 1).last() == d[k]);
        assert(is_digit(d[k]));
    } else {
        assert(d.subrange(0, k) == d);
    }
}

/// Reads `d[lo..]` as decimal digits that write a number up to 255.
fn digits_in(d: &Vec<u8>, lo: usize) -> (r: Option<u8>)
    requires
        lo <= d@.len(),
    ensures
        ({
            let s = d@.subrange(lo as int, d@.len() as int);
            r == (if all_digits(s) && digits_value(s) <= 255 {
                Some(digits_value(s) as u8)
            } else {
                None
            })
        }),
{
    let ghost s = d@.subrange(lo as int, d@.len() as int);
    let mut v: u32 = 0;
    let mut i: usize = lo;
    while i < d.len()
        invariant
            lo <= i <= d@.len(),
            s == d@.subrange(lo as int, d@.len() as int),
            all_digits(s.subrange(0, i - lo)),
            v as nat == digits_value(s.subrange(0, i - lo)),
            v <= 255,
        decreases d@.len() - i,
    {
        let ghost pre = s.subrange(0, i - lo);
        let ghost next = s.subrange(0, i - lo + 1);
        proof {
            assert(next.drop_last() == pre);
            assert(next.last() == d@[i as int]);
        }
        let c = d[i];
        if c < 48 || c > 57 {
            proof {
                assert(!is_digit(s[i - lo]));
            }
            return None;
        }
        v = v * 10 + (c - 48) as u32;
        if v > 255 {
            proof {
                if all_digits(s) {
                    lemma_digits_grow(s, i - lo + 1);
                }
            }
            return None;
        }
        i = i + 1;
        proof {
            assert forall|k: int| 0 <= k < next.len() implies is_digit(#[trigger] next[k]) by {
                if k < pre.len() {
                    assert(next[k] == pre[k]);
                }
            }
        }
    }
    proof {
        assert(s.subrange(0, s.len() as int) == s);
    }
    Some(v as u8)
}

/// Reads an integer channel field: an optional `+`, then digits up to 255.
fn parse_channel(f: &Vec<u8>) -> (r: Option<u8>)
    ensures
        r == channel_value(f@),
{
    if f.len() == 0 {
        return None;
    }
    let lo: usize = if f.len() > 1 && f[0] == PLUS {
        1
    } else {
        0
    };
    let r = digits_in(f, lo);
    proof {
        let d = unsigned_part(f@);
        assert(d == f@.subrange(lo as int, f@.len() as int));
    }
    r
}

} // verus!

verus! {

/// The decimal digits of `v`, most significant first, without leading zeros.
pub open spec fn decimal(v: nat) -> Seq<u8>
    decreases v,
{
    if v < 10 {
        seq![(v + 48) as u8]
    } else {
        decimal(v / 10).push((v % 10 + 48) as u8)
    }
}

proof fn lemma_decimal(v: nat)
    ensures
        decimal(v).len() > 0,
        all_digits(decimal(v)),
        digits_value(decimal(v)) == v,
    decreases v,
{
    if v >= 10 {
        lemma_decimal(v / 10);
        let d = decimal(v);
        assert(d.drop_last() == decimal(v / 10));
        assert forall|k: int| 0 <= k < d.len() implies is_digit(#[trigger] d[k]) by {
            if k < d.len() - 1 {
                assert(d[k] == decimal(v / 10)[k]);
            }
        }
        assert(d.last() == (v % 10 + 48) as u8);
        assert(digits_value(d) == digits_value(decimal(v / 10)) * 10 + (v % 10));
        assert((v / 10) * 10 + v % 10 == v) by (nonlinear_arith);
    } else {
        assert(decimal(v).drop_last() =~= Seq::<u8>::empty());
        assert(digits_value(decimal(v)) == digits_value(Seq::<u8>::empty()) * 10 + v);
    }
}

/// Appending bytes without a separator extends the last piece.
proof fn lemma_split_append(p: Seq<u8>, q: Seq<u8>, x: u8)
    requires
        !has_byte(q, x),
    ensures
        split(p + q, x) == split(p, x).update(split(p, x).len() - 1, split(p, x).last() + q),
    decreases q.len(),
{
    lemma_split_nonempty(p, x);
    if q.len() == 0 {
        assert(p + q == p);
        assert(split(p, x).last() + q == split(p, x).last());
        assert(split(p, x).update(split(p, x).len() - 1, split(p, x).last()) =~= split(p, x));
    } else {
        let q1 = q.drop_last();
        assert(!has_byte(q1, x)) by {
            if has_byte(q1, x) {
                let i = choose|i: int| 0 <= i < q1.len() && q1[i] == x;
                assert(q[i] == x);
            }
        }
        lemma_split_append(p, q1, x);
        assert((p + q).drop_last() == p + q1);
        assert((p + q).last() == q.last());
        assert(q.last() != x);
        let s = split(p, x);
        assert((s.last() + q1).push(q.last()) == s.last() + q);
        assert(split(p + q, x) =~= s.update(s.len() - 1, s.last() + q));
    }
}

proof fn lemma_digits_no_byte(d: Seq<u8>, x: u8)
    requires
        all_digits(d),
        !is_digit(x),
    ensures
        !has_byte(d, x),
{
    if has_byte(d, x) {
        let i = choose|i: int| 0 <= i < d.len() && d[i] == x;
        assert(is_digit(d[i]));
    }
}

/// Three integers from 0 to 255, written in decimal and joined by commas,
/// read as an integer triple with those values, the text kept as it is.
pub proof fn lemma_integer_triple(raw: Seq<char>, a: u8, b: u8, c: u8, r: Result<RawColor, ColorError>)
    requires
        bytes_of(raw) == decimal(a as nat) + seq![COMMA] + decimal(b as nat) + seq![COMMA] + decimal(c as nat),
        RawColor::parsed(raw, r),
    ensures
        r matches Ok(RawColor::RgbU8(t)) && t.0@ == raw && t.1@ == seq![a, b, c],
{
    let x = decimal(a as nat);
    let y = decimal(b as nat);
    let z = decimal(c as nat);
    lemma_decimal(a as nat);
    lemma_decimal(b as nat);
    lemma_decimal(c as nat);
    lemma_digits_no_byte(x, COMMA);
    lemma_digits_no_byte(y, COMMA);
    lemma_digits_no_byte(z, COMMA);
    let e = Seq::<u8>::empty();
    let sep = seq![COMMA];
    let bx = x + sep;
    let bxy = bx + y + sep;
    let b = bytes_of(raw);
    assert(b == bxy + z);
    lemma_split_append(e, x, COMMA);
    assert(e + x == x);
    assert(split(e, COMMA) == seq![e]);
    assert(split(x, COMMA) =~= seq![x]);
    assert(bx.drop_last() == x);
    assert(split(bx, COMMA) =~= seq![x, e]);
    lemma_split_append(bx, y, COMMA);
    assert(split(bx + y, COMMA) =~= seq![x, y]);
    assert(bxy.drop_last() == bx + y);
    assert(split(bxy, COMMA) =~= seq![x, y, e]);
    lemma_split_append(bxy, z, COMMA);
    assert(split(b, COMMA) =~= seq![x, y, z]);
    assert(b[x.len() as int] == COMMA);
    assert(!has_byte(b, DOT)) by {
        if has_byte(b, DOT) {
            let i = choose|i: int| 0 <= i < b.len() && b[i] == DOT;
            if i < x.len() {
                assert(b[i] == x[i]);
                assert(is_digit(x[i]));
            } else if i == x.len() {
            } else if i < x.len() + 1 + y.len() {
                assert(b[i] == y[i - x.len() - 1]);
                assert(is_digit(y[i - x.len() - 1]));
            } else if i == x.len() + 1 + y.len() {
            } else {
                assert(b[i] == z[i - x.len() - y.len() - 2]);
                assert(is_digit(z[i - x.len() - y.len() - 2]));
            }
        }
    }
    assert(is_digit(x[0]) && is_digit(y[0]) && is_digit(z[0]));
    assert(unsigned_part(x) == x);
    assert(unsigned_part(y) == y);
    assert(unsigned_part(z) == z);
}

/// A token with a comma that splits into three fields, one of them holding a
/// decimal point, reads as a decimal triple whatever its fields hold, the
/// text kept as it is.
pub proof fn lemma_dot_means_float(raw: Seq<char>, r: Result<RawColor, ColorError>)
    requires
        has_byte(bytes_of(raw), COMMA),
        split(bytes_of(raw), COMMA).len() == 3,
        has_byte(bytes_of(raw), DOT),
        RawColor::parsed(raw, r),
    ensures
        r matches Ok(RawColor::RgbF32(t)) && t.0@ == raw && t.1.deep_view() == split(bytes_of(raw), COMMA),
{
}

} // verus!
