use vstd::prelude::*;
use vstd::string::*;

use crate::text::chars_of;

verus! {

/// The exact value of a numeric literal: `digits` read as a whole number,
/// divided by ten to the power `scale`, negated when `negative` holds.
pub struct DecimalView {
    pub negative: bool,
    pub digits: Seq<u8>,
    pub scale: nat,
}

/// A numeric literal held exactly, in canonical form: no leading zero digit,
/// no trailing zero after the point, and zero is neither negative nor scaled.
/// Two literals with the same value are therefore equal.
#[derive(Clone, Debug, PartialEq, Eq)]
pub struct Decimal {
    negative: bool,
    digits: Vec<u8>,
    scale: usize,
}

pub open spec fn is_digit(c: char) -> bool {
    '0' <= c && c <= '9'
}

pub open spec fn digit_value(c: char) -> u8 {
    (c as u32 - '0' as u32) as u8
}

/// Reads a run of digits and points from the left: the digit values in order,
/// how many digits follow a point, and how many points were seen.
pub open spec fn literal_parts(s: Seq<char>) -> (Seq<u8>, nat, nat)
    decreases s.len(),
{
    if s.len() == 0 {
        (seq![], 0, 0)
    } else {
        let (d, f, p) = literal_parts(s.drop_last());
        let c = s.last();
        if c == '.' {
            (d, f, p + 1)
        } else {
            (d.push(digit_value(c)), if p > 0 { f + 1 } else { f }, p)
        }
    }
}

/// Drops zero digits from the right as long as they stand after the point.
pub open spec fn trim_trailing(d: Seq<u8>, scale: nat) -> (Seq<u8>, nat)
    decreases scale,
{
    if scale > 0 && d.len() > 0 && d.last() == 0 {
        trim_trailing(d.drop_last(), (scale - 1) as nat)
    } else {
        (d, scale)
    }
}

/// Drops zero digits from the left.
pub open spec fn trim_leading(d: Seq<u8>) -> Seq<u8>
    decreases d.len(),
{
    if d.len() > 0 && d[0] == 0 {
        trim_leading(d.skip(1))
    } else {
        d
    }
}

/// The canonical form of the value `digits / 10^scale`, with the given sign.
pub open spec fn canonical(negative: bool, digits: Seq<u8>, scale: nat) -> DecimalView {
    let (d1, f1) = trim_trailing(digits, scale);
    let d2 = trim_leading(d1);
    DecimalView {
        negative: negative && d2.len() > 0,
        digits: d2,
        scale: if d2.len() == 0 { 0 } else { f1 },
    }
}

/// The unsigned part of a literal: what follows a leading minus sign, if any.
pub open spec fn unsigned_part(t: Seq<char>) -> Seq<char> {
    if t.len() > 0 && t[0] == '-' {
        t.skip(1)
    } else {
        t
    }
}

/// A numeric literal: an optional minus sign, then digits with at most one
/// point among them, and at least one digit.
pub open spec fn is_literal(t: Seq<char>) -> bool {
    let u = unsigned_part(t);
    &&& forall|i: int| 0 <= i < u.len() ==> is_digit(#[trigger] u[i]) || u[i] == '.'
    &&& literal_parts(u).2 <= 1
    &&& literal_parts(u).0.len() >= 1
}

/// The value of a literal, or `None` where the text is no numeric literal.
pub open spec fn decimal_of(t: Seq<char>) -> Option<DecimalView> {
    if is_literal(t) {
        let (d, f, _p) = literal_parts(unsigned_part(t));
        Some(canonical(t[0] == '-', d, f))
    } else {
        None
    }
}

impl View for Decimal {
    type V = DecimalView;

    closed spec fn view(&self) -> DecimalView {
        DecimalView { negative: self.negative, digits: self.digits@, scale: self.scale as nat }
    }
}

/// The canonical form: digits below ten, no zero digit first, no zero digit
/// last after the point, and a zero that is neither negative nor scaled.
pub open spec fn is_canonical(v: DecimalView) -> bool {
    &&& forall|i: int| 0 <= i < v.digits.len() ==> #[trigger] v.digits[i] < 10
    &&& v.digits.len() > 0 ==> v.digits[0] != 0
    &&& v.scale > 0 ==> v.digits.len() > 0 && v.digits.last() != 0
    &&& v.digits.len() == 0 ==> !v.negative
}

/// The value an optional literal holds, if any.
pub open spec fn decimal_view(r: Option<Decimal>) -> Option<DecimalView> {
    match r {
        Some(d) => Some(d@),
        None => None,
    }
}

impl Decimal {
    /// Reads the numeric literal `cs[from..to]`.
    pub fn from_chars(cs: &Vec<char>, from: usize, to: usize) -> (r: Option<Decimal>)
        requires
            from <= to <= cs@.len(),
        ensures
            r matches Some(d) ==> is_canonical(d@),
            decimal_view(r) == decimal_of(cs@.subrange(from as int, to as int)),
    {
        let ghost t = cs@.subrange(from as int, to as int);
        let negative = from < to && cs[from] == '-';
        let start: usize = if negative { from + 1 } else { from };
        let ghost u = cs@.subrange(start as int, to as int);
        assert(u =~= unsigned_part(t));
        let mut digits: Vec<u8> = Vec::new();
        let mut frac: usize = 0;
        let mut points: usize = 0;
        let mut i: usize = start;
        while i < to
            invariant
                from <= start <= i <= to <= cs@.len(),
                u == cs@.subrange(start as int, to as int),
                u == unsigned_part(t),
                t == cs@.subrange(from as int, to as int),
                (digits@, frac as nat, points as nat) == literal_parts(u.take(i - start)),
                forall|k: int| start <= k < i ==> is_digit(#[trigger] cs@[k]) || cs@[k] == '.',
                forall|k: int| 0 <= k < digits@.len() ==> #[trigger] digits@[k] < 10,
                frac <= digits@.len(),
                digits@.len() + points == i - start,
            decreases to - i,
        {
            let c = cs[i];
            proof {
                assert(u.take(i - start + 1).drop_last() =~= u.take(i - start));
                assert(u.take(i - start + 1).last() == c);
            }
            if c == '.' {
                points = points + 1;
            } else if '0' <= c && c <= '9' {
                digits.push((c as u32 - '0' as u32) as u8);
                if points > 0 {
                    frac = frac + 1;
                }
            } else {
                proof {
                    assert(u[i - start] == c);
                    assert(!(is_digit(u[i - start]) || u[i - start] == '.'));
                    assert(!is_literal(t));
                }
                return None;
            }
            i = i + 1;
        }
        proof {
            assert(u.take(i - start) =~= u);
            assert forall|k: int| 0 <= k < u.len() implies is_digit(#[trigger] u[k]) || u[k] == '.' by {
                assert(u[k] == cs@[start + k]);
            }
        }
        if points > 1 || digits.len() == 0 {
            return None;
        }
        let ghost d0 = digits@;
        let ghost f0 = frac as nat;
        while frac > 0 && digits.len() > 0 && digits[digits.len() - 1] == 0
            invariant
                trim_trailing(digits@, frac as nat) == trim_trailing(d0, f0),
                forall|k: int| 0 <= k < digits@.len() ==> #[trigger] digits@[k] < 10,
                frac <= digits@.len(),
            decreases frac,
        {
            digits.pop();
            frac = frac - 1;
        }
        let ghost d1 = digits@;
        assert(d1.skip(0) =~= d1);
        let mut k: usize = 0;
        while k < digits.len() && digits[k] == 0
            invariant
                k <= digits@.len(),
                d1 == digits@,
                trim_leading(d1.skip(k as int)) == trim_leading(d1),
                forall|m: int| 0 <= m < k ==> #[trigger] d1[m] == 0,
            decreases digits@.len() - k,
        {
            proof {
                assert(d1.skip(k as int).skip(1) =~= d1.skip(k + 1));
            }
            k = k + 1;
        }
        let mut kept: Vec<u8> = Vec::new();
        let mut j: usize = k;
        while j < digits.len()
            invariant
                k <= j <= digits@.len(),
                d1 == digits@,
                kept@ == d1.subrange(k as int, j as int),
            decreases digits@.len() - j,
        {
            kept.push(digits[j]);
            j = j + 1;
        }
        proof {
            assert(kept@ =~= d1.skip(k as int));
            if kept@.len() > 0 {
                assert(kept@[0] == d1[k as int]);
            }
            if frac > 0 {
                assert(d1.last() != 0);
                assert(k < d1.len());
                assert(kept@.last() == d1.last());
            }
        }
        let scale = if kept.len() == 0 { 0 } else { frac };
        Some(Decimal { negative: negative && kept.len() > 0, digits: kept, scale })
    }

    /// Reads a numeric literal: an optional minus sign, then digits with at
    /// most one point among them and at least one digit (`-.5`, `12.`, `3`).
    pub fn from_literal(text: &str) -> (r: Option<Decimal>)
        ensures
            r matches Some(d) ==> is_canonical(d@),
            decimal_view(r) == decimal_of(text@),
    {
        let cs = chars_of(text);
        proof {
            assert(cs@.subrange(0, cs@.len() as int) =~= text@);
        }
        Decimal::from_chars(&cs, 0, cs.len())
    }

    /// Whether the value is below zero.
    pub fn is_negative(&self) -> (r: bool)
        ensures
            r == self@.negative,
    {
        self.negative
    }

    /// The significant digits, most significant first.
    pub fn digits(&self) -> (r: &Vec<u8>)
        ensures
            r@ == self@.digits,
    {
        &self.digits
    }

    /// How many of the digits stand after the point (may exceed their number).
    pub fn scale(&self) -> (r: usize)
        ensures
            r == self@.scale,
    {
        self.scale
    }
}

} // verus!
