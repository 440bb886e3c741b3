//! Geometry over exact, non-negative ratios.
//!
//! Every quantity of a layout is a `Ratio` kept in lowest terms. An operation
//! whose reduced result does not fit the representation yields `None`; the
//! spec functions below say exactly when.
use vstd::prelude::*;

verus! {

/// A non-negative ratio `num / den`. A zero denominator marks a value that
/// is not defined.
#[derive(Clone, Copy, Debug, PartialEq, Eq, Structural)]
pub struct Ratio {
    pub num: u64,
    pub den: u64,
}

/// A point in some unit system.
#[derive(Clone, Copy, Debug, PartialEq, Eq, Structural)]
pub struct Point {
    pub x: Ratio,
    pub y: Ratio,
}

/// A width and a height.
#[derive(Clone, Copy, Debug, PartialEq, Eq, Structural)]
pub struct Size {
    pub width: Ratio,
    pub height: Ratio,
}

/// An axis-aligned rectangle: its top-left corner and its extent.
#[derive(Clone, Copy, Debug, PartialEq, Eq, Structural)]
pub struct Rect {
    pub origin: Point,
    pub size: Size,
}

/// A rectangle of whole cells inside a template grid.
#[derive(Clone, Copy, Debug, PartialEq, Eq, Structural)]
pub struct GridRect {
    pub x: usize,
    pub y: usize,
    pub width: usize,
    pub height: usize,
}

/// What a leaf asks for: its width and height.
#[derive(Clone, Copy, Debug, PartialEq, Eq, Structural)]
pub struct Props {
    pub width: Option<Ratio>,
    pub height: Option<Ratio>,
}

/// A dimension that is present and finite.
pub open spec fn defined(r: Option<Ratio>) -> bool {
    r matches Some(v) && v.den > 0
}

/// Greatest common divisor, by Euclid's recurrence.
pub open spec fn gcd(a: nat, b: nat) -> nat
    decreases b,
{
    if b == 0 {
        a
    } else {
        gcd(b, a % b)
    }
}

/// `n / d` in lowest terms, when `d` is not zero and the reduced terms fit
/// in 64 bits (the unreduced ones in 128).
pub open spec fn normalized(n: nat, d: nat) -> Option<Ratio> {
    let g = gcd(n, d);
    if d == 0 || n > u128::MAX || d > u128::MAX || n / g > u64::MAX || d / g > u64::MAX {
        None
    } else {
        Some(Ratio { num: (n / g) as u64, den: (d / g) as u64 })
    }
}

pub open spec fn ratio_mul(a: Ratio, b: Ratio) -> Option<Ratio> {
    normalized((a.num * b.num) as nat, (a.den * b.den) as nat)
}

pub open spec fn ratio_add(a: Ratio, b: Ratio) -> Option<Ratio> {
    normalized((a.num * b.den + b.num * a.den) as nat, (a.den * b.den) as nat)
}

pub open spec fn ratio_div(a: Ratio, b: Ratio) -> Option<Ratio> {
    normalized((a.num * b.den) as nat, (a.den * b.num) as nat)
}

/// `a <= b`, for defined ratios.
pub open spec fn ratio_le(a: Ratio, b: Ratio) -> bool {
    a.num * b.den <= b.num * a.den
}

pub open spec fn ratio_max(a: Ratio, b: Ratio) -> Ratio {
    if ratio_le(a, b) {
        b
    } else {
        a
    }
}

/// A cell rectangle as fractions of a `tw` by `th` grid.
pub open spec fn relativised(r: GridRect, tw: nat, th: nat) -> Option<Rect> {
    match (
        normalized(r.x as nat, tw),
        normalized(r.y as nat, th),
        normalized(r.width as nat, tw),
        normalized(r.height as nat, th),
    ) {
        (Some(x), Some(y), Some(w), Some(h)) => Some(
            Rect { origin: Point { x, y }, size: Size { width: w, height: h } },
        ),
        _ => None,
    }
}

/// `a * s + o` on one axis.
pub open spec fn affine(a: Ratio, s: Ratio, o: Ratio) -> Option<Ratio> {
    match ratio_mul(a, s) {
        Some(p) => ratio_add(o, p),
        None => None,
    }
}

/// `inner`, given as fractions of a box, re-expressed in the frame in which
/// that box is `outer`.
pub open spec fn composed(outer: Rect, inner: Rect) -> Option<Rect> {
    match (
        affine(inner.origin.x, outer.size.width, outer.origin.x),
        affine(inner.origin.y, outer.size.height, outer.origin.y),
        ratio_mul(inner.size.width, outer.size.width),
        ratio_mul(inner.size.height, outer.size.height),
    ) {
        (Some(x), Some(y), Some(w), Some(h)) => Some(
            Rect { origin: Point { x, y }, size: Size { width: w, height: h } },
        ),
        _ => None,
    }
}

/// `r` with both corners multiplied by `s`, per axis.
pub open spec fn scaled(r: Rect, s: Size) -> Option<Rect> {
    match (
        ratio_mul(r.origin.x, s.width),
        ratio_mul(r.origin.y, s.height),
        ratio_mul(r.size.width, s.width),
        ratio_mul(r.size.height, s.height),
    ) {
        (Some(x), Some(y), Some(w), Some(h)) => Some(
            Rect { origin: Point { x, y }, size: Size { width: w, height: h } },
        ),
        _ => None,
    }
}

proof fn lemma_gcd_bounds(a: nat, b: nat)
    requires
        b > 0,
    ensures
        0 < gcd(a, b) <= b,
    decreases b,
{
    assert(gcd(a, b) == gcd(b, a % b));
    if a % b != 0 {
        lemma_gcd_bounds(b, a % b);
    } else {
        assert(gcd(b, 0) == b);
    }
}

proof fn lemma_mul_fits(a: nat, b: nat)
    requires
        a <= u64::MAX,
        b <= u64::MAX,
    ensures
        a * b <= u128::MAX,
{
    assert(a * b <= u64::MAX * u64::MAX) by (nonlinear_arith)
        requires
            a <= u64::MAX,
            b <= u64::MAX,
    ;
}

fn gcd_exec(a: u128, b: u128) -> (g: u128)
    ensures
        g == gcd(a as nat, b as nat),
{
    let mut x = a;
    let mut y = b;
    while y != 0
        invariant
            gcd(x as nat, y as nat) == gcd(a as nat, b as nat),
        decreases y,
    {
        let r = x % y;
        x = y;
        y = r;
    }
    x
}

fn normalize(n: u128, d: u128) -> (r: Option<Ratio>)
    ensures
        r == normalized(n as nat, d as nat),
{
    if d == 0 {
        return None;
    }
    let g = gcd_exec(n, d);
    proof {
        lemma_gcd_bounds(n as nat, d as nat);
    }
    let nn = n / g;
    let dd = d / g;
    if nn > u64::MAX as u128 || dd > u64::MAX as u128 {
        None
    } else {
        Some(Ratio { num: nn as u64, den: dd as u64 })
    }
}

impl Ratio {
    /// The ratio `num / den`, taken as it is given.
    pub fn new(num: u64, den: u64) -> (r: Ratio)
        ensures
            r.num == num,
            r.den == den,
    {
        Ratio { num, den }
    }

    /// The whole number `n`.
    pub fn whole(n: u64) -> (r: Ratio)
        ensures
            r.num == n,
            r.den == 1,
    {
        Ratio { num: n, den: 1 }
    }

    pub fn mul(self, o: Ratio) -> (r: Option<Ratio>)
        ensures
            r == ratio_mul(self, o),
    {
        proof {
            lemma_mul_fits(self.num as nat, o.num as nat);
            lemma_mul_fits(self.den as nat, o.den as nat);
        }
        normalize(self.num as u128 * o.num as u128, self.den as u128 * o.den as u128)
    }

    pub fn add(self, o: Ratio) -> (r: Option<Ratio>)
        ensures
            r == ratio_add(self, o),
    {
        proof {
            lemma_mul_fits(self.num as nat, o.den as nat);
            lemma_mul_fits(o.num as nat, self.den as nat);
            lemma_mul_fits(self.den as nat, o.den as nat);
        }
        let a = self.num as u128 * o.den as u128;
        let b = o.num as u128 * self.den as u128;
        match a.checked_add(b) {
            Some(n) => normalize(n, self.den as u128 * o.den as u128),
            None => None,
        }
    }

    pub fn div(self, o: Ratio) -> (r: Option<Ratio>)
        ensures
            r == ratio_div(self, o),
    {
        proof {
            lemma_mul_fits(self.num as nat, o.den as nat);
            lemma_mul_fits(self.den as nat, o.num as nat);
        }
        normalize(self.num as u128 * o.den as u128, self.den as u128 * o.num as u128)
    }

    pub fn le(self, o: Ratio) -> (r: bool)
        ensures
            r == ratio_le(self, o),
    {
        proof {
            lemma_mul_fits(self.num as nat, o.den as nat);
            lemma_mul_fits(o.num as nat, self.den as nat);
        }
        self.num as u128 * o.den as u128 <= o.num as u128 * self.den as u128
    }

    pub fn max(self, o: Ratio) -> (r: Ratio)
        ensures
            r == ratio_max(self, o),
    {
        if self.le(o) {
            o
        } else {
            self
        }
    }
}

fn affine_exec(a: Ratio, s: Ratio, o: Ratio) -> (r: Option<Ratio>)
    ensures
        r == affine(a, s, o),
{
    match a.mul(s) {
        Some(p) => o.add(p),
        None => None,
    }
}

impl Props {
    /// A leaf of the given width and height.
    pub fn sized(width: Ratio, height: Ratio) -> (p: Props)
        ensures
            p.width == Some(width),
            p.height == Some(height),
    {
        Props { width: Some(width), height: Some(height) }
    }
}

impl GridRect {
    /// This rectangle as fractions of a `width` by `height` grid.
    pub fn relativise(&self, width: usize, height: usize) -> (r: Option<Rect>)
        ensures
            r == relativised(*self, width as nat, height as nat),
    {
        let x = normalize(self.x as u128, width as u128);
        let y = normalize(self.y as u128, height as u128);
        let w = normalize(self.width as u128, width as u128);
        let h = normalize(self.height as u128, height as u128);
        match (x, y, w, h) {
            (Some(x), Some(y), Some(w), Some(h)) => Some(
                Rect { origin: Point { x, y }, size: Size { width: w, height: h } },
            ),
            _ => None,
        }
    }
}

impl Rect {
    /// `inner`, given as fractions of this rectangle, in the frame of this
    /// rectangle.
    pub fn compose(&self, inner: Rect) -> (r: Option<Rect>)
        ensures
            r == composed(*self, inner),
    {
        let x = affine_exec(inner.origin.x, self.size.width, self.origin.x);
        let y = affine_exec(inner.origin.y, self.size.height, self.origin.y);
        let w = inner.size.width.mul(self.size.width);
        let h = inner.size.height.mul(self.size.height);
        match (x, y, w, h) {
            (Some(x), Some(y), Some(w), Some(h)) => Some(
                Rect { origin: Point { x, y }, size: Size { width: w, height: h } },
            ),
            _ => None,
        }
    }

    /// This rectangle with both corners multiplied by `s`, per axis.
    pub fn scale(&self, s: Size) -> (r: Option<Rect>)
        ensures
            r == scaled(*self, s),
    {
        let x = self.origin.x.mul(s.width);
        let y = self.origin.y.mul(s.height);
        let w = self.size.width.mul(s.width);
        let h = self.size.height.mul(s.height);
        match (x, y, w, h) {
            (Some(x), Some(y), Some(w), Some(h)) => Some(
                Rect { origin: Point { x, y }, size: Size { width: w, height: h } },
            ),
            _ => None,
        }
    }
}

} // verus!
