use vstd::prelude::*;

verus! {

/// Width of the virtual coordinate space, in scaled units.
pub const SCALED_WIDTH: u32 = 854;

/// Height of the virtual coordinate space, in scaled units.
pub const SCALED_HEIGHT: u32 = 480;

/// Vertical attachment: which horizontal edge of the parent region an
/// element's vertical offset is measured from.
#[derive(Clone, Copy, PartialEq, Eq, Structural, Debug)]
pub enum VAttach {
    Top,
    Middle,
    Bottom,
}

/// Horizontal attachment: which vertical edge of the parent region an
/// element's horizontal offset is measured from.
#[derive(Clone, Copy, PartialEq, Eq, Structural, Debug)]
pub enum HAttach {
    Left,
    Center,
    Right,
}

/// A fixed scale factor, as an exact rational `num / den`.
#[derive(Clone, Copy, PartialEq, Eq, Structural, Debug)]
pub struct Scale {
    pub num: u16,
    pub den: u16,
}

/// The pair of scale factors used for one layout computation, each an
/// exact rational: `scale_x = xn / xd`, `scale_y = yn / yd`.
#[derive(Clone, Copy, PartialEq, Eq, Structural, Debug)]
pub struct Scales {
    pub xn: u32,
    pub xd: u32,
    pub yn: u32,
    pub yd: u32,
}

pub open spec fn scales_wf(sc: Scales) -> bool {
    &&& 1 <= sc.xd <= 0xFFFF
    &&& 1 <= sc.yd <= 0xFFFF
    &&& sc.xn <= 0xFFFF
    &&& sc.yn <= 0xFFFF
}

/// An axis-aligned rectangle in the scaled coordinate space, held as
/// exact rationals: the x axis values are `xn / dx` and `wn / dx`, the
/// y axis values `yn / dy` and `hn / dy`. `qx` and `qy` record how many
/// times the base denominator (the scale factor's denominator) was
/// doubled while resolving nested regions, so `dx == qx * scale_x.den`.
#[derive(Clone, Copy, PartialEq, Eq, Structural, Debug)]
pub struct Region {
    pub xn: i128,
    pub yn: i128,
    pub wn: i128,
    pub hn: i128,
    pub dx: i128,
    pub dy: i128,
    pub qx: i128,
    pub qy: i128,
}

/// Every region the library hands out stays within these bounds, so
/// that the cross products of the rational comparisons fit in `i128`.
pub open spec fn num_bound() -> int {
    0x80_0000_0000_0000
}

pub open spec fn region_wf(r: Region) -> bool {
    &&& 1 <= r.dx <= num_bound()
    &&& 1 <= r.dy <= num_bound()
    &&& 1 <= r.qx <= r.dx
    &&& 1 <= r.qy <= r.dy
    &&& -num_bound() <= r.xn <= num_bound()
    &&& -num_bound() <= r.yn <= num_bound()
    &&& -num_bound() <= r.wn <= num_bound()
    &&& -num_bound() <= r.hn <= num_bound()
}

proof fn lemma_mul_bound(a: int, b: int, ab: int, bb: int)
    requires
        -ab <= a <= ab,
        -bb <= b <= bb,
        0 <= ab,
        0 <= bb,
    ensures
        -(ab * bb) <= a * b <= ab * bb,
{
    assert(-(ab * bb) <= a * b <= ab * bb) by (nonlinear_arith)
        requires
            -ab <= a <= ab,
            -bb <= b <= bb,
            0 <= ab,
            0 <= bb,
    ;
}

/// The scale factors the given mode yields for the given viewport, per
/// axis: `854 / width` and `480 / height` in scaled mode, the fixed
/// factor on both axes otherwise.
pub open spec fn spec_scales_for(scaled: bool, factor: Scale, width: u16, height: u16) -> Scales {
    if scaled {
        Scales { xn: SCALED_WIDTH, xd: width as u32, yn: SCALED_HEIGHT, yd: height as u32 }
    } else {
        Scales { xn: factor.num as u32, xd: factor.den as u32, yn: factor.num as u32, yd: factor.den as u32 }
    }
}

/// The whole screen, `(0, 0, 854, 480)` in scaled units, expressed over
/// the base denominators of the given scale factors.
pub open spec fn spec_screen(sc: Scales) -> Region {
    Region {
        xn: 0,
        yn: 0,
        wn: (SCALED_WIDTH * (sc.xd as int)) as i128,
        hn: (SCALED_HEIGHT * (sc.yd as int)) as i128,
        dx: sc.xd as i128,
        dy: sc.yd as i128,
        qx: 1,
        qy: 1,
    }
}

pub fn screen_region(sc: &Scales) -> (r: Region)
    requires
        scales_wf(*sc),
    ensures
        r == spec_screen(*sc),
        region_wf(r),
{
    Region {
        xn: 0,
        yn: 0,
        wn: 854 * (sc.xd as i128),
        hn: 480 * (sc.yd as i128),
        dx: sc.xd as i128,
        dy: sc.yd as i128,
        qx: 1,
        qy: 1,
    }
}

/// One step of region resolution: the element's size is scaled, its
/// offset is applied from the attached edge of the parent ("super")
/// region, and the result is translated by the parent's origin. Arithmetic is exact: the child's denominator is twice the
/// parent's, which absorbs the halving done by centered attachment.
/// `None` when a numerator or denominator would leave `num_bound()`.
pub open spec fn spec_region_raw(
    w: int,
    h: int,
    ox: int,
    oy: int,
    ha: HAttach,
    va: VAttach,
    sc: Scales,
    sup: Region,
) -> Option<Region> {
    let dx2 = 2 * sup.dx;
    let dy2 = 2 * sup.dy;
    let qx2 = 2 * sup.qx;
    let qy2 = 2 * sup.qy;
    let wn2 = w * (sc.xn as int) * qx2;
    let hn2 = h * (sc.yn as int) * qy2;
    let xn2 = (match ha {
        HAttach::Left => ox * (sc.xn as int) * qx2,
        HAttach::Center => sup.wn - w * (sc.xn as int) * sup.qx + ox * (sc.xn as int) * qx2,
        HAttach::Right => 2 * sup.wn - ox * (sc.xn as int) * qx2 - wn2,
    }) + 2 * sup.xn;
    let yn2 = (match va {
        VAttach::Top => oy * (sc.yn as int) * qy2,
        VAttach::Middle => sup.hn - h * (sc.yn as int) * sup.qy + oy * (sc.yn as int) * qy2,
        VAttach::Bottom => 2 * sup.hn - oy * (sc.yn as int) * qy2 - hn2,
    }) + 2 * sup.yn;
    if -num_bound() <= xn2 <= num_bound() && -num_bound() <= yn2 <= num_bound()
        && -num_bound() <= wn2 <= num_bound() && -num_bound() <= hn2 <= num_bound()
        && dx2 <= num_bound() && dy2 <= num_bound() {
        Some(
            Region {
                xn: xn2 as i128,
                yn: yn2 as i128,
                wn: wn2 as i128,
                hn: hn2 as i128,
                dx: dx2 as i128,
                dy: dy2 as i128,
                qx: qx2 as i128,
                qy: qy2 as i128,
            },
        )
    } else {
        None
    }
}

pub fn region_raw(
    w: i16,
    h: i16,
    ox: i16,
    oy: i16,
    ha: HAttach,
    va: VAttach,
    sc: &Scales,
    sup: &Region,
) -> (r: Option<Region>)
    requires
        scales_wf(*sc),
        region_wf(*sup),
    ensures
        r == spec_region_raw(w as int, h as int, ox as int, oy as int, ha, va, *sc, *sup),
        r is Some ==> region_wf(r->Some_0),
{
    proof {
        lemma_mul_bound(w as int, sc.xn as int, 0x8000, 0x10000);
        lemma_mul_bound(h as int, sc.yn as int, 0x8000, 0x10000);
        lemma_mul_bound(ox as int, sc.xn as int, 0x8000, 0x10000);
        lemma_mul_bound(oy as int, sc.yn as int, 0x8000, 0x10000);
        lemma_mul_bound(w as int * sc.xn as int, 2 * sup.qx as int, 0x8000_0000, 2 * num_bound());
        lemma_mul_bound(h as int * sc.yn as int, 2 * sup.qy as int, 0x8000_0000, 2 * num_bound());
        lemma_mul_bound(ox as int * sc.xn as int, 2 * sup.qx as int, 0x8000_0000, 2 * num_bound());
        lemma_mul_bound(oy as int * sc.yn as int, 2 * sup.qy as int, 0x8000_0000, 2 * num_bound());
        lemma_mul_bound(w as int * sc.xn as int, sup.qx as int, 0x8000_0000, num_bound());
        lemma_mul_bound(h as int * sc.yn as int, sup.qy as int, 0x8000_0000, num_bound());
    }
    let dx2: i128 = 2 * sup.dx;
    let dy2: i128 = 2 * sup.dy;
    let qx2: i128 = 2 * sup.qx;
    let qy2: i128 = 2 * sup.qy;
    let wn2: i128 = (w as i128) * (sc.xn as i128) * qx2;
    let hn2: i128 = (h as i128) * (sc.yn as i128) * qy2;
    let xn2: i128 = (match ha {
        HAttach::Left => (ox as i128) * (sc.xn as i128) * qx2,
        HAttach::Center => sup.wn - (w as i128) * (sc.xn as i128) * sup.qx + (ox as i128) * (
        sc.xn as i128) * qx2,
        HAttach::Right => 2 * sup.wn - (ox as i128) * (sc.xn as i128) * qx2 - wn2,
    }) + 2 * sup.xn;
    let yn2: i128 = (match va {
        VAttach::Top => (oy as i128) * (sc.yn as i128) * qy2,
        VAttach::Middle => sup.hn - (h as i128) * (sc.yn as i128) * sup.qy + (oy as i128) * (
        sc.yn as i128) * qy2,
        VAttach::Bottom => 2 * sup.hn - (oy as i128) * (sc.yn as i128) * qy2 - hn2,
    }) + 2 * sup.yn;
    let b: i128 = 0x80_0000_0000_0000;
    if -b <= xn2 && xn2 <= b && -b <= yn2 && yn2 <= b && -b <= wn2 && wn2 <= b && -b <= hn2 && hn2
        <= b && dx2 <= b && dy2 <= b {
        Some(Region { xn: xn2, yn: yn2, wn: wn2, hn: hn2, dx: dx2, dy: dy2, qx: qx2, qy: qy2 })
    } else {
        None
    }
}

/// Whether the rational point `(mxn/mxd, myn/myd)` lies inside the
/// region (edges included), by exact cross multiplication.
pub open spec fn spec_contains(r: Region, mxn: int, mxd: int, myn: int, myd: int) -> bool {
    &&& mxn * r.dx >= r.xn * mxd
    &&& mxn * r.dx <= (r.xn + r.wn) * mxd
    &&& myn * r.dy >= r.yn * myd
    &&& myn * r.dy <= (r.yn + r.hn) * myd
}

pub fn region_contains(r: &Region, mxn: i128, mxd: i128, myn: i128, myd: i128) -> (c: bool)
    requires
        region_wf(*r),
        1 <= mxd <= 0x10000,
        1 <= myd <= 0x10000,
        -0x400_0000 <= mxn <= 0x400_0000,
        -0x400_0000 <= myn <= 0x400_0000,
    ensures
        c == spec_contains(*r, mxn as int, mxd as int, myn as int, myd as int),
{
    proof {
        lemma_mul_bound(mxn as int, r.dx as int, 0x400_0000, num_bound());
        lemma_mul_bound(myn as int, r.dy as int, 0x400_0000, num_bound());
        lemma_mul_bound(r.xn as int, mxd as int, num_bound(), 0x10000);
        lemma_mul_bound(r.yn as int, myd as int, num_bound(), 0x10000);
        lemma_mul_bound(r.xn as int + r.wn as int, mxd as int, 2 * num_bound(), 0x10000);
        lemma_mul_bound(r.yn as int + r.hn as int, myd as int, 2 * num_bound(), 0x10000);
    }
    mxn * r.dx >= r.xn * mxd && mxn * r.dx <= (r.xn + r.wn) * mxd && myn * r.dy >= r.yn * myd
        && myn * r.dy <= (r.yn + r.hn) * myd
}

/// Whether two regions overlap (touching edges count), by exact cross
/// multiplication of the rational edges.
pub open spec fn spec_intersects(a: Region, b: Region) -> bool {
    !((a.xn + a.wn) * b.dx < b.xn * a.dx || a.xn * b.dx > (b.xn + b.wn) * a.dx || (a.yn + a.hn)
        * b.dy < b.yn * a.dy || a.yn * b.dy > (b.yn + b.hn) * a.dy)
}

pub fn region_intersects(a: &Region, b: &Region) -> (c: bool)
    requires
        region_wf(*a),
        region_wf(*b),
    ensures
        c == spec_intersects(*a, *b),
{
    proof {
        lemma_mul_bound(a.xn as int + a.wn as int, b.dx as int, 2 * num_bound(), num_bound());
        lemma_mul_bound(b.xn as int, a.dx as int, num_bound(), num_bound());
        lemma_mul_bound(a.xn as int, b.dx as int, num_bound(), num_bound());
        lemma_mul_bound(b.xn as int + b.wn as int, a.dx as int, 2 * num_bound(), num_bound());
        lemma_mul_bound(a.yn as int + a.hn as int, b.dy as int, 2 * num_bound(), num_bound());
        lemma_mul_bound(b.yn as int, a.dy as int, num_bound(), num_bound());
        lemma_mul_bound(a.yn as int, b.dy as int, num_bound(), num_bound());
        lemma_mul_bound(b.yn as int + b.hn as int, a.dy as int, 2 * num_bound(), num_bound());
    }
    !((a.xn + a.wn) * b.dx < b.xn * a.dx || a.xn * b.dx > (b.xn + b.wn) * a.dx || (a.yn + a.hn)
        * b.dy < b.yn * a.dy || a.yn * b.dy > (b.yn + b.hn) * a.dy)
}

/// In scaled mode, the factors are exact: `scale_x * width == 854` and
/// `scale_y * height == 480`, for every positive viewport.
pub proof fn lemma_scaled_factors_exact(factor: Scale, width: u16, height: u16)
    requires
        width >= 1,
        height >= 1,
    ensures
        spec_scales_for(true, factor, width, height).xn * width == 854 * spec_scales_for(
            true,
            factor,
            width,
            height,
        ).xd,
        spec_scales_for(true, factor, width, height).yn * height == 480 * spec_scales_for(
            true,
            factor,
            width,
            height,
        ).yd,
{
}

} // verus!
