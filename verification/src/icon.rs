//! The tray icon.
use crate::ieee::double::Double;
use crate::ieee::laws::{
    lemma_absolute, lemma_integer_positive, lemma_over_monotone, lemma_over_shrinks, lemma_ratio,
    lemma_ratio_finite, lemma_ratio_order, lemma_single_monotone, lemma_single_one,
};
use crate::ieee::rounding::binary32;
use crate::ieee::single::{lemma_single_format, Single};
use crate::status::SyncStatus;
use crate::text::same_text;
use vstd::prelude::*;
use vstd::string::*;

verus! {

/// Width and height in pixels.
pub const ICON_SIZE: u32 = 32;

/// Red, green, blue and opacity of a pixel.
#[derive(Clone, Copy, Debug, PartialEq, Eq, Structural)]
pub struct Pixel {
    pub r: u8,
    pub g: u8,
    pub b: u8,
    pub a: u8,
}

/// What an icon looks like: its colour, the intensity of the ring around it, and
/// whether it has a badge.
#[derive(Clone, Copy, Debug, PartialEq, Eq, Structural)]
pub struct Look {
    pub r: u8,
    pub g: u8,
    pub b: u8,
    pub pulse: Single,
    pub badge: bool,
}

impl Pixel {
    /// A channel by its number.
    pub open spec fn channel(self, k: int) -> u8 {
        if k == 0 {
            self.r
        } else if k == 1 {
            self.g
        } else if k == 2 {
            self.b
        } else {
            self.a
        }
    }
}

/// Distance of a pixel's centre from a centre in one direction.
pub open spec fn from_centre(x: int, c: int) -> Single {
    Single::ratio(x, 1).minus(Single::ratio(c, 1)).plus(Single::ratio(1, 2))
}

/// Distance of a pixel's centre from a centre.
pub open spec fn distance(x: int, y: int, cx: int, cy: int) -> Single {
    let dx = from_centre(x, cx);
    let dy = from_centre(y, cy);
    dx.times(dx).plus(dy.times(dy)).root()
}

/// Opacity of a disc: full, but fading over its outermost pixel.
pub open spec fn disc_alpha(radius: int, d: Single) -> u8 {
    let r = Single::ratio(radius, 1);
    if r.minus(Single::ratio(1, 1)).below(d) {
        r.minus(d).times(Single::ratio(255, 1)).larger(Single::ratio(0, 1)).as_byte() as u8
    } else {
        255
    }
}

/// Opacity of the ring, which fades towards its edge.
pub open spec fn ring_alpha(pulse: Single, d: Single) -> u8 {
    let outer = Single::ratio(15, 1);
    let inner = Single::ratio(11, 1);
    let pos = d.minus(inner).over(outer.minus(inner));
    Single::ratio(1, 1).minus(pos).times(pulse).times(Single::ratio(180, 1)).as_byte() as u8
}

/// A channel of the ring: brighter than that of the disc.
pub open spec fn brighter(c: u8) -> u8 {
    Single::ratio(c as int, 1).times(Single::ratio(13, 10)).smaller(
        Single::ratio(255, 1),
    ).as_byte() as u8
}

impl Look {
    /// The pixel in a column and a row: the badge over the disc over the ring.
    pub open spec fn pixel(self, x: int, y: int) -> Pixel {
        let d = distance(x, y, 16, 16);
        let e = distance(x, y, 25, 7);
        if self.badge && e.at_most(Single::ratio(5, 1)) {
            Pixel { r: 255, g: 152, b: 0, a: disc_alpha(5, e) }
        } else if d.at_most(Single::ratio(11, 1)) {
            Pixel { r: self.r, g: self.g, b: self.b, a: disc_alpha(11, d) }
        } else if d.at_most(Single::ratio(15, 1)) && Single::ratio(1, 100).below(self.pulse) {
            Pixel {
                r: brighter(self.r),
                g: brighter(self.g),
                b: brighter(self.b),
                a: ring_alpha(self.pulse, d),
            }
        } else {
            Pixel { r: 0, g: 0, b: 0, a: 0 }
        }
    }

    /// The first pixels, row by row, channel by channel.
    pub open spec fn image(self, pixels: nat) -> Seq<u8> {
        Seq::new(
            4 * pixels,
            |i: int| self.pixel((i / 4) % 32, (i / 4) / 32).channel(i % 4),
        )
    }

    fn paint(self, x: u32, y: u32) -> (p: Pixel)
        requires
            x < 32,
            y < 32,
        ensures
            p == self.pixel(x as int, y as int),
    {
        let one = Single::from_ratio(1, 1);
        let d = measure(x, y, 16, 16);
        let e = measure(x, y, 25, 7);
        if self.badge && e.le(Single::from_ratio(5, 1)) {
            return Pixel { r: 255, g: 152, b: 0, a: alpha_of_disc(5, e) };
        }
        if d.le(Single::from_ratio(11, 1)) {
            return Pixel { r: self.r, g: self.g, b: self.b, a: alpha_of_disc(11, d) };
        }
        if d.le(Single::from_ratio(15, 1)) && Single::from_ratio(1, 100).lt(self.pulse) {
            let outer = Single::from_ratio(15, 1);
            let inner = Single::from_ratio(11, 1);
            let pos = d.sub(inner).div(outer.sub(inner));
            return Pixel {
                r: brighten(self.r),
                g: brighten(self.g),
                b: brighten(self.b),
                a: one.sub(pos).mul(self.pulse).mul(Single::from_ratio(180, 1)).to_u8(),
            };
        }
        Pixel { r: 0, g: 0, b: 0, a: 0 }
    }
}

fn measure(x: u32, y: u32, cx: u32, cy: u32) -> (d: Single)
    requires
        x < 32,
        y < 32,
        cx < 32,
        cy < 32,
    ensures
        d == distance(x as int, y as int, cx as int, cy as int),
{
    let half = Single::from_ratio(1, 2);
    let dx = Single::from_ratio(x as i32, 1).sub(Single::from_ratio(cx as i32, 1)).add(half);
    let dy = Single::from_ratio(y as i32, 1).sub(Single::from_ratio(cy as i32, 1)).add(half);
    dx.mul(dx).add(dy.mul(dy)).sqrt()
}

fn alpha_of_disc(radius: i32, d: Single) -> (a: u8)
    requires
        0 <= radius < 32,
    ensures
        a == disc_alpha(radius as int, d),
{
    let r = Single::from_ratio(radius, 1);
    if r.sub(Single::from_ratio(1, 1)).lt(d) {
        r.sub(d).mul(Single::from_ratio(255, 1)).max(Single::from_ratio(0, 1)).to_u8()
    } else {
        255
    }
}

fn brighten(c: u8) -> (r: u8)
    ensures
        r == brighter(c),
{
    Single::from_ratio(c as i32, 1).mul(Single::from_ratio(13, 10)).min(
        Single::from_ratio(255, 1),
    ).to_u8()
}

/// Paints an icon: 32 rows of 32 pixels, four channels each. An intensity of 0
/// gives no ring, one of 1 a full one; the badge is an orange dot in the corner.
pub fn generate_icon_full(r: u8, g: u8, b: u8, pulse_intensity: Single, show_update_badge: bool) -> (
rgba: Vec<u8>)
    ensures
        rgba@ == (Look { r, g, b, pulse: pulse_intensity, badge: show_update_badge }).image(1024),
        rgba@.len() == 4096,
{
    let look = Look { r, g, b, pulse: pulse_intensity, badge: show_update_badge };
    let mut rgba: Vec<u8> = Vec::new();
    let mut p: u32 = 0;
    assert(rgba@ == look.image(0));
    while p < 1024
        invariant
            p <= 1024,
            rgba@ == look.image(p as nat),
        decreases 1024 - p,
    {
        let ghost before = rgba@;
        let c = look.paint(p % 32, p / 32);
        rgba.push(c.r);
        rgba.push(c.g);
        rgba.push(c.b);
        rgba.push(c.a);
        proof {
            let after = look.image((p + 1) as nat);
            assert(rgba@.len() == after.len());
            assert forall|i: int| 0 <= i < after.len() implies rgba@[i] == after[i] by {
                if i < 4 * p {
                    assert(rgba@[i] == before[i]);
                } else {
                    assert(i / 4 == p);
                }
            }
            assert(rgba@ =~= after);
        }
        p = p + 1;
    }
    rgba
}

/// Paints an icon with a ring and no badge.
pub fn generate_icon_with_ring(r: u8, g: u8, b: u8, pulse_intensity: Single) -> (rgba: Vec<u8>)
    ensures
        rgba@ == (Look { r, g, b, pulse: pulse_intensity, badge: false }).image(1024),
{
    generate_icon_full(r, g, b, pulse_intensity, false)
}

/// Paints an icon with neither ring nor badge.
pub fn generate_icon(r: u8, g: u8, b: u8) -> (rgba: Vec<u8>)
    ensures
        rgba@ == (Look { r, g, b, pulse: Single { bits: 0 }, badge: false }).image(1024),
{
    generate_icon_full(r, g, b, Single::from_bits(0), false)
}

/// The intensity of the ring for a drift rate: full from a rate on.
pub open spec fn pulse_for(rate: Double, full: int) -> Single {
    rate.absolute().over(Double::integer(full)).smaller(Double::integer(1)).single()
}

/// The look for a status: orange without PTP, cyan in NANO mode, green when
/// locked, yellow else.
pub open spec fn look_of(status: SyncStatus, badge: bool) -> Look {
    let rate = status.smoothed_rate_ppm;
    let none = Single { bits: 0 };
    if status.mode@ == "NTP-only"@ {
        Look { r: 255, g: 152, b: 0, pulse: none, badge }
    } else if status.mode@ == "NANO"@ {
        Look { r: 0, g: 188, b: 212, pulse: pulse_for(rate, 5), badge }
    } else if status.is_locked {
        Look { r: 40, g: 167, b: 69, pulse: pulse_for(rate, 20), badge }
    } else if status.settled {
        Look {
            r: 255,
            g: 193,
            b: 7,
            pulse: pulse_for(rate, 20).larger(Single::ratio(3, 10)),
            badge,
        }
    } else {
        Look { r: 255, g: 193, b: 7, pulse: none, badge }
    }
}

fn pulse(rate: Double, full: i64) -> (r: Single)
    ensures
        r == pulse_for(rate, full as int),
{
    rate.abs().div(Double::from_i64(full)).min(Double::from_i64(1)).to_single()
}

/// The look for a status.
pub fn look_for(status: &SyncStatus, has_update: bool) -> (r: Look)
    ensures
        r == look_of(*status, has_update),
{
    let rate = status.smoothed_rate_ppm;
    let none = Single::from_bits(0);
    if same_text(status.mode.as_str(), "NTP-only") {
        Look { r: 255, g: 152, b: 0, pulse: none, badge: has_update }
    } else if same_text(status.mode.as_str(), "NANO") {
        Look { r: 0, g: 188, b: 212, pulse: pulse(rate, 5), badge: has_update }
    } else if status.is_locked {
        Look { r: 40, g: 167, b: 69, pulse: pulse(rate, 20), badge: has_update }
    } else if status.settled {
        Look {
            r: 255,
            g: 193,
            b: 7,
            pulse: pulse(rate, 20).max(Single::from_ratio(3, 10)),
            badge: has_update,
        }
    } else {
        Look { r: 255, g: 193, b: 7, pulse: none, badge: has_update }
    }
}

/// The look while the service is offline: red.
pub fn offline_look(has_update: bool) -> (r: Look)
    ensures
        r == (Look { r: 220, g: 53, b: 69, pulse: Single { bits: 0 }, badge: has_update }),
{
    Look { r: 220, g: 53, b: 69, pulse: Single::from_bits(0), badge: has_update }
}

/// The ring grows with the drift rate, and is full at most.
pub proof fn lemma_pulse_grows(slower: Double, faster: Double, full: nat)
    requires
        slower.finite(),
        faster.finite(),
        slower.absolute().at_most(faster.absolute()),
        0 < full <= 0x1_0000_0000_0000_0000,
    ensures
        pulse_for(slower, full as int).at_most(pulse_for(faster, full as int)),
        pulse_for(faster, full as int).at_most(Single::ratio(1, 1)),
        !pulse_for(slower, full as int).parts().neg,
{
    let (a, b) = (slower.absolute(), faster.absolute());
    let (c, one) = (Double::integer(full as int), Double::integer(1));
    lemma_absolute(slower);
    lemma_absolute(faster);
    lemma_ratio(full as int, 1);
    lemma_ratio_finite(full as int, 1);
    lemma_integer_positive(full);
    lemma_ratio_order(1, 1, full, 1);
    lemma_ratio(1, 1);
    lemma_ratio_finite(1, 1);
    lemma_over_monotone(a, b, c);
    lemma_over_monotone(b, b, c);
    lemma_over_shrinks(a, c);
    lemma_over_shrinks(b, c);
    reveal(Double::value);
    lemma_single_monotone(a.over(c).smaller(one), b.over(c).smaller(one));
    lemma_single_monotone(b.over(c).smaller(one), one);
    lemma_single_one();
}

/// A channel of a pixel in an icon.
proof fn lemma_image_at(look: Look, i: int, c: int)
    requires
        0 <= i < 1024,
        0 <= c < 4,
    ensures
        look.image(1024)[4 * i + c] == look.pixel(i % 32, i / 32).channel(c),
{
    assert((4 * i + c) / 4 == i && (4 * i + c) % 4 == c);
}

/// The same pixel makes the same bytes.
proof fn lemma_same_pixel(a: Look, b: Look, i: int)
    requires
        0 <= i < 1024,
        a.pixel(i % 32, i / 32) == b.pixel(i % 32, i / 32),
    ensures
        a.image(1024).subrange(4 * i, 4 * i + 4) == b.image(1024).subrange(4 * i, 4 * i + 4),
{
    lemma_image_at(a, i, 0);
    lemma_image_at(a, i, 1);
    lemma_image_at(a, i, 2);
    lemma_image_at(a, i, 3);
    lemma_image_at(b, i, 0);
    lemma_image_at(b, i, 1);
    lemma_image_at(b, i, 2);
    lemma_image_at(b, i, 3);
    assert(a.image(1024).subrange(4 * i, 4 * i + 4) =~= b.image(1024).subrange(4 * i, 4 * i + 4));
}

/// Without a pulse there is no ring.
proof fn lemma_no_pulse()
    ensures
        !Single::ratio(1, 100).below(Single { bits: 0 }),
{
    lemma_single_format();
    reveal(Single::ratio);
    let f = binary32();
    let p = f.quotient_of_integers(false, 1, 100);
    assert(!Single::ratio(1, 100).parts().neg || f.is_nan(Single::ratio(1, 100).parts()));
}

/// Every icon is 32 rows of 32 pixels of four bytes. A pixel is empty, or it has the colour
/// that was asked for, or the orange of the badge if there is one, or the brighter colour of
/// the ring if it pulses. The badge and the ring leave all other pixels as they are without
/// them, and the badge lies over everything.
pub proof fn lemma_icon(
    r: u8,
    g: u8,
    b: u8,
    pulse: Single,
    badge: bool,
    full: Vec<u8>,
    ring: Vec<u8>,
    plain: Vec<u8>,
)
    requires
        call_ensures(generate_icon_full, (r, g, b, pulse, badge), full),
        call_ensures(generate_icon_with_ring, (r, g, b, pulse), ring),
        call_ensures(generate_icon, (r, g, b), plain),
    ensures
        full@.len() == 4096 && ring@.len() == 4096 && plain@.len() == 4096,
        forall|i: int| #![trigger full@[4 * i]]
            0 <= i < 1024 ==> {
                let k = 4 * i;
                ||| badge && full@[k] == 255 && full@[k + 1] == 152 && full@[k + 2] == 0
                ||| full@.subrange(k, k + 4) == ring@.subrange(k, k + 4)
            },
        forall|i: int| #![trigger ring@[4 * i]]
            0 <= i < 1024 ==> {
                let k = 4 * i;
                ||| Single::ratio(1, 100).below(pulse) && plain@[k + 3] == 0
                ||| ring@.subrange(k, k + 4) == plain@.subrange(k, k + 4)
            },
        forall|i: int| #![trigger plain@[4 * i]]
            0 <= i < 1024 ==> {
                let k = 4 * i;
                ||| plain@[k] == r && plain@[k + 1] == g && plain@[k + 2] == b
                ||| plain@[k] == 0 && plain@[k + 1] == 0 && plain@[k + 2] == 0 && plain@[k + 3] == 0
            },
{
    let f = Look { r, g, b, pulse, badge };
    let h = Look { r, g, b, pulse, badge: false };
    let p = Look { r, g, b, pulse: Single { bits: 0 }, badge: false };
    lemma_no_pulse();
    assert forall|i: int| #![trigger full@[4 * i]] 0 <= i < 1024 implies ({
        let k = 4 * i;
        ||| badge && full@[k] == 255 && full@[k + 1] == 152 && full@[k + 2] == 0
        ||| full@.subrange(k, k + 4) == ring@.subrange(k, k + 4)
    }) by {
        let k = 4 * i;
        lemma_image_at(f, i, 0);
        lemma_image_at(f, i, 1);
        lemma_image_at(f, i, 2);
        if f.pixel(i % 32, i / 32) == h.pixel(i % 32, i / 32) {
            lemma_same_pixel(f, h, i);
        }
    }
    assert forall|i: int| #![trigger ring@[4 * i]] 0 <= i < 1024 implies ({
        let k = 4 * i;
        ||| Single::ratio(1, 100).below(pulse) && plain@[k + 3] == 0
        ||| ring@.subrange(k, k + 4) == plain@.subrange(k, k + 4)
    }) by {
        let k = 4 * i;
        lemma_image_at(p, i, 3);
        if h.pixel(i % 32, i / 32) == p.pixel(i % 32, i / 32) {
            lemma_same_pixel(h, p, i);
        }
    }
    assert forall|i: int| #![trigger plain@[4 * i]] 0 <= i < 1024 implies ({
        let k = 4 * i;
        ||| plain@[k] == r && plain@[k + 1] == g && plain@[k + 2] == b
        ||| plain@[k] == 0 && plain@[k + 1] == 0 && plain@[k + 2] == 0 && plain@[k + 3] == 0
    }) by {
        lemma_image_at(p, i, 0);
        lemma_image_at(p, i, 1);
        lemma_image_at(p, i, 2);
        lemma_image_at(p, i, 3);
    }
}

} // verus!
