//! The colour that hexadecimal digits stand for.
use vstd::prelude::*;

use crate::binary::Binary32;
use crate::geometry::whole;

verus! {

/// A share of 255 steps.
proof fn lemma_step(n: u32)
    requires
        n <= 255,
    ensures
        crate::estimate::near(
            whole(n) / whole(255),
            n as int as real / 255real,
            2real * crate::estimate::eps(),
        ),
{
    crate::estimate::lemma_scale();
    crate::estimate::lemma_whole(n);
    crate::estimate::lemma_whole(255);
    crate::box_laws::lemma_over(whole(n), whole(255), 1real);
}

/// The value of a hexadecimal digit: those of the decimal digits, then ten to fifteen for the letters
/// of either case.
pub open spec fn digit_value(c: char) -> int {
    if '0' <= c <= '9' {
        c as int - '0' as int
    } else if 'a' <= c <= 'f' {
        c as int - 'a' as int + 10
    } else {
        c as int - 'A' as int + 10
    }
}

pub open spec fn is_digit(c: char) -> bool {
    '0' <= c <= '9' || 'a' <= c <= 'f' || 'A' <= c <= 'F'
}

/// Six hexadecimal digits are red, green and blue, two digits each, the first of the two counting
/// sixteen times, in shares of 255; the colour is opaque.
pub proof fn law_digits_are_red_green_blue(h: Seq<char>, channel: int)
    requires
        h.len() == 6,
        forall|i: int| 0 <= i < 6 ==> is_digit(#[trigger] h[i]),
        0 <= channel < 3,
    ensures
        crate::color::hex_color(h) matches Some(color) && {
            &&& crate::estimate::near(
                color[channel],
                (16 * digit_value(h[2 * channel]) + digit_value(h[2 * channel + 1])) as real
                    / 255real,
                2real * crate::estimate::eps(),
            )
            &&& color[3] == whole(1)
        },
{
    assert(is_digit(h[0]) && is_digit(h[1]) && is_digit(h[2]) && is_digit(h[3]) && is_digit(h[4])
        && is_digit(h[5]));
    lemma_step((16 * digit_value(h[0]) + digit_value(h[1])) as u32);
    lemma_step((16 * digit_value(h[2]) + digit_value(h[3])) as u32);
    lemma_step((16 * digit_value(h[4]) + digit_value(h[5])) as u32);
}

/// Three numbers between 0 and 255 and one between 0 and 1, as a colour function has them, are red,
/// green, blue and the opacity, in that order.
pub proof fn law_components_keep_their_order(
    s: Seq<char>,
    r: Binary32,
    g: Binary32,
    b: Binary32,
    a: Binary32,
)
    requires
        crate::color::fields(s).len() == 4,
        crate::decimal::parsed_single(crate::text::trimmed(crate::color::fields(s)[0])) == Some(r),
        crate::decimal::parsed_single(crate::text::trimmed(crate::color::fields(s)[1])) == Some(g),
        crate::decimal::parsed_single(crate::text::trimmed(crate::color::fields(s)[2])) == Some(b),
        crate::decimal::parsed_single(crate::text::trimmed(crate::color::fields(s)[3])) == Some(a),
        r.is_finite() && 0real <= crate::geometry::val(r) <= 255real,
        g.is_finite() && 0real <= crate::geometry::val(g) <= 255real,
        b.is_finite() && 0real <= crate::geometry::val(b) <= 255real,
        a.is_finite() && 0real <= crate::geometry::val(a) <= 1real,
    ensures
        crate::color::components(s) matches Some(color) && {
            let e = 2real * crate::estimate::eps();
            &&& crate::estimate::near(color[0], crate::geometry::val(r) / 255real, e)
            &&& crate::estimate::near(color[1], crate::geometry::val(g) / 255real, e)
            &&& crate::estimate::near(color[2], crate::geometry::val(b) / 255real, e)
            &&& crate::estimate::near(color[3], crate::geometry::val(a), e)
        },
{
    lemma_channel(r, 255);
    lemma_channel(g, 255);
    lemma_channel(b, 255);
    lemma_channel(a, 1);
    assert(crate::geometry::val(a) / 1real == crate::geometry::val(a));
}

proof fn lemma_channel(x: Binary32, top: u32)
    requires
        top == 255 || top == 1,
        x.is_finite(),
        0real <= crate::geometry::val(x) <= top as int as real,
    ensures
        !x.less(whole(0)),
        !whole(top).less(x),
        crate::estimate::near(
            x / whole(top),
            crate::geometry::val(x) / top as int as real,
            2real * crate::estimate::eps(),
        ),
{
    crate::estimate::lemma_scale();
    crate::estimate::lemma_whole(0);
    crate::estimate::lemma_whole(top);
    crate::estimate::lemma_order(x, whole(0));
    crate::estimate::lemma_order(whole(top), x);
    crate::box_laws::lemma_over(x, whole(top), 1real);
}

} // verus!
