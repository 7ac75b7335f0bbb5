//! A stretched sound is no louder than it was, up to rounding.
use vstd::prelude::*;

use crate::binary::Binary32;
use crate::sample::{fraction, zero, Sample};
use crate::wsola::Stretch;

verus! {

/// A sample lies between `-m` and `m`.
pub open spec fn within(x: Binary32, m: real) -> bool {
    x.is_finite() && crate::estimate::size(crate::geometry::val(x)) <= m
}

/// Every sample of every channel lies between `-m` and `m`.
pub open spec fn all_within(pcm: Seq<Seq<Binary32>>, m: real) -> bool {
    forall|c: int, i: int|
        0 <= c < pcm.len() && 0 <= i < pcm[c].len() ==> within(#[trigger] pcm[c][i], m)
}

/// The weights of a window lie between 0 and 1.
pub open spec fn is_window(window: Seq<Binary32>) -> bool {
    forall|i: int|
        0 <= i < window.len() ==> (#[trigger] window[i]).is_finite() && 0real
            <= crate::geometry::val(window[i]) <= 1real
}

/// `x` is a sum of up to `j` samples between `-m` and `m`, weighted, and `s` the sum of the
/// weights.
pub open spec fn is_weighted(x: Binary32, s: Binary32, m: real, j: int) -> bool {
    let share = m * crate::geometry::val(s);
    &&& x.is_finite()
    &&& s.is_finite()
    &&& 0real <= crate::geometry::val(s) <= 2real * j as real
    &&& crate::estimate::size(crate::geometry::val(x)) <= share + (6real * j as real) * (
    crate::estimate::eps() * share) + (8real * j as real) * crate::estimate::tiny()
}

/// Silence is the sum of no samples.
proof fn lemma_silence(m: real)
    requires
        m >= 0real,
    ensures
        is_weighted(zero::<Binary32>(), zero::<Binary32>(), m, 0),
        within(zero::<Binary32>(), m),
{
    crate::estimate::lemma_whole(0);
    assert(zero::<Binary32>() == Binary32::whole(0));
    assert(m * 0real == 0real) by (nonlinear_arith);
    assert(crate::estimate::eps() * 0real == 0real) by (nonlinear_arith);
    assert(0int as real == 0real);
    assert(6real * 0real == 0real && 8real * 0real == 0real && 2real * 0real == 0real);
    assert(0real * 0real == 0real && 0real * crate::estimate::tiny() == 0real) by (nonlinear_arith);
}

/// A sum of fewer samples is one of up to more.
proof fn lemma_weighted_grows(x: Binary32, s: Binary32, m: real, j: int, k: int)
    requires
        is_weighted(x, s, m, j),
        0 <= j <= k,
        m >= 0real,
    ensures
        is_weighted(x, s, m, k),
{
    crate::estimate::lemma_scale();
    let share = m * crate::geometry::val(s);
    crate::estimate::lemma_times(0real, m, crate::geometry::val(s));
    assert(0real * crate::geometry::val(s) == 0real);
    crate::estimate::lemma_times(0real, share, crate::estimate::eps());
    assert(0real * crate::estimate::eps() == 0real);
    crate::estimate::lemma_times(
        6real * j as real,
        6real * k as real,
        crate::estimate::eps() * share,
    );
    crate::estimate::lemma_times(8real * j as real, 8real * k as real, crate::estimate::tiny());
}

/// One more weighted sample, in real numbers: `u` is the weight of all, `v` what it was rounded
/// to.
proof fn lemma_one_more(m: real, old_weight: real, w: real, new_weight: real)
    requires
        0real <= m <= crate::estimate::large(),
        0real <= old_weight <= 2real,
        0real <= w <= 1real,
        crate::estimate::size(new_weight - (old_weight + w)) <= crate::estimate::eps() * (
        old_weight + w),
    ensures
        ({
            let u = m * (old_weight + w);
            let v = m * new_weight;
            let e = crate::estimate::eps();
            &&& u == m * old_weight + m * w
            &&& 0real <= m * old_weight
            &&& 0real <= m * w
            &&& u <= v + e * u
            &&& 99real * (e * u) <= 100real * (e * v)
            &&& 0real <= e * u
            &&& e * (e * u) <= (e * u) / 100real
            &&& 0real <= new_weight <= 4real
            &&& u <= 4real * crate::estimate::large()
        }),
{
    let e = crate::estimate::eps();
    crate::estimate::lemma_scale();
    let t = old_weight + w;
    let u = m * t;
    let v = m * new_weight;
    assert(m * (old_weight + w) == m * old_weight + m * w) by (nonlinear_arith);
    crate::estimate::lemma_times(0real, m, old_weight);
    crate::estimate::lemma_times(0real, m, w);
    assert(0real * old_weight == 0real && 0real * w == 0real);
    crate::estimate::lemma_times(e, 1real / 100real, t);
    crate::estimate::lemma_times(t - e * t, new_weight, m);
    assert(m * (t - e * t) == m * t - e * (m * t)) by (nonlinear_arith);
    crate::estimate::lemma_times(u, v + e * u, e);
    assert(e * (v + e * u) == e * v + e * (e * u)) by (nonlinear_arith);
    crate::estimate::lemma_times(0real, u, e);
    assert(0real * e == 0real);
    crate::estimate::lemma_times(e, 1real / 100real, e * u);
    crate::estimate::lemma_times(m, crate::estimate::large(), t);
    crate::estimate::lemma_times(t, 3real, crate::estimate::large());
}

/// One more weighted sample.
proof fn lemma_add_grain(x: Binary32, s: Binary32, a: Binary32, w: Binary32, m: real, j: int)
    requires
        is_weighted(x, s, m, j),
        j == 0 || j == 1,
        within(a, m),
        0real <= m <= crate::estimate::large(),
        w.is_finite(),
        0real <= crate::geometry::val(w) <= 1real,
    ensures
        is_weighted(x + a * w, s + w, m, j + 1),
{
    let e = crate::estimate::eps();
    let tiny = crate::estimate::tiny();
    crate::estimate::lemma_scale();
    let (sv, wv) = (crate::geometry::val(s), crate::geometry::val(w));
    let jr = j as real;
    assert((j + 1) as real == jr + 1real);
    crate::estimate::lemma_sum(s, w);
    let s2 = crate::geometry::val(s + w);
    lemma_one_more(m, sv, wv, s2);
    let (old_share, part) = (m * sv, m * wv);
    let u = m * (sv + wv);
    let eu = e * u;
    crate::estimate::lemma_size_of_product(crate::geometry::val(a), wv);
    crate::estimate::lemma_times(crate::estimate::size(crate::geometry::val(a)), m, wv);
    let exact = crate::estimate::size(crate::geometry::val(a) * wv);
    crate::estimate::lemma_product(a, w);
    crate::estimate::lemma_times(exact, part, e);
    crate::estimate::lemma_times(part, u, e);
    crate::estimate::lemma_times(old_share, u, e);
    let p = crate::geometry::val(a * w);
    assert(crate::estimate::size(p) <= part + eu + tiny);
    assert((6real * jr) * (e * old_share) <= (6real * jr) * eu) by {
        crate::estimate::lemma_times(e * old_share, eu, 6real * jr);
    }
    assert(jr == 0real || jr == 1real);
    assert((6real * jr) * eu == 6real * (jr * eu)) by (nonlinear_arith);
    assert((8real * jr) * tiny == 8real * (jr * tiny)) by (nonlinear_arith);
    assert(0real * eu == 0real && 1real * eu == eu && 0real * tiny == 0real && 1real * tiny == tiny);
    let total = crate::geometry::val(x) + p;
    let bound = u + 7real * eu + 9real * tiny;
    assert(crate::estimate::size(total) <= bound);
    crate::estimate::lemma_times(e, 1real / 100real, u);
    crate::estimate::lemma_sum(x, a * w);
    let top = u + (6real * (jr * eu) + eu) + (8real * (jr * tiny) + tiny);
    assert(crate::estimate::size(total) <= top);
    crate::estimate::lemma_times(crate::estimate::size(total), bound, e);
    assert(e * (u + 7real * (e * u) + 9real * tiny) == e * u + 7real * (e * (e * u)) + 9real * (e
        * tiny)) by (nonlinear_arith);
    crate::estimate::lemma_times(e, 1real / 100real, tiny);
    let v = m * s2;
    let ev = e * v;
    assert((6real * (jr + 1real)) * ev == 6real * (jr * ev) + 6real * ev) by (nonlinear_arith);
    assert((8real * (jr + 1real)) * tiny == 8real * (jr * tiny) + 8real * tiny)
        by (nonlinear_arith);
    assert(0real * ev == 0real && 1real * ev == ev);
}

/// A normalized sum does not exceed the samples in it.
proof fn lemma_normalized(x: Binary32, s: Binary32, m: real)
    requires
        is_weighted(x, s, m, 2),
        0real <= m <= crate::estimate::large(),
    ensures
        within(crate::wsola::normalized(x, s), bound_of(m)),
{
    let e = crate::estimate::eps();
    let tiny = crate::estimate::tiny();
    crate::estimate::lemma_scale();
    let sv = crate::geometry::val(s);
    let xv = crate::geometry::val(x);
    let share = m * sv;
    let em = e * m;
    assert(2int as real == 2real);
    assert(e * (m * sv) == (e * m) * sv) by (nonlinear_arith);
    crate::estimate::lemma_times(0real, m, e);
    assert(0real * e == 0real);
    let step = fraction::<Binary32>(1, 1000000);
    crate::estimate::lemma_ratio(1, 1000000);
    assert(step == Binary32::ratio(1, 1000000));
    assert(1int as real / 1000000int as real == 1real / 1000000real);
    crate::estimate::lemma_order(step, s);
    crate::estimate::lemma_times(e, 1real / 100real, m);
    if step.less(s) {
        let q = xv / sv;
        crate::estimate::lemma_fraction(xv, sv);
        crate::estimate::lemma_size_of_product(q, sv);
        crate::estimate::lemma_times(1real, sv * 0x20_0000real, 16real * tiny);
        assert((16real * tiny) * (sv * 0x20_0000real) == ((16real * tiny) * 0x20_0000real) * sv)
            by (nonlinear_arith);
        let bound = m + 12real * em + (16real * tiny) * 0x20_0000real;
        assert(bound * sv == m * sv + 12real * ((e * m) * sv) + ((16real * tiny) * 0x20_0000real)
            * sv) by (nonlinear_arith)
            requires
                bound == m + 12real * em + (16real * tiny) * 0x20_0000real,
                em == e * m,
        ;
        crate::estimate::lemma_cancel(crate::estimate::size(q), bound, sv);
        assert((16real * tiny) * 0x20_0000real <= 1real / (4real * crate::estimate::large()));
        crate::estimate::lemma_times(crate::estimate::size(q), crate::estimate::huge(), sv);
        crate::estimate::lemma_quotient(x, s);
        crate::estimate::lemma_times(crate::estimate::size(q), 2real * m + 1real / crate::estimate::large(), e);
        assert(e * (2real * m + 1real / crate::estimate::large()) == 2real * (e * m) + e * (1real
            / crate::estimate::large())) by (nonlinear_arith);
    } else {
        crate::estimate::lemma_times(sv, 1real / 100real, m);
        crate::estimate::lemma_times(sv, 1real / 100real, em);
    }
}

/// What a sound that stayed between `-m` and `m` stays between when it is stretched.
pub open spec fn bound_of(m: real) -> real {
    m + 16real * (crate::estimate::eps() * m) + 1real / crate::estimate::large()
}

/// How many grains at most overlap at a place of the output that is still held.
pub open spec fn grains(v: Stretch<Binary32>, i: int) -> int {
    if v.frame <= 0 {
        0
    } else if i < v.hs {
        2
    } else if i < v.n {
        1
    } else {
        0
    }
}

/// The lengths that a stretcher holds fit together.
pub open spec fn is_shaped(v: Stretch<Binary32>) -> bool {
    &&& v.hs >= 1
    &&& v.n == 2 * v.hs
    &&& v.window.len() == v.n
    &&& v.buf.len() == v.out.len()
    &&& forall|c: int| 0 <= c < v.buf.len() ==> (#[trigger] v.buf[c]).len() == v.mono.len()
    &&& forall|c: int| 0 <= c < v.out.len() ==> (#[trigger] v.out[c]).len() == v.win_sum.len()
    &&& v.frame >= 0
    &&& v.out_start == (if v.frame > 0 {
        (v.frame - 1) * v.hs
    } else {
        0
    })
    &&& v.frame > 0 ==> v.win_sum.len() >= v.n
    &&& v.placed == (v.frame > 0)
}

/// A stretcher that was fed with samples between `-m` and `m`: its source is such, and its output
/// a weighted sum of such.
pub open spec fn is_bounded(v: Stretch<Binary32>, m: real) -> bool {
    &&& is_shaped(v)
    &&& is_window(v.window)
    &&& all_within(v.buf, m)
    &&& forall|c: int, i: int|
        0 <= c < v.out.len() && 0 <= i < v.win_sum.len() ==> is_weighted(
            #[trigger] v.out[c][i],
            v.win_sum[i],
            m,
            grains(v, i),
        )
}

/// How many grains overlap after one more was laid down.
spec fn grains_after(v: Stretch<Binary32>, i: int) -> int {
    if v.frame > 0 {
        if i < 2 * v.hs {
            2
        } else if i < 3 * v.hs {
            1
        } else {
            0
        }
    } else if i < v.n {
        1
    } else {
        0
    }
}

proof fn lemma_base(v: Stretch<Binary32>)
    requires
        is_shaped(v),
    ensures
        v.frame * v.hs - v.out_start == (if v.frame > 0 {
            v.hs
        } else {
            0
        }),
{
    assert((v.frame - 1) * v.hs == v.frame * v.hs - v.hs) by (nonlinear_arith);
    assert(0 * v.hs == 0);
}

/// Making room adds silence.
proof fn lemma_room_is_bounded(v: Stretch<Binary32>, m: real, upto: int)
    requires
        is_bounded(v, m),
        m >= 0real,
    ensures
        ({
            let r = v.with_room(upto);
            &&& r.out.len() == v.out.len()
            &&& r.win_sum.len() >= v.win_sum.len()
            &&& r.win_sum.len() >= upto - v.out_start
            &&& r.buf == v.buf && r.window == v.window && r.mono == v.mono
            &&& forall|c: int|
                0 <= c < r.out.len() ==> (#[trigger] r.out[c]).len() == r.win_sum.len()
            &&& forall|c: int, i: int|
                0 <= c < r.out.len() && 0 <= i < r.win_sum.len() ==> is_weighted(
                    #[trigger] r.out[c][i],
                    r.win_sum[i],
                    m,
                    grains(v, i),
                )
        }),
{
    let r = v.with_room(upto);
    lemma_silence(m);
    assert forall|c: int| 0 <= c < r.out.len() implies (#[trigger] r.out[c]).len()
        == r.win_sum.len() by {
        assert(v.out[c].len() == v.win_sum.len());
    }
    assert forall|c: int, i: int|
        0 <= c < r.out.len() && 0 <= i < r.win_sum.len() implies is_weighted(
        #[trigger] r.out[c][i],
        r.win_sum[i],
        m,
        grains(v, i),
    ) by {
        assert(v.out[c].len() == v.win_sum.len());
        if i < v.win_sum.len() {
            assert(r.out[c][i] == v.out[c][i]);
            assert(r.win_sum[i] == v.win_sum[i]);
        } else {
            assert(r.out[c][i] == zero::<Binary32>());
            assert(r.win_sum[i] == zero::<Binary32>());
        }
    }
}

/// A grain adds at most one weighted sample anywhere.
proof fn lemma_grain_is_bounded(v: Stretch<Binary32>, m: real)
    requires
        is_bounded(v, m),
        0real <= m <= crate::estimate::large(),
    ensures
        ({
            let g = v.with_grain();
            &&& g.out.len() == v.out.len()
            &&& g.win_sum.len() >= v.frame * v.hs + v.n - v.out_start
            &&& forall|c: int|
                0 <= c < g.out.len() ==> (#[trigger] g.out[c]).len() == g.win_sum.len()
            &&& forall|c: int, i: int|
                0 <= c < g.out.len() && 0 <= i < g.win_sum.len() ==> is_weighted(
                    #[trigger] g.out[c][i],
                    g.win_sum[i],
                    m,
                    grains_after(v, i),
                )
        }),
{
    let r = v.with_room(v.frame * v.hs + v.n);
    lemma_room_is_bounded(v, m, v.frame * v.hs + v.n);
    lemma_base(v);
    lemma_silence(m);
    let base = v.frame * v.hs - v.out_start;
    let g = v.with_grain();
    assert forall|c: int| 0 <= c < g.out.len() implies (#[trigger] g.out[c]).len()
        == g.win_sum.len() by {
        assert(r.out[c].len() == r.win_sum.len());
    }
    assert forall|c: int, i: int|
        0 <= c < g.out.len() && 0 <= i < g.win_sum.len() implies is_weighted(
        #[trigger] g.out[c][i],
        g.win_sum[i],
        m,
        grains_after(v, i),
    ) by {
        assert(r.out[c].len() == r.win_sum.len());
        let (x, t) = (r.out[c][i], r.win_sum[i]);
        assert(is_weighted(x, t, m, grains(v, i)));
        if base <= i < base + v.window.len() {
            let k = v.grain + (i - base);
            let a = crate::wsola::at(v.buf[c], v.buf_start, k);
            let w = v.window[i - base];
            assert(within(a, m)) by {
                if 0 <= k - v.buf_start < v.buf[c].len() {
                    assert(within(v.buf[c][k - v.buf_start], m));
                }
            }
            assert(g.out[c][i] == x + a * w);
            assert(g.win_sum[i] == t + w);
            lemma_add_grain(x, t, a, w, m, grains(v, i));
            assert(grains(v, i) + 1 == grains_after(v, i));
        } else {
            assert(g.out[c][i] == x);
            assert(g.win_sum[i] == t);
            lemma_weighted_grows(x, t, m, grains(v, i), grains_after(v, i));
        }
    }
}

/// What leaves a stretcher after a grain is bounded, and so is what stays.
proof fn lemma_step_is_bounded(v: Stretch<Binary32>, m: real)
    requires
        is_bounded(v, m),
        0real <= m <= crate::estimate::large(),
    ensures
        is_bounded(v.stepped(), m),
        all_within(v.moved().chunk(v.frame * v.hs), bound_of(m)),
{
    lemma_grain_is_bounded(v, m);
    lemma_base(v);
    let r = v.moved();
    let g = v.with_grain();
    let base = v.frame * v.hs - v.out_start;
    let upto = v.frame * v.hs;
    assert(r.out == g.out && r.win_sum == g.win_sum);
    assert(r.out_start == v.out_start && r.buf == v.buf && r.mono == v.mono);
    assert(g.win_sum.len() >= base + v.n);
    assert forall|c: int, i: int|
        0 <= c < r.chunk(upto).len() && 0 <= i < r.chunk(upto)[c].len() implies within(
        #[trigger] r.chunk(upto)[c][i],
        bound_of(m),
    ) by {
        let (x, t) = (g.out[c][i], g.win_sum[i]);
        assert(is_weighted(g.out[c][i], g.win_sum[i], m, grains_after(v, i)));
        lemma_weighted_grows(x, t, m, grains_after(v, i), 2);
        lemma_normalized(x, t, m);
    }
    let s = r.collected(upto);
    let z = v.stepped();
    assert(z.out == s.out && z.win_sum == s.win_sum && z.frame == v.frame + 1);
    assert((z.frame - 1) * v.hs == v.frame * v.hs);
    assert(0 * v.hs == 0);
    assert forall|c: int| 0 <= c < z.out.len() implies (#[trigger] z.out[c]).len()
        == z.win_sum.len() by {
        assert(g.out[c].len() == g.win_sum.len());
    }
    assert forall|c: int, i: int|
        0 <= c < z.out.len() && 0 <= i < z.win_sum.len() implies is_weighted(
        #[trigger] z.out[c][i],
        z.win_sum[i],
        m,
        grains(z, i),
    ) by {
        assert(g.out[c].len() == g.win_sum.len());
        let k = i + base;
        assert(is_weighted(g.out[c][k], g.win_sum[k], m, grains_after(v, k)));
        assert(z.out[c][i] == g.out[c][k]);
        assert(z.win_sum[i] == g.win_sum[k]);
        lemma_weighted_grows(g.out[c][k], g.win_sum[k], m, grains_after(v, k), grains(z, i));
    }
    assert forall|c: int| 0 <= c < z.buf.len() implies (#[trigger] z.buf[c]).len() == z.mono.len() by {
        assert(v.buf[c].len() == v.mono.len());
    }
    assert forall|c: int, i: int|
        0 <= c < z.buf.len() && 0 <= i < z.buf[c].len() implies within(#[trigger] z.buf[c][i], m) by {
        assert(v.buf[c].len() == v.mono.len());
        let k = i + (v.buf[c].len() - z.buf[c].len());
        assert(z.buf[c][i] == v.buf[c][k]);
        assert(within(v.buf[c][k], m));
    }
}

/// Two bounded chunks, one after the other.
proof fn lemma_followed(a: Seq<Seq<Binary32>>, b: Seq<Seq<Binary32>>, m: real)
    requires
        a.len() == b.len(),
        all_within(a, m),
        all_within(b, m),
    ensures
        all_within(crate::wsola::followed(a, b), m),
{
    let f = crate::wsola::followed(a, b);
    assert forall|c: int, i: int| 0 <= c < f.len() && 0 <= i < f[c].len() implies within(
        #[trigger] f[c][i],
        m,
    ) by {
        if i < a[c].len() {
            assert(f[c][i] == a[c][i]);
        } else {
            assert(f[c][i] == b[c][i - a[c].len()]);
        }
    }
}

/// While grains are laid down, what leaves is bounded, and so is what stays.
proof fn lemma_run_is_bounded(v: Stretch<Binary32>, m: real, last: bool)
    requires
        is_bounded(v, m),
        0real <= m <= crate::estimate::large(),
    ensures
        is_bounded(v.ran(last), m),
        all_within(v.emitted(last), bound_of(m)),
    decreases v.frame_limit() - v.frame,
{
    if !(v.stops(last) || v.frame >= v.frame_limit() || v.hs <= 0) {
        lemma_step_is_bounded(v, m);
        assert(v.stepped().frame == v.frame + 1 && v.stepped().n == v.n && v.stepped().hs == v.hs);
        lemma_run_is_bounded(v.stepped(), m, last);
        crate::wsola::lemma_emitted_len(v.stepped(), last);
        lemma_followed(v.moved().chunk(v.frame * v.hs), v.stepped().emitted(last), bound_of(m));
    }
}

/// Source that is bounded leaves a stretcher bounded.
proof fn lemma_appended_is_bounded(v: Stretch<Binary32>, planar: Seq<Seq<Binary32>>, m: real)
    requires
        is_bounded(v, m),
        all_within(planar, m),
        m >= 0real,
    ensures
        is_bounded(v.appended(planar), m),
{
    lemma_silence(m);
    let f = v.appended(planar);
    if !(planar.len() == 0 || planar[0].len() == 0) {
        assert forall|c: int| 0 <= c < f.buf.len() implies (#[trigger] f.buf[c]).len()
            == f.mono.len() by {
            assert(v.buf[c].len() == v.mono.len());
        }
        assert forall|c: int, i: int|
            0 <= c < f.buf.len() && 0 <= i < f.buf[c].len() implies within(
            #[trigger] f.buf[c][i],
            m,
        ) by {
            assert(v.buf[c].len() == v.mono.len());
            if i < v.buf[c].len() {
                assert(f.buf[c][i] == v.buf[c][i]);
                assert(within(v.buf[c][i], m));
            } else {
                let source = crate::wsola::feeding(planar, c);
                let k = i - v.buf[c].len();
                if k < source.len() {
                    assert(f.buf[c][i] == source[k]);
                    if c < planar.len() {
                        assert(within(planar[c][k], m));
                    } else {
                        assert(within(planar[0][k], m));
                    }
                } else {
                    assert(f.buf[c][i] == zero::<Binary32>());
                }
            }
        }
        assert forall|c: int, i: int|
            0 <= c < f.out.len() && 0 <= i < f.win_sum.len() implies is_weighted(
            #[trigger] f.out[c][i],
            f.win_sum[i],
            m,
            grains(f, i),
        ) by {
            assert(is_weighted(v.out[c][i], v.win_sum[i], m, grains(v, i)));
        }
    }
}

/// A new stretcher has been fed with nothing.
pub proof fn law_fresh_stretcher_is_bounded(
    size: crate::wsola::GrainSize,
    channels: usize,
    speed: crate::binary::Binary64,
    window: Seq<Binary32>,
    m: real,
)
    requires
        size.hs >= 1,
        window.len() == 2 * size.hs,
        is_window(window),
    ensures
        is_bounded(Stretch::fresh(size, channels, speed, window), m),
{
}

/// The window of a stretcher has weights between 0 and 1, for a cosine between -1 and 1.
pub proof fn law_hann_is_a_window<C: Fn(Binary32) -> Binary32>(length: usize, cosine: C)
    requires
        forall|x: Binary32|
            within(#[trigger] crate::sample::outcome::<Binary32, Binary32, C>(cosine, x), 1real),
    ensures
        is_window(crate::wsola::hann_window::<Binary32, C>(length, cosine)),
{
    let window = crate::wsola::hann_window::<Binary32, C>(length, cosine);
    let half = fraction::<Binary32>(1, 2);
    crate::estimate::lemma_scale();
    crate::estimate::lemma_half();
    crate::estimate::lemma_whole(1);
    assert(half == Binary32::ratio(1, 2));
    assert forall|i: int| 0 <= i < window.len() implies (#[trigger] window[i]).is_finite() && 0real
        <= crate::geometry::val(window[i]) <= 1real by {
        let angle = crate::wsola::hann_angle::<Binary32>(length, i as usize);
        let c = crate::sample::outcome::<Binary32, Binary32, C>(cosine, angle);
        assert(within(c, 1real));
        let cv = crate::geometry::val(c);
        crate::estimate::lemma_size_of_product(1real / 2real, cv);
        crate::estimate::lemma_times(crate::estimate::size(cv), 1real, 1real / 2real);
        crate::estimate::lemma_product_at_most(half, c, half);
        let part = half * c;
        crate::estimate::lemma_difference(half, part);
        crate::estimate::lemma_difference_at_most(half, part, Binary32::whole(1));
        let exact = 1real / 2real - crate::geometry::val(part);
        crate::estimate::lemma_times(crate::estimate::eps(), 1real, exact);
        assert(window[i] == half - part);
    }
}

/// Stretching makes nothing louder: where every sample that was fed lies between `-m` and `m`, so
/// does every sample that comes out, up to rounding. This holds of what a push returns, and of
/// what the stretcher is afterwards.
pub proof fn law_a_push_is_no_louder(
    v: Stretch<Binary32>,
    planar: Seq<Seq<Binary32>>,
    m: real,
)
    requires
        is_bounded(v, m),
        all_within(planar, m),
        0real <= m <= crate::estimate::large(),
    ensures
        all_within(v.appended(planar).emitted(false), bound_of(m)),
        is_bounded(v.appended(planar).ran(false), m),
{
    lemma_appended_is_bounded(v, planar, m);
    lemma_run_is_bounded(v.appended(planar), m, false);
}

/// What comes out at the end is no louder than what was fed, either.
pub proof fn law_a_flush_is_no_louder(v: Stretch<Binary32>, m: real)
    requires
        is_bounded(v, m),
        0real <= m <= crate::estimate::large(),
    ensures
        all_within(
            crate::wsola::followed(v.emitted(true), v.ran(true).tail()),
            bound_of(m),
        ),
{
    lemma_run_is_bounded(v, m, true);
    let end = v.ran(true);
    crate::wsola::lemma_emitted_len(v, true);
    crate::wsola::lemma_ran_channels(v, true);
    let tail = end.tail();
    if end.placed {
        let upto = (end.frame - 1) * end.hs + end.n;
        assert forall|c: int, i: int|
            0 <= c < tail.len() && 0 <= i < tail[c].len() implies within(
            #[trigger] tail[c][i],
            bound_of(m),
        ) by {
            assert(upto - end.out_start == end.n);
            assert(is_weighted(end.out[c][i], end.win_sum[i], m, grains(end, i)));
            lemma_weighted_grows(end.out[c][i], end.win_sum[i], m, grains(end, i), 2);
            lemma_normalized(end.out[c][i], end.win_sum[i], m);
        }
    }
    lemma_followed(v.emitted(true), tail, bound_of(m));
}

} // verus!
