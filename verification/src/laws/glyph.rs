//! A glyph as a reader of the standard sees it.

use vstd::prelude::*;
use crate::bytes::{
    be16, enc16, lemma_be16_enc16, lemma_be16_moved, lemma_numbers16, numbers16, wrap16, wrap32,
};
use crate::glyf::{
    all_dots, bounds, dots, ends, extent, flag_bytes, glyph_bytes, glyph_head, has_end, origin,
    point_flags, step, step_bytes, step_flags, steps, xs, ys, Dot,
};
use crate::outline::Rec;

verus! {

broadcast use crate::bytes::group_encoded_lengths;

/// The bit of weight `w` is set.
pub open spec fn bit(f: u8, w: int) -> bool {
    f as int / w % 2 == 1
}

/// The number of contours.
pub open spec fn contour_count(g: Seq<u8>) -> int {
    be16(g, 0)
}

/// The last point of contour `i`.
pub open spec fn contour_end(g: Seq<u8>, i: int) -> int {
    be16(g, 10 + 2 * i)
}

/// The number of points.
pub open spec fn point_count(g: Seq<u8>) -> int {
    contour_end(g, contour_count(g) - 1) + 1
}

/// Where the flags begin, after the instructions.
pub open spec fn flags_start(g: Seq<u8>) -> int {
    12 + 2 * contour_count(g) + be16(g, 10 + 2 * contour_count(g))
}

/// The flags of point `i`, where no flags are repeated.
pub open spec fn flags_of(g: Seq<u8>, i: int) -> u8 {
    g[flags_start(g) + i]
}

/// The bytes of a step. One bit tells that it is short, one that it is positive or, where it is not
/// short, that there is none.
pub open spec fn step_len(f: u8, short: int, same: int) -> int {
    if bit(f, short) {
        1
    } else if bit(f, same) {
        0
    } else {
        2
    }
}

/// Where the step to point `i` stands, among steps that begin at `start`.
pub open spec fn step_pos(g: Seq<u8>, start: int, short: int, same: int, i: int) -> int
    decreases i,
{
    if i <= 0 {
        start
    } else {
        step_pos(g, start, short, same, i - 1) + step_len(flags_of(g, i - 1), short, same)
    }
}

/// The step at `pos`.
pub open spec fn step_at(g: Seq<u8>, pos: int, f: u8, short: int, same: int) -> int {
    if bit(f, short) {
        if bit(f, same) {
            g[pos] as int
        } else {
            -(g[pos] as int)
        }
    } else if bit(f, same) {
        0
    } else {
        wrap16(be16(g, pos)) as int
    }
}

/// A coordinate of point `i`: the sum of the steps to it.
pub open spec fn coord_of(g: Seq<u8>, start: int, short: int, same: int, i: int) -> int
    decreases i + 1,
{
    if i < 0 {
        0
    } else {
        coord_of(g, start, short, same, i - 1) + step_at(
            g,
            step_pos(g, start, short, same, i),
            flags_of(g, i),
            short,
            same,
        )
    }
}

/// Where the steps in x begin.
pub open spec fn x_start(g: Seq<u8>) -> int {
    flags_start(g) + point_count(g)
}

/// Where the steps in y begin.
pub open spec fn y_start(g: Seq<u8>) -> int {
    step_pos(g, x_start(g), 2, 16, point_count(g))
}

/// A contour ends at point `i`.
pub open spec fn ends_contour(g: Seq<u8>, i: int) -> bool {
    exists|j: int| 0 <= j < contour_count(g) && #[trigger] contour_end(g, j) == i
}

/// The points of a simple glyph, as the standard has them read.
pub open spec fn decoded(g: Seq<u8>) -> Seq<Dot> {
    Seq::new(
        point_count(g) as nat,
        |i: int|
            Dot {
                x: coord_of(g, x_start(g), 2, 16, i) as i32,
                y: coord_of(g, y_start(g), 4, 32, i) as i32,
                on: bit(flags_of(g, i), 1),
                end: ends_contour(g, i),
            },
    )
}

/// The step to coordinate `i` fits in 16 bits.
pub open spec fn step_fits(cs: Seq<i32>, i: int) -> bool {
    -0x8000 <= cs[i] - origin(cs, i) <= 0x7FFF
}

/// The numbers of points and contours fit in 16 bits, and the last point ends a contour.
pub open spec fn counts_fit(ds: Seq<Dot>) -> bool {
    &&& 0 < ds.len() <= 0x1_0000
    &&& ends(ds, ds.len() as int).len() < 0x8000
    &&& ds.last().end
}

/// The points fit the format: their number, that of the contours and the steps between points fit
/// in 16 bits, and the last point ends a contour.
pub open spec fn fits(ds: Seq<Dot>) -> bool {
    &&& counts_fit(ds)
    &&& forall|i: int| 0 <= i < ds.len() ==> #[trigger] step_fits(xs(ds), i)
    &&& forall|i: int| 0 <= i < ds.len() ==> #[trigger] step_fits(ys(ds), i)
}

proof fn lemma_ends(ds: Seq<Dot>, k: int)
    requires
        0 <= k <= ds.len(),
    ensures
        ends(ds, k).len() <= k,
        forall|j: int| 0 <= j < ends(ds, k).len() ==> 0 <= #[trigger] ends(ds, k)[j] < k,
        forall|i: int| 0 <= i < k ==> (ds[i].end <==> #[trigger] ends(ds, k).contains(i)),
    decreases k,
{
    if k > 0 {
        lemma_ends(ds, k - 1);
        let before = ends(ds, k - 1);
        assert forall|i: int| 0 <= i < k implies (ds[i].end <==> #[trigger] ends(
            ds,
            k,
        ).contains(i)) by {
            if i < k - 1 {
                assert(ds[i].end <==> before.contains(i));
                if before.contains(i) {
                    let j = before.index_of(i);
                    assert(ends(ds, k)[j] == i);
                }
                if ends(ds, k).contains(i) {
                    let j = ends(ds, k).index_of(i);
                    assert(before[j] == i);
                }
            } else {
                if ds[i].end {
                    assert(ends(ds, k)[before.len() as int] == i);
                }
                if ends(ds, k).contains(i) {
                    let j = ends(ds, k).index_of(i);
                    if !ds[i].end {
                        assert(before[j] == i);
                    }
                }
            }
        }
    }
}

/// The flags tell how a step is written.
pub open spec fn tells(f: u8, short: int, same: int, d: i32) -> bool {
    &&& bit(f, short) == (step_flags(d) % 2 == 1)
    &&& bit(f, same) == (step_flags(d) >= 8)
}

/// What the flags tell of a point.
proof fn lemma_flags(ds: Seq<Dot>, i: int)
    ensures
        bit(point_flags(ds, i), 1) == ds[i].on,
        !bit(point_flags(ds, i), 8),
        tells(point_flags(ds, i), 2, 16, step(xs(ds), i)),
        tells(point_flags(ds, i), 4, 32, step(ys(ds), i)),
{
}

/// A step can be read back.
proof fn lemma_step(g: Seq<u8>, pos: int, f: u8, short: int, same: int, d: i32)
    requires
        -0x8000 <= d <= 0x7FFF,
        tells(f, short, same, d),
        forall|j: int| 0 <= j < step_bytes(d).len() ==> g[pos + j] == #[trigger] step_bytes(d)[j],
    ensures
        step_len(f, short, same) == step_bytes(d).len(),
        step_at(g, pos, f, short, same) == d,
{
    let bytes = step_bytes(d);
    if bytes.len() > 0 {
        assert(g[pos + 0] == bytes[0]);
    }
    if bytes.len() == 2 {
        assert(g[pos + 1] == bytes[1]);
        lemma_be16_enc16(d as int);
        assert(be16(g, pos) == d as int % 0x1_0000);
    }
}

/// Where a step stands among the steps.
proof fn lemma_steps(cs: Seq<i32>, i: int, n: int)
    requires
        0 <= i < n,
    ensures
        steps(cs, i).len() + step_bytes(step(cs, i)).len() <= steps(cs, n).len(),
        forall|j: int|
            0 <= j < step_bytes(step(cs, i)).len() ==> steps(cs, n)[steps(cs, i).len() + j]
                == #[trigger] step_bytes(step(cs, i))[j],
    decreases n,
{
    if i < n - 1 {
        lemma_steps(cs, i, n - 1);
    }
}

/// The head of a glyph can be read back.
proof fn lemma_head(ds: Seq<Dot>)
    requires
        counts_fit(ds),
    ensures
        ({
            let g = glyph_bytes(ds);
            let es = ends(ds, ds.len() as int);
            &&& contour_count(g) == es.len()
            &&& es.len() > 0
            &&& forall|j: int| 0 <= j < es.len() ==> #[trigger] contour_end(g, j) == es[j]
            &&& es.last() == ds.len() - 1
            &&& point_count(g) == ds.len()
            &&& flags_start(g) == glyph_head(ds).len()
        }),
{
    reveal(glyph_bytes);
    let n = ds.len() as int;
    let g = glyph_bytes(ds);
    let es = ends(ds, n);
    let b = bounds(ds);
    let c = es.len() as int;
    lemma_ends(ds, n);
    lemma_numbers16(es, c);
    let front = enc16(c) + enc16(b.0 as int) + enc16(b.1 as int) + enc16(b.2 as int) + enc16(
        b.3 as int,
    );
    assert(front.len() == 10);
    let nums = numbers16(es, c);
    assert(glyph_head(ds) == front + nums + enc16(0));
    assert forall|k: int| 0 <= k < glyph_head(ds).len() implies #[trigger] g[k] == glyph_head(
        ds,
    )[k] by {}
    lemma_be16_enc16(c);
    assert(g[0] == enc16(c)[0] && g[1] == enc16(c)[1]);
    assert(contour_count(g) == c);
    assert(ds[n - 1].end);
    assert(es == ends(ds, n - 1).push(n - 1));
    assert forall|j: int| 0 <= j < c implies #[trigger] contour_end(g, j) == es[j] by {
        assert(g[10 + 2 * j] == nums[2 * j]);
        assert(g[10 + 2 * j + 1] == nums[2 * j + 1]);
        assert(be16(nums, 2 * j) == es[j] % 0x1_0000);
    }
    assert(contour_end(g, c - 1) == n - 1);
    assert(g[10 + 2 * c] == enc16(0)[0]);
    assert(g[10 + 2 * c + 1] == enc16(0)[1]);
    lemma_be16_enc16(0);
}

/// Where the parts of a glyph stand.
proof fn lemma_layout(ds: Seq<Dot>)
    requires
        counts_fit(ds),
    ensures
        ({
            let g = glyph_bytes(ds);
            let n = ds.len() as int;
            let h = glyph_head(ds).len() as int;
            &&& forall|i: int| 0 <= i < n ==> #[trigger] flags_of(g, i) == point_flags(ds, i)
            &&& x_start(g) == h + n
            &&& forall|k: int|
                0 <= k < steps(xs(ds), n).len() ==> g[h + n + k] == #[trigger] steps(xs(ds), n)[k]
            &&& forall|k: int|
                0 <= k < steps(ys(ds), n).len() ==> g[h + n + steps(xs(ds), n).len() + k]
                    == #[trigger] steps(ys(ds), n)[k]
        }),
{
    let g = glyph_bytes(ds);
    let n = ds.len() as int;
    let head = glyph_head(ds);
    let h = head.len() as int;
    reveal(glyph_bytes);
    lemma_head(ds);
    assert(g == head + flag_bytes(ds) + steps(xs(ds), n) + steps(ys(ds), n));
    assert forall|i: int| 0 <= i < n implies #[trigger] flags_of(g, i) == point_flags(ds, i) by {
        assert(g[h + i] == flag_bytes(ds)[i]);
    }
}

/// The steps from `start` on can be read back.
proof fn lemma_read(g: Seq<u8>, cs: Seq<i32>, start: int, short: int, same: int, i: int)
    requires
        0 <= i <= cs.len(),
        forall|j: int| 0 <= j < cs.len() ==> #[trigger] step_fits(cs, j),
        forall|j: int|
            0 <= j < cs.len() ==> tells(#[trigger] flags_of(g, j), short, same, step(cs, j)),
        forall|k: int|
            0 <= k < steps(cs, cs.len() as int).len() ==> g[start + k] == #[trigger] steps(
                cs,
                cs.len() as int,
            )[k],
    ensures
        step_pos(g, start, short, same, i) == start + steps(cs, i).len(),
        i > 0 ==> coord_of(g, start, short, same, i - 1) == cs[i - 1],
    decreases i,
{
    if i > 0 {
        let n = cs.len() as int;
        let j = i - 1;
        lemma_read(g, cs, start, short, same, j);
        let f = flags_of(g, j);
        let d = step(cs, j);
        let pos = start + steps(cs, j).len();
        assert(d == cs[j] - origin(cs, j) && -0x8000 <= d <= 0x7FFF) by {
            assert(step_fits(cs, j));
        }
        assert(step_at(g, pos, f, short, same) == d && step_len(f, short, same) == step_bytes(
            d,
        ).len()) by {
            lemma_steps(cs, j, n);
            let all = steps(cs, n);
            assert forall|m: int| 0 <= m < step_bytes(d).len() implies g[pos + m]
                == #[trigger] step_bytes(d)[m] by {
                assert(g[start + (steps(cs, j).len() + m)] == all[steps(cs, j).len() + m]);
            }
            lemma_step(g, pos, f, short, same, d);
        }
        assert(steps(cs, i) == steps(cs, j) + step_bytes(d));
        assert(coord_of(g, start, short, same, j) == coord_of(g, start, short, same, j - 1) + d);
        if j == 0 {
            assert(coord_of(g, start, short, same, -1) == 0);
        }
    }
}

/// Two numbers agree in their low 16 bits.
pub open spec fn same_low(a: int, b: int) -> bool {
    (a - b) % 0x1_0000 == 0
}

proof fn lemma_same_low(a: int, o: int, s: int, d: int, c: int)
    requires
        same_low(a, o),
        same_low(s, d),
        same_low(d, c - o),
    ensures
        same_low(a + s, c),
{
}

proof fn lemma_wrapped_low(v: int)
    ensures
        same_low(wrap32(v) as int, v),
        same_low(wrap16(v % 0x1_0000) as int, v),
{
}

/// A step can be read back in 16 bits.
proof fn lemma_step_low(g: Seq<u8>, pos: int, f: u8, short: int, same: int, d: i32)
    requires
        tells(f, short, same, d),
        forall|j: int| 0 <= j < step_bytes(d).len() ==> g[pos + j] == #[trigger] step_bytes(d)[j],
    ensures
        step_len(f, short, same) == step_bytes(d).len(),
        same_low(step_at(g, pos, f, short, same), d as int),
{
    let bytes = step_bytes(d);
    if bytes.len() > 0 {
        assert(g[pos + 0] == bytes[0]);
    }
    if bytes.len() == 2 {
        assert(g[pos + 1] == bytes[1]);
        lemma_be16_enc16(d as int);
        assert(be16(g, pos) == d as int % 0x1_0000);
        lemma_wrapped_low(d as int);
    }
}

/// The steps from `start` on can be read back in 16 bits.
proof fn lemma_read_low(g: Seq<u8>, cs: Seq<i32>, start: int, short: int, same: int, i: int)
    requires
        0 <= i <= cs.len(),
        forall|j: int|
            0 <= j < cs.len() ==> tells(#[trigger] flags_of(g, j), short, same, step(cs, j)),
        forall|k: int|
            0 <= k < steps(cs, cs.len() as int).len() ==> g[start + k] == #[trigger] steps(
                cs,
                cs.len() as int,
            )[k],
    ensures
        step_pos(g, start, short, same, i) == start + steps(cs, i).len(),
        i > 0 ==> same_low(coord_of(g, start, short, same, i - 1), cs[i - 1] as int),
    decreases i,
{
    if i > 0 {
        let n = cs.len() as int;
        let j = i - 1;
        lemma_read_low(g, cs, start, short, same, j);
        let f = flags_of(g, j);
        let d = step(cs, j);
        let pos = start + steps(cs, j).len();
        assert(same_low(step_at(g, pos, f, short, same), d as int) && step_len(f, short, same)
            == step_bytes(d).len()) by {
            lemma_steps(cs, j, n);
            let all = steps(cs, n);
            assert forall|m: int| 0 <= m < step_bytes(d).len() implies g[pos + m]
                == #[trigger] step_bytes(d)[m] by {
                assert(g[start + (steps(cs, j).len() + m)] == all[steps(cs, j).len() + m]);
            }
            lemma_step_low(g, pos, f, short, same, d);
        }
        assert(steps(cs, i) == steps(cs, j) + step_bytes(d));
        if j == 0 {
            assert(coord_of(g, start, short, same, -1) == 0);
        }
        let before = coord_of(g, start, short, same, j - 1);
        let s = step_at(g, pos, f, short, same);
        assert(coord_of(g, start, short, same, j) == before + s);
        lemma_wrapped_low(cs[j] - origin(cs, j));
        lemma_same_low(before, origin(cs, j) as int, s, d as int, cs[j] as int);
    }
}

/// Whatever the steps between its points, a reader of the standard finds each coordinate of an
/// encoded glyph in its low 16 bits, and what is told of each point.
pub proof fn law_low_bits_are_read_back(ds: Seq<Dot>, i: int)
    requires
        counts_fit(ds),
        0 <= i < ds.len(),
    ensures
        ({
            let g = glyph_bytes(ds);
            &&& decoded(g).len() == ds.len()
            &&& decoded(g)[i].on == ds[i].on
            &&& decoded(g)[i].end == ds[i].end
            &&& same_low(coord_of(g, x_start(g), 2, 16, i), ds[i].x as int)
            &&& same_low(coord_of(g, y_start(g), 4, 32, i), ds[i].y as int)
        }),
{
    let g = glyph_bytes(ds);
    let n = ds.len() as int;
    let es = ends(ds, n);
    lemma_head(ds);
    lemma_layout(ds);
    lemma_ends(ds, n);
    assert forall|j: int| 0 <= j < n implies tells(
        #[trigger] flags_of(g, j),
        2,
        16,
        step(xs(ds), j),
    ) && tells(flags_of(g, j), 4, 32, step(ys(ds), j)) by {
        lemma_flags(ds, j);
    }
    lemma_read_low(g, xs(ds), x_start(g), 2, 16, n);
    lemma_read_low(g, xs(ds), x_start(g), 2, 16, i + 1);
    lemma_read_low(g, ys(ds), y_start(g), 4, 32, i + 1);
    lemma_flags(ds, i);
    assert(flags_of(g, i) == point_flags(ds, i));
    assert(ds[i].end <==> es.contains(i));
    if es.contains(i) {
        let j = es.index_of(i);
        assert(contour_end(g, j) == i);
    }
    if ends_contour(g, i) {
        let j = choose|j: int| 0 <= j < contour_count(g) && #[trigger] contour_end(g, j) == i;
        assert(es[j] == i);
    }
}

/// A reader of the standard finds in an encoded glyph the points that it was encoded from: where
/// they are, whether they lie on the curve, and where contours end.
pub proof fn law_glyph_is_read_back(ds: Seq<Dot>)
    requires
        fits(ds),
    ensures
        decoded(glyph_bytes(ds)) == ds,
{
    let g = glyph_bytes(ds);
    let n = ds.len() as int;
    let es = ends(ds, n);
    lemma_head(ds);
    lemma_layout(ds);
    lemma_ends(ds, n);
    assert forall|j: int| 0 <= j < n implies tells(
        #[trigger] flags_of(g, j),
        2,
        16,
        step(xs(ds), j),
    ) && tells(flags_of(g, j), 4, 32, step(ys(ds), j)) by {
        lemma_flags(ds, j);
    }
    lemma_read(g, xs(ds), x_start(g), 2, 16, n);
    assert forall|i: int| 0 <= i < n implies #[trigger] decoded(g)[i] == ds[i] by {
        lemma_read(g, xs(ds), x_start(g), 2, 16, i + 1);
        lemma_read(g, ys(ds), y_start(g), 4, 32, i + 1);
        lemma_flags(ds, i);
        assert(flags_of(g, i) == point_flags(ds, i));
        assert(ds[i].end <==> es.contains(i));
        if es.contains(i) {
            let j = es.index_of(i);
            assert(contour_end(g, j) == i);
        }
        if ends_contour(g, i) {
            let j = choose|j: int| 0 <= j < contour_count(g) && #[trigger] contour_end(g, j) == i;
            assert(es[j] == i);
        }
    }
    assert(decoded(g) =~= ds);
}

/// No flags of an encoded glyph are repeated: each point has its own.
pub proof fn law_flags_are_not_repeated(ds: Seq<Dot>, i: int)
    requires
        fits(ds),
        0 <= i < ds.len(),
    ensures
        !bit(flags_of(glyph_bytes(ds), i), 8),
{
    lemma_layout(ds);
    lemma_flags(ds, i);
    assert(flags_of(glyph_bytes(ds), i) == point_flags(ds, i));
}

proof fn lemma_extent(ds: Seq<Dot>, k: int, i: int)
    requires
        0 <= i <= k,
    ensures
        extent(ds, k).0 <= ds[i].x <= extent(ds, k).2,
        extent(ds, k).1 <= ds[i].y <= extent(ds, k).3,
        exists|j: int| 0 <= j <= k && (#[trigger] ds[j]).x == extent(ds, k).0,
        exists|j: int| 0 <= j <= k && (#[trigger] ds[j]).y == extent(ds, k).1,
        exists|j: int| 0 <= j <= k && (#[trigger] ds[j]).x == extent(ds, k).2,
        exists|j: int| 0 <= j <= k && (#[trigger] ds[j]).y == extent(ds, k).3,
    decreases k,
{
    if k > 0 {
        lemma_extent(ds, k - 1, if i < k {
            i
        } else {
            0
        });
    } else {
        assert(ds[0].x == extent(ds, 0).0);
    }
    assert(ds[k].x == ds[k].x);
}

/// The coordinates of a point fit in 16 bits.
pub open spec fn dot_fits(d: Dot) -> bool {
    -0x8000 <= d.x <= 0x7FFF && -0x8000 <= d.y <= 0x7FFF
}

/// The bounds of a glyph enclose its points.
pub proof fn law_bounds_enclose_points(ds: Seq<Dot>, i: int)
    requires
        0 <= i < ds.len(),
        forall|j: int| 0 <= j < ds.len() ==> dot_fits(#[trigger] ds[j]),
    ensures
        bounds(ds).0 <= ds[i].x <= bounds(ds).2,
        bounds(ds).1 <= ds[i].y <= bounds(ds).3,
{
    lemma_extent(ds, ds.len() - 1, i);
    assert(dot_fits(ds[i]));
}

/// Each side of the bounds of a glyph touches one of its points.
pub proof fn law_bounds_touch_points(ds: Seq<Dot>)
    requires
        ds.len() > 0,
        forall|j: int| 0 <= j < ds.len() ==> dot_fits(#[trigger] ds[j]),
    ensures
        exists|j: int| 0 <= j < ds.len() && (#[trigger] ds[j]).x == bounds(ds).0,
        exists|j: int| 0 <= j < ds.len() && (#[trigger] ds[j]).y == bounds(ds).1,
        exists|j: int| 0 <= j < ds.len() && (#[trigger] ds[j]).x == bounds(ds).2,
        exists|j: int| 0 <= j < ds.len() && (#[trigger] ds[j]).y == bounds(ds).3,
{
    let n = ds.len() - 1;
    lemma_extent(ds, n, 0);
    let a = choose|j: int| 0 <= j <= n && (#[trigger] ds[j]).x == extent(ds, n).0;
    let b = choose|j: int| 0 <= j <= n && (#[trigger] ds[j]).y == extent(ds, n).1;
    let c = choose|j: int| 0 <= j <= n && (#[trigger] ds[j]).x == extent(ds, n).2;
    let d = choose|j: int| 0 <= j <= n && (#[trigger] ds[j]).y == extent(ds, n).3;
    assert(dot_fits(ds[a]) && dot_fits(ds[b]) && dot_fits(ds[c]) && dot_fits(ds[d]));
    assert(ds[a].x == bounds(ds).0);
    assert(ds[b].y == bounds(ds).1);
    assert(ds[c].x == bounds(ds).2);
    assert(ds[d].y == bounds(ds).3);
}

/// A glyph tells its bounds in its head: least x and y, greatest x and y. One without points takes
/// no room.
pub proof fn law_glyph_tells_its_bounds(ds: Seq<Dot>)
    ensures
        ds.len() == 0 <==> glyph_bytes(ds).len() == 0,
        ds.len() > 0 ==> {
            let g = glyph_bytes(ds);
            &&& wrap16(be16(g, 2)) == bounds(ds).0
            &&& wrap16(be16(g, 4)) == bounds(ds).1
            &&& wrap16(be16(g, 6)) == bounds(ds).2
            &&& wrap16(be16(g, 8)) == bounds(ds).3
        },
{
    reveal(glyph_bytes);
    if ds.len() > 0 {
        let n = ds.len() as int;
        let es = ends(ds, n);
        let b = bounds(ds);
        let body = flag_bytes(ds) + steps(xs(ds), n) + steps(ys(ds), n);
        let tail = numbers16(es, es.len() as int) + enc16(0) + body;
        let front = enc16(es.len() as int) + enc16(b.0 as int) + enc16(b.1 as int) + enc16(
            b.2 as int,
        ) + enc16(b.3 as int);
        assert(glyph_bytes(ds) =~= front + tail);
        lemma_bounds_at(es.len() as int, b, tail);
    }
}

proof fn lemma_bounds_at(n: int, b: (i16, i16, i16, i16), tail: Seq<u8>)
    ensures
        ({
            let g = enc16(n) + enc16(b.0 as int) + enc16(b.1 as int) + enc16(b.2 as int) + enc16(
                b.3 as int,
            ) + tail;
            &&& wrap16(be16(g, 2)) == b.0
            &&& wrap16(be16(g, 4)) == b.1
            &&& wrap16(be16(g, 6)) == b.2
            &&& wrap16(be16(g, 8)) == b.3
        }),
{
    let (c, d, e, f) = (enc16(b.0 as int), enc16(b.1 as int), enc16(b.2 as int), enc16(b.3 as int));
    let g = enc16(n) + c + d + e + f + tail;
    lemma_be16_enc16(b.0 as int);
    lemma_be16_enc16(b.1 as int);
    lemma_be16_enc16(b.2 as int);
    lemma_be16_enc16(b.3 as int);
    lemma_be16_moved(g, 2, c, 0);
    lemma_be16_moved(g, 4, d, 0);
    lemma_be16_moved(g, 6, e, 0);
    lemma_be16_moved(g, 8, f, 0);
}

/// A point lies on the curve where the lowest bit of its flags is set, and ends a contour where the
/// highest bit is. Where no point of a record has that bit, the last one ends its contour.
pub proof fn law_flags_tell_of_points(rec: Rec, i: int)
    requires
        0 <= i < rec.points.len(),
    ensures
        dots(rec).len() == rec.points.len(),
        (dots(rec)[i].x, dots(rec)[i].y) == rec.points[i],
        dots(rec)[i].on <==> rec.flags[i] % 2 == 1,
        rec.flags[i] >= 0x80 ==> dots(rec)[i].end,
        rec.flags[i] < 0x80 && dots(rec)[i].end ==> i == rec.points.len() - 1 && forall|j: int|
            0 <= j < rec.points.len() ==> #[trigger] rec.flags[j] < 0x80,
        (forall|j: int| 0 <= j < rec.points.len() ==> #[trigger] rec.flags[j] < 0x80)
            ==> dots(rec)[rec.points.len() - 1].end,
{
    let n = rec.points.len() as int;
    assert forall|j: int| #[trigger] rec.flags[j] & 0x80 != 0 <==> rec.flags[j] >= 0x80 by {
        let f = rec.flags[j];
        assert(f & 0x80u8 != 0 <==> f >= 0x80) by (bit_vector);
    }
    let f = rec.flags[i];
    assert(f & 1u8 != 0 <==> f % 2 == 1) by (bit_vector);
    assert(rec.flags[i] & 0x80 != 0 <==> rec.flags[i] >= 0x80);
    assert forall|j: int| 0 <= j < n && !has_end(rec, n) implies #[trigger] rec.flags[j]
        < 0x80 by {
        assert(rec.flags[j] & 0x80 != 0 <==> rec.flags[j] >= 0x80);
    }
}

proof fn lemma_all_dots(recs: Seq<Rec>, k: int)
    requires
        0 <= k <= recs.len(),
    ensures
        all_dots(recs.take(k), k) == all_dots(recs, k),
    decreases k,
{
    if k > 0 {
        lemma_all_dots(recs, k - 1);
        lemma_all_dots(recs.take(k), k - 1);
        assert(recs.take(k).take(k - 1) =~= recs.take(k - 1));
    }
}

/// The points of a glyph are those of its records, one record after the other.
pub proof fn law_points_follow_records(recs: Seq<Rec>, rec: Rec)
    ensures
        all_dots(Seq::<Rec>::empty(), 0) == Seq::<Dot>::empty(),
        all_dots(recs.push(rec), recs.len() as int + 1) == all_dots(recs, recs.len() as int) + dots(
            rec,
        ),
{
    let all = recs.push(rec);
    let n = recs.len() as int;
    lemma_all_dots(all, n);
    assert(all.take(n) =~= recs);
}

/// Whatever the coordinates, each side of the bounds agrees in its low 16 bits with the point that
/// lies farthest on that side.
pub proof fn law_bounds_keep_low_bits(ds: Seq<Dot>, j: int)
    requires
        0 <= j < ds.len(),
    ensures
        (forall|i: int| 0 <= i < ds.len() ==> ds[j].x <= (#[trigger] ds[i]).x) ==> same_low(
            bounds(ds).0 as int,
            ds[j].x as int,
        ),
        (forall|i: int| 0 <= i < ds.len() ==> ds[j].y <= (#[trigger] ds[i]).y) ==> same_low(
            bounds(ds).1 as int,
            ds[j].y as int,
        ),
        (forall|i: int| 0 <= i < ds.len() ==> ds[j].x >= (#[trigger] ds[i]).x) ==> same_low(
            bounds(ds).2 as int,
            ds[j].x as int,
        ),
        (forall|i: int| 0 <= i < ds.len() ==> ds[j].y >= (#[trigger] ds[i]).y) ==> same_low(
            bounds(ds).3 as int,
            ds[j].y as int,
        ),
{
    let n = ds.len() - 1;
    lemma_extent(ds, n, j);
    let e = extent(ds, n);
    lemma_wrapped_bounds(e.0 as int);
    lemma_wrapped_bounds(e.1 as int);
    lemma_wrapped_bounds(e.2 as int);
    lemma_wrapped_bounds(e.3 as int);
}

proof fn lemma_wrapped_bounds(v: int)
    ensures
        same_low(wrap16(v) as int, v),
{
}

/// A step takes as little room as it can: none where there is no step, one byte up to 255 either
/// way, else two.
pub proof fn law_steps_are_short(ds: Seq<Dot>, i: int)
    requires
        fits(ds),
        0 <= i < ds.len(),
    ensures
        ({
            let f = flags_of(glyph_bytes(ds), i);
            let (x, y) = if i == 0 {
                (0int, 0int)
            } else {
                (ds[i - 1].x as int, ds[i - 1].y as int)
            };
            let (dx, dy) = (ds[i].x - x, ds[i].y - y);
            &&& bit(f, 2) <==> -255 <= dx <= 255 && dx != 0
            &&& bit(f, 4) <==> -255 <= dy <= 255 && dy != 0
            &&& bit(f, 16) <==> 0 <= dx <= 255
            &&& bit(f, 32) <==> 0 <= dy <= 255
            &&& f < 64
        }),
{
    lemma_layout(ds);
    lemma_flags(ds, i);
    assert(flags_of(glyph_bytes(ds), i) == point_flags(ds, i));
    assert(step_fits(xs(ds), i));
    assert(step_fits(ys(ds), i));
}

} // verus!
