//! Colour tables as a reader of the standard sees them.

use vstd::prelude::*;
use crate::bytes::{
    be16, be32, enc16, enc32, lemma_be16_enc16, lemma_be16_moved, lemma_be32_enc32,
    lemma_be32_moved,
};
use crate::color::{
    box_of, chosen_by_map, chosen_by_turn, chosen_from, chosen_palette, color_choice,
    color_index, color_records, color_tables, colors_of, colr_bytes, colr_header, cpal_bytes,
    distinct, first_choice, gid16, ink_pool, interned_all, is_chosen, is_mapped, least,
    paint_block, paint_blocks, paint_entries, place, sorted_choice, sorted_in, visible,
    visible_gradients, visible_inks, with_forced, Ink,
};
use crate::tables::Bounds;

verus! {

broadcast use crate::bytes::group_encoded_lengths;

/// Glyphs rise.
pub open spec fn rising(chosen: Seq<(u16, int)>) -> bool {
    forall|i: int, j: int|
        0 <= i < j < chosen.len() ==> (#[trigger] chosen[i]).0 < (#[trigger] chosen[j]).0
}

/// The glyphs have points and their paints can be seen.
pub open spec fn sound(chosen: Seq<(u16, int)>, is: Seq<Ink>, boxes: Seq<Bounds>) -> bool {
    forall|i: int|
        0 <= i < chosen.len() ==> {
            let (gid, p) = #[trigger] chosen[i];
            gid < boxes.len() && boxes[gid as int] is Some && 0 <= p < is.len() && visible(is[p])
        }
}

proof fn lemma_sorted_in(chosen: Seq<(u16, int)>, e: (u16, int), gid: u16)
    requires
        rising(chosen),
        !is_chosen(chosen, e.0),
    ensures
        rising(sorted_in(chosen, e)),
        sorted_in(chosen, e).len() == chosen.len() + 1,
        sorted_in(chosen, e).last().0 == e.0 || chosen.len() > 0 && sorted_in(chosen, e).last()
            == chosen.last() && chosen.last().0 > e.0,
        is_chosen(sorted_in(chosen, e), gid) <==> is_chosen(chosen, gid) || gid == e.0,
        forall|i: int|
            0 <= i < chosen.len() + 1 ==> #[trigger] sorted_in(chosen, e)[i] == e
                || chosen.contains(sorted_in(chosen, e)[i]),
    decreases chosen.len(),
{
    let now = sorted_in(chosen, e);
    let k = chosen.len() as int;
    if k == 0 || chosen.last().0 <= e.0 {
        if k > 0 {
            assert(chosen[k - 1].0 != e.0);
        }
        assert forall|i: int, j: int| 0 <= i < j < now.len() implies (#[trigger] now[i]).0 < (
        #[trigger] now[j]).0 by {
            if j == k && i < k - 1 {
                assert(chosen[i].0 < chosen[k - 1].0);
            }
        }
        if is_chosen(chosen, gid) {
            let i = choose|i: int| 0 <= i < k && (#[trigger] chosen[i]).0 == gid;
            assert(now[i].0 == gid);
        }
        if gid == e.0 {
            assert(now[k].0 == gid);
        }
        if is_chosen(now, gid) && gid != e.0 {
            let i = choose|i: int| 0 <= i < now.len() && (#[trigger] now[i]).0 == gid;
            assert(chosen[i].0 == gid);
        }
        assert forall|i: int| 0 <= i < k + 1 implies #[trigger] now[i] == e || chosen.contains(
            now[i],
        ) by {
            if i < k {
                assert(chosen[i] == now[i]);
            }
        }
    } else {
        let front = chosen.drop_last();
        assert(rising(front)) by {
            assert forall|i: int, j: int| 0 <= i < j < front.len() implies (#[trigger] front[i]).0
                < (#[trigger] front[j]).0 by {
                assert(chosen[i].0 < chosen[j].0);
            }
        }
        assert(!is_chosen(front, e.0)) by {
            if is_chosen(front, e.0) {
                let i = choose|i: int| 0 <= i < front.len() && (#[trigger] front[i]).0 == e.0;
                assert(chosen[i].0 == e.0);
            }
        }
        lemma_sorted_in(front, e, gid);
        let inner = sorted_in(front, e);
        assert(now == inner.push(chosen.last()));
        if front.len() > 0 {
            assert(chosen[k - 2].0 < chosen[k - 1].0);
        }
        assert(inner.last().0 < chosen.last().0);
        assert forall|i: int, j: int| 0 <= i < j < now.len() implies (#[trigger] now[i]).0 < (
        #[trigger] now[j]).0 by {
            if j == inner.len() {
                if i < inner.len() - 1 {
                    assert(inner[i].0 < inner[inner.len() - 1].0);
                }
            } else {
                assert(inner[i].0 < inner[j].0);
            }
        }
        if is_chosen(inner, gid) {
            let i = choose|i: int| 0 <= i < inner.len() && (#[trigger] inner[i]).0 == gid;
            assert(now[i].0 == gid);
        }
        if is_chosen(chosen, gid) {
            let i = choose|i: int| 0 <= i < k && (#[trigger] chosen[i]).0 == gid;
            if i < k - 1 {
                assert(front[i].0 == gid);
            } else {
                assert(now[inner.len() as int].0 == gid);
            }
        }
        if is_chosen(front, gid) {
            let i = choose|i: int| 0 <= i < front.len() && (#[trigger] front[i]).0 == gid;
            assert(chosen[i].0 == gid);
        }
        if is_chosen(now, gid) {
            let i = choose|i: int| 0 <= i < now.len() && (#[trigger] now[i]).0 == gid;
            if i < inner.len() {
                assert(inner[i].0 == gid);
            } else {
                assert(chosen[k - 1].0 == gid);
            }
        }
        assert forall|i: int| 0 <= i < k + 1 implies #[trigger] now[i] == e || chosen.contains(
            now[i],
        ) by {
            if i < inner.len() {
                assert(inner[i] == now[i]);
                if inner[i] != e {
                    let m = front.index_of(inner[i]);
                    assert(chosen[m] == now[i]);
                }
            } else {
                assert(chosen[k - 1] == now[i]);
            }
        }
    }
}

/// No glyph stands twice.
pub open spec fn once(chosen: Seq<(u16, int)>) -> bool {
    forall|i: int, j: int|
        0 <= i < j < chosen.len() ==> (#[trigger] chosen[i]).0 != (#[trigger] chosen[j]).0
}

proof fn lemma_sorted_choice(chosen: Seq<(u16, int)>, k: int, gid: u16)
    requires
        once(chosen),
        0 <= k <= chosen.len(),
    ensures
        rising(sorted_choice(chosen, k)),
        sorted_choice(chosen, k).len() == k,
        is_chosen(sorted_choice(chosen, k), gid) <==> is_chosen(chosen.take(k), gid),
        forall|i: int|
            0 <= i < k ==> chosen.take(k).contains(#[trigger] sorted_choice(chosen, k)[i]),
    decreases k,
{
    if k > 0 {
        let e = chosen[k - 1];
        let before = sorted_choice(chosen, k - 1);
        let now = sorted_choice(chosen, k);
        lemma_sorted_choice(chosen, k - 1, gid);
        lemma_sorted_choice(chosen, k - 1, e.0);
        let front = chosen.take(k - 1);
        let all = chosen.take(k);
        assert(!is_chosen(front, e.0)) by {
            if is_chosen(front, e.0) {
                let i = choose|i: int| 0 <= i < front.len() && (#[trigger] front[i]).0 == e.0;
                assert(chosen[i].0 != chosen[k - 1].0);
            }
        }
        lemma_sorted_in(before, e, gid);
        if is_chosen(front, gid) {
            let i = choose|i: int| 0 <= i < front.len() && (#[trigger] front[i]).0 == gid;
            assert(all[i].0 == gid);
        }
        if gid == e.0 {
            assert(all[k - 1].0 == gid);
        }
        if is_chosen(all, gid) && gid != e.0 {
            let i = choose|i: int| 0 <= i < all.len() && (#[trigger] all[i]).0 == gid;
            assert(front[i].0 == gid);
        }
        assert forall|i: int| 0 <= i < k implies all.contains(#[trigger] now[i]) by {
            if now[i] == e {
                assert(all[k - 1] == e);
            } else {
                let m = before.index_of(now[i]);
                assert(front.contains(before[m]));
                let q = front.index_of(before[m]);
                assert(all[q] == now[i]);
            }
        }
    }
}

proof fn lemma_pool(is: Seq<Ink>, k: int)
    requires
        0 <= k <= is.len(),
    ensures
        forall|i: int|
            0 <= i < visible_inks(is, k).len() ==> 0 <= #[trigger] visible_inks(is, k)[i] < k
                && visible(is[visible_inks(is, k)[i]]),
        forall|i: int|
            0 <= i < visible_gradients(is, k).len() ==> 0 <= #[trigger] visible_gradients(is, k)[i]
                < k && visible(is[visible_gradients(is, k)[i]]),
    decreases k,
{
    if k > 0 {
        lemma_pool(is, k - 1);
        let (vs, gs) = (visible_inks(is, k - 1), visible_gradients(is, k - 1));
        assert forall|i: int| 0 <= i < visible_inks(is, k).len() implies 0 <= #[trigger] visible_inks(
            is,
            k,
        )[i] < k && visible(is[visible_inks(is, k)[i]]) by {
            if i < vs.len() {
                assert(visible_inks(is, k)[i] == vs[i]);
            }
        }
        assert forall|i: int| 0 <= i < visible_gradients(is, k).len() implies 0
            <= #[trigger] visible_gradients(is, k)[i] < k && visible(
            is[visible_gradients(is, k)[i]],
        ) by {
            if i < gs.len() {
                assert(visible_gradients(is, k)[i] == gs[i]);
            }
        }
    }
}

/// The choice by a map: each glyph below `k` that the map gives a paint, and no other.
proof fn lemma_by_map(
    is: Seq<Ink>,
    map: Seq<Option<u8>>,
    boxes: Seq<Bounds>,
    k: int,
    gid: u16,
)
    requires
        0 <= k <= 0x1_0000,
        k <= boxes.len(),
        k <= map.len(),
    ensures
        sound(chosen_by_map(is, map, boxes, k), is, boxes),
        once(chosen_by_map(is, map, boxes, k)),
        forall|i: int|
            0 <= i < chosen_by_map(is, map, boxes, k).len() ==> (#[trigger] chosen_by_map(
                is,
                map,
                boxes,
                k,
            )[i]).0 < k,
        is_chosen(chosen_by_map(is, map, boxes, k), gid) <==> gid < k && is_mapped(
            is,
            map,
            boxes,
            gid as int,
        ),
    decreases k,
{
    if k > 0 {
        lemma_by_map(is, map, boxes, k - 1, gid);
        let before = chosen_by_map(is, map, boxes, k - 1);
        let now = chosen_by_map(is, map, boxes, k);
        if is_mapped(is, map, boxes, k - 1) {
            lemma_pushed(before, (gid16(k - 1), map[k - 1].unwrap() as int), gid);
        }
    }
}

/// The choice by turn: each glyph below `k` that has points, and no other.
proof fn lemma_by_turn(is: Seq<Ink>, pool: Seq<int>, boxes: Seq<Bounds>, k: int, gid: u16)
    requires
        0 <= k <= 0x1_0000,
        k <= boxes.len(),
        pool.len() > 0,
        forall|i: int|
            0 <= i < pool.len() ==> 0 <= #[trigger] pool[i] < is.len() && visible(is[pool[i]]),
    ensures
        sound(chosen_by_turn(pool, boxes, k), is, boxes),
        once(chosen_by_turn(pool, boxes, k)),
        forall|i: int|
            0 <= i < chosen_by_turn(pool, boxes, k).len() ==> (#[trigger] chosen_by_turn(
                pool,
                boxes,
                k,
            )[i]).0 < k,
        is_chosen(chosen_by_turn(pool, boxes, k), gid) <==> gid < k && boxes[gid as int] is Some,
    decreases k,
{
    if k > 0 {
        lemma_by_turn(is, pool, boxes, k - 1, gid);
        let before = chosen_by_turn(pool, boxes, k - 1);
        if boxes[k - 1] is Some {
            let t = (k - 1) % (pool.len() as int);
            assert(0 <= t < pool.len()) by (nonlinear_arith)
                requires
                    t == (k - 1) % (pool.len() as int),
                    pool.len() > 0,
            ;
            lemma_pushed(before, (gid16(k - 1), pool[t]), gid);
        }
    }
}

/// One more glyph is chosen.
proof fn lemma_pushed(chosen: Seq<(u16, int)>, e: (u16, int), gid: u16)
    requires
        once(chosen),
        forall|i: int| 0 <= i < chosen.len() ==> (#[trigger] chosen[i]).0 != e.0,
    ensures
        once(chosen.push(e)),
        is_chosen(chosen.push(e), gid) <==> is_chosen(chosen, gid) || gid == e.0,
{
    let now = chosen.push(e);
    let k = chosen.len() as int;
    assert forall|i: int, j: int| 0 <= i < j < now.len() implies (#[trigger] now[i]).0 != (
    #[trigger] now[j]).0 by {
        if j < k {
            assert(chosen[i].0 != chosen[j].0);
        } else {
            assert(chosen[i].0 != e.0);
        }
    }
    if is_chosen(chosen, gid) {
        let i = choose|i: int| 0 <= i < k && (#[trigger] chosen[i]).0 == gid;
        assert(now[i].0 == gid);
    }
    if gid == e.0 {
        assert(now[k].0 == gid);
    }
    if is_chosen(now, gid) && gid != e.0 {
        let i = choose|i: int| 0 <= i < now.len() && (#[trigger] now[i]).0 == gid;
        assert(chosen[i].0 == gid);
    }
}

proof fn lemma_with_forced(
    chosen: Seq<(u16, int)>,
    p: int,
    is: Seq<Ink>,
    boxes: Seq<Bounds>,
    forced: Seq<u16>,
    k: int,
    gid: u16,
)
    requires
        0 <= k <= forced.len(),
        once(chosen),
        sound(chosen, is, boxes),
        0 <= p < is.len(),
        visible(is[p]),
    ensures
        once(with_forced(chosen, p, boxes, forced, k)),
        sound(with_forced(chosen, p, boxes, forced, k), is, boxes),
        is_chosen(with_forced(chosen, p, boxes, forced, k), gid) <==> is_chosen(chosen, gid)
            || forced.take(k).contains(gid) && gid < boxes.len() && boxes[gid as int] is Some,
    decreases k,
{
    if k > 0 {
        let g = forced[k - 1];
        let before = with_forced(chosen, p, boxes, forced, k - 1);
        let (front, all) = (forced.take(k - 1), forced.take(k));
        lemma_with_forced(chosen, p, is, boxes, forced, k - 1, gid);
        lemma_with_forced(chosen, p, is, boxes, forced, k - 1, g);
        if g < boxes.len() && boxes[g as int] is Some && !is_chosen(before, g) {
            lemma_pushed(before, (g, p), gid);
        }
        if front.contains(gid) {
            let i = front.index_of(gid);
            assert(all[i] == gid);
        }
        if gid == g {
            assert(all[k - 1] == gid);
        }
        if all.contains(gid) && gid != g {
            let i = all.index_of(gid);
            assert(front[i] == gid);
        }
    }
}

/// A glyph gets colour: it has points, and the map gives it a paint that can be seen, or there is
/// no map, or it is to have colour in any case.
pub open spec fn gets_color(
    is: Seq<Ink>,
    map: Option<Seq<Option<u8>>>,
    boxes: Seq<Bounds>,
    n: int,
    forced: Seq<u16>,
    gid: u16,
) -> bool {
    &&& gid < boxes.len()
    &&& boxes[gid as int] is Some
    &&& forced.contains(gid) || gid < n && match map {
        Some(m) => gid < m.len() && is_mapped(is, m, boxes, gid as int),
        None => true,
    }
}

/// How many glyphs are gone through for the first choice.
pub open spec fn walked(map: Option<Seq<Option<u8>>>, boxes: Seq<Bounds>, n: int) -> int {
    let glyphs = least(n, boxes.len() as int);
    match map {
        Some(m) => least(glyphs, m.len() as int),
        None => glyphs,
    }
}

/// The choice is exactly of the glyphs that get colour, each of them once and in rising order, with
/// paints that can be seen.
pub proof fn law_choice_is_right(
    is: Seq<Ink>,
    map: Option<Seq<Option<u8>>>,
    boxes: Seq<Bounds>,
    n: int,
    forced: Seq<u16>,
    gid: u16,
)
    requires
        visible_inks(is, is.len() as int).len() > 0,
        0 <= walked(map, boxes, n) <= 0x1_0000,
    ensures
        rising(color_choice(is, map, boxes, n, forced)),
        sound(color_choice(is, map, boxes, n, forced), is, boxes),
        is_chosen(color_choice(is, map, boxes, n, forced), gid) <==> gets_color(
            is,
            map,
            boxes,
            n,
            forced,
            gid,
        ),
{
    let first = first_choice(is, map, boxes, n);
    let p = visible_inks(is, is.len() as int)[0];
    let glyphs = least(n, boxes.len() as int);
    lemma_pool(is, is.len() as int);
    match map {
        Some(m) => lemma_by_map(is, m, boxes, least(glyphs, m.len() as int), gid),
        None => lemma_by_turn(is, ink_pool(is), boxes, glyphs, gid),
    }
    let k = forced.len() as int;
    lemma_with_forced(first, p, is, boxes, forced, k, gid);
    assert(forced.take(k) =~= forced);
    let all = with_forced(first, p, boxes, forced, k);
    let len = all.len() as int;
    lemma_sorted_choice(all, len, gid);
    assert(all.take(len) =~= all);
    let out = color_choice(is, map, boxes, n, forced);
    assert(out == sorted_choice(all, len));
    assert forall|i: int| 0 <= i < out.len() implies {
        let (g, q) = #[trigger] out[i];
        g < boxes.len() && boxes[g as int] is Some && 0 <= q < is.len() && visible(is[q])
    } by {
        assert(all.contains(out[i]));
        let j = all.index_of(out[i]);
        assert(all[j] == out[i]);
    }
}

/// The entries of one glyph, in their order.
pub open spec fn entries_of(chosen: Seq<(u16, int)>, gid: u16) -> Seq<(u16, int)>
    decreases chosen.len(),
{
    if chosen.len() == 0 {
        Seq::empty()
    } else if chosen.last().0 == gid {
        entries_of(chosen.drop_last(), gid).push(chosen.last())
    } else {
        entries_of(chosen.drop_last(), gid)
    }
}

/// A glyph is chosen where it has entries.
pub proof fn lemma_entries_chosen(chosen: Seq<(u16, int)>, gid: u16)
    ensures
        is_chosen(chosen, gid) <==> entries_of(chosen, gid).len() > 0,
    decreases chosen.len(),
{
    if chosen.len() > 0 {
        let front = chosen.drop_last();
        let k = chosen.len() - 1;
        lemma_entries_chosen(front, gid);
        if is_chosen(front, gid) {
            let i = choose|i: int| 0 <= i < front.len() && (#[trigger] front[i]).0 == gid;
            assert(chosen[i].0 == gid);
        }
        if chosen.last().0 == gid {
            assert(chosen[k].0 == gid);
        }
        if is_chosen(chosen, gid) && chosen.last().0 != gid {
            let i = choose|i: int| 0 <= i < chosen.len() && (#[trigger] chosen[i]).0 == gid;
            assert(front[i].0 == gid);
        }
    }
}

/// The entries of a glyph after one more choice.
pub proof fn lemma_entries_pushed(chosen: Seq<(u16, int)>, e: (u16, int), gid: u16)
    ensures
        entries_of(chosen.push(e), gid) == if e.0 == gid {
            entries_of(chosen, gid).push(e)
        } else {
            entries_of(chosen, gid)
        },
{
    assert(chosen.push(e).drop_last() =~= chosen);
}

/// Glyphs do not fall.
pub open spec fn level(chosen: Seq<(u16, int)>) -> bool {
    forall|i: int, j: int|
        0 <= i < j < chosen.len() ==> (#[trigger] chosen[i]).0 <= (#[trigger] chosen[j]).0
}

/// Sorting an entry in puts it behind the entries of its glyph.
proof fn lemma_sorted_in_entries(chosen: Seq<(u16, int)>, e: (u16, int), gid: u16)
    requires
        level(chosen),
    ensures
        level(sorted_in(chosen, e)),
        sorted_in(chosen, e).len() == chosen.len() + 1,
        chosen.len() > 0 && chosen.last().0 > e.0 ==> sorted_in(chosen, e).last() == chosen.last(),
        chosen.len() == 0 || chosen.last().0 <= e.0 ==> sorted_in(chosen, e).last() == e,
        entries_of(sorted_in(chosen, e), gid) == entries_of(chosen.push(e), gid),
    decreases chosen.len(),
{
    let now = sorted_in(chosen, e);
    let k = chosen.len() as int;
    lemma_entries_pushed(chosen, e, gid);
    if k == 0 || chosen.last().0 <= e.0 {
        assert forall|i: int, j: int| 0 <= i < j < now.len() implies (#[trigger] now[i]).0 <= (
        #[trigger] now[j]).0 by {
            if j == k && i < k - 1 {
                assert(chosen[i].0 <= chosen[k - 1].0);
            }
        }
    } else {
        let front = chosen.drop_last();
        let last = chosen.last();
        assert(level(front)) by {
            assert forall|i: int, j: int| 0 <= i < j < front.len() implies (#[trigger] front[i]).0
                <= (#[trigger] front[j]).0 by {
                assert(chosen[i].0 <= chosen[j].0);
            }
        }
        lemma_sorted_in_entries(front, e, gid);
        lemma_entries_pushed(front, e, gid);
        let inner = sorted_in(front, e);
        lemma_entries_pushed(inner, last, gid);
        assert(inner.last().0 <= last.0) by {
            if front.len() > 0 {
                assert(chosen[k - 2].0 <= chosen[k - 1].0);
            }
        }
        assert forall|i: int, j: int| 0 <= i < j < now.len() implies (#[trigger] now[i]).0 <= (
        #[trigger] now[j]).0 by {
            if j == inner.len() {
                if i < inner.len() - 1 {
                    assert(inner[i].0 <= inner[inner.len() - 1].0);
                }
            } else {
                assert(inner[i].0 <= inner[j].0);
            }
        }
    }
}

/// Sorting keeps the entries of each glyph in their order.
proof fn lemma_sorted_entries(chosen: Seq<(u16, int)>, k: int, gid: u16)
    requires
        0 <= k <= chosen.len(),
    ensures
        level(sorted_choice(chosen, k)),
        entries_of(sorted_choice(chosen, k), gid) == entries_of(chosen.take(k), gid),
    decreases k,
{
    if k > 0 {
        let before = sorted_choice(chosen, k - 1);
        let front = chosen.take(k - 1);
        let e = chosen[k - 1];
        lemma_sorted_entries(chosen, k - 1, gid);
        lemma_sorted_in_entries(before, e, gid);
        lemma_entries_pushed(before, e, gid);
        lemma_entries_pushed(front, e, gid);
        assert(chosen.take(k) =~= front.push(e));
    } else {
        assert(chosen.take(0) =~= Seq::<(u16, int)>::empty());
    }
}

/// The last entry of a choice in which glyphs do not fall is of the greatest glyph.
proof fn lemma_level_last(chosen: Seq<(u16, int)>, gid: u16)
    requires
        level(chosen),
        entries_of(chosen, gid).len() > 0,
    ensures
        chosen.len() > 0,
        gid <= chosen.last().0,
{
    lemma_entries_chosen(chosen, gid);
    let i = choose|i: int| 0 <= i < chosen.len() && (#[trigger] chosen[i]).0 == gid;
    if i < chosen.len() - 1 {
        assert(chosen[i].0 <= chosen[chosen.len() - 1].0);
    }
}

/// Choices in which glyphs do not fall and have the same entries are the same.
proof fn lemma_level_same(a: Seq<(u16, int)>, b: Seq<(u16, int)>)
    requires
        level(a),
        level(b),
        forall|gid: u16| #[trigger] entries_of(a, gid) == entries_of(b, gid),
    ensures
        a == b,
    decreases a.len(),
{
    if a.len() == 0 {
        if b.len() > 0 {
            let g = b.last().0;
            assert(entries_of(a, g) == entries_of(b, g));
        }
        assert(a =~= b);
    } else {
        let g = a.last().0;
        assert(entries_of(a, g) == entries_of(b, g));
        lemma_level_last(b, g);
        let h = b.last().0;
        assert(entries_of(a, h) == entries_of(b, h));
        lemma_level_last(a, h);
        assert(g == h);
        let (x, y) = (a.drop_last(), b.drop_last());
        assert(a.last() == entries_of(a, g).last());
        assert(b.last() == entries_of(b, g).last());
        assert forall|gid: u16| #[trigger] entries_of(x, gid) == entries_of(y, gid) by {
            assert(entries_of(a, gid) == entries_of(b, gid));
            if gid == g {
                assert(entries_of(x, gid) =~= entries_of(a, gid).drop_last());
                assert(entries_of(y, gid) =~= entries_of(b, gid).drop_last());
            }
        }
        assert(level(x)) by {
            assert forall|i: int, j: int| 0 <= i < j < x.len() implies (#[trigger] x[i]).0 <= (
            #[trigger] x[j]).0 by {
                assert(a[i].0 <= a[j].0);
            }
        }
        assert(level(y)) by {
            assert forall|i: int, j: int| 0 <= i < j < y.len() implies (#[trigger] y[i]).0 <= (
            #[trigger] y[j]).0 by {
                assert(b[i].0 <= b[j].0);
            }
        }
        lemma_level_same(x, y);
        assert(a =~= x.push(a.last()));
        assert(b =~= y.push(b.last()));
    }
}

/// What is chosen in any case is added to what was chosen, once, and takes nothing away.
proof fn lemma_forced_entries(
    chosen: Seq<(u16, int)>,
    p: int,
    boxes: Seq<Bounds>,
    forced: Seq<u16>,
    k: int,
    gid: u16,
)
    requires
        0 <= k <= forced.len(),
    ensures
        entries_of(with_forced(chosen, p, boxes, forced, k), gid) == if !is_chosen(chosen, gid)
            && gid < boxes.len() && boxes[gid as int] is Some && forced.take(k).contains(gid) {
            seq![(gid, p)]
        } else {
            entries_of(chosen, gid)
        },
    decreases k,
{
    lemma_entries_chosen(chosen, gid);
    if k > 0 {
        let g = forced[k - 1];
        let before = with_forced(chosen, p, boxes, forced, k - 1);
        let (front, all) = (forced.take(k - 1), forced.take(k));
        lemma_forced_entries(chosen, p, boxes, forced, k - 1, gid);
        lemma_entries_chosen(before, gid);
        lemma_entries_pushed(before, (g, p), gid);
        if front.contains(gid) {
            let i = front.index_of(gid);
            assert(all[i] == gid);
        }
        if gid == g {
            assert(all[k - 1] == gid);
        }
        if all.contains(gid) && gid != g {
            let i = all.index_of(gid);
            assert(front[i] == gid);
        }
        if gid == g && !is_chosen(before, gid) {
            assert(entries_of(before, gid).push((gid, p)) =~= seq![(gid, p)]);
        }
    }
}

/// A glyph that has points and that nothing but being forced gives colour.
pub open spec fn waits_for_color(
    is: Seq<Ink>,
    map: Option<Seq<Option<u8>>>,
    boxes: Seq<Bounds>,
    n: int,
    gid: u16,
) -> bool {
    &&& gid < boxes.len()
    &&& boxes[gid as int] is Some
    &&& !is_chosen(first_choice(is, map, boxes, n), gid)
}

/// Forcing glyphs only adds: whatever the map or the turn chose keeps its paint, and a forced glyph
/// that still waits for colour gets the first paint that can be seen.
pub proof fn law_forcing_only_adds(
    is: Seq<Ink>,
    map: Option<Seq<Option<u8>>>,
    boxes: Seq<Bounds>,
    n: int,
    forced: Seq<u16>,
    gid: u16,
)
    ensures
        entries_of(color_choice(is, map, boxes, n, forced), gid) == if forced.contains(gid)
            && waits_for_color(is, map, boxes, n, gid) {
            seq![(gid, visible_inks(is, is.len() as int)[0])]
        } else {
            entries_of(first_choice(is, map, boxes, n), gid)
        },
{
    let first = first_choice(is, map, boxes, n);
    let p = visible_inks(is, is.len() as int)[0];
    let k = forced.len() as int;
    let all = with_forced(first, p, boxes, forced, k);
    lemma_forced_entries(first, p, boxes, forced, k, gid);
    lemma_sorted_entries(all, all.len() as int, gid);
    assert(forced.take(k) =~= forced);
    assert(all.take(all.len() as int) =~= all);
}

/// Of the forced glyphs only those count that have points and were not chosen already, and neither
/// their order nor how often one stands there matters: the colour tables are the same.
pub proof fn law_forced_glyphs_are_a_set(
    is: Seq<Ink>,
    map: Option<Seq<Option<u8>>>,
    boxes: Seq<Bounds>,
    n: int,
    forced: Seq<u16>,
    others: Seq<u16>,
)
    requires
        forall|gid: u16|
            waits_for_color(is, map, boxes, n, gid) ==> (#[trigger] forced.contains(gid)
                <==> others.contains(gid)),
    ensures
        color_tables(is, map, boxes, n, forced) == color_tables(is, map, boxes, n, others),
{
    reveal(color_tables);
    let a = color_choice(is, map, boxes, n, forced);
    let b = color_choice(is, map, boxes, n, others);
    assert forall|gid: u16| #[trigger] entries_of(a, gid) == entries_of(b, gid) by {
        law_forcing_only_adds(is, map, boxes, n, forced, gid);
        law_forcing_only_adds(is, map, boxes, n, others, gid);
        assert(forced.contains(gid) || !forced.contains(gid));
    }
    let first = first_choice(is, map, boxes, n);
    let p = visible_inks(is, is.len() as int)[0];
    let x = with_forced(first, p, boxes, forced, forced.len() as int);
    let y = with_forced(first, p, boxes, others, others.len() as int);
    lemma_sorted_entries(x, x.len() as int, 0);
    lemma_sorted_entries(y, y.len() as int, 0);
    lemma_level_same(a, b);
}

proof fn lemma_interned_distinct(pal: Seq<u32>, cs: Seq<u32>, k: int)
    requires
        distinct(pal),
    ensures
        distinct(interned_all(pal, cs, k)),
    decreases k,
{
    if k > 0 {
        lemma_interned_distinct(pal, cs, k - 1);
        let before = interned_all(pal, cs, k - 1);
        let c = cs[k - 1];
        if !before.contains(c) {
            let now = before.push(c);
            assert forall|i: int, j: int| 0 <= i < j < now.len() implies #[trigger] now[i]
                != #[trigger] now[j] by {
                if j == before.len() {
                    assert(before[i] != c);
                } else {
                    assert(before[i] != before[j]);
                }
            }
        }
    }
}

proof fn lemma_chosen_distinct(pal: Seq<u32>, chosen: Seq<(u16, int)>, is: Seq<Ink>, k: int)
    requires
        distinct(pal),
    ensures
        distinct(chosen_from(pal, chosen, is, k)),
    decreases k,
{
    if k > 0 {
        lemma_chosen_distinct(pal, chosen, is, k - 1);
        let cs = colors_of(is[chosen[k - 1].1]);
        lemma_interned_distinct(chosen_from(pal, chosen, is, k - 1), cs, cs.len() as int);
    }
}

/// No colour stands twice in the palette.
pub proof fn law_palette_is_distinct(chosen: Seq<(u16, int)>, is: Seq<Ink>, k: int)
    ensures
        distinct(chosen_palette(chosen, is, k)),
{
    lemma_chosen_distinct(Seq::empty(), chosen, is, k);
}

proof fn lemma_place(pal: Seq<u32>, c: u32, i: int)
    requires
        0 <= i <= pal.len(),
        exists|k: int| i <= k < pal.len() && #[trigger] pal[k] == c,
    ensures
        i <= place(pal, c, i) < pal.len(),
        pal[place(pal, c, i)] == c,
    decreases pal.len() - i,
{
    if i < pal.len() && pal[i] != c {
        let k = choose|k: int| i <= k < pal.len() && #[trigger] pal[k] == c;
        assert(i + 1 <= k);
        lemma_place(pal, c, i + 1);
    }
}

/// The number that stands for a colour of the palette is its place there.
pub proof fn law_color_index_is_right(pal: Seq<u32>, c: u32)
    requires
        pal.contains(c),
        pal.len() <= 0x1_0000,
    ensures
        0 <= color_index(pal, c) < pal.len(),
        pal[color_index(pal, c)] == c,
{
    lemma_place(pal, c, 0);
}

proof fn lemma_color_records(pal: Seq<u32>, k: int, i: int)
    requires
        0 <= k,
    ensures
        color_records(pal, k).len() == 4 * k,
        0 <= i < k ==> {
            let r = color_records(pal, k);
            r[4 * i + 3] * 0x100_0000 + r[4 * i + 2] * 0x1_0000 + r[4 * i + 1] * 0x100 + r[4 * i]
                == pal[i]
        },
    decreases k,
{
    if k > 0 {
        lemma_color_records(pal, k - 1, i);
        let before = color_records(pal, k - 1);
        let now = color_records(pal, k);
        if 0 <= i < k - 1 {
            assert(now[4 * i] == before[4 * i] && now[4 * i + 1] == before[4 * i + 1] && now[4 * i
                + 2] == before[4 * i + 2] && now[4 * i + 3] == before[4 * i + 3]);
        } else if i == k - 1 {
            let c = pal[i] as int;
            let a = c / 0x100;
            let b = c / 0x1_0000;
            let d = c / 0x100_0000;
            assert(a / 0x100 == b);
            assert(b / 0x100 == d);
            assert(now[4 * i] == c % 0x100);
            assert(now[4 * i + 1] == a % 0x100);
            assert(now[4 * i + 2] == b % 0x100);
            assert(now[4 * i + 3] == d);
            assert(c == a * 0x100 + c % 0x100);
            assert(a == b * 0x100 + a % 0x100);
            assert(b == d * 0x100 + b % 0x100);
        }
    }
}

/// A reader of a `CPAL` table finds the colours of the palette: blue, green, red and alpha.
pub proof fn law_palette_is_read_back(pal: Seq<u32>, i: int)
    requires
        pal.len() < 0x1_0000,
        0 <= i < pal.len(),
    ensures
        ({
            let t = cpal_bytes(pal);
            let at = be32(t, 8) + 4 * i;
            &&& be16(t, 0) == 0
            &&& be16(t, 2) == pal.len()
            &&& be16(t, 6) == pal.len()
            &&& t.len() == be32(t, 8) + 4 * pal.len()
            &&& t[at + 3] * 0x100_0000 + t[at + 2] * 0x1_0000 + t[at + 1] * 0x100 + t[at] == pal[i]
        }),
{
    let n = pal.len() as int;
    let t = cpal_bytes(pal);
    let r = color_records(pal, n);
    lemma_color_records(pal, n, i);
    lemma_be16_enc16(0);
    lemma_be16_enc16(n);
    lemma_be32_enc32(14);
    let (z, c, o) = (enc16(0), enc16(n), enc32(14));
    assert(t[0] == z[0] && t[1] == z[1]);
    assert(t[2] == c[0] && t[3] == c[1]);
    assert(t[6] == c[0] && t[7] == c[1]);
    assert(t[8] == o[0] && t[9] == o[1] && t[10] == o[2] && t[11] == o[3]);
    let q = 4 * i;
    assert(t[14 + q] == r[q]);
    assert(t[14 + q + 1] == r[q + 1]);
    assert(t[14 + q + 2] == r[q + 2]);
    assert(t[14 + q + 3] == r[q + 3]);
}

proof fn lemma_paint_entries(
    chosen: Seq<(u16, int)>,
    is: Seq<Ink>,
    pal: Seq<u32>,
    boxes: Seq<Bounds>,
    k: int,
    i: int,
)
    requires
        0 <= k,
    ensures
        paint_entries(chosen, is, pal, boxes, k).len() == 6 * k,
        0 <= i < k ==> {
            let t = paint_entries(chosen, is, pal, boxes, k);
            &&& be16(t, 6 * i) == chosen[i].0
            &&& be32(t, 6 * i + 2) == (4 + 6 * chosen.len() as int + paint_blocks(
                chosen,
                is,
                pal,
                boxes,
                i,
            ).len()) % 0x1_0000_0000
        },
    decreases k,
{
    if k > 0 {
        lemma_paint_entries(chosen, is, pal, boxes, k - 1, i);
        let before = paint_entries(chosen, is, pal, boxes, k - 1);
        let now = paint_entries(chosen, is, pal, boxes, k);
        let off = 4 + 6 * chosen.len() as int + paint_blocks(chosen, is, pal, boxes, k - 1).len();
        let (g, o) = (enc16(chosen[k - 1].0 as int), enc32(off));
        assert(now == before + (g + o));
        let q = 6 * i;
        if 0 <= i < k - 1 {
            assert(now[q] == before[q] && now[q + 1] == before[q + 1] && now[q + 2] == before[q
                + 2] && now[q + 3] == before[q + 3] && now[q + 4] == before[q + 4] && now[q + 5]
                == before[q + 5]);
        } else if i == k - 1 {
            lemma_be16_enc16(chosen[i].0 as int);
            lemma_be32_enc32(off);
            assert(now[q] == g[0] && now[q + 1] == g[1] && now[q + 2] == o[0] && now[q + 3] == o[1]
                && now[q + 4] == o[2] && now[q + 5] == o[3]);
        }
    }
}

proof fn lemma_paint_blocks(
    chosen: Seq<(u16, int)>,
    is: Seq<Ink>,
    pal: Seq<u32>,
    boxes: Seq<Bounds>,
    i: int,
    n: int,
)
    requires
        0 <= i < n,
    ensures
        ({
            let b = paint_block(
                chosen[i].0,
                is[chosen[i].1],
                pal,
                box_of(boxes, chosen[i].0),
            );
            let start = paint_blocks(chosen, is, pal, boxes, i).len() as int;
            let all = paint_blocks(chosen, is, pal, boxes, n);
            &&& start + b.len() <= all.len()
            &&& all.subrange(start, start + b.len()) == b
        }),
    decreases n,
{
    let b = paint_block(chosen[i].0, is[chosen[i].1], pal, box_of(boxes, chosen[i].0));
    let start = paint_blocks(chosen, is, pal, boxes, i).len() as int;
    let all = paint_blocks(chosen, is, pal, boxes, n);
    if i < n - 1 {
        lemma_paint_blocks(chosen, is, pal, boxes, i, n - 1);
        let front = paint_blocks(chosen, is, pal, boxes, n - 1);
        assert(all.subrange(start, start + b.len()) =~= front.subrange(start, start + b.len()));
    } else {
        assert(all.subrange(start, start + b.len()) =~= b);
    }
}

/// A reader of a `COLR` table finds the glyphs that were chosen and, through their offsets, each
/// filled with its paint.
pub proof fn law_paints_are_read_back(
    chosen: Seq<(u16, int)>,
    is: Seq<Ink>,
    pal: Seq<u32>,
    boxes: Seq<Bounds>,
    i: int,
)
    requires
        colr_bytes(chosen, is, pal, boxes).len() < 0x1_0000_0000,
        0 <= i < chosen.len(),
    ensures
        ({
            let t = colr_bytes(chosen, is, pal, boxes);
            let list = be32(t, 14);
            let at = list + be32(t, list + 4 + 6 * i + 2);
            let b = paint_block(
                chosen[i].0,
                is[chosen[i].1],
                pal,
                box_of(boxes, chosen[i].0),
            );
            &&& be16(t, 0) == 1
            &&& be32(t, list) == chosen.len()
            &&& be16(t, list + 4 + 6 * i) == chosen[i].0
            &&& at + b.len() <= t.len()
            &&& t.subrange(at, at + b.len()) == b
        }),
{
    let n = chosen.len() as int;
    let t = colr_bytes(chosen, is, pal, boxes);
    let es = paint_entries(chosen, is, pal, boxes, n);
    let bs = paint_blocks(chosen, is, pal, boxes, n);
    let h = colr_header();
    let c = enc32(n);
    lemma_paint_entries(chosen, is, pal, boxes, n, i);
    lemma_paint_blocks(chosen, is, pal, boxes, i, n);
    lemma_colr_header();
    lemma_be32_enc32(n);
    let b = paint_block(chosen[i].0, is[chosen[i].1], pal, box_of(boxes, chosen[i].0));
    let start = paint_blocks(chosen, is, pal, boxes, i).len() as int;
    lemma_colr_parts(h, c, es, bs, i, start, b);
}

/// The parts of a `COLR` table can be read where they stand.
proof fn lemma_colr_parts(
    h: Seq<u8>,
    c: Seq<u8>,
    es: Seq<u8>,
    bs: Seq<u8>,
    i: int,
    start: int,
    b: Seq<u8>,
)
    requires
        h.len() == 34,
        c.len() == 4,
        0 <= i,
        6 * i + 6 <= es.len(),
        0 <= start,
        start + b.len() <= bs.len(),
        bs.subrange(start, start + b.len()) == b,
    ensures
        ({
            let t = h + c + es + bs;
            let at = 38 + es.len() + start;
            &&& be16(t, 0) == be16(h, 0)
            &&& be32(t, 14) == be32(h, 14)
            &&& be32(t, 34) == be32(c, 0)
            &&& be16(t, 38 + 6 * i) == be16(es, 6 * i)
            &&& be32(t, 38 + 6 * i + 2) == be32(es, 6 * i + 2)
            &&& at + b.len() <= t.len()
            &&& t.subrange(at, at + b.len()) == b
        }),
{
    let t = h + c + es + bs;
    assert forall|j: int| 0 <= j < h.len() implies #[trigger] h[j] == t[0 + j] by {}
    assert forall|j: int| 0 <= j < c.len() implies #[trigger] c[j] == t[34 + j] by {}
    assert forall|j: int| 0 <= j < es.len() implies #[trigger] es[j] == t[38 + j] by {}
    lemma_be16_moved(t, 0, h, 0);
    lemma_be32_moved(t, 0, h, 14);
    lemma_be32_moved(t, 34, c, 0);
    lemma_be16_moved(t, 38, es, 6 * i);
    lemma_be32_moved(t, 38, es, 6 * i + 2);
    let at = 38 + es.len() + start;
    assert(t.subrange(at, at + b.len()) =~= bs.subrange(start, start + b.len()));
}

/// The fields of the header of a `COLR` table.
pub proof fn lemma_colr_header()
    ensures
        colr_header().len() == 34,
        be16(colr_header(), 0) == 1,
        be32(colr_header(), 14) == 34,
{
    reveal(colr_header);
    let h = colr_header();
    let (v, o) = (enc16(1), enc32(34));
    lemma_be16_enc16(1);
    lemma_be32_enc32(34);
    assert(h[0] == v[0] && h[1] == v[1]);
    assert(h[14] == o[0] && h[15] == o[1] && h[16] == o[2] && h[17] == o[3]);
}

} // verus!
