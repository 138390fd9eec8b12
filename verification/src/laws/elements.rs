//! Extended components: what stands behind the transform is passed over, no more and no less.

use vstd::prelude::*;
use crate::error::OutlineError;
use crate::laws::bytes::{lemma_stands_parts, stands};
use crate::laws::glyph::bit;
use crate::laws::records::{
    component_bytes, coord_bytes, fields_fit, law_transform_is_read_back, lemma_lead, lemma_number,
    number_bytes, number_fits, transform_bytes, written_transform,
};
use crate::outline::{
    group_coords, lemma_skip_element_advances, piece, skip_coords, skip_element, skip_elements,
    skip_groups, skip_payload, width, Piece,
};

verus! {

/// Coordinates from `i` on as they are written.
pub open spec fn coords_bytes(cs: Seq<int>, mode: u8, i: int) -> Seq<u8>
    decreases cs.len() - i,
{
    if i >= cs.len() {
        Seq::empty()
    } else {
        coord_bytes(cs[i], mode) + coords_bytes(cs, mode, i + 1)
    }
}

/// A group of an element: its first byte, the rest of its index, its coordinates.
pub struct Group {
    pub head: u8,
    pub index: u8,
    pub coords: Seq<int>,
}

impl Group {
    /// The group as it is written. A wide index has a second byte.
    pub open spec fn bytes(self, wide: bool, mode2: u8) -> Seq<u8> {
        (if wide {
            seq![self.head, self.index]
        } else {
            seq![self.head]
        }) + coords_bytes(self.coords, mode2, 0)
    }

    /// The upper two bits of the first byte tell whether there are coordinates: two of them for 3,
    /// for 2 both or one as the next two bits tell, none for 0 and 1.
    pub open spec fn fits(self) -> bool {
        let kind = self.head as int / 64;
        let axis = self.head as int / 16 % 4;
        self.coords.len() == if kind == 3 {
            2int
        } else if kind == 2 && axis == 0 {
            2
        } else if kind == 2 {
            1
        } else {
            0
        }
    }
}

/// Groups from `i` on as they are written.
pub open spec fn groups_bytes(gs: Seq<Group>, wide: bool, mode2: u8, i: int) -> Seq<u8>
    decreases gs.len() - i,
{
    if i >= gs.len() {
        Seq::empty()
    } else {
        gs[i].bytes(wide, mode2) + groups_bytes(gs, wide, mode2, i + 1)
    }
}

/// What an element changes.
pub enum Payload {
    /// Nothing.
    Nothing,
    /// A factor.
    Factor(int),
    /// A shift.
    Shift(int),
    /// A whole transform.
    Whole(u8, Seq<int>),
}

/// An element of an extended component.
pub struct Element {
    pub head: u8,
    pub count: u8,
    pub kind: u8,
    pub payload: Payload,
    pub groups: Seq<Group>,
}

impl Element {
    /// What the element changes as it is written.
    pub open spec fn payload_bytes(self, mode1: u8, mode2: u8) -> Seq<u8> {
        match self.payload {
            Payload::Nothing => Seq::empty(),
            Payload::Factor(v) => coord_bytes(v, mode1),
            Payload::Shift(v) => coord_bytes(v, mode2),
            Payload::Whole(flags, vals) => transform_bytes(flags, vals, mode1, mode2),
        }
    }

    /// The element as it is written. The bit of weight 64 in its first byte tells that the count
    /// has a second byte.
    pub open spec fn bytes(self, mode1: u8, mode2: u8) -> Seq<u8> {
        (if bit(self.head, 64) {
            seq![self.head, self.count, self.kind]
        } else {
            seq![self.head, self.kind]
        }) + (self.payload_bytes(mode1, mode2) + groups_bytes(
            self.groups,
            bit(self.kind, 8),
            mode2,
            0,
        ))
    }

    /// The upper three bits of the second byte tell what changes, its lowest three bits how many
    /// groups there are.
    pub open spec fn fits(self, mode1: u8, mode2: u8) -> bool {
        let k = self.kind as int / 32;
        &&& match self.payload {
            Payload::Nothing => k == 0 || k == 1,
            Payload::Factor(_v) => k == 2 || k == 3 || k == 6,
            Payload::Shift(_v) => k == 4 || k == 5,
            Payload::Whole(_flags, vals) => k == 7 && fields_fit(vals, mode1, mode2),
        }
        &&& self.groups.len() == self.kind as int % 8
        &&& forall|i: int| 0 <= i < self.groups.len() ==> (#[trigger] self.groups[i]).fits()
    }
}

/// Elements from `i` on as they are written.
pub open spec fn elements_bytes(es: Seq<Element>, mode1: u8, mode2: u8, i: int) -> Seq<u8>
    decreases es.len() - i,
{
    if i >= es.len() {
        Seq::empty()
    } else {
        es[i].bytes(mode1, mode2) + elements_bytes(es, mode1, mode2, i + 1)
    }
}

/// The top bit of the first byte of an element tells that another follows.
pub open spec fn elements_fit(es: Seq<Element>, mode1: u8, mode2: u8) -> bool {
    &&& es.len() > 0
    &&& forall|i: int|
        0 <= i < es.len() ==> (#[trigger] es[i]).fits(mode1, mode2) && (es[i].head >= 0x80) == (i
            < es.len() - 1)
}

proof fn lemma_coord_len(v: int, mode: u8)
    ensures
        coord_bytes(v, mode).len() == width(mode),
{
    broadcast use crate::bytes::group_encoded_lengths;

}

proof fn lemma_coords_len(cs: Seq<int>, mode: u8, i: int)
    requires
        0 <= i <= cs.len(),
    ensures
        coords_bytes(cs, mode, i).len() == (cs.len() - i) * width(mode),
    decreases cs.len() - i,
{
    if i < cs.len() {
        lemma_coord_len(cs[i], mode);
        lemma_coords_len(cs, mode, i + 1);
        let (k, w) = (cs.len() - i, width(mode));
        assert(w + (k - 1) * w == k * w) by (nonlinear_arith);
    } else {
        assert(0 * width(mode) == 0);
    }
}

proof fn lemma_bits(b: u8)
    ensures
        b >> 6 == b / 64,
        (b >> 4) & 3 == b / 16 % 4,
        b >> 5 == b / 32,
        (b & 8 != 0) == bit(b, 8),
{
    assert(b >> 6 == b / 64 && (b >> 4) & 3 == b / 16 % 4 && b >> 5 == b / 32) by (bit_vector);
    assert((b & 8 != 0) == (b / 8 % 2 == 1)) by (bit_vector);
}

proof fn lemma_groups(r: Seq<u8>, pos: int, mode2: u8, wide: bool, gs: Seq<Group>, i: int)
    requires
        0 <= i <= gs.len(),
        forall|k: int| 0 <= k < gs.len() ==> (#[trigger] gs[k]).fits(),
        stands(r, pos, groups_bytes(gs, wide, mode2, i)),
    ensures
        skip_groups(r, pos, mode2, wide, gs.len() - i) == Ok::<int, OutlineError>(
            pos + groups_bytes(gs, wide, mode2, i).len(),
        ),
    decreases gs.len() - i,
{
    if i < gs.len() {
        let g = gs[i];
        let head = if wide {
            seq![g.head, g.index]
        } else {
            seq![g.head]
        };
        let cs = coords_bytes(g.coords, mode2, 0);
        let rest = groups_bytes(gs, wide, mode2, i + 1);
        assert(g.fits());
        lemma_stands_parts(r, pos, g.bytes(wide, mode2), rest);
        lemma_stands_parts(r, pos, head, cs);
        assert(head[0] == r[pos + 0]);
        lemma_bits(g.head);
        lemma_coords_len(g.coords, mode2, 0);
        let n = g.coords.len() as int;
        assert(group_coords(r[pos]) == n);
        let at = pos + head.len();
        assert((n - 0) * width(mode2) == n * width(mode2));
        assert(skip_coords(r, at, mode2, n) == Ok::<int, OutlineError>(at + cs.len()));
        lemma_groups(r, at + cs.len(), mode2, wide, gs, i + 1);
    }
}

proof fn lemma_element(r: Seq<u8>, pos: int, mode1: u8, mode2: u8, e: Element)
    requires
        e.fits(mode1, mode2),
        stands(r, pos, e.bytes(mode1, mode2)),
    ensures
        skip_element(r, pos, mode1, mode2) == Ok::<int, OutlineError>(
            pos + e.bytes(mode1, mode2).len(),
        ),
        r[pos] == e.head,
{
    let head = if bit(e.head, 64) {
        seq![e.head, e.count, e.kind]
    } else {
        seq![e.head, e.kind]
    };
    let wide = bit(e.kind, 8);
    let load = e.payload_bytes(mode1, mode2);
    let gs = groups_bytes(e.groups, wide, mode2, 0);
    lemma_stands_parts(r, pos, head, load + gs);
    let at = pos + head.len();
    lemma_stands_parts(r, at, load, gs);
    assert(head[0] == r[pos + 0]);
    assert(head[head.len() - 1] == r[pos + (head.len() - 1)]);
    lemma_lead(e.head);
    lemma_lead(e.kind);
    lemma_bits(e.kind);
    match e.payload {
        Payload::Nothing => {},
        Payload::Factor(v) => {
            lemma_coord_len(v, mode1);
        },
        Payload::Shift(v) => {
            lemma_coord_len(v, mode2);
        },
        Payload::Whole(flags, vals) => {
            law_transform_is_read_back(r, at, flags, vals, mode1, mode2);
        },
    }
    assert(skip_payload(r, at, mode1, mode2, e.kind >> 5) == Ok::<int, OutlineError>(
        at + load.len(),
    ));
    lemma_groups(r, at + load.len(), mode2, wide, e.groups, 0);
}

/// Written elements are passed over, up to the last of them.
pub proof fn law_elements_are_passed_over(
    r: Seq<u8>,
    pos: int,
    mode1: u8,
    mode2: u8,
    es: Seq<Element>,
    i: int,
)
    requires
        elements_fit(es, mode1, mode2),
        0 <= i < es.len(),
        stands(r, pos, elements_bytes(es, mode1, mode2, i)),
    ensures
        skip_elements(r, pos, mode1, mode2) == Ok::<int, OutlineError>(
            pos + elements_bytes(es, mode1, mode2, i).len(),
        ),
    decreases es.len() - i,
{
    let e = es[i];
    let b = e.bytes(mode1, mode2);
    let rest = elements_bytes(es, mode1, mode2, i + 1);
    lemma_stands_parts(r, pos, b, rest);
    lemma_element(r, pos, mode1, mode2, e);
    lemma_lead(e.head);
    lemma_skip_element_advances(r, pos, mode1, mode2);
    if i < es.len() - 1 {
        law_elements_are_passed_over(r, pos + b.len(), mode1, mode2, es, i + 1);
    } else {
        assert(rest.len() == 0);
    }
}

/// A component whose transform has the top flag is the same component; its elements are passed
/// over.
pub proof fn law_extended_component_is_read_back(
    gid: int,
    r: Seq<u8>,
    pos: int,
    lead: u8,
    child: int,
    flags: u8,
    vals: Seq<int>,
    es: Seq<Element>,
    mode1: u8,
    mode2: u8,
)
    requires
        lead < 0x80,
        flags >= 0x80,
        number_fits(child, lead as int % 8),
        fields_fit(vals, mode1, mode2),
        elements_fit(es, mode1, mode2),
        stands(
            r,
            pos,
            component_bytes(lead, child, flags, vals, mode1, mode2) + elements_bytes(
                es,
                mode1,
                mode2,
                0,
            ),
        ),
    ensures
        piece(gid, r, pos, mode1, mode2) == Ok::<(Piece, int), OutlineError>(
            (
                Piece::Component(child, written_transform(flags, vals)),
                pos + component_bytes(lead, child, flags, vals, mode1, mode2).len()
                    + elements_bytes(es, mode1, mode2, 0).len(),
            ),
        ),
{
    reveal(piece);
    let c = component_bytes(lead, child, flags, vals, mode1, mode2);
    lemma_stands_parts(r, pos, c, elements_bytes(es, mode1, mode2, 0));
    let head = seq![lead];
    let size = lead as int % 8;
    let number = number_bytes(child, size);
    let t = transform_bytes(flags, vals, mode1, mode2);
    lemma_stands_parts(r, pos, head, number + t);
    lemma_stands_parts(r, pos + 1, number, t);
    assert(head[0] == r[pos + 0]);
    lemma_lead(lead);
    lemma_lead(flags);
    lemma_number(r, pos + 1, child, size);
    let at = pos + 1 + size;
    assert(t[0] == r[at + 0]);
    law_transform_is_read_back(r, at, flags, vals, mode1, mode2);
    assert(c.len() == 1 + size + t.len());
    law_elements_are_passed_over(r, at + t.len(), mode1, mode2, es, 0);
}

} // verus!
