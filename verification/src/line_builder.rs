//! Line lists for debug drawing: the edges of bounding boxes.
use vstd::prelude::*;

verus! {

/// A vertex of a line list: a position and a color.
#[derive(Clone, Copy)]
pub struct LineVertex<P, C> {
    pub position: P,
    pub color: C,
}

/// The colours debug lines are drawn in.
#[derive(Clone, Copy, Debug, PartialEq, Eq, Structural)]
pub enum LineColor {
    Red,
    Green,
    Blue,
    Cyan,
}

/// The colour of bounding-box edges.
pub const BOX_COLOR: LineColor = LineColor::Cyan;

/// Something lines can be drawn into.
pub trait LineSink<P, C> {
    fn line(&mut self, a: P, b: P, color: C);
}

impl<P, C: Copy> LineSink<P, C> for Vec<LineVertex<P, C>> {
    /// A line is two vertices of the same color.
    fn line(&mut self, a: P, b: P, color: C)
        ensures
            final(self)@ == old(self)@.push(LineVertex { position: a, color }).push(
                LineVertex { position: b, color },
            ),
    {
        self.push(LineVertex { position: a, color });
        self.push(LineVertex { position: b, color });
    }
}

/// Something that draws itself as lines into a sink.
pub trait LineDrawable<P> {
    fn emit(&self, sink: &mut Vec<LineVertex<P, LineColor>>);
}

/// An axis-aligned box given by its two extreme corners.
#[derive(Clone, Copy)]
pub struct BoundingBox<S> {
    pub min: [S; 3],
    pub max: [S; 3],
}

/// Corner `k` of a box takes, on each axis, the maximum or the minimum:
/// bottom face 0 1 2 3 counter-clockwise from (min, min, min), then the top
/// face 4 5 6 7 above them.
pub open spec fn corner_uses_max(k: int, axis: int) -> bool {
    if axis == 0 {
        k % 4 == 1 || k % 4 == 2
    } else if axis == 1 {
        k % 4 == 2 || k % 4 == 3
    } else {
        k >= 4
    }
}

/// The end `end` (0 or 1) of edge `k` of a box: the four bottom edges, the
/// four top edges, then the four vertical edges.
pub open spec fn edge_end(k: int, end: int) -> int {
    if k < 4 {
        if end == 0 { k } else { (k + 1) % 4 }
    } else if k < 8 {
        if end == 0 { k } else { 4 + (k - 3) % 4 }
    } else {
        if end == 0 { k - 8 } else { k - 4 }
    }
}

/// The number of axes on which corners `a` and `b` of a box differ.
pub open spec fn axes_apart(a: int, b: int) -> int {
    (if corner_uses_max(a, 0) != corner_uses_max(b, 0) { 1int } else { 0int }) + (if corner_uses_max(a, 1)
        != corner_uses_max(b, 1) { 1int } else { 0int }) + (if corner_uses_max(a, 2) != corner_uses_max(b, 2) {
        1int
    } else {
        0int
    })
}

/// The twelve edges drawn for a box are the twelve edges of the box: each
/// joins two of its eight corners that differ on exactly one axis, and no two
/// join the same pair of corners. The first four lie on the bottom face, the
/// next four on the top face, and the last four join the two faces.
pub proof fn lemma_box_edges_are_box_edges()
    ensures
        forall|k: int|
            0 <= k < 12 ==> 0 <= #[trigger] edge_end(k, 0) < 8 && 0 <= edge_end(k, 1) < 8 && axes_apart(
                edge_end(k, 0),
                edge_end(k, 1),
            ) == 1,
        forall|k: int, l: int|
            0 <= k < l < 12 ==> !((#[trigger] edge_end(k, 0) == #[trigger] edge_end(l, 0) && edge_end(k, 1) == edge_end(l, 1))
                || (edge_end(k, 0) == edge_end(l, 1) && edge_end(k, 1) == edge_end(l, 0))),
        forall|k: int|
            0 <= k < 4 ==> !corner_uses_max(#[trigger] edge_end(k, 0), 2) && !corner_uses_max(edge_end(k, 1), 2),
        forall|k: int|
            4 <= k < 8 ==> corner_uses_max(#[trigger] edge_end(k, 0), 2) && corner_uses_max(edge_end(k, 1), 2),
        forall|k: int|
            8 <= k < 12 ==> !corner_uses_max(#[trigger] edge_end(k, 0), 2) && corner_uses_max(edge_end(k, 1), 2),
{
    assert forall|k: int| 0 <= k < 12 implies 0 <= #[trigger] edge_end(k, 0) < 8 && 0 <= edge_end(k, 1) < 8
        && axes_apart(edge_end(k, 0), edge_end(k, 1)) == 1 by {
        assert(k == 0 || k == 1 || k == 2 || k == 3 || k == 4 || k == 5 || k == 6 || k == 7 || k == 8 || k == 9 || k
            == 10 || k == 11);
    }
    assert forall|k: int, l: int| 0 <= k < l < 12 implies !((#[trigger] edge_end(k, 0) == #[trigger] edge_end(l, 0)
        && edge_end(k, 1) == edge_end(l, 1)) || (edge_end(k, 0) == edge_end(l, 1) && edge_end(k, 1) == edge_end(
        l,
        0,
    ))) by {
        assert(k == 0 || k == 1 || k == 2 || k == 3 || k == 4 || k == 5 || k == 6 || k == 7 || k == 8 || k == 9 || k
            == 10 || k == 11);
        assert(l == 0 || l == 1 || l == 2 || l == 3 || l == 4 || l == 5 || l == 6 || l == 7 || l == 8 || l == 9 || l
            == 10 || l == 11);
    }
    assert forall|k: int| 0 <= k < 12 implies (k < 4 ==> !corner_uses_max(#[trigger] edge_end(k, 0), 2)
        && !corner_uses_max(edge_end(k, 1), 2)) && (4 <= k < 8 ==> corner_uses_max(edge_end(k, 0), 2)
        && corner_uses_max(edge_end(k, 1), 2)) && (8 <= k ==> !corner_uses_max(edge_end(k, 0), 2) && corner_uses_max(
        edge_end(k, 1),
        2,
    )) by {
        assert(k == 0 || k == 1 || k == 2 || k == 3 || k == 4 || k == 5 || k == 6 || k == 7 || k == 8 || k == 9 || k
            == 10 || k == 11);
    }
}

/// `corners` are the eight corners of `bbox`, in the order `gen_corners` lists them.
pub open spec fn is_corner_list<S>(corners: Seq<[S; 3]>, bbox: BoundingBox<S>) -> bool {
    &&& corners.len() == 8
    &&& forall|k: int, axis: int|
        0 <= k < 8 && 0 <= axis < 3 ==> #[trigger] corners[k]@[axis] == if corner_uses_max(k, axis) {
            bbox.max@[axis]
        } else {
            bbox.min@[axis]
        }
}

/// The line-list vertices of the twelve edges of a box with these corners.
pub open spec fn box_line_vertices<P, C>(corners: Seq<P>, color: C) -> Seq<LineVertex<P, C>> {
    Seq::new(24, |v: int| LineVertex { position: corners[edge_end(v / 2, v % 2)], color })
}

impl<S: Copy> BoundingBox<S> {
    /// The eight corners of the box.
    pub fn gen_corners(&self) -> (r: [[S; 3]; 8])
        ensures
            is_corner_list(r@, *self),
    {
        let mn = self.min;
        let mx = self.max;
        let r = [
            [mn[0], mn[1], mn[2]],
            [mx[0], mn[1], mn[2]],
            [mx[0], mx[1], mn[2]],
            [mn[0], mx[1], mn[2]],
            [mn[0], mn[1], mx[2]],
            [mx[0], mn[1], mx[2]],
            [mx[0], mx[1], mx[2]],
            [mn[0], mx[1], mx[2]],
        ];
        assert forall|k: int, axis: int|
            0 <= k < 8 && 0 <= axis < 3 implies #[trigger] r@[k]@[axis] == if corner_uses_max(k, axis) {
                self.max@[axis]
            } else {
                self.min@[axis]
            } by {
            assert(k == 0 || k == 1 || k == 2 || k == 3 || k == 4 || k == 5 || k == 6 || k == 7);
            assert(axis == 0 || axis == 1 || axis == 2);
        }
        r
    }
}

/// The two corner indices of edge `k` of a box.
pub fn box_edge(k: usize) -> (r: (usize, usize))
    requires
        k < 12,
    ensures
        r.0 == edge_end(k as int, 0),
        r.1 == edge_end(k as int, 1),
        r.0 < 8,
        r.1 < 8,
{
    if k < 4 {
        (k, (k + 1) % 4)
    } else if k < 8 {
        (k, 4 + (k - 3) % 4)
    } else {
        (k - 8, k - 4)
    }
}

/// Draws the twelve edges of a box with these corners.
pub fn emit_box_edges<P: Copy, C: Copy>(corners: &[P; 8], color: C, sink: &mut Vec<LineVertex<P, C>>)
    ensures
        final(sink)@ == old(sink)@ + box_line_vertices(corners@, color),
{
    let ghost start = sink@;
    for k in 0..12
        invariant
            sink@ == start + box_line_vertices(corners@, color).take(2 * k),
    {
        let (a, b) = box_edge(k);
        sink.line(corners[a], corners[b], color);
        proof {
            assert(sink@ =~= start + box_line_vertices(corners@, color).take(2 * (k + 1)));
        }
    }
    proof {
        assert(box_line_vertices(corners@, color).take(24) =~= box_line_vertices(corners@, color));
    }
}


/// The colour of frustum edge `k`: red for the near ring, blue for the far
/// ring, green for the edges joining them.
pub open spec fn frustum_edge_color(k: int) -> LineColor {
    if k < 4 {
        LineColor::Red
    } else if k < 8 {
        LineColor::Blue
    } else {
        LineColor::Green
    }
}

/// The line-list vertices of a frustum with these corners (near face 0..4,
/// far face 4..8).
pub open spec fn frustum_line_vertices<P>(corners: Seq<P>) -> Seq<LineVertex<P, LineColor>> {
    Seq::new(
        24,
        |v: int| LineVertex { position: corners[edge_end(v / 2, v % 2)], color: frustum_edge_color(v / 2) },
    )
}

/// A light frustum's edges are coloured by where they lie: red when both
/// corners are on the near face (corners 0 to 3), blue when both are on the
/// far face (4 to 7), green when the edge joins the two faces.
pub proof fn lemma_frustum_colors<P>(corners: Seq<P>)
    ensures
        forall|v: int|
            0 <= v < 24 ==> (#[trigger] frustum_line_vertices(corners)[v]).color == if edge_end(v / 2, 0) < 4
                && edge_end(v / 2, 1) < 4 {
                LineColor::Red
            } else if edge_end(v / 2, 0) >= 4 && edge_end(v / 2, 1) >= 4 {
                LineColor::Blue
            } else {
                LineColor::Green
            },
{
    assert forall|v: int| 0 <= v < 24 implies (#[trigger] frustum_line_vertices(corners)[v]).color == if edge_end(
        v / 2,
        0,
    ) < 4 && edge_end(v / 2, 1) < 4 {
        LineColor::Red
    } else if edge_end(v / 2, 0) >= 4 && edge_end(v / 2, 1) >= 4 {
        LineColor::Blue
    } else {
        LineColor::Green
    } by {
        let k = v / 2;
        assert(0 <= k < 12);
        assert(k == 0 || k == 1 || k == 2 || k == 3 || k == 4 || k == 5 || k == 6 || k == 7 || k == 8 || k == 9 || k
            == 10 || k == 11);
    }
}

/// Draws the twelve edges of a frustum whose near corners come first.
pub fn emit_frustum_edges<P: Copy>(corners: &[P; 8], sink: &mut Vec<LineVertex<P, LineColor>>)
    ensures
        final(sink)@ == old(sink)@ + frustum_line_vertices(corners@),
{
    let ghost start = sink@;
    for k in 0..12
        invariant
            sink@ == start + frustum_line_vertices(corners@).take(2 * k),
    {
        let (a, b) = box_edge(k);
        let color = if k < 4 {
            LineColor::Red
        } else if k < 8 {
            LineColor::Blue
        } else {
            LineColor::Green
        };
        sink.line(corners[a], corners[b], color);
        proof {
            assert(sink@ =~= start + frustum_line_vertices(corners@).take(2 * (k + 1)));
        }
    }
    proof {
        assert(frustum_line_vertices(corners@).take(24) =~= frustum_line_vertices(corners@));
    }
}

/// A box drawn as it is, in world space.
pub struct AxisAlignedBoundingBox<'a, S> {
    pub bbox: &'a BoundingBox<S>,
}

impl<'a, S: Copy> LineDrawable<[S; 3]> for AxisAlignedBoundingBox<'a, S> {
    /// Draws the edges of the box, in the box colour.
    fn emit(&self, sink: &mut Vec<LineVertex<[S; 3], LineColor>>)
        ensures
            exists|corners: Seq<[S; 3]>|
                #[trigger] is_corner_list(corners, *self.bbox) && final(sink)@ == old(sink)@ + box_line_vertices(
                    corners,
                    BOX_COLOR,
                ),
    {
        let corners = self.bbox.gen_corners();
        emit_box_edges(&corners, BOX_COLOR, sink);
    }
}

/// The lines that show a light: its frustum, given by its eight corners (near
/// face first), and an arrow of three segments (the shaft, then the two sides
/// of the head), given by their end points.
pub struct LightFrustum<P> {
    pub corners: [P; 8],
    pub arrow: [P; 6],
}

/// The line-list vertices of a light: its frustum's edges, then its arrow in green.
pub open spec fn light_line_vertices<P>(f: LightFrustum<P>) -> Seq<LineVertex<P, LineColor>> {
    frustum_line_vertices(f.corners@) + Seq::new(6, |v: int| LineVertex { position: f.arrow@[v], color: LineColor::Green })
}

impl<P: Copy> LineDrawable<P> for LightFrustum<P> {
    /// Draws the light: the frustum's near ring red, far ring blue and joining
    /// edges green, then the arrow in green.
    fn emit(&self, sink: &mut Vec<LineVertex<P, LineColor>>)
        ensures
            final(sink)@ == old(sink)@ + light_line_vertices(*self),
    {
        let ghost start = sink@;
        emit_frustum_edges(&self.corners, sink);
        let ghost mid = sink@;
        for k in 0..3
            invariant
                mid == start + frustum_line_vertices(self.corners@),
                sink@ == mid + Seq::new(6, |v: int| LineVertex { position: self.arrow@[v], color: LineColor::Green }).take(2 * k),
        {
            sink.line(self.arrow[2 * k], self.arrow[2 * k + 1], LineColor::Green);
            proof {
                assert(sink@ =~= mid + Seq::new(6, |v: int| LineVertex { position: self.arrow@[v], color: LineColor::Green }).take(2 * (k + 1)));
            }
        }
        proof {
            let arrow = Seq::new(6, |v: int| LineVertex { position: self.arrow@[v], color: LineColor::Green });
            assert(arrow.take(6) =~= arrow);
            assert(sink@ =~= start + light_line_vertices(*self));
        }
    }
}

/// A box given in an object's local space, drawn through the object's transform.
pub struct ObjectOrientedBoundingBox<'a, S, M> {
    pub bbox: &'a BoundingBox<S>,
    pub transform: &'a M,
}

impl<'a, S: Copy, M> ObjectOrientedBoundingBox<'a, S, M> {
    /// Draws the edges of the box in the box colour, each corner mapped by
    /// `apply` with the transform.
    pub fn emit<P: Copy, F: Fn(&M, [S; 3]) -> P>(&self, apply: F, sink: &mut Vec<LineVertex<P, LineColor>>)
        requires
            forall|c: [S; 3]| #[trigger] call_requires(apply, (self.transform, c)),
        ensures
            exists|local: Seq<[S; 3]>, corners: Seq<P>|
                {
                    &&& #[trigger] is_corner_list(local, *self.bbox)
                    &&& corners.len() == 8
                    &&& forall|k: int| 0 <= k < 8 ==> call_ensures(apply, (self.transform, local[k]), #[trigger] corners[k])
                    &&& final(sink)@ == old(sink)@ + #[trigger] box_line_vertices(corners, BOX_COLOR)
                },
    {
        let local = self.bbox.gen_corners();
        let corners = [
            apply(self.transform, local[0]),
            apply(self.transform, local[1]),
            apply(self.transform, local[2]),
            apply(self.transform, local[3]),
            apply(self.transform, local[4]),
            apply(self.transform, local[5]),
            apply(self.transform, local[6]),
            apply(self.transform, local[7]),
        ];
        assert forall|k: int| 0 <= k < 8 implies call_ensures(apply, (self.transform, local@[k]), #[trigger] corners@[k]) by {
            assert(k == 0 || k == 1 || k == 2 || k == 3 || k == 4 || k == 5 || k == 6 || k == 7);
        }
        emit_box_edges(&corners, BOX_COLOR, sink);
    }
}

/// A mesh's bounding box, in its local space and in world space.
#[derive(Clone, Copy)]
pub struct BoundingBoxComponent<S> {
    pub bounding_box: BoundingBox<S>,
    pub global_bounding_box: BoundingBox<S>,
}

impl<S: Copy> BoundingBoxComponent<S> {
    /// A component whose local and world boxes are both `bbox`.
    pub fn new(bbox: BoundingBox<S>) -> (r: Self)
        ensures
            r.bounding_box == bbox,
            r.global_bounding_box == bbox,
    {
        BoundingBoxComponent { bounding_box: bbox, global_bounding_box: bbox }
    }

    /// The line-list vertices of the local box's edges, in the box colour,
    /// each corner mapped by `apply` with the model transform.
    pub fn gen_obb_vertices<M, P: Copy, F: Fn(&M, [S; 3]) -> P>(&self, model: &M, apply: F) -> (r: Vec<
        LineVertex<P, LineColor>,
    >)
        requires
            forall|c: [S; 3]| #[trigger] call_requires(apply, (model, c)),
        ensures
            exists|local: Seq<[S; 3]>, corners: Seq<P>|
                {
                    &&& #[trigger] is_corner_list(local, self.bounding_box)
                    &&& corners.len() == 8
                    &&& forall|k: int| 0 <= k < 8 ==> call_ensures(apply, (model, local[k]), #[trigger] corners[k])
                    &&& r@ == #[trigger] box_line_vertices(corners, BOX_COLOR)
                },
    {
        let mut vertices = Vec::new();
        let obb = ObjectOrientedBoundingBox { bbox: &self.bounding_box, transform: model };
        obb.emit(apply, &mut vertices);
        proof {
            assert(vertices@ =~= Seq::<LineVertex<P, LineColor>>::empty() + vertices@);
        }
        vertices
    }

    /// The line-list vertices of the world-space box's edges, in the box colour.
    pub fn gen_aabb_vertices(&self) -> (r: Vec<LineVertex<[S; 3], LineColor>>)
        ensures
            exists|corners: Seq<[S; 3]>|
                #[trigger] is_corner_list(corners, self.global_bounding_box) && r@ == box_line_vertices(
                    corners,
                    BOX_COLOR,
                ),
    {
        let corners = self.global_bounding_box.gen_corners();
        Self::gen_vertices(&corners)
    }

    /// The line-list vertices of the twelve edges between these corners, in
    /// the box colour.
    pub fn gen_vertices<P: Copy>(corners: &[P; 8]) -> (r: Vec<LineVertex<P, LineColor>>)
        ensures
            r@ == box_line_vertices(corners@, BOX_COLOR),
    {
        let mut vertices = Vec::new();
        emit_box_edges(corners, BOX_COLOR, &mut vertices);
        proof {
            assert(vertices@ =~= box_line_vertices(corners@, BOX_COLOR));
        }
        vertices
    }
}

} // verus!
