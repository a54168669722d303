//! The scene graph: shapes, objects, and the scene that draws them.
//!
//! Objects live in a single arena owned by the scene, and every list — the
//! top-level object list, the group registry, and each group's children —
//! holds arena handles. Shared nodes (a group present both in the registry
//! and among the drawn objects, or the live command-text object) are simply
//! the same handle held twice, so a mutation through one is seen through all.

use vstd::prelude::*;
use crate::util::{Point, VecExt, line_pts, rect_pts, polygon_pts, ellipse_pts,
    translate_pt, rotate_pt, scale_pt, rect, polygon, ellipse};
use crate::trig::{sin_mdeg, cos_mdeg};
use crate::glyphs::glyph_segs;

verus! {

/// An rgb color, one byte per channel.
pub type PColor = (u8, u8, u8);

/// A line segment between two points.
pub type Line = (Point, Point);

/// The highlight color drawn over the selected object.
pub open spec fn highlight_color() -> PColor {
    (255u8, 255u8, 0u8)
}

/// An ordered list of arena handles to objects.
pub struct ObjectList(pub Vec<usize>);

impl ObjectList {
    /// An empty handle list.
    pub fn new() -> (r: ObjectList)
        ensures
            r.0@ == Seq::<usize>::empty(),
    {
        ObjectList(Vec::new())
    }
}

/// What an object draws: a closed set of shape variants.
pub enum Shape {
    /// Axis-aligned ellipse about the local origin; the fields are the
    /// horizontal and vertical semi-axis lengths, not diameters.
    Circle { width: i32, height: i32 },
    /// Axis-aligned rectangle between two opposite corners.
    Rect(Point, Point),
    /// Vertex list joined by consecutive edges plus a direct closing edge.
    Polygon(Vec<Point>),
    /// Text rendered from the built-in glyph table, laid out left to right
    /// with wraparound.
    Letters(String),
    /// Literal line segments.
    Lines(Vec<Line>),
    /// Child objects, named by their arena handles.
    Group(ObjectList),
}

/// A positionable, scalable, rotatable, colored node wrapping a shape.
/// Scale factors are in thousandths; the rotation is in whole degrees.
pub struct Object {
    pub shape: Shape,
    pub position: Point,
    pub scale: (i32, i32),
    pub rotation: i32,
    pub color: PColor,
}

/// The longest text a `Letters` shape may carry when drawn.
pub open spec fn max_text_len() -> int {
    1000000
}

/// The largest semi-axis an ellipse shape may carry when drawn.
pub open spec fn max_semi_axis() -> int {
    46340
}

/// Structural conditions a shape must meet to be drawable: group handles
/// point into an arena of length `n`, ellipse semi-axes and text length stay
/// within the rasterizer's bounds, and a polygon has at least two vertices.
pub open spec fn shape_ok(shape: Shape, n: int) -> bool {
    match shape {
        Shape::Circle { width, height } =>
            -max_semi_axis() <= width <= max_semi_axis()
                && -max_semi_axis() <= height <= max_semi_axis(),
        Shape::Rect(_, _) => true,
        Shape::Polygon(ps) => ps@.len() >= 2,
        Shape::Letters(s) => s@.len() <= max_text_len(),
        Shape::Lines(_) => true,
        Shape::Group(l) => forall|i: int| 0 <= i < l.0@.len() ==> (l.0@[i] as int) < n,
    }
}

/// Conditions an object must meet to be drawable: a drawable shape and
/// non-negative scale factors.
pub open spec fn obj_ok(o: Object, n: int) -> bool {
    shape_ok(o.shape, n) && o.scale.0 >= 0 && o.scale.1 >= 0
}

/// Every object of the arena is drawable against the arena itself.
pub open spec fn arena_ok(arena: Seq<Object>) -> bool {
    forall|h: int| 0 <= h < arena.len() ==> obj_ok(#[trigger] arena[h], arena.len() as int)
}

/// The points of a list of literal segments, in order.
pub open spec fn lines_pts(segs: Seq<Line>) -> Seq<Point>
    decreases segs.len(),
{
    if segs.len() == 0 {
        Seq::empty()
    } else {
        lines_pts(segs.drop_last()) + line_pts(segs.last().0, segs.last().1)
    }
}

/// The horizontal offset of the `i`-th character of rendered text: a fixed
/// 100-unit advance, wrapped at a 1100-unit row budget.
pub open spec fn letter_x_off(i: int) -> int {
    (100 * i) % 1100
}

/// The vertical offset of the `i`-th character of rendered text: a full
/// 100-unit row per wraparound.
pub open spec fn letter_y_off(i: int) -> int {
    100 * ((100 * i) / 1100)
}

/// The points of rendered text: each character's glyph, translated to its
/// slot in the wrapped layout.
pub open spec fn letters_pts(text: Seq<char>) -> Seq<Point>
    decreases text.len(),
{
    if text.len() == 0 {
        Seq::empty()
    } else {
        let i = text.len() - 1;
        letters_pts(text.drop_last()) + lines_pts(glyph_segs(text.last())).map_values(
            |p: Point| translate_pt(p, letter_x_off(i), letter_y_off(i)))
    }
}

/// The points a shape lowers to, resolving group children through the arena;
/// `fuel` bounds the group nesting depth that is followed.
pub open spec fn shape_draw_pts(shape: Shape, arena: Seq<Object>, fuel: nat) -> Seq<Point>
    decreases fuel, 0nat, 0nat,
{
    match shape {
        Shape::Circle { width, height } => ellipse_pts((0, 0), width as int, height as int),
        Shape::Rect(p0, p1) => rect_pts(p0, p1),
        Shape::Polygon(ps) => polygon_pts(ps@),
        Shape::Letters(s) => letters_pts(s@),
        Shape::Lines(segs) => lines_pts(segs@),
        Shape::Group(l) => if fuel == 0 {
            Seq::empty()
        } else {
            handles_draw_pts(l.0@, arena, (fuel - 1) as nat)
        },
    }
}

/// The points one object draws: its shape's points, scaled, then rotated,
/// then translated to the object's position — in that fixed order.
pub open spec fn object_draw_pts(o: Object, arena: Seq<Object>, fuel: nat) -> Seq<Point>
    decreases fuel, 1nat, 0nat,
{
    shape_draw_pts(o.shape, arena, fuel)
        .map_values(|p: Point| scale_pt(p, o.scale.0 as int, o.scale.1 as int))
        .map_values(|p: Point| rotate_pt(p, sin_mdeg(o.rotation as int), cos_mdeg(o.rotation as int)))
        .map_values(|p: Point| translate_pt(p, o.position.0 as int, o.position.1 as int))
}

/// The concatenated points of the objects named by a handle list.
pub open spec fn handles_draw_pts(hs: Seq<usize>, arena: Seq<Object>, fuel: nat) -> Seq<Point>
    decreases fuel, 2nat, hs.len(),
{
    if hs.len() == 0 {
        Seq::empty()
    } else {
        handles_draw_pts(hs.drop_last(), arena, fuel)
            + object_draw_pts(arena[hs.last() as int], arena, fuel)
    }
}

/// Rasterize a list of literal segments.
fn draw_lines(segs: &Vec<Line>) -> (r: Vec<Point>)
    ensures
        r@ == lines_pts(segs@),
{
    let mut points: Vec<Point> = Vec::new();
    let mut i: usize = 0;
    while i < segs.len()
        invariant
            i <= segs@.len(),
            points@ == lines_pts(segs@.take(i as int)),
        decreases segs@.len() - i,
    {
        let mut e = crate::util::line(segs[i].0, segs[i].1);
        points.append(&mut e);
        proof {
            assert(segs@.take(i as int + 1).drop_last() =~= segs@.take(i as int));
        }
        i = i + 1;
    }
    proof {
        assert(segs@.take(segs@.len() as int) =~= segs@);
    }
    points
}

impl Shape {
    /// Lower this shape to its points. The `scale` argument is passed along
    /// as the original interface does, though no variant consumes it; group
    /// children are resolved through `arena`, following at most `fuel`
    /// levels of nesting.
    pub fn draw(&self, scale: (i32, i32), arena: &Vec<Object>, fuel: usize) -> (r: Vec<Point>)
        requires
            arena_ok(arena@),
            shape_ok(*self, arena@.len() as int),
        ensures
            r@ == shape_draw_pts(*self, arena@, fuel as nat),
        decreases fuel, 0nat, 0nat,
    {
        match self {
            Shape::Circle { width, height } => ellipse((0, 0), *width, *height),
            Shape::Rect(p0, p1) => rect(*p0, *p1),
            Shape::Polygon(points) => polygon(points),
            Shape::Letters(text) => {
                let n = text.as_str().unicode_len();
                let mut points: Vec<Point> = Vec::new();
                let mut i: usize = 0;
                while i < n
                    invariant
                        i <= n,
                        n == text@.len(),
                        n <= max_text_len(),
                        points@ == letters_pts(text@.take(i as int)),
                    decreases n - i,
                {
                    let ch = text.as_str().get_char(i);
                    let glyph = Shape::for_letter(ch);
                    let mut pts = match glyph {
                        Shape::Lines(v) => draw_lines(&v),
                        _ => {
                            proof {
                                assert(false);
                            }
                            Vec::new()
                        },
                    };
                    let xo = ((100 * (i as u64)) % 1100) as i32;
                    let yo = (100 * ((100 * (i as u64)) / 1100)) as i32;
                    pts.translate(xo, yo);
                    points.append(&mut pts);
                    proof {
                        assert(text@.take(i as int + 1).drop_last() =~= text@.take(i as int));
                        assert(text@.take(i as int + 1).last() == text@[i as int]);
                    }
                    i = i + 1;
                }
                proof {
                    assert(text@.take(text@.len() as int) =~= text@);
                }
                points
            },
            Shape::Lines(segs) => draw_lines(segs),
            Shape::Group(l) => {
                let mut points: Vec<Point> = Vec::new();
                if fuel > 0 {
                    let mut i: usize = 0;
                    while i < l.0.len()
                        invariant
                            i <= l.0@.len(),
                            fuel > 0,
                            arena_ok(arena@),
                            forall|k: int| 0 <= k < l.0@.len() ==> (l.0@[k] as int) < arena@.len(),
                            points@ == handles_draw_pts(l.0@.take(i as int), arena@, (fuel - 1) as nat),
                        decreases l.0@.len() - i,
                    {
                        let h = l.0[i];
                        let mut pts = arena[h].draw(arena, fuel - 1);
                        points.append(&mut pts);
                        proof {
                            assert(l.0@.take(i as int + 1).drop_last() =~= l.0@.take(i as int));
                            assert(l.0@.take(i as int + 1).last() == l.0@[i as int]);
                        }
                        i = i + 1;
                    }
                    proof {
                        assert(l.0@.take(l.0@.len() as int) =~= l.0@);
                    }
                }
                points
            },
        }
    }
}

impl Object {
    /// A fresh object with the default scale, no rotation, and the default
    /// drawing color.
    pub fn new(shape: Shape, position: Point) -> (r: Object)
        ensures
            r.shape == shape,
            r.position == position,
            r.scale == (1000i32, 1000i32),
            r.rotation == 0i32,
            r.color == (0u8, 255u8, 255u8),
    {
        Object { shape, position, scale: (1000, 1000), rotation: 0, color: (0, 255, 255) }
    }

    /// A fresh object with an explicit color.
    pub fn with_color(shape: Shape, position: Point, color: PColor) -> (r: Object)
        ensures
            r.shape == shape,
            r.position == position,
            r.scale == (1000i32, 1000i32),
            r.rotation == 0i32,
            r.color == color,
    {
        Object { shape, position, scale: (1000, 1000), rotation: 0, color }
    }

    /// Draw this object: lower the shape, then scale, rotate and translate
    /// its points by the object's own transform, in that fixed order.
    pub fn draw(&self, arena: &Vec<Object>, fuel: usize) -> (r: Vec<Point>)
        requires
            arena_ok(arena@),
            obj_ok(*self, arena@.len() as int),
        ensures
            r@ == object_draw_pts(*self, arena@, fuel as nat),
        decreases fuel, 1nat, 0nat,
    {
        let mut points = self.shape.draw(self.scale, arena, fuel);
        points.scale(self.scale.0, self.scale.1);
        points.rotate(self.rotation);
        points.translate(self.position.0, self.position.1);
        points
    }
}

} // verus!

verus! {

/// The root aggregate: the object arena, the draw list, the ten group
/// slots, the selection, and the global camera transform. Global scale is in
/// thousandths and global rotation in whole degrees.
pub struct Scene {
    pub arena: Vec<Object>,
    pub objects: ObjectList,
    pub selected_object: usize,
    pub groups: ObjectList,
    pub camera: Point,
    pub scale: (i32, i32),
    pub rotation: i32,
}

impl Scene {
    /// Structural soundness: every handle in every list points into the
    /// arena, every object is drawable, and the global scale is
    /// non-negative.
    pub open spec fn wf(&self) -> bool {
        &&& arena_ok(self.arena@)
        &&& forall|i: int| 0 <= i < self.objects.0@.len()
            ==> ((#[trigger] self.objects.0@[i]) as int) < self.arena@.len()
        &&& forall|i: int| 0 <= i < self.groups.0@.len()
            ==> ((#[trigger] self.groups.0@[i]) as int) < self.arena@.len()
        &&& self.scale.0 >= 0
        &&& self.scale.1 >= 0
    }
}

/// An object exactly as the ten group slots are created: an empty group at
/// the origin with the default transform and color.
pub open spec fn is_empty_group_node(o: Object) -> bool {
    &&& o.shape matches Shape::Group(l) && l.0@.len() == 0
    &&& o.position == (0i32, 0i32)
    &&& o.scale == (1000i32, 1000i32)
    &&& o.rotation == 0i32
    &&& o.color == (0u8, 255u8, 255u8)
}

/// The color the scene draws its `i`-th object with: the object's own color,
/// or the highlight color at the selected index.
pub open spec fn scene_obj_color(s: Scene, i: int) -> PColor {
    if i == s.selected_object as int {
        highlight_color()
    } else {
        s.arena@[s.objects.0@[i] as int].color
    }
}

/// The device-space points of the scene's `i`-th object: its own draw
/// output, then the global transform — translate by the negated camera,
/// scale, rotate, in that fixed order.
pub open spec fn scene_obj_pts(s: Scene, i: int, fuel: nat) -> Seq<Point> {
    object_draw_pts(s.arena@[s.objects.0@[i] as int], s.arena@, fuel)
        .map_values(|p: Point| translate_pt(p, -(s.camera.0 as int), -(s.camera.1 as int)))
        .map_values(|p: Point| scale_pt(p, s.scale.0 as int, s.scale.1 as int))
        .map_values(|p: Point| rotate_pt(p, sin_mdeg(s.rotation as int), cos_mdeg(s.rotation as int)))
}

impl Scene {
    /// A fresh scene: ten empty group nodes fill the arena, and each is held
    /// both in the group registry and in the draw list.
    pub fn new() -> (s: Scene)
        ensures
            s.wf(),
            s.arena@.len() == 10,
            s.objects.0@.len() == 10,
            s.groups.0@ == s.objects.0@,
            forall|i: int| 0 <= i < 10 ==> (#[trigger] s.objects.0@[i]) as int == i,
            forall|i: int| 0 <= i < 10 ==> is_empty_group_node(#[trigger] s.arena@[i]),
            s.selected_object == 0,
            s.camera == (0i32, 0i32),
            s.scale == (1000i32, 1000i32),
            s.rotation == 0i32,
    {
        let mut arena: Vec<Object> = Vec::new();
        let mut objects: Vec<usize> = Vec::new();
        let mut groups: Vec<usize> = Vec::new();
        let mut i: usize = 0;
        while i < 10
            invariant
                i <= 10,
                arena@.len() == i,
                objects@.len() == i,
                groups@ == objects@,
                forall|j: int| 0 <= j < i ==> (#[trigger] objects@[j]) as int == j,
                forall|j: int| 0 <= j < i ==> is_empty_group_node(#[trigger] arena@[j]),
            decreases 10 - i,
        {
            let o = Object::new(Shape::Group(ObjectList::new()), (0, 0));
            arena.push(o);
            objects.push(i);
            groups.push(i);
            i = i + 1;
        }
        Scene {
            arena,
            objects: ObjectList(objects),
            selected_object: 0,
            groups: ObjectList(groups),
            camera: (0, 0),
            scale: (1000, 1000),
            rotation: 0,
        }
    }

    /// Draw the whole scene in list order (later objects paint over earlier
    /// ones): for each object its draw color — the highlight color at the
    /// selected index — and its device-space points after the global
    /// transform.
    pub fn draw(&self) -> (r: Vec<(PColor, Vec<Point>)>)
        requires
            self.wf(),
            self.camera.0 > i32::MIN,
            self.camera.1 > i32::MIN,
        ensures
            r@.len() == self.objects.0@.len(),
            forall|i: int| 0 <= i < r@.len() ==> (#[trigger] r@[i]).0 == scene_obj_color(*self, i),
            forall|i: int| 0 <= i < r@.len()
                ==> (#[trigger] r@[i]).1@ == scene_obj_pts(*self, i, self.arena@.len() as nat),
    {
        let fuel = self.arena.len();
        let mut out: Vec<(PColor, Vec<Point>)> = Vec::new();
        let mut i: usize = 0;
        while i < self.objects.0.len()
            invariant
                i <= self.objects.0@.len(),
                out@.len() == i,
                self.wf(),
                self.camera.0 > i32::MIN,
                self.camera.1 > i32::MIN,
                fuel == self.arena@.len(),
                forall|j: int| 0 <= j < i ==> (#[trigger] out@[j]).0 == scene_obj_color(*self, j),
                forall|j: int| 0 <= j < i
                    ==> (#[trigger] out@[j]).1@ == scene_obj_pts(*self, j, fuel as nat),
            decreases self.objects.0@.len() - i,
        {
            let h = self.objects.0[i];
            let color = if self.selected_object == i {
                (255u8, 255u8, 0u8)
            } else {
                self.arena[h].color
            };
            let mut pts = self.arena[h].draw(&self.arena, fuel);
            pts.translate(-self.camera.0, -self.camera.1);
            pts.scale(self.scale.0, self.scale.1);
            pts.rotate(self.rotation);
            out.push((color, pts));
            i = i + 1;
        }
        out
    }
}

} // verus!

verus! {

/// Whether the object at index `i` of the draw list may take the selection:
/// anything except a group with no members.
pub open spec fn selectable(s: Scene, i: int) -> bool {
    !(s.arena@[s.objects.0@[i] as int].shape matches Shape::Group(l) && l.0@.len() == 0)
}

/// The index the selection lands on: starting at `start` and scanning at
/// most `steps` positions cyclically, the first selectable index — or the
/// point the budget ran out at, when no object is selectable.
pub open spec fn next_selection(s: Scene, start: int, steps: nat) -> int
    decreases steps,
{
    if steps == 0 {
        start
    } else if selectable(s, start) {
        start
    } else {
        let n = s.objects.0@.len() as int;
        next_selection(s, if start + 1 >= n { 0 } else { start + 1 }, (steps - 1) as nat)
    }
}

/// The cyclic distance from `a` forward to `b` in a ring of size `n`.
pub open spec fn cyc_dist(n: int, a: int, b: int) -> int {
    if b >= a {
        b - a
    } else {
        b + n - a
    }
}

proof fn lemma_next_selection_hits(s: Scene, start: int, steps: nat, j: int)
    requires
        0 <= start < s.objects.0@.len(),
        0 <= j < s.objects.0@.len(),
        selectable(s, j),
        cyc_dist(s.objects.0@.len() as int, start, j) < steps,
    ensures
        selectable(s, next_selection(s, start, steps)),
    decreases steps,
{
    let n = s.objects.0@.len() as int;
    if !selectable(s, start) {
        let start2 = if start + 1 >= n { 0int } else { start + 1 };
        assert(cyc_dist(n, start2, j) == cyc_dist(n, start, j) - 1);
        lemma_next_selection_hits(s, start2, (steps - 1) as nat, j);
    }
}

/// Selection-skip law: whenever any selectable object exists, advancing the
/// selection with a full scan budget never lands on an empty group.
pub proof fn lemma_selection_skips_empty_groups(s: Scene, start: int)
    requires
        0 <= start < s.objects.0@.len(),
        exists|j: int| 0 <= j < s.objects.0@.len() && selectable(s, j),
    ensures
        selectable(s, next_selection(s, start, s.objects.0@.len() as nat)),
{
    let n = s.objects.0@.len() as int;
    let j = choose|j: int| 0 <= j < n && selectable(s, j);
    assert(cyc_dist(n, start, j) < n);
    lemma_next_selection_hits(s, start, n as nat, j);
}

impl Scene {
    /// Advance the selection to the next object in cyclic order, skipping
    /// every object whose shape is an empty group; when no object is
    /// selectable the scan budget runs out after one full cycle.
    pub fn advance_selection(&mut self)
        requires
            old(self).wf(),
            old(self).objects.0@.len() > 0,
            old(self).selected_object < old(self).objects.0@.len(),
        ensures
            final(self).arena == old(self).arena,
            final(self).objects == old(self).objects,
            final(self).groups == old(self).groups,
            final(self).camera == old(self).camera,
            final(self).scale == old(self).scale,
            final(self).rotation == old(self).rotation,
            final(self).selected_object < old(self).objects.0@.len(),
            final(self).selected_object as int == next_selection(
                *old(self),
                if old(self).selected_object + 1 >= old(self).objects.0@.len() {
                    0int
                } else {
                    old(self).selected_object + 1
                },
                old(self).objects.0@.len() as nat),
            final(self).wf(),
    {
        let n = self.objects.0.len();
        let mut idx: usize = if self.selected_object + 1 >= n { 0 } else { self.selected_object + 1 };
        let ghost start0 = idx as int;
        let mut steps: usize = n;
        while steps > 0
            invariant_except_break
                *self == *old(self),
                self.wf(),
                n == self.objects.0@.len(),
                n > 0,
                idx < n,
                steps <= n,
                next_selection(*self, start0, n as nat)
                    == next_selection(*self, idx as int, steps as nat),
            ensures
                *self == *old(self),
                idx < n,
                next_selection(*self, start0, n as nat) == idx as int,
            decreases steps,
        {
            let h = self.objects.0[idx];
            let empty_group = match &self.arena[h].shape {
                Shape::Group(l) => l.0.len() == 0,
                _ => false,
            };
            if !empty_group {
                break;
            }
            idx = if idx + 1 >= n { 0 } else { idx + 1 };
            steps = steps - 1;
        }
        self.selected_object = idx;
    }
}

} // verus!

verus! {

/// Whether the object is a group node.
pub open spec fn is_group(o: Object) -> bool {
    o.shape is Group
}

/// The handle list of a group node.
pub open spec fn group_children(o: Object) -> Seq<usize>
    recommends
        is_group(o),
{
    o.shape->Group_0.0@
}

impl Scene {
    /// Move the selected object out of the draw list and into the chosen
    /// group slot's children, resetting the selection to the front; when the
    /// slot does not hold a group node, nothing changes.
    pub fn assign_to_group(&mut self, slot: usize)
        requires
            old(self).wf(),
            slot < old(self).groups.0@.len(),
            old(self).selected_object < old(self).objects.0@.len(),
        ensures
            final(self).wf(),
            ({
                let g = old(self).groups.0@[slot as int] as int;
                let h = old(self).objects.0@[old(self).selected_object as int];
                if is_group(old(self).arena@[g]) {
                    &&& final(self).arena@.len() == old(self).arena@.len()
                    &&& is_group(final(self).arena@[g])
                    &&& group_children(final(self).arena@[g])
                        == group_children(old(self).arena@[g]).push(h)
                    &&& final(self).arena@[g].position == old(self).arena@[g].position
                    &&& final(self).arena@[g].scale == old(self).arena@[g].scale
                    &&& final(self).arena@[g].rotation == old(self).arena@[g].rotation
                    &&& final(self).arena@[g].color == old(self).arena@[g].color
                    &&& forall|k: int| 0 <= k < old(self).arena@.len() && k != g
                        ==> final(self).arena@[k] == old(self).arena@[k]
                    &&& final(self).objects.0@
                        == old(self).objects.0@.remove(old(self).selected_object as int)
                    &&& final(self).selected_object == 0
                    &&& final(self).groups == old(self).groups
                    &&& final(self).camera == old(self).camera
                    &&& final(self).scale == old(self).scale
                    &&& final(self).rotation == old(self).rotation
                } else {
                    *final(self) == *old(self)
                }
            }),
    {
        let g = self.groups.0[slot];
        let h = self.objects.0[self.selected_object];
        let is_grp = match &self.arena[g].shape {
            Shape::Group(_) => true,
            _ => false,
        };
        if is_grp {
            let ghost arena0 = self.arena@;
            let mut node = self.arena.remove(g);
            match &mut node.shape {
                Shape::Group(l) => {
                    l.0.push(h);
                },
                _ => {},
            }
            self.arena.insert(g, node);
            proof {
                assert(self.arena@ =~= arena0.update(g as int, self.arena@[g as int]));
            }
            self.objects.0.remove(self.selected_object);
            self.selected_object = 0;
            proof {
                assert forall|k: int| 0 <= k < self.objects.0@.len()
                    implies ((#[trigger] self.objects.0@[k]) as int) < self.arena@.len() by {
                    if k < old(self).selected_object as int {
                        assert(self.objects.0@[k] == old(self).objects.0@[k]);
                    } else {
                        assert(self.objects.0@[k] == old(self).objects.0@[k + 1]);
                    }
                }
            }
        }
    }

    /// Release all children of the selected group back into the draw list,
    /// appended in their group order, leaving the group empty; when the
    /// selected object is not a group, nothing changes.
    pub fn ungroup_selected(&mut self)
        requires
            old(self).wf(),
            old(self).selected_object < old(self).objects.0@.len(),
        ensures
            final(self).wf(),
            ({
                let h = old(self).objects.0@[old(self).selected_object as int] as int;
                if is_group(old(self).arena@[h]) {
                    &&& final(self).arena@.len() == old(self).arena@.len()
                    &&& is_group(final(self).arena@[h])
                    &&& group_children(final(self).arena@[h]) == Seq::<usize>::empty()
                    &&& final(self).arena@[h].position == old(self).arena@[h].position
                    &&& final(self).arena@[h].scale == old(self).arena@[h].scale
                    &&& final(self).arena@[h].rotation == old(self).arena@[h].rotation
                    &&& final(self).arena@[h].color == old(self).arena@[h].color
                    &&& forall|k: int| 0 <= k < old(self).arena@.len() && k != h
                        ==> final(self).arena@[k] == old(self).arena@[k]
                    &&& final(self).objects.0@
                        == old(self).objects.0@ + group_children(old(self).arena@[h])
                    &&& final(self).selected_object == old(self).selected_object
                    &&& final(self).groups == old(self).groups
                    &&& final(self).camera == old(self).camera
                    &&& final(self).scale == old(self).scale
                    &&& final(self).rotation == old(self).rotation
                } else {
                    *final(self) == *old(self)
                }
            }),
    {
        let h = self.objects.0[self.selected_object];
        let is_grp = match &self.arena[h].shape {
            Shape::Group(_) => true,
            _ => false,
        };
        if is_grp {
            let ghost arena0 = self.arena@;
            let mut node = self.arena.remove(h);
            let shape0 = node.shape;
            match shape0 {
                Shape::Group(l) => {
                    node.shape = Shape::Group(ObjectList::new());
                    self.arena.insert(h, node);
                    proof {
                        assert(self.arena@ =~= arena0.update(h as int, self.arena@[h as int]));
                    }
                    let mut children = l.0;
                    self.objects.0.append(&mut children);
                },
                other => {
                    node.shape = other;
                    self.arena.insert(h, node);
                    proof {
                        assert(false);
                    }
                },
            }
        }
    }
}

} // verus!

verus! {

/// A command line split at every single space; consecutive spaces yield
/// empty tokens, and the empty line yields one empty token.
pub open spec fn split_tokens(text: Seq<char>) -> Seq<Seq<char>>
    decreases text.len(),
{
    if text.len() == 0 {
        seq![Seq::<char>::empty()]
    } else if text.last() == ' ' {
        split_tokens(text.drop_last()).push(Seq::<char>::empty())
    } else {
        let rest = split_tokens(text.drop_last());
        rest.update(rest.len() - 1, rest.last().push(text.last()))
    }
}

/// There is always at least one token.
proof fn lemma_split_tokens_nonempty(text: Seq<char>)
    ensures
        split_tokens(text).len() >= 1,
    decreases text.len(),
{
    if text.len() > 0 {
        lemma_split_tokens_nonempty(text.drop_last());
    }
}

/// Whether a character is a decimal digit, by code point.
pub open spec fn is_digit_char(c: char) -> bool {
    48 <= c as u32 <= 57
}

/// The numeric value of a digit character.
pub open spec fn digit_of(c: char) -> int {
    c as u32 - 48
}

/// The numeric value of a run of decimal digits.
pub open spec fn digits_val(s: Seq<char>) -> int
    decreases s.len(),
{
    if s.len() == 0 {
        0
    } else {
        digits_val(s.drop_last()) * 10 + digit_of(s.last())
    }
}

/// Whether the sequence is one or more decimal digits.
pub open spec fn is_digits(s: Seq<char>) -> bool {
    s.len() > 0 && forall|i: int| 0 <= i < s.len() ==> is_digit_char(#[trigger] s[i])
}

/// The value of a decimal integer token: an optional sign, then digits,
/// rejected when malformed or outside the `i32` range.
pub open spec fn parse_i32(s: Seq<char>) -> Option<int> {
    if s.len() > 0 && (s[0] == '+' || s[0] == '-') {
        let mag = s.skip(1);
        if is_digits(mag) {
            let v = if s[0] == '-' { -digits_val(mag) } else { digits_val(mag) };
            if i32::MIN <= v <= i32::MAX {
                Some(v)
            } else {
                None
            }
        } else {
            None
        }
    } else if is_digits(s) {
        if digits_val(s) <= i32::MAX {
            Some(digits_val(s))
        } else {
            None
        }
    } else {
        None
    }
}

/// A digit run's value never shrinks as the run extends.
proof fn lemma_digits_val_grows(s: Seq<char>, i: int)
    requires
        0 <= i <= s.len(),
        forall|k: int| 0 <= k < s.len() ==> is_digit_char(#[trigger] s[k]),
    ensures
        0 <= digits_val(s.take(i)) <= digits_val(s),
    decreases s.len() - i,
{
    if i == s.len() {
        assert(s.take(i) =~= s);
        lemma_digits_val_nonneg(s);
    } else {
        lemma_digits_val_grows(s, i + 1);
        lemma_digits_val_nonneg(s.take(i));
        assert(s.take(i + 1).drop_last() =~= s.take(i));
        assert(digits_val(s.take(i + 1))
            == digits_val(s.take(i)) * 10 + digit_of(s[i]));
    }
}

/// A digit run's value is never negative.
proof fn lemma_digits_val_nonneg(s: Seq<char>)
    requires
        forall|k: int| 0 <= k < s.len() ==> is_digit_char(#[trigger] s[k]),
    ensures
        digits_val(s) >= 0,
    decreases s.len(),
{
    if s.len() > 0 {
        lemma_digits_val_nonneg(s.drop_last());
    }
}

/// Parse a decimal integer token into an `i32`.
fn parse_i32_exec(s: &Vec<char>) -> (r: Option<i32>)
    ensures
        match r {
            Some(v) => parse_i32(s@) == Some(v as int),
            None => parse_i32(s@) is None,
        },
{
    let (neg, start): (bool, usize) = if s.len() > 0 && (s[0] == '+' || s[0] == '-') {
        (s[0] == '-', 1)
    } else {
        (false, 0)
    };
    let ghost mag = s@.skip(start as int);
    proof {
        if start == 0 {
            assert(mag =~= s@);
        }
    }
    if s.len() == start {
        return None;
    }
    let mut acc: i64 = 0;
    let mut i: usize = start;
    while i < s.len()
        invariant
            start <= i <= s@.len(),
            start <= 1,
            s@.len() > start,
            mag == s@.skip(start as int),
            (start == 1) == (s@.len() > 0 && (s@[0] == '+' || s@[0] == '-')),
            start == 0 ==> mag == s@,
            forall|k: int| start <= k < i ==> is_digit_char(#[trigger] s@[k]),
            0 <= acc <= 2147483648,
            acc as int == digits_val(s@.skip(start as int).take(i - start as int)),
        decreases s@.len() - i,
    {
        let c = s[i];
        if (c as u32) < ('0' as u32) || (c as u32) > ('9' as u32) {
            proof {
                assert(mag[i - start as int] == s@[i as int]);
                assert(!is_digits(mag));
            }
            return None;
        }
        let d = (c as u32) - ('0' as u32);
        acc = acc * 10 + (d as i64);
        proof {
            assert(mag.take(i + 1 - start as int).drop_last() =~= mag.take(i - start as int));
            assert(mag.take(i + 1 - start as int).last() == s@[i as int]);
        }
        i = i + 1;
        if acc > 2147483648 {
            proof {
                if is_digits(mag) {
                    assert(forall|k: int| 0 <= k < mag.len() ==> is_digit_char(#[trigger] mag[k]));
                    lemma_digits_val_grows(mag, i - start as int);
                    assert(digits_val(mag) >= acc as int);
                }
            }
            return None;
        }
    }
    proof {
        assert(mag.take(mag.len() as int) =~= mag);
        assert(is_digits(mag));
        assert(acc as int == digits_val(mag));
    }
    if neg {
        proof {
            assert(s@[0] == '-');
        }
        Some((-acc) as i32)
    } else {
        if acc > 2147483647 {
            return None;
        }
        proof {
            if s@[0] == '+' || s@[0] == '-' {
                assert(s@[0] == '+');
            }
        }
        Some(acc as i32)
    }
}

/// Split a command line into its space-separated tokens.
fn tokenize(text: &String) -> (r: Vec<Vec<char>>)
    ensures
        r@.map_values(|t: Vec<char>| t@) == split_tokens(text@),
{
    let n = text.as_str().unicode_len();
    let mut toks: Vec<Vec<char>> = Vec::new();
    toks.push(Vec::new());
    proof {
        assert(toks@.map_values(|t: Vec<char>| t@) =~= split_tokens(text@.take(0)));
    }
    let mut i: usize = 0;
    while i < n
        invariant
            i <= n,
            n == text@.len(),
            toks@.len() >= 1,
            toks@.map_values(|t: Vec<char>| t@) == split_tokens(text@.take(i as int)),
        decreases n - i,
    {
        let c = text.as_str().get_char(i);
        proof {
            assert(text@.take(i as int + 1).drop_last() =~= text@.take(i as int));
            assert(text@.take(i as int + 1).last() == text@[i as int]);
            lemma_split_tokens_nonempty(text@.take(i as int));
        }
        if c == ' ' {
            toks.push(Vec::new());
            proof {
                assert(toks@.map_values(|t: Vec<char>| t@)
                    =~= split_tokens(text@.take(i as int + 1)));
            }
        } else {
            let last = toks.len() - 1;
            let mut t = toks.remove(last);
            t.push(c);
            toks.push(t);
            proof {
                let prev = split_tokens(text@.take(i as int));
                assert(toks@.map_values(|t2: Vec<char>| t2@)
                    =~= prev.update(prev.len() - 1, prev.last().push(text@[i as int])));
            }
        }
        i = i + 1;
    }
    proof {
        assert(text@.take(n as int) =~= text@);
    }
    toks
}

} // verus!

verus! {

/// The keyword of the ellipse command.
pub open spec fn kw_ellipse() -> Seq<char> {
    seq!['e', 'l', 'l', 'i', 'p', 's', 'e']
}

/// The keyword of the rectangle command.
pub open spec fn kw_rect() -> Seq<char> {
    seq!['r', 'e', 'c', 't']
}

/// The semi-axes of a recognized ellipse command: exactly the keyword and
/// two integer arguments.
pub open spec fn cmd_ellipse_args(text: Seq<char>) -> Option<(int, int)> {
    let toks = split_tokens(text);
    if toks.len() == 3 && toks[0] == kw_ellipse() && parse_i32(toks[1]) is Some
        && parse_i32(toks[2]) is Some {
        Some((parse_i32(toks[1])->Some_0, parse_i32(toks[2])->Some_0))
    } else {
        None
    }
}

/// The corners of a recognized rectangle command: exactly the keyword and
/// four integer arguments.
pub open spec fn cmd_rect_args(text: Seq<char>) -> Option<(int, int, int, int)> {
    let toks = split_tokens(text);
    if toks.len() == 5 && toks[0] == kw_rect() && parse_i32(toks[1]) is Some
        && parse_i32(toks[2]) is Some && parse_i32(toks[3]) is Some
        && parse_i32(toks[4]) is Some {
        Some((parse_i32(toks[1])->Some_0, parse_i32(toks[2])->Some_0,
            parse_i32(toks[3])->Some_0, parse_i32(toks[4])->Some_0))
    } else {
        None
    }
}

/// Clamp a spawned semi-axis into the rasterizer's domain.
pub open spec fn clamp_axis(v: int) -> int {
    if v < -max_semi_axis() {
        -max_semi_axis()
    } else if v > max_semi_axis() {
        max_semi_axis()
    } else {
        v
    }
}

/// Clamp a semi-axis on machine integers.
fn clamp_axis_exec(v: i32) -> (r: i32)
    ensures
        r as int == clamp_axis(v as int),
{
    if v < -46340 {
        -46340
    } else if v > 46340 {
        46340
    } else {
        v
    }
}

/// Whether a token is the ellipse keyword.
fn token_is_ellipse(t: &Vec<char>) -> (r: bool)
    ensures
        r == (t@ == kw_ellipse()),
{
    if t.len() == 7 && t[0] == 'e' && t[1] == 'l' && t[2] == 'l' && t[3] == 'i' && t[4] == 'p'
        && t[5] == 's' && t[6] == 'e' {
        proof {
            assert(t@ =~= kw_ellipse());
        }
        true
    } else {
        proof {
            if t@ == kw_ellipse() {
                assert(t@.len() == 7 && t@[0] == 'e' && t@[1] == 'l' && t@[2] == 'l'
                    && t@[3] == 'i' && t@[4] == 'p' && t@[5] == 's' && t@[6] == 'e');
            }
        }
        false
    }
}

/// Whether a token is the rectangle keyword.
fn token_is_rect(t: &Vec<char>) -> (r: bool)
    ensures
        r == (t@ == kw_rect()),
{
    if t.len() == 4 && t[0] == 'r' && t[1] == 'e' && t[2] == 'c' && t[3] == 't' {
        proof {
            assert(t@ =~= kw_rect());
        }
        true
    } else {
        proof {
            if t@ == kw_rect() {
                assert(t@.len() == 4 && t@[0] == 'r' && t@[1] == 'e' && t@[2] == 'c'
                    && t@[3] == 't');
            }
        }
        false
    }
}

impl Scene {
    /// Interpret the command text held by the object at `handle` and commit
    /// it: a recognized ellipse command spawns an ellipse object and a
    /// recognized rectangle command a rectangle object, both at the default
    /// position with the warning color (ellipse semi-axes are clamped into
    /// the rasterizer's domain); any other text replaces the command text
    /// itself with `invalid`. An object that holds no text is left alone.
    pub fn commit_command(&mut self, handle: usize)
        requires
            old(self).wf(),
            handle < old(self).arena@.len(),
        ensures
            final(self).wf(),
            ({
                let shape = old(self).arena@[handle as int].shape;
                if !(shape is Letters) {
                    *final(self) == *old(self)
                } else {
                    let text = shape->Letters_0@;
                    if cmd_ellipse_args(text) is Some {
                        let wh = cmd_ellipse_args(text)->Some_0;
                        &&& final(self).arena@ == old(self).arena@.push(Object {
                            shape: Shape::Circle {
                                width: clamp_axis(wh.0) as i32,
                                height: clamp_axis(wh.1) as i32,
                            },
                            position: (100i32, 100i32),
                            scale: (1000i32, 1000i32),
                            rotation: 0i32,
                            color: (255u8, 0u8, 0u8),
                        })
                        &&& final(self).objects.0@ == old(self).objects.0@.push(
                            old(self).arena@.len() as usize)
                        &&& final(self).selected_object == old(self).selected_object
                        &&& final(self).groups == old(self).groups
                        &&& final(self).camera == old(self).camera
                        &&& final(self).scale == old(self).scale
                        &&& final(self).rotation == old(self).rotation
                    } else if cmd_rect_args(text) is Some {
                        let xy = cmd_rect_args(text)->Some_0;
                        &&& final(self).arena@ == old(self).arena@.push(Object {
                            shape: Shape::Rect(
                                (xy.0 as i32, xy.1 as i32),
                                (xy.2 as i32, xy.3 as i32),
                            ),
                            position: (100i32, 100i32),
                            scale: (1000i32, 1000i32),
                            rotation: 0i32,
                            color: (255u8, 0u8, 0u8),
                        })
                        &&& final(self).objects.0@ == old(self).objects.0@.push(
                            old(self).arena@.len() as usize)
                        &&& final(self).selected_object == old(self).selected_object
                        &&& final(self).groups == old(self).groups
                        &&& final(self).camera == old(self).camera
                        &&& final(self).scale == old(self).scale
                        &&& final(self).rotation == old(self).rotation
                    } else {
                        &&& final(self).arena@.len() == old(self).arena@.len()
                        &&& final(self).arena@[handle as int].shape matches Shape::Letters(t)
                            && t@ == "invalid"@
                        &&& final(self).arena@[handle as int].position
                            == old(self).arena@[handle as int].position
                        &&& final(self).arena@[handle as int].scale
                            == old(self).arena@[handle as int].scale
                        &&& final(self).arena@[handle as int].rotation
                            == old(self).arena@[handle as int].rotation
                        &&& final(self).arena@[handle as int].color
                            == old(self).arena@[handle as int].color
                        &&& forall|k: int| 0 <= k < old(self).arena@.len() && k != handle as int
                            ==> final(self).arena@[k] == old(self).arena@[k]
                        &&& final(self).objects == old(self).objects
                        &&& final(self).selected_object == old(self).selected_object
                        &&& final(self).groups == old(self).groups
                        &&& final(self).camera == old(self).camera
                        &&& final(self).scale == old(self).scale
                        &&& final(self).rotation == old(self).rotation
                    }
                }
            }),
    {
        let text: String = match &self.arena[handle].shape {
            Shape::Letters(t) => t.clone(),
            _ => {
                return ;
            },
        };
        let toks = tokenize(&text);
        let ghost stoks = split_tokens(text@);
        let mut done = false;
        if toks.len() == 3 && token_is_ellipse(&toks[0]) {
            let pw = parse_i32_exec(&toks[1]);
            let ph = parse_i32_exec(&toks[2]);
            match (pw, ph) {
                (Some(w), Some(h)) => {
                    let new_handle = self.arena.len();
                    let obj = Object::with_color(
                        Shape::Circle { width: clamp_axis_exec(w), height: clamp_axis_exec(h) },
                        (100, 100),
                        (255, 0, 0),
                    );
                    self.arena.push(obj);
                    self.objects.0.push(new_handle);
                    done = true;
                },
                _ => {},
            }
        } else if toks.len() == 5 && token_is_rect(&toks[0]) {
            let p1 = parse_i32_exec(&toks[1]);
            let p2 = parse_i32_exec(&toks[2]);
            let p3 = parse_i32_exec(&toks[3]);
            let p4 = parse_i32_exec(&toks[4]);
            match (p1, p2, p3, p4) {
                (Some(x0), Some(y0), Some(x1), Some(y1)) => {
                    let new_handle = self.arena.len();
                    let obj = Object::with_color(
                        Shape::Rect((x0, y0), (x1, y1)),
                        (100, 100),
                        (255, 0, 0),
                    );
                    self.arena.push(obj);
                    self.objects.0.push(new_handle);
                    done = true;
                },
                _ => {},
            }
        }
        if !done {
            let ghost arena0 = self.arena@;
            let mut node = self.arena.remove(handle);
            node.shape = Shape::Letters(String::from_str("invalid"));
            self.arena.insert(handle, node);
            proof {
                assert(self.arena@ =~= arena0.update(handle as int, self.arena@[handle as int]));
                reveal_strlit("invalid");
                assert("invalid"@.len() == 7);
            }
        }
    }
}

} // verus!
