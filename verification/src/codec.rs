//! The persistence codec: a scene serialized to a self-describing ASCII
//! text of space-separated tokens, and parsed back.
//!
//! Every token — keywords, decimal numbers, character code points — carries
//! one trailing space, so the stream is decodable without lookahead. Objects
//! are written by value and handles as plain numbers, so the shared-node
//! structure of a scene survives a round trip.

use vstd::prelude::*;
use crate::util::Point;
use crate::scene::{Line, ObjectList, Object, Scene, Shape};

verus! {

/// The mathematical image of a shape.
#[verifier::ext_equal]
pub enum ShapeV {
    Circle { width: int, height: int },
    Rect((int, int), (int, int)),
    Polygon(Seq<(int, int)>),
    Letters(Seq<char>),
    Lines(Seq<((int, int), (int, int))>),
    Group(Seq<int>),
}

/// The mathematical image of an object.
#[verifier::ext_equal]
pub struct ObjectV {
    pub shape: ShapeV,
    pub position: (int, int),
    pub scale: (int, int),
    pub rotation: int,
    pub color: (int, int, int),
}

/// The mathematical image of a scene.
#[verifier::ext_equal]
pub struct SceneV {
    pub arena: Seq<ObjectV>,
    pub objects: Seq<int>,
    pub selected: int,
    pub groups: Seq<int>,
    pub camera: (int, int),
    pub scale: (int, int),
    pub rotation: int,
}

/// A point as a pair of integers.
pub open spec fn point_v(p: Point) -> (int, int) {
    (p.0 as int, p.1 as int)
}

/// A segment as a pair of integer points.
pub open spec fn line_v(l: Line) -> ((int, int), (int, int)) {
    (point_v(l.0), point_v(l.1))
}

/// The mathematical image of a shape value.
pub open spec fn shape_view(s: Shape) -> ShapeV {
    match s {
        Shape::Circle { width, height } => ShapeV::Circle {
            width: width as int,
            height: height as int,
        },
        Shape::Rect(p0, p1) => ShapeV::Rect(point_v(p0), point_v(p1)),
        Shape::Polygon(ps) => ShapeV::Polygon(ps@.map_values(|p: Point| point_v(p))),
        Shape::Letters(t) => ShapeV::Letters(t@),
        Shape::Lines(ls) => ShapeV::Lines(ls@.map_values(|l: Line| line_v(l))),
        Shape::Group(l) => ShapeV::Group(l.0@.map_values(|h: usize| h as int)),
    }
}

/// The mathematical image of an object value.
pub open spec fn object_view(o: Object) -> ObjectV {
    ObjectV {
        shape: shape_view(o.shape),
        position: point_v(o.position),
        scale: (o.scale.0 as int, o.scale.1 as int),
        rotation: o.rotation as int,
        color: (o.color.0 as int, o.color.1 as int, o.color.2 as int),
    }
}

/// The mathematical image of a whole scene.
pub open spec fn scene_view(s: Scene) -> SceneV {
    SceneV {
        arena: s.arena@.map_values(|o: Object| object_view(o)),
        objects: s.objects.0@.map_values(|h: usize| h as int),
        selected: s.selected_object as int,
        groups: s.groups.0@.map_values(|h: usize| h as int),
        camera: point_v(s.camera),
        scale: (s.scale.0 as int, s.scale.1 as int),
        rotation: s.rotation as int,
    }
}

/// The decimal digits of a positive number, most significant first.
pub open spec fn enc_digits(n: int) -> Seq<u8>
    decreases n,
{
    if n <= 0 {
        Seq::empty()
    } else {
        enc_digits(n / 10).push((48 + n % 10) as u8)
    }
}

/// One encoded number token: an optional minus sign, decimal digits, and the
/// trailing token separator.
pub open spec fn enc_num(v: int) -> Seq<u8> {
    (if v < 0 {
        seq![45u8]
    } else {
        Seq::<u8>::empty()
    }) + (if v == 0 {
        seq![48u8]
    } else {
        enc_digits(if v < 0 { -v } else { v })
    }) + seq![32u8]
}

/// A run of encoded number tokens.
pub open spec fn enc_nums(vs: Seq<int>) -> Seq<u8>
    decreases vs.len(),
{
    if vs.len() == 0 {
        Seq::empty()
    } else {
        enc_nums(vs.drop_last()) + enc_num(vs.last())
    }
}

/// An encoded integer pair.
pub open spec fn enc_pair(p: (int, int)) -> Seq<u8> {
    enc_num(p.0) + enc_num(p.1)
}

/// An encoded keyword token: its letters and the trailing separator.
pub open spec fn enc_kw(k: Seq<u8>) -> Seq<u8> {
    k + seq![32u8]
}

/// A counted list of numbers: the length first, then the values.
pub open spec fn enc_counted(vs: Seq<int>) -> Seq<u8> {
    enc_num(vs.len() as int) + enc_nums(vs)
}

/// A run of encoded integer pairs.
pub open spec fn enc_pairs(ps: Seq<(int, int)>) -> Seq<u8>
    decreases ps.len(),
{
    if ps.len() == 0 {
        Seq::empty()
    } else {
        enc_pairs(ps.drop_last()) + enc_pair(ps.last())
    }
}

/// A run of encoded segments, four numbers each.
pub open spec fn enc_segs(ls: Seq<((int, int), (int, int))>) -> Seq<u8>
    decreases ls.len(),
{
    if ls.len() == 0 {
        Seq::empty()
    } else {
        enc_segs(ls.drop_last()) + enc_pair(ls.last().0) + enc_pair(ls.last().1)
    }
}

/// The code points of a text, as integers.
pub open spec fn chars_as_ints(t: Seq<char>) -> Seq<int> {
    t.map_values(|c: char| c as u32 as int)
}

/// The keyword bytes of each shape variant.
pub open spec fn kw_circle_b() -> Seq<u8> {
    seq![99u8, 105u8, 114u8, 99u8, 108u8, 101u8]
}

pub open spec fn kw_rect_b() -> Seq<u8> {
    seq![114u8, 101u8, 99u8, 116u8]
}

pub open spec fn kw_polygon_b() -> Seq<u8> {
    seq![112u8, 111u8, 108u8, 121u8, 103u8, 111u8, 110u8]
}

pub open spec fn kw_letters_b() -> Seq<u8> {
    seq![108u8, 101u8, 116u8, 116u8, 101u8, 114u8, 115u8]
}

pub open spec fn kw_lines_b() -> Seq<u8> {
    seq![108u8, 105u8, 110u8, 101u8, 115u8]
}

pub open spec fn kw_group_b() -> Seq<u8> {
    seq![103u8, 114u8, 111u8, 117u8, 112u8]
}

pub open spec fn kw_object_b() -> Seq<u8> {
    seq![111u8, 98u8, 106u8, 101u8, 99u8, 116u8]
}

pub open spec fn kw_scene_b() -> Seq<u8> {
    seq![115u8, 99u8, 101u8, 110u8, 101u8]
}

/// An encoded shape: its variant keyword, then its payload.
pub open spec fn enc_shape(sh: ShapeV) -> Seq<u8> {
    match sh {
        ShapeV::Circle { width, height } => enc_kw(kw_circle_b()) + enc_num(width) + enc_num(height),
        ShapeV::Rect(p0, p1) => enc_kw(kw_rect_b()) + enc_pair(p0) + enc_pair(p1),
        ShapeV::Polygon(ps) => enc_kw(kw_polygon_b()) + enc_num(ps.len() as int) + enc_pairs(ps),
        ShapeV::Letters(t) => enc_kw(kw_letters_b()) + enc_counted(chars_as_ints(t)),
        ShapeV::Lines(ls) => enc_kw(kw_lines_b()) + enc_num(ls.len() as int) + enc_segs(ls),
        ShapeV::Group(hs) => enc_kw(kw_group_b()) + enc_counted(hs),
    }
}

/// An encoded object: its shape, then position, scale, rotation and color.
pub open spec fn enc_obj(o: ObjectV) -> Seq<u8> {
    enc_kw(kw_object_b()) + enc_shape(o.shape) + enc_pair(o.position) + enc_pair(o.scale)
        + enc_num(o.rotation) + enc_num(o.color.0) + enc_num(o.color.1) + enc_num(o.color.2)
}

/// A run of encoded objects.
pub open spec fn enc_objs(os: Seq<ObjectV>) -> Seq<u8>
    decreases os.len(),
{
    if os.len() == 0 {
        Seq::empty()
    } else {
        enc_objs(os.drop_last()) + enc_obj(os.last())
    }
}

/// A whole encoded scene.
pub open spec fn enc_scene(sv: SceneV) -> Seq<u8> {
    enc_kw(kw_scene_b()) + enc_num(sv.arena.len() as int) + enc_objs(sv.arena)
        + enc_counted(sv.objects) + enc_counted(sv.groups) + enc_num(sv.selected)
        + enc_pair(sv.camera) + enc_pair(sv.scale) + enc_num(sv.rotation)
}

} // verus!

verus! {

/// Append the decimal digits of `m`, most significant first.
fn emit_digits(out: &mut Vec<u8>, m: u64)
    ensures
        final(out)@ == old(out)@ + enc_digits(m as int),
    decreases m,
{
    if m > 0 {
        emit_digits(out, m / 10);
        out.push(48 + (m % 10) as u8);
        proof {
            assert(out@ =~= old(out)@ + enc_digits(m as int));
        }
    } else {
        proof {
            assert(out@ =~= old(out)@ + enc_digits(0));
        }
    }
}

/// Append one signed number token.
fn emit_num(out: &mut Vec<u8>, v: i64)
    ensures
        final(out)@ == old(out)@ + enc_num(v as int),
{
    if v < 0 {
        out.push(45);
    }
    let mag: u64 = if v < 0 {
        (-(v as i128)) as u64
    } else {
        v as u64
    };
    if mag == 0 {
        out.push(48);
    } else {
        emit_digits(out, mag);
    }
    out.push(32);
    proof {
        assert(out@ =~= old(out)@ + enc_num(v as int));
    }
}

/// Append one non-negative number token.
fn emit_unum(out: &mut Vec<u8>, v: u64)
    ensures
        final(out)@ == old(out)@ + enc_num(v as int),
{
    if v == 0 {
        out.push(48);
    } else {
        emit_digits(out, v);
    }
    out.push(32);
    proof {
        assert(out@ =~= old(out)@ + enc_num(v as int));
    }
}

/// Append a keyword's letters and the token separator.
fn emit_kw(out: &mut Vec<u8>, kw: &Vec<u8>)
    ensures
        final(out)@ == old(out)@ + enc_kw(kw@),
{
    let mut i: usize = 0;
    while i < kw.len()
        invariant
            i <= kw@.len(),
            out@ == old(out)@ + kw@.take(i as int),
        decreases kw@.len() - i,
    {
        out.push(kw[i]);
        proof {
            assert(out@ =~= old(out)@ + kw@.take(i as int + 1));
        }
        i = i + 1;
    }
    out.push(32);
    proof {
        assert(kw@.take(kw@.len() as int) =~= kw@);
        assert(out@ =~= old(out)@ + enc_kw(kw@));
    }
}

/// Append a counted handle list.
fn emit_handles(out: &mut Vec<u8>, l: &ObjectList)
    ensures
        final(out)@ == old(out)@ + enc_counted(l.0@.map_values(|h: usize| h as int)),
{
    let ghost vals = l.0@.map_values(|h: usize| h as int);
    emit_unum(out, l.0.len() as u64);
    let mut i: usize = 0;
    while i < l.0.len()
        invariant
            i <= l.0@.len(),
            vals == l.0@.map_values(|h: usize| h as int),
            out@ == old(out)@ + enc_num(vals.len() as int) + enc_nums(vals.take(i as int)),
        decreases l.0@.len() - i,
    {
        emit_unum(out, l.0[i] as u64);
        proof {
            assert(vals.take(i as int + 1).drop_last() =~= vals.take(i as int));
            assert(out@ =~= old(out)@ + enc_num(vals.len() as int)
                + enc_nums(vals.take(i as int + 1)));
        }
        i = i + 1;
    }
    proof {
        assert(vals.take(vals.len() as int) =~= vals);
    }
}

/// Append one encoded shape.
fn emit_shape(out: &mut Vec<u8>, sh: &Shape)
    ensures
        final(out)@ == old(out)@ + enc_shape(shape_view(*sh)),
{
    match sh {
        Shape::Circle { width, height } => {
            let kw: Vec<u8> = vec![99, 105, 114, 99, 108, 101];
            proof {
                assert(kw@ =~= kw_circle_b());
            }
            emit_kw(out, &kw);
            emit_num(out, *width as i64);
            emit_num(out, *height as i64);
            proof {
                assert(out@ =~= old(out)@ + enc_shape(shape_view(*sh)));
            }
        },
        Shape::Rect(p0, p1) => {
            let kw: Vec<u8> = vec![114, 101, 99, 116];
            proof {
                assert(kw@ =~= kw_rect_b());
            }
            emit_kw(out, &kw);
            emit_num(out, p0.0 as i64);
            emit_num(out, p0.1 as i64);
            emit_num(out, p1.0 as i64);
            emit_num(out, p1.1 as i64);
            proof {
                assert(out@ =~= old(out)@ + enc_shape(shape_view(*sh)));
            }
        },
        Shape::Polygon(ps) => {
            let kw: Vec<u8> = vec![112, 111, 108, 121, 103, 111, 110];
            proof {
                assert(kw@ =~= kw_polygon_b());
            }
            emit_kw(out, &kw);
            emit_unum(out, ps.len() as u64);
            let ghost vals = ps@.map_values(|p: Point| point_v(p));
            let mut i: usize = 0;
            while i < ps.len()
                invariant
                    i <= ps@.len(),
                    vals == ps@.map_values(|p: Point| point_v(p)),
                    out@ == old(out)@ + enc_kw(kw_polygon_b()) + enc_num(vals.len() as int)
                        + enc_pairs(vals.take(i as int)),
                decreases ps@.len() - i,
            {
                emit_num(out, ps[i].0 as i64);
                emit_num(out, ps[i].1 as i64);
                proof {
                    assert(vals.take(i as int + 1).drop_last() =~= vals.take(i as int));
                    assert(out@ =~= old(out)@ + enc_kw(kw_polygon_b())
                        + enc_num(vals.len() as int) + enc_pairs(vals.take(i as int + 1)));
                }
                i = i + 1;
            }
            proof {
                assert(vals.take(vals.len() as int) =~= vals);
                assert(out@ =~= old(out)@ + enc_shape(shape_view(*sh)));
            }
        },
        Shape::Letters(t) => {
            let kw: Vec<u8> = vec![108, 101, 116, 116, 101, 114, 115];
            proof {
                assert(kw@ =~= kw_letters_b());
            }
            emit_kw(out, &kw);
            let n = t.as_str().unicode_len();
            emit_unum(out, n as u64);
            let ghost vals = chars_as_ints(t@);
            let mut i: usize = 0;
            while i < n
                invariant
                    i <= n,
                    n == t@.len(),
                    vals == chars_as_ints(t@),
                    out@ == old(out)@ + enc_kw(kw_letters_b()) + enc_num(vals.len() as int)
                        + enc_nums(vals.take(i as int)),
                decreases n - i,
            {
                let c = t.as_str().get_char(i);
                emit_unum(out, (c as u32) as u64);
                proof {
                    assert(vals.take(i as int + 1).drop_last() =~= vals.take(i as int));
                    assert(out@ =~= old(out)@ + enc_kw(kw_letters_b())
                        + enc_num(vals.len() as int) + enc_nums(vals.take(i as int + 1)));
                }
                i = i + 1;
            }
            proof {
                assert(vals.take(vals.len() as int) =~= vals);
                assert(out@ =~= old(out)@ + enc_shape(shape_view(*sh)));
            }
        },
        Shape::Lines(ls) => {
            let kw: Vec<u8> = vec![108, 105, 110, 101, 115];
            proof {
                assert(kw@ =~= kw_lines_b());
            }
            emit_kw(out, &kw);
            emit_unum(out, ls.len() as u64);
            let ghost vals = ls@.map_values(|l: Line| line_v(l));
            let mut i: usize = 0;
            while i < ls.len()
                invariant
                    i <= ls@.len(),
                    vals == ls@.map_values(|l: Line| line_v(l)),
                    out@ == old(out)@ + enc_kw(kw_lines_b()) + enc_num(vals.len() as int)
                        + enc_segs(vals.take(i as int)),
                decreases ls@.len() - i,
            {
                emit_num(out, ls[i].0.0 as i64);
                emit_num(out, ls[i].0.1 as i64);
                emit_num(out, ls[i].1.0 as i64);
                emit_num(out, ls[i].1.1 as i64);
                proof {
                    assert(vals.take(i as int + 1).drop_last() =~= vals.take(i as int));
                    assert(out@ =~= old(out)@ + enc_kw(kw_lines_b())
                        + enc_num(vals.len() as int) + enc_segs(vals.take(i as int + 1)));
                }
                i = i + 1;
            }
            proof {
                assert(vals.take(vals.len() as int) =~= vals);
                assert(out@ =~= old(out)@ + enc_shape(shape_view(*sh)));
            }
        },
        Shape::Group(l) => {
            let kw: Vec<u8> = vec![103, 114, 111, 117, 112];
            proof {
                assert(kw@ =~= kw_group_b());
            }
            emit_kw(out, &kw);
            emit_handles(out, l);
            proof {
                assert(out@ =~= old(out)@ + enc_shape(shape_view(*sh)));
            }
        },
    }
}

/// Append one encoded object.
#[verifier::rlimit(50)]
fn emit_obj(out: &mut Vec<u8>, o: &Object)
    ensures
        final(out)@ == old(out)@ + enc_obj(object_view(*o)),
{
    let kw: Vec<u8> = vec![111, 98, 106, 101, 99, 116];
    proof {
        assert(kw@ =~= kw_object_b());
    }
    emit_kw(out, &kw);
    emit_shape(out, &o.shape);
    emit_num(out, o.position.0 as i64);
    emit_num(out, o.position.1 as i64);
    emit_num(out, o.scale.0 as i64);
    emit_num(out, o.scale.1 as i64);
    emit_num(out, o.rotation as i64);
    emit_unum(out, o.color.0 as u64);
    emit_unum(out, o.color.1 as u64);
    emit_unum(out, o.color.2 as u64);
    proof {
        assert(out@ =~= old(out)@ + enc_obj(object_view(*o)));
    }
}

impl Scene {
    /// Serialize the whole scene into its text form.
    pub fn serialize(&self) -> (out: Vec<u8>)
        ensures
            out@ == enc_scene(scene_view(*self)),
    {
        let mut out: Vec<u8> = Vec::new();
        let kw: Vec<u8> = vec![115, 99, 101, 110, 101];
        proof {
            assert(kw@ =~= kw_scene_b());
        }
        emit_kw(&mut out, &kw);
        emit_unum(&mut out, self.arena.len() as u64);
        let ghost objs = self.arena@.map_values(|o: Object| object_view(o));
        let ghost base = out@;
        let mut i: usize = 0;
        while i < self.arena.len()
            invariant
                i <= self.arena@.len(),
                objs == self.arena@.map_values(|o: Object| object_view(o)),
                out@ == base + enc_objs(objs.take(i as int)),
            decreases self.arena@.len() - i,
        {
            emit_obj(&mut out, &self.arena[i]);
            proof {
                assert(objs.take(i as int + 1).drop_last() =~= objs.take(i as int));
                assert(out@ =~= base + enc_objs(objs.take(i as int + 1)));
            }
            i = i + 1;
        }
        proof {
            assert(objs.take(objs.len() as int) =~= objs);
        }
        emit_handles(&mut out, &self.objects);
        emit_handles(&mut out, &self.groups);
        emit_unum(&mut out, self.selected_object as u64);
        emit_num(&mut out, self.camera.0 as i64);
        emit_num(&mut out, self.camera.1 as i64);
        emit_num(&mut out, self.scale.0 as i64);
        emit_num(&mut out, self.scale.1 as i64);
        emit_num(&mut out, self.rotation as i64);
        proof {
            assert(out@ =~= enc_scene(scene_view(*self)));
        }
        out
    }
}

} // verus!

verus! {

/// Whether a byte is a decimal digit.
pub open spec fn is_digit(b: u8) -> bool {
    48 <= b <= 57
}

/// Scan a maximal digit run from `i`, folding the digits onto `acc`, and
/// yield the value and the index after the run.
pub open spec fn scan_digits(s: Seq<u8>, i: int, acc: int) -> (int, int)
    decreases s.len() - i
        when 0 <= i <= s.len()
{
    if i < s.len() && is_digit(s[i]) {
        scan_digits(s, i + 1, acc * 10 + (s[i] - 48))
    } else {
        (acc, i)
    }
}

/// The largest magnitude a number token may carry.
pub open spec fn max_num() -> int {
    0x7fff_ffff_ffff_ffff
}

/// Decode one number token at `i`: an optional minus sign, at least one
/// digit, and the separator; rejected when malformed or too large.
pub open spec fn dec_num(s: Seq<u8>, i: int) -> Option<(int, int)> {
    if 0 <= i < s.len() {
        let neg = s[i] == 45;
        let j = if neg { i + 1 } else { i };
        let vk = scan_digits(s, j, 0);
        if vk.1 > j && vk.1 < s.len() && s[vk.1] == 32 && vk.0 <= max_num() {
            Some((if neg { -vk.0 } else { vk.0 }, vk.1 + 1))
        } else {
            None
        }
    } else {
        None
    }
}

/// Decode one number token and require it within `[lo, hi]`.
pub open spec fn dec_num_in(s: Seq<u8>, i: int, lo: int, hi: int) -> Option<(int, int)> {
    match dec_num(s, i) {
        Some(vj) => if lo <= vj.0 <= hi {
            Some(vj)
        } else {
            None
        },
        None => None,
    }
}

/// The `i32` value range.
pub open spec fn i32_lo() -> int {
    -0x8000_0000
}

pub open spec fn i32_hi() -> int {
    0x7fff_ffff
}

/// The largest count or handle value the codec accepts.
pub open spec fn count_hi() -> int {
    0xffff_ffff
}

/// Decode a keyword token: its exact letters, then the separator.
pub open spec fn dec_kw(s: Seq<u8>, i: int, kw: Seq<u8>) -> Option<int> {
    if 0 <= i && i + kw.len() + 1 <= s.len() && s.subrange(i, i + kw.len() as int) == kw
        && s[i + kw.len() as int] == 32 {
        Some(i + kw.len() as int + 1)
    } else {
        None
    }
}

/// Decode exactly `n` number tokens, each within `[lo, hi]`.
pub open spec fn dec_nums(s: Seq<u8>, i: int, n: nat, lo: int, hi: int) -> Option<(Seq<int>, int)>
    decreases n,
{
    if n == 0 {
        Some((Seq::empty(), i))
    } else {
        match dec_num_in(s, i, lo, hi) {
            Some(vj) => match dec_nums(s, vj.1, (n - 1) as nat, lo, hi) {
                Some(vsk) => Some((seq![vj.0] + vsk.0, vsk.1)),
                None => None,
            },
            None => None,
        }
    }
}

/// Decode a counted number list: the count, then that many values.
pub open spec fn dec_counted(s: Seq<u8>, i: int, lo: int, hi: int) -> Option<(Seq<int>, int)> {
    match dec_num_in(s, i, 0, count_hi()) {
        Some(nj) => dec_nums(s, nj.1, nj.0 as nat, lo, hi),
        None => None,
    }
}

/// Decode a pair of numbers in `[lo, hi]`.
pub open spec fn dec_pair(s: Seq<u8>, i: int, lo: int, hi: int) -> Option<((int, int), int)> {
    match dec_num_in(s, i, lo, hi) {
        Some(aj) => match dec_num_in(s, aj.1, lo, hi) {
            Some(bk) => Some(((aj.0, bk.0), bk.1)),
            None => None,
        },
        None => None,
    }
}

/// Decode exactly `n` pairs of numbers in `[lo, hi]`.
pub open spec fn dec_pairs(s: Seq<u8>, i: int, n: nat, lo: int, hi: int)
    -> Option<(Seq<(int, int)>, int)>
    decreases n,
{
    if n == 0 {
        Some((Seq::empty(), i))
    } else {
        match dec_pair(s, i, lo, hi) {
            Some(pj) => match dec_pairs(s, pj.1, (n - 1) as nat, lo, hi) {
                Some(psk) => Some((seq![pj.0] + psk.0, psk.1)),
                None => None,
            },
            None => None,
        }
    }
}

/// Decode exactly `n` segments, four numbers each.
pub open spec fn dec_segs(s: Seq<u8>, i: int, n: nat)
    -> Option<(Seq<((int, int), (int, int))>, int)>
    decreases n,
{
    if n == 0 {
        Some((Seq::empty(), i))
    } else {
        match dec_pair(s, i, i32_lo(), i32_hi()) {
            Some(aj) => match dec_pair(s, aj.1, i32_lo(), i32_hi()) {
                Some(bk) => match dec_segs(s, bk.1, (n - 1) as nat) {
                    Some(lsk) => Some((seq![(aj.0, bk.0)] + lsk.0, lsk.1)),
                    None => None,
                },
                None => None,
            },
            None => None,
        }
    }
}

/// Whether every value of the sequence is a Unicode scalar code point.
pub open spec fn all_scalars(vs: Seq<int>) -> bool {
    forall|k: int| 0 <= k < vs.len() ==> vstd::utf8::is_scalar((#[trigger] vs[k]) as u32)
}

/// The characters of a sequence of scalar code points.
pub open spec fn ints_as_chars(vs: Seq<int>) -> Seq<char> {
    vs.map_values(|v: int| (v as u32) as char)
}

/// Decode one shape: its variant keyword, then its payload.
pub open spec fn dec_shape(s: Seq<u8>, i: int) -> Option<(ShapeV, int)> {
    if dec_kw(s, i, kw_circle_b()) is Some {
        match dec_pair(s, dec_kw(s, i, kw_circle_b())->Some_0, i32_lo(), i32_hi()) {
            Some(whj) => Some((ShapeV::Circle { width: whj.0.0, height: whj.0.1 }, whj.1)),
            None => None,
        }
    } else if dec_kw(s, i, kw_rect_b()) is Some {
        match dec_pair(s, dec_kw(s, i, kw_rect_b())->Some_0, i32_lo(), i32_hi()) {
            Some(aj) => match dec_pair(s, aj.1, i32_lo(), i32_hi()) {
                Some(bk) => Some((ShapeV::Rect(aj.0, bk.0), bk.1)),
                None => None,
            },
            None => None,
        }
    } else if dec_kw(s, i, kw_polygon_b()) is Some {
        match dec_num_in(s, dec_kw(s, i, kw_polygon_b())->Some_0, 0, count_hi()) {
            Some(nj) => match dec_pairs(s, nj.1, nj.0 as nat, i32_lo(), i32_hi()) {
                Some(psk) => Some((ShapeV::Polygon(psk.0), psk.1)),
                None => None,
            },
            None => None,
        }
    } else if dec_kw(s, i, kw_letters_b()) is Some {
        match dec_counted(s, dec_kw(s, i, kw_letters_b())->Some_0, 0, 0x10ffff) {
            Some(vsk) => if all_scalars(vsk.0) {
                Some((ShapeV::Letters(ints_as_chars(vsk.0)), vsk.1))
            } else {
                None
            },
            None => None,
        }
    } else if dec_kw(s, i, kw_lines_b()) is Some {
        match dec_num_in(s, dec_kw(s, i, kw_lines_b())->Some_0, 0, count_hi()) {
            Some(nj) => match dec_segs(s, nj.1, nj.0 as nat) {
                Some(lsk) => Some((ShapeV::Lines(lsk.0), lsk.1)),
                None => None,
            },
            None => None,
        }
    } else if dec_kw(s, i, kw_group_b()) is Some {
        match dec_counted(s, dec_kw(s, i, kw_group_b())->Some_0, 0, count_hi()) {
            Some(hsk) => Some((ShapeV::Group(hsk.0), hsk.1)),
            None => None,
        }
    } else {
        None
    }
}

/// Decode one object: its shape, then position, scale, rotation and color.
pub open spec fn dec_obj(s: Seq<u8>, i: int) -> Option<(ObjectV, int)> {
    match dec_kw(s, i, kw_object_b()) {
        Some(j) => match dec_shape(s, j) {
            Some(shk) => match dec_pair(s, shk.1, i32_lo(), i32_hi()) {
                Some(posj) => match dec_pair(s, posj.1, i32_lo(), i32_hi()) {
                    Some(sclj) => match dec_num_in(s, sclj.1, i32_lo(), i32_hi()) {
                        Some(rotj) => match dec_num_in(s, rotj.1, 0, 255) {
                            Some(rj) => match dec_num_in(s, rj.1, 0, 255) {
                                Some(gj) => match dec_num_in(s, gj.1, 0, 255) {
                                    Some(bj) => Some((ObjectV {
                                        shape: shk.0,
                                        position: posj.0,
                                        scale: sclj.0,
                                        rotation: rotj.0,
                                        color: (rj.0, gj.0, bj.0),
                                    }, bj.1)),
                                    None => None,
                                },
                                None => None,
                            },
                            None => None,
                        },
                        None => None,
                    },
                    None => None,
                },
                None => None,
            },
            None => None,
        },
        None => None,
    }
}

/// Decode exactly `n` objects.
pub open spec fn dec_objs(s: Seq<u8>, i: int, n: nat) -> Option<(Seq<ObjectV>, int)>
    decreases n,
{
    if n == 0 {
        Some((Seq::empty(), i))
    } else {
        match dec_obj(s, i) {
            Some(oj) => match dec_objs(s, oj.1, (n - 1) as nat) {
                Some(osk) => Some((seq![oj.0] + osk.0, osk.1)),
                None => None,
            },
            None => None,
        }
    }
}

/// Decode a whole scene starting at `i`.
pub open spec fn dec_scene_at(s: Seq<u8>, i: int) -> Option<(SceneV, int)> {
    match dec_kw(s, i, kw_scene_b()) {
        Some(j) => match dec_num_in(s, j, 0, count_hi()) {
            Some(nj) => match dec_objs(s, nj.1, nj.0 as nat) {
                Some(osk) => match dec_counted(s, osk.1, 0, count_hi()) {
                    Some(objk) => match dec_counted(s, objk.1, 0, count_hi()) {
                        Some(grpk) => match dec_num_in(s, grpk.1, 0, count_hi()) {
                            Some(selj) => match dec_pair(s, selj.1, i32_lo(), i32_hi()) {
                                Some(camj) => match dec_pair(s, camj.1, i32_lo(), i32_hi()) {
                                    Some(sclj) => match dec_num_in(s, sclj.1, i32_lo(), i32_hi()) {
                                        Some(rotj) => Some((SceneV {
                                            arena: osk.0,
                                            objects: objk.0,
                                            selected: selj.0,
                                            groups: grpk.0,
                                            camera: camj.0,
                                            scale: sclj.0,
                                            rotation: rotj.0,
                                        }, rotj.1)),
                                        None => None,
                                    },
                                    None => None,
                                },
                                None => None,
                            },
                            None => None,
                        },
                        None => None,
                    },
                    None => None,
                },
                None => None,
            },
            None => None,
        },
        None => None,
    }
}

/// Decode a whole scene; the text must be consumed exactly.
pub open spec fn dec_scene(s: Seq<u8>) -> Option<SceneV> {
    match dec_scene_at(s, 0) {
        Some(svj) => if svj.1 == s.len() {
            Some(svj.0)
        } else {
            None
        },
        None => None,
    }
}

} // verus!

verus! {

/// Powers of ten.
pub open spec fn pow10(k: nat) -> int
    decreases k,
{
    if k == 0 {
        1
    } else {
        10 * pow10((k - 1) as nat)
    }
}

/// The big-endian numeric value of a run of digit bytes.
pub open spec fn bytes_val(s: Seq<u8>) -> int
    decreases s.len(),
{
    if s.len() == 0 {
        0
    } else {
        bytes_val(s.drop_last()) * 10 + (s.last() - 48)
    }
}

/// The digits a positive number encodes to are digits, and carry its value.
proof fn lemma_enc_digits_facts(n: int)
    requires
        n >= 1,
    ensures
        enc_digits(n).len() >= 1,
        forall|k: int| 0 <= k < enc_digits(n).len() ==> is_digit(#[trigger] enc_digits(n)[k]),
        bytes_val(enc_digits(n)) == n,
    decreases n,
{
    vstd::arithmetic::div_mod::lemma_fundamental_div_mod(n, 10);
    vstd::arithmetic::div_mod::lemma_mod_bound(n, 10);
    vstd::arithmetic::div_mod::lemma_div_pos_is_pos(n, 10);
    vstd::arithmetic::div_mod::lemma_div_is_strictly_smaller(n, 10);
    assert((n / 10) * 10 == 10 * (n / 10)) by (nonlinear_arith);
    if n / 10 >= 1 {
        lemma_enc_digits_facts(n / 10);
        assert(enc_digits(n).drop_last() =~= enc_digits(n / 10));
    } else {
        assert(enc_digits(n / 10) =~= Seq::<u8>::empty());
        assert(enc_digits(n).drop_last() =~= Seq::<u8>::empty());
        assert(bytes_val(Seq::<u8>::empty()) == 0);
    }
}

/// Reading a digit run from the front peels off its leading digit.
proof fn lemma_bytes_val_first(s: Seq<u8>)
    requires
        s.len() >= 1,
        forall|k: int| 0 <= k < s.len() ==> is_digit(#[trigger] s[k]),
    ensures
        bytes_val(s) == (s[0] - 48) * pow10((s.len() - 1) as nat) + bytes_val(s.drop_first()),
        bytes_val(s) >= 0,
    decreases s.len(),
{
    let d0 = s[0] - 48;
    if s.len() == 1 {
        assert(s.drop_last() =~= Seq::<u8>::empty());
        assert(s.drop_first() =~= Seq::<u8>::empty());
        assert(bytes_val(Seq::<u8>::empty()) == 0);
        assert(d0 * pow10(0) == d0) by (nonlinear_arith);
    } else {
        let dl = s.drop_last();
        lemma_bytes_val_first(dl);
        assert(s.drop_first().drop_last() =~= dl.drop_first());
        assert(s.drop_first().len() >= 1);
        assert(bytes_val(s.drop_first())
            == bytes_val(dl.drop_first()) * 10 + (s.last() - 48));
        let p = pow10((s.len() - 2) as nat);
        lemma_pow10_pos((s.len() - 2) as nat);
        assert(pow10((s.len() - 1) as nat) == 10 * p);
        assert((d0 * p + bytes_val(dl.drop_first())) * 10
            == d0 * (10 * p) + bytes_val(dl.drop_first()) * 10) by (nonlinear_arith);
        assert(d0 * (10 * p) >= 0) by (nonlinear_arith)
            requires
                d0 >= 0,
                p >= 1,
        ;
    }
}

/// Powers of ten are positive.
proof fn lemma_pow10_pos(k: nat)
    ensures
        pow10(k) >= 1,
    decreases k,
{
    if k > 0 {
        lemma_pow10_pos((k - 1) as nat);
    }
}

/// Scanning a complete digit run folds its value onto the accumulator.
proof fn lemma_scan_digit_run(s: Seq<u8>, i: int, j: int, acc: int)
    requires
        0 <= i <= j <= s.len(),
        forall|k: int| i <= k < j ==> is_digit(#[trigger] s[k]),
        j == s.len() || !is_digit(s[j]),
    ensures
        scan_digits(s, i, acc)
            == (acc * pow10((j - i) as nat) + bytes_val(s.subrange(i, j)), j),
    decreases j - i,
{
    if i == j {
        assert(s.subrange(i, j) =~= Seq::<u8>::empty());
        assert(bytes_val(Seq::<u8>::empty()) == 0);
        assert(acc * pow10(0) == acc) by (nonlinear_arith);
    } else {
        let r = s.subrange(i, j);
        let d0 = s[i] - 48;
        lemma_scan_digit_run(s, i + 1, j, acc * 10 + d0);
        assert(r.drop_first() =~= s.subrange(i + 1, j));
        assert(forall|k: int| 0 <= k < r.len() ==> is_digit(#[trigger] r[k]));
        lemma_bytes_val_first(r);
        let p = pow10((j - i - 1) as nat);
        assert(pow10((j - i) as nat) == 10 * p);
        assert((acc * 10 + d0) * p == acc * (10 * p) + d0 * p) by (nonlinear_arith);
        assert(r[0] == s[i]);
    }
}

/// Pointwise view of a known subrange.
proof fn lemma_subrange_index(s: Seq<u8>, i: int, a: Seq<u8>)
    requires
        0 <= i,
        i + a.len() <= s.len(),
        s.subrange(i, i + a.len() as int) == a,
    ensures
        forall|k: int| 0 <= k < a.len() ==> s[i + k] == #[trigger] a[k],
{
    assert forall|k: int| 0 <= k < a.len() implies s[i + k] == #[trigger] a[k] by {
        assert(s.subrange(i, i + a.len() as int)[k] == a[k]);
    }
}

/// The two halves of a concatenation sitting inside a longer sequence.
proof fn lemma_subrange_split(s: Seq<u8>, i: int, a: Seq<u8>, b: Seq<u8>)
    requires
        0 <= i,
        i + a.len() + b.len() <= s.len(),
        s.subrange(i, i + a.len() + b.len()) == a + b,
    ensures
        s.subrange(i, i + a.len() as int) == a,
        s.subrange(i + a.len() as int, i + a.len() + b.len()) == b,
{
    let l = a.len() + b.len();
    assert forall|k: int| 0 <= k < l implies s[i + k] == #[trigger] (a + b)[k] by {
        assert(s.subrange(i, i + l)[k] == (a + b)[k]);
    }
    assert forall|m: int| 0 <= m < a.len()
        implies s.subrange(i, i + a.len() as int)[m] == a[m] by {
        assert(s[i + m] == (a + b)[m]);
        assert((a + b)[m] == a[m]);
    }
    assert(s.subrange(i, i + a.len() as int) =~= a);
    assert forall|m: int| 0 <= m < b.len()
        implies s.subrange(i + a.len() as int, i + a.len() + b.len())[m] == b[m] by {
        assert(s[i + (a.len() + m)] == (a + b)[a.len() + m]);
        assert((a + b)[a.len() + m] == b[m]);
    }
    assert(s.subrange(i + a.len() as int, i + a.len() + b.len()) =~= b);
}

/// A number token decodes back to the number it encodes.
proof fn lemma_dec_num_enc(s: Seq<u8>, i: int, v: int)
    requires
        0 <= i,
        -max_num() <= v <= max_num(),
        i + enc_num(v).len() <= s.len(),
        s.subrange(i, i + enc_num(v).len() as int) == enc_num(v),
    ensures
        dec_num(s, i) == Some((v, i + enc_num(v).len() as int)),
{
    let e = enc_num(v);
    lemma_subrange_index(s, i, e);
    if v == 0 {
        assert(e =~= seq![48u8, 32u8]);
        assert(s[i] == 48 && s[i + 1] == 32);
        lemma_scan_digit_run(s, i, i + 1, 0);
        assert(s.subrange(i, i + 1) =~= seq![48u8]);
        assert(seq![48u8].drop_last() =~= Seq::<u8>::empty());
        assert(bytes_val(Seq::<u8>::empty()) == 0);
        assert(bytes_val(seq![48u8]) == 0);
        assert(0 * pow10(1nat) == 0) by (nonlinear_arith);
    } else if v > 0 {
        let d = enc_digits(v);
        lemma_enc_digits_facts(v);
        assert(e =~= d + seq![32u8]);
        assert forall|k: int| 0 <= k < d.len() implies s[i + k] == #[trigger] d[k] by {
            assert(s[i + k] == e[k]);
            assert(e[k] == d[k]);
        }
        assert forall|k: int| i <= k < i + d.len() implies is_digit(#[trigger] s[k]) by {
            assert(s[k] == d[k - i]);
            assert(is_digit(d[k - i]));
        }
        assert(s[i + d.len()] == 32) by {
            assert(s[i + d.len() as int] == e[d.len() as int]);
            assert(e[d.len() as int] == 32);
        }
        assert(is_digit(s[i]) && s[i] != 45) by {
            assert(s[i] == d[0]);
            assert(is_digit(d[0]));
        }
        lemma_scan_digit_run(s, i, i + d.len() as int, 0);
        assert(s.subrange(i, i + d.len() as int) =~= d);
        assert(0 * pow10(d.len()) == 0) by (nonlinear_arith);
    } else {
        let m = -v;
        let d = enc_digits(m);
        lemma_enc_digits_facts(m);
        assert(e =~= seq![45u8] + d + seq![32u8]);
        assert(s[i] == 45) by {
            assert(s[i + 0] == e[0]);
            assert(e[0] == 45);
        }
        assert forall|k: int| 0 <= k < d.len() implies s[i + 1 + k] == #[trigger] d[k] by {
            assert(s[i + (1 + k)] == e[1 + k]);
            assert(e[1 + k] == d[k]);
        }
        assert forall|k: int| i + 1 <= k < i + 1 + d.len() implies is_digit(#[trigger] s[k]) by {
            assert(s[k] == d[k - i - 1]);
            assert(is_digit(d[k - i - 1]));
        }
        assert(s[i + 1 + d.len()] == 32) by {
            assert(s[i + (1 + d.len() as int)] == e[1 + d.len() as int]);
            assert(e[1 + d.len() as int] == 32);
        }
        lemma_scan_digit_run(s, i + 1, i + 1 + d.len() as int, 0);
        assert(s.subrange(i + 1, i + 1 + d.len() as int) =~= d);
        assert(0 * pow10(d.len()) == 0) by (nonlinear_arith);
    }
}

/// A keyword token decodes back past itself.
proof fn lemma_dec_kw_enc(s: Seq<u8>, i: int, kw: Seq<u8>)
    requires
        0 <= i,
        i + enc_kw(kw).len() <= s.len(),
        s.subrange(i, i + enc_kw(kw).len() as int) == enc_kw(kw),
    ensures
        dec_kw(s, i, kw) == Some(i + kw.len() + 1),
{
    let e = enc_kw(kw);
    lemma_subrange_index(s, i, e);
    assert forall|k: int| 0 <= k < kw.len()
        implies s.subrange(i, i + kw.len() as int)[k] == #[trigger] kw[k] by {
        assert(s[i + k] == e[k]);
        assert(e[k] == kw[k]);
    }
    assert(s.subrange(i, i + kw.len() as int) =~= kw);
    assert(s[i + kw.len() as int] == 32) by {
        assert(s[i + kw.len() as int] == e[kw.len() as int]);
        assert(e[kw.len() as int] == 32);
    }
}

} // verus!

verus! {

/// A list encoding starts with its first element's token.
proof fn lemma_enc_nums_first(vs: Seq<int>)
    requires
        vs.len() >= 1,
    ensures
        enc_nums(vs) == enc_num(vs[0]) + enc_nums(vs.drop_first()),
    decreases vs.len(),
{
    if vs.len() == 1 {
        assert(vs.drop_last() =~= Seq::<int>::empty());
        assert(vs.drop_first() =~= Seq::<int>::empty());
        assert(enc_nums(vs) =~= enc_num(vs[0]) + enc_nums(vs.drop_first()));
    } else {
        let dl = vs.drop_last();
        lemma_enc_nums_first(dl);
        assert(vs.drop_first().drop_last() =~= dl.drop_first());
        assert(vs.drop_first().last() == vs.last());
        assert(enc_nums(vs) =~= enc_num(vs[0]) + enc_nums(vs.drop_first()));
    }
}

proof fn lemma_enc_pairs_first(ps: Seq<(int, int)>)
    requires
        ps.len() >= 1,
    ensures
        enc_pairs(ps) == enc_pair(ps[0]) + enc_pairs(ps.drop_first()),
    decreases ps.len(),
{
    if ps.len() == 1 {
        assert(ps.drop_last() =~= Seq::<(int, int)>::empty());
        assert(ps.drop_first() =~= Seq::<(int, int)>::empty());
        assert(enc_pairs(ps) =~= enc_pair(ps[0]) + enc_pairs(ps.drop_first()));
    } else {
        let dl = ps.drop_last();
        lemma_enc_pairs_first(dl);
        assert(ps.drop_first().drop_last() =~= dl.drop_first());
        assert(ps.drop_first().last() == ps.last());
        assert(enc_pairs(ps) =~= enc_pair(ps[0]) + enc_pairs(ps.drop_first()));
    }
}

proof fn lemma_enc_segs_first(ls: Seq<((int, int), (int, int))>)
    requires
        ls.len() >= 1,
    ensures
        enc_segs(ls) == enc_pair(ls[0].0) + enc_pair(ls[0].1) + enc_segs(ls.drop_first()),
    decreases ls.len(),
{
    if ls.len() == 1 {
        assert(ls.drop_last() =~= Seq::<((int, int), (int, int))>::empty());
        assert(ls.drop_first() =~= Seq::<((int, int), (int, int))>::empty());
        assert(enc_segs(ls) =~= enc_pair(ls[0].0) + enc_pair(ls[0].1)
            + enc_segs(ls.drop_first()));
    } else {
        let dl = ls.drop_last();
        lemma_enc_segs_first(dl);
        assert(ls.drop_first().drop_last() =~= dl.drop_first());
        assert(ls.drop_first().last() == ls.last());
        assert(enc_segs(ls) =~= enc_pair(ls[0].0) + enc_pair(ls[0].1)
            + enc_segs(ls.drop_first()));
    }
}

proof fn lemma_enc_objs_first(os: Seq<ObjectV>)
    requires
        os.len() >= 1,
    ensures
        enc_objs(os) == enc_obj(os[0]) + enc_objs(os.drop_first()),
    decreases os.len(),
{
    if os.len() == 1 {
        assert(os.drop_last() =~= Seq::<ObjectV>::empty());
        assert(os.drop_first() =~= Seq::<ObjectV>::empty());
        assert(enc_objs(os) =~= enc_obj(os[0]) + enc_objs(os.drop_first()));
    } else {
        let dl = os.drop_last();
        lemma_enc_objs_first(dl);
        assert(os.drop_first().drop_last() =~= dl.drop_first());
        assert(os.drop_first().last() == os.last());
        assert(enc_objs(os) =~= enc_obj(os[0]) + enc_objs(os.drop_first()));
    }
}

/// A bounded number token decodes back through the range filter.
proof fn lemma_dec_num_in_enc(s: Seq<u8>, i: int, v: int, lo: int, hi: int)
    requires
        0 <= i,
        -max_num() <= lo <= v <= hi <= max_num(),
        i + enc_num(v).len() <= s.len(),
        s.subrange(i, i + enc_num(v).len() as int) == enc_num(v),
    ensures
        dec_num_in(s, i, lo, hi) == Some((v, i + enc_num(v).len() as int)),
{
    lemma_dec_num_enc(s, i, v);
}

/// An encoded number list decodes back element for element.
proof fn lemma_dec_nums_enc(s: Seq<u8>, i: int, vs: Seq<int>, lo: int, hi: int)
    requires
        0 <= i,
        -max_num() <= lo <= hi <= max_num(),
        forall|k: int| 0 <= k < vs.len() ==> lo <= #[trigger] vs[k] <= hi,
        i + enc_nums(vs).len() <= s.len(),
        s.subrange(i, i + enc_nums(vs).len() as int) == enc_nums(vs),
    ensures
        dec_nums(s, i, vs.len(), lo, hi) == Some((vs, i + enc_nums(vs).len() as int)),
    decreases vs.len(),
{
    if vs.len() == 0 {
        assert(dec_nums(s, i, 0, lo, hi) == Some((Seq::<int>::empty(), i)));
        assert(vs =~= Seq::<int>::empty());
    } else {
        lemma_enc_nums_first(vs);
        let e0 = enc_num(vs[0]);
        let rest = enc_nums(vs.drop_first());
        lemma_subrange_split(s, i, e0, rest);
        assert(lo <= vs[0] <= hi);
        lemma_dec_num_in_enc(s, i, vs[0], lo, hi);
        assert(forall|k: int| 0 <= k < vs.drop_first().len()
            ==> lo <= #[trigger] vs.drop_first()[k] <= hi);
        lemma_dec_nums_enc(s, i + e0.len() as int, vs.drop_first(), lo, hi);
        assert(seq![vs[0]] + vs.drop_first() =~= vs);
    }
}

/// An encoded pair decodes back.
proof fn lemma_dec_pair_enc(s: Seq<u8>, i: int, p: (int, int), lo: int, hi: int)
    requires
        0 <= i,
        -max_num() <= lo <= hi <= max_num(),
        lo <= p.0 <= hi,
        lo <= p.1 <= hi,
        i + enc_pair(p).len() <= s.len(),
        s.subrange(i, i + enc_pair(p).len() as int) == enc_pair(p),
    ensures
        dec_pair(s, i, lo, hi) == Some((p, i + enc_pair(p).len() as int)),
{
    lemma_subrange_split(s, i, enc_num(p.0), enc_num(p.1));
    lemma_dec_num_in_enc(s, i, p.0, lo, hi);
    lemma_dec_num_in_enc(s, i + enc_num(p.0).len() as int, p.1, lo, hi);
}

/// An encoded pair list decodes back element for element.
proof fn lemma_dec_pairs_enc(s: Seq<u8>, i: int, ps: Seq<(int, int)>, lo: int, hi: int)
    requires
        0 <= i,
        -max_num() <= lo <= hi <= max_num(),
        forall|k: int| 0 <= k < ps.len()
            ==> lo <= (#[trigger] ps[k]).0 <= hi && lo <= ps[k].1 <= hi,
        i + enc_pairs(ps).len() <= s.len(),
        s.subrange(i, i + enc_pairs(ps).len() as int) == enc_pairs(ps),
    ensures
        dec_pairs(s, i, ps.len(), lo, hi) == Some((ps, i + enc_pairs(ps).len() as int)),
    decreases ps.len(),
{
    if ps.len() == 0 {
        assert(ps =~= Seq::<(int, int)>::empty());
    } else {
        lemma_enc_pairs_first(ps);
        let e0 = enc_pair(ps[0]);
        let rest = enc_pairs(ps.drop_first());
        lemma_subrange_split(s, i, e0, rest);
        assert(lo <= ps[0].0 <= hi && lo <= ps[0].1 <= hi);
        lemma_dec_pair_enc(s, i, ps[0], lo, hi);
        assert(forall|k: int| 0 <= k < ps.drop_first().len()
            ==> lo <= (#[trigger] ps.drop_first()[k]).0 <= hi && lo <= ps.drop_first()[k].1 <= hi);
        lemma_dec_pairs_enc(s, i + e0.len() as int, ps.drop_first(), lo, hi);
        assert(seq![ps[0]] + ps.drop_first() =~= ps);
    }
}

/// An encoded segment list decodes back element for element.
proof fn lemma_dec_segs_enc(s: Seq<u8>, i: int, ls: Seq<((int, int), (int, int))>)
    requires
        0 <= i,
        forall|k: int| 0 <= k < ls.len() ==> {
            let l = #[trigger] ls[k];
            i32_lo() <= l.0.0 <= i32_hi() && i32_lo() <= l.0.1 <= i32_hi()
                && i32_lo() <= l.1.0 <= i32_hi() && i32_lo() <= l.1.1 <= i32_hi()
        },
        i + enc_segs(ls).len() <= s.len(),
        s.subrange(i, i + enc_segs(ls).len() as int) == enc_segs(ls),
    ensures
        dec_segs(s, i, ls.len()) == Some((ls, i + enc_segs(ls).len() as int)),
    decreases ls.len(),
{
    if ls.len() == 0 {
        assert(ls =~= Seq::<((int, int), (int, int))>::empty());
    } else {
        lemma_enc_segs_first(ls);
        let e0 = enc_pair(ls[0].0);
        let e1 = enc_pair(ls[0].1);
        let rest = enc_segs(ls.drop_first());
        assert(enc_segs(ls) =~= e0 + (e1 + rest));
        lemma_subrange_split(s, i, e0, e1 + rest);
        lemma_subrange_split(s, i + e0.len() as int, e1, rest);
        assert({
            let l = ls[0];
            i32_lo() <= l.0.0 <= i32_hi() && i32_lo() <= l.0.1 <= i32_hi()
                && i32_lo() <= l.1.0 <= i32_hi() && i32_lo() <= l.1.1 <= i32_hi()
        });
        lemma_dec_pair_enc(s, i, ls[0].0, i32_lo(), i32_hi());
        lemma_dec_pair_enc(s, i + e0.len() as int, ls[0].1, i32_lo(), i32_hi());
        assert(forall|k: int| 0 <= k < ls.drop_first().len() ==> {
            let l = #[trigger] ls.drop_first()[k];
            i32_lo() <= l.0.0 <= i32_hi() && i32_lo() <= l.0.1 <= i32_hi()
                && i32_lo() <= l.1.0 <= i32_hi() && i32_lo() <= l.1.1 <= i32_hi()
        });
        lemma_dec_segs_enc(s, i + e0.len() + e1.len(), ls.drop_first());
        assert(seq![ls[0]] + ls.drop_first() =~= ls);
    }
}

/// An encoded counted list decodes back.
proof fn lemma_dec_counted_enc(s: Seq<u8>, i: int, vs: Seq<int>, lo: int, hi: int)
    requires
        0 <= i,
        -max_num() <= lo <= hi <= max_num(),
        vs.len() <= count_hi(),
        forall|k: int| 0 <= k < vs.len() ==> lo <= #[trigger] vs[k] <= hi,
        i + enc_counted(vs).len() <= s.len(),
        s.subrange(i, i + enc_counted(vs).len() as int) == enc_counted(vs),
    ensures
        dec_counted(s, i, lo, hi) == Some((vs, i + enc_counted(vs).len() as int)),
{
    let en = enc_num(vs.len() as int);
    lemma_subrange_split(s, i, en, enc_nums(vs));
    lemma_dec_num_in_enc(s, i, vs.len() as int, 0, count_hi());
    lemma_dec_nums_enc(s, i + en.len() as int, vs, lo, hi);
}

/// A keyword other than the one in the text never matches.
proof fn lemma_kw_mismatch(s: Seq<u8>, i: int, kw: Seq<u8>, j: int, b: u8)
    requires
        0 <= i,
        0 <= j < kw.len(),
        i + j < s.len(),
        s[i + j] == b,
        kw[j] != b,
    ensures
        dec_kw(s, i, kw) is None,
{
    if i + kw.len() + 1 <= s.len() {
        assert(s.subrange(i, i + kw.len() as int)[j] == s[i + j]);
        assert(s.subrange(i, i + kw.len() as int) != kw);
    }
}

} // verus!

verus! {

/// Whether a shape image fits the codec's machine ranges.
pub open spec fn shape_v_bounded(sh: ShapeV) -> bool {
    match sh {
        ShapeV::Circle { width, height } => i32_lo() <= width <= i32_hi()
            && i32_lo() <= height <= i32_hi(),
        ShapeV::Rect(p0, p1) => i32_lo() <= p0.0 <= i32_hi() && i32_lo() <= p0.1 <= i32_hi()
            && i32_lo() <= p1.0 <= i32_hi() && i32_lo() <= p1.1 <= i32_hi(),
        ShapeV::Polygon(ps) => ps.len() <= count_hi() && forall|k: int| 0 <= k < ps.len()
            ==> i32_lo() <= (#[trigger] ps[k]).0 <= i32_hi() && i32_lo() <= ps[k].1 <= i32_hi(),
        ShapeV::Letters(t) => t.len() <= count_hi(),
        ShapeV::Lines(ls) => ls.len() <= count_hi() && forall|k: int| 0 <= k < ls.len() ==> {
            let l = #[trigger] ls[k];
            i32_lo() <= l.0.0 <= i32_hi() && i32_lo() <= l.0.1 <= i32_hi()
                && i32_lo() <= l.1.0 <= i32_hi() && i32_lo() <= l.1.1 <= i32_hi()
        },
        ShapeV::Group(hs) => hs.len() <= count_hi() && forall|k: int| 0 <= k < hs.len()
            ==> 0 <= #[trigger] hs[k] <= count_hi(),
    }
}

/// Whether an object image fits the codec's machine ranges.
pub open spec fn object_v_bounded(o: ObjectV) -> bool {
    &&& shape_v_bounded(o.shape)
    &&& i32_lo() <= o.position.0 <= i32_hi() && i32_lo() <= o.position.1 <= i32_hi()
    &&& i32_lo() <= o.scale.0 <= i32_hi() && i32_lo() <= o.scale.1 <= i32_hi()
    &&& i32_lo() <= o.rotation <= i32_hi()
    &&& 0 <= o.color.0 <= 255 && 0 <= o.color.1 <= 255 && 0 <= o.color.2 <= 255
}

/// Whether a scene image fits the codec's machine ranges.
pub open spec fn scene_v_bounded(sv: SceneV) -> bool {
    &&& sv.arena.len() <= count_hi()
    &&& forall|k: int| 0 <= k < sv.arena.len() ==> object_v_bounded(#[trigger] sv.arena[k])
    &&& sv.objects.len() <= count_hi()
    &&& forall|k: int| 0 <= k < sv.objects.len() ==> 0 <= #[trigger] sv.objects[k] <= count_hi()
    &&& sv.groups.len() <= count_hi()
    &&& forall|k: int| 0 <= k < sv.groups.len() ==> 0 <= #[trigger] sv.groups[k] <= count_hi()
    &&& 0 <= sv.selected <= count_hi()
    &&& i32_lo() <= sv.camera.0 <= i32_hi() && i32_lo() <= sv.camera.1 <= i32_hi()
    &&& i32_lo() <= sv.scale.0 <= i32_hi() && i32_lo() <= sv.scale.1 <= i32_hi()
    &&& i32_lo() <= sv.rotation <= i32_hi()
}

/// An encoded shape decodes back.
#[verifier::rlimit(100)]
proof fn lemma_dec_shape_enc(s: Seq<u8>, i: int, sh: ShapeV)
    requires
        0 <= i,
        shape_v_bounded(sh),
        i + enc_shape(sh).len() <= s.len(),
        s.subrange(i, i + enc_shape(sh).len() as int) == enc_shape(sh),
    ensures
        dec_shape(s, i) == Some((sh, i + enc_shape(sh).len() as int)),
{
    broadcast use vstd::utf8::char_is_scalar;
    broadcast use vstd::utf8::char_u32_cast;

    match sh {
        ShapeV::Circle { width, height } => {
            let rest = enc_pair((width, height));
            assert(enc_shape(sh) =~= enc_kw(kw_circle_b()) + rest);
            lemma_subrange_split(s, i, enc_kw(kw_circle_b()), rest);
            lemma_dec_kw_enc(s, i, kw_circle_b());
            lemma_dec_pair_enc(s, i + 7, (width, height), i32_lo(), i32_hi());
        },
        ShapeV::Rect(p0, p1) => {
            let rest = enc_pair(p0) + enc_pair(p1);
            assert(enc_shape(sh) =~= enc_kw(kw_rect_b()) + rest);
            lemma_subrange_split(s, i, enc_kw(kw_rect_b()), rest);
            lemma_dec_kw_enc(s, i, kw_rect_b());
            lemma_subrange_index(s, i, enc_kw(kw_rect_b()));
            assert(s[i + 0] == 114);
            lemma_kw_mismatch(s, i, kw_circle_b(), 0, 114);
            lemma_subrange_split(s, i + 5, enc_pair(p0), enc_pair(p1));
            lemma_dec_pair_enc(s, i + 5, p0, i32_lo(), i32_hi());
            lemma_dec_pair_enc(s, i + 5 + enc_pair(p0).len(), p1, i32_lo(), i32_hi());
        },
        ShapeV::Polygon(ps) => {
            let rest = enc_num(ps.len() as int) + enc_pairs(ps);
            assert(enc_shape(sh) =~= enc_kw(kw_polygon_b()) + rest);
            lemma_subrange_split(s, i, enc_kw(kw_polygon_b()), rest);
            lemma_dec_kw_enc(s, i, kw_polygon_b());
            lemma_subrange_index(s, i, enc_kw(kw_polygon_b()));
            assert(s[i + 0] == 112);
            lemma_kw_mismatch(s, i, kw_circle_b(), 0, 112);
            lemma_kw_mismatch(s, i, kw_rect_b(), 0, 112);
            let j = i + 8;
            lemma_subrange_split(s, j, enc_num(ps.len() as int), enc_pairs(ps));
            lemma_dec_num_in_enc(s, j, ps.len() as int, 0, count_hi());
            lemma_dec_pairs_enc(s, j + enc_num(ps.len() as int).len(), ps, i32_lo(), i32_hi());
        },
        ShapeV::Letters(t) => {
            let vs = chars_as_ints(t);
            let rest = enc_counted(vs);
            assert(enc_shape(sh) =~= enc_kw(kw_letters_b()) + rest);
            lemma_subrange_split(s, i, enc_kw(kw_letters_b()), rest);
            lemma_dec_kw_enc(s, i, kw_letters_b());
            lemma_subrange_index(s, i, enc_kw(kw_letters_b()));
            assert(s[i + 0] == 108);
            lemma_kw_mismatch(s, i, kw_circle_b(), 0, 108);
            lemma_kw_mismatch(s, i, kw_rect_b(), 0, 108);
            lemma_kw_mismatch(s, i, kw_polygon_b(), 0, 108);
            let j = i + 8;
            assert forall|k: int| 0 <= k < vs.len()
                implies 0 <= #[trigger] vs[k] <= 0x10ffff by {
                vstd::utf8::char_is_scalar(t[k]);
                assert(vs[k] == t[k] as u32 as int);
            }
            lemma_dec_counted_enc(s, j, vs, 0, 0x10ffff);
            assert(all_scalars(vs)) by {
                assert forall|k: int| 0 <= k < vs.len()
                    implies vstd::utf8::is_scalar((#[trigger] vs[k]) as u32) by {
                    vstd::utf8::char_is_scalar(t[k]);
                    assert(vs[k] == t[k] as u32 as int);
                }
            }
            assert(ints_as_chars(vs) =~= t) by {
                assert forall|k: int| 0 <= k < t.len()
                    implies ints_as_chars(vs)[k] == t[k] by {
                    vstd::utf8::char_u32_cast(t[k], t[k] as u32);
                    assert(vs[k] == t[k] as u32 as int);
                }
            }
        },
        ShapeV::Lines(ls) => {
            let rest = enc_num(ls.len() as int) + enc_segs(ls);
            assert(enc_shape(sh) =~= enc_kw(kw_lines_b()) + rest);
            lemma_subrange_split(s, i, enc_kw(kw_lines_b()), rest);
            lemma_dec_kw_enc(s, i, kw_lines_b());
            lemma_subrange_index(s, i, enc_kw(kw_lines_b()));
            assert(s[i + 0] == 108 && s[i + 1] == 105);
            lemma_kw_mismatch(s, i, kw_circle_b(), 0, 108);
            lemma_kw_mismatch(s, i, kw_rect_b(), 0, 108);
            lemma_kw_mismatch(s, i, kw_polygon_b(), 0, 108);
            lemma_kw_mismatch(s, i, kw_letters_b(), 1, 105);
            let j = i + 6;
            lemma_subrange_split(s, j, enc_num(ls.len() as int), enc_segs(ls));
            lemma_dec_num_in_enc(s, j, ls.len() as int, 0, count_hi());
            lemma_dec_segs_enc(s, j + enc_num(ls.len() as int).len(), ls);
        },
        ShapeV::Group(hs) => {
            let rest = enc_counted(hs);
            assert(enc_shape(sh) =~= enc_kw(kw_group_b()) + rest);
            lemma_subrange_split(s, i, enc_kw(kw_group_b()), rest);
            lemma_dec_kw_enc(s, i, kw_group_b());
            lemma_subrange_index(s, i, enc_kw(kw_group_b()));
            assert(s[i + 0] == 103);
            lemma_kw_mismatch(s, i, kw_circle_b(), 0, 103);
            lemma_kw_mismatch(s, i, kw_rect_b(), 0, 103);
            lemma_kw_mismatch(s, i, kw_polygon_b(), 0, 103);
            lemma_kw_mismatch(s, i, kw_letters_b(), 0, 103);
            lemma_kw_mismatch(s, i, kw_lines_b(), 0, 103);
            lemma_dec_counted_enc(s, i + 6, hs, 0, count_hi());
        },
    }
}

/// An encoded object decodes back.
#[verifier::rlimit(60)]
proof fn lemma_dec_obj_enc(s: Seq<u8>, i: int, o: ObjectV)
    requires
        0 <= i,
        object_v_bounded(o),
        i + enc_obj(o).len() <= s.len(),
        s.subrange(i, i + enc_obj(o).len() as int) == enc_obj(o),
    ensures
        dec_obj(s, i) == Some((o, i + enc_obj(o).len() as int)),
{
    let e_sh = enc_shape(o.shape);
    let e_pos = enc_pair(o.position);
    let e_scl = enc_pair(o.scale);
    let e_rot = enc_num(o.rotation);
    let e_r = enc_num(o.color.0);
    let e_g = enc_num(o.color.1);
    let e_b = enc_num(o.color.2);
    let r1 = e_sh + (e_pos + (e_scl + (e_rot + (e_r + (e_g + e_b)))));
    assert(enc_obj(o) =~= enc_kw(kw_object_b()) + r1);
    lemma_subrange_split(s, i, enc_kw(kw_object_b()), r1);
    lemma_dec_kw_enc(s, i, kw_object_b());
    let i1 = i + 7;
    lemma_subrange_split(s, i1, e_sh, e_pos + (e_scl + (e_rot + (e_r + (e_g + e_b)))));
    lemma_dec_shape_enc(s, i1, o.shape);
    let i2 = i1 + e_sh.len() as int;
    lemma_subrange_split(s, i2, e_pos, e_scl + (e_rot + (e_r + (e_g + e_b))));
    lemma_dec_pair_enc(s, i2, o.position, i32_lo(), i32_hi());
    let i3 = i2 + e_pos.len() as int;
    lemma_subrange_split(s, i3, e_scl, e_rot + (e_r + (e_g + e_b)));
    lemma_dec_pair_enc(s, i3, o.scale, i32_lo(), i32_hi());
    let i4 = i3 + e_scl.len() as int;
    lemma_subrange_split(s, i4, e_rot, e_r + (e_g + e_b));
    lemma_dec_num_in_enc(s, i4, o.rotation, i32_lo(), i32_hi());
    let i5 = i4 + e_rot.len() as int;
    lemma_subrange_split(s, i5, e_r, e_g + e_b);
    lemma_dec_num_in_enc(s, i5, o.color.0, 0, 255);
    let i6 = i5 + e_r.len() as int;
    lemma_subrange_split(s, i6, e_g, e_b);
    lemma_dec_num_in_enc(s, i6, o.color.1, 0, 255);
    let i7 = i6 + e_g.len() as int;
    lemma_dec_num_in_enc(s, i7, o.color.2, 0, 255);
    assert(ObjectV {
        shape: o.shape,
        position: (o.position.0, o.position.1),
        scale: (o.scale.0, o.scale.1),
        rotation: o.rotation,
        color: (o.color.0, o.color.1, o.color.2),
    } =~= o);
}

/// An encoded object list decodes back element for element.
#[verifier::rlimit(60)]
proof fn lemma_dec_objs_enc(s: Seq<u8>, i: int, os: Seq<ObjectV>)
    requires
        0 <= i,
        forall|k: int| 0 <= k < os.len() ==> object_v_bounded(#[trigger] os[k]),
        i + enc_objs(os).len() <= s.len(),
        s.subrange(i, i + enc_objs(os).len() as int) == enc_objs(os),
    ensures
        dec_objs(s, i, os.len()) == Some((os, i + enc_objs(os).len() as int)),
    decreases os.len(),
{
    if os.len() == 0 {
        assert(os =~= Seq::<ObjectV>::empty());
    } else {
        lemma_enc_objs_first(os);
        let e0 = enc_obj(os[0]);
        let rest = enc_objs(os.drop_first());
        lemma_subrange_split(s, i, e0, rest);
        assert(object_v_bounded(os[0]));
        lemma_dec_obj_enc(s, i, os[0]);
        assert(forall|k: int| 0 <= k < os.drop_first().len()
            ==> object_v_bounded(#[trigger] os.drop_first()[k]));
        lemma_dec_objs_enc(s, i + e0.len() as int, os.drop_first());
        assert(seq![os[0]] + os.drop_first() =~= os);
    }
}

/// The trailing fields of an encoded scene decode back, step by step.
#[verifier::rlimit(100)]
#[verifier::spinoff_prover]
proof fn lemma_dec_scene_tail(s: Seq<u8>, i3: int, sv: SceneV)
    requires
        0 <= i3,
        scene_v_bounded(sv),
        i3 + (enc_counted(sv.objects) + (enc_counted(sv.groups) + (enc_num(sv.selected)
            + (enc_pair(sv.camera) + (enc_pair(sv.scale) + enc_num(sv.rotation)))))).len()
            <= s.len(),
        s.subrange(i3, i3 + (enc_counted(sv.objects) + (enc_counted(sv.groups)
            + (enc_num(sv.selected) + (enc_pair(sv.camera) + (enc_pair(sv.scale)
            + enc_num(sv.rotation)))))).len() as int)
            == enc_counted(sv.objects) + (enc_counted(sv.groups) + (enc_num(sv.selected)
                + (enc_pair(sv.camera) + (enc_pair(sv.scale) + enc_num(sv.rotation))))),
    ensures
        ({
            let i4 = i3 + enc_counted(sv.objects).len();
            let i5 = i4 + enc_counted(sv.groups).len();
            let i6 = i5 + enc_num(sv.selected).len();
            let i7 = i6 + enc_pair(sv.camera).len();
            let i8 = i7 + enc_pair(sv.scale).len();
            let i9 = i8 + enc_num(sv.rotation).len();
            &&& dec_counted(s, i3, 0, count_hi()) == Some((sv.objects, i4))
            &&& dec_counted(s, i4, 0, count_hi()) == Some((sv.groups, i5))
            &&& dec_num_in(s, i5, 0, count_hi()) == Some((sv.selected, i6))
            &&& dec_pair(s, i6, i32_lo(), i32_hi()) == Some((sv.camera, i7))
            &&& dec_pair(s, i7, i32_lo(), i32_hi()) == Some((sv.scale, i8))
            &&& dec_num_in(s, i8, i32_lo(), i32_hi()) == Some((sv.rotation, i9))
        }),
{
    let e_obj = enc_counted(sv.objects);
    let e_grp = enc_counted(sv.groups);
    let e_sel = enc_num(sv.selected);
    let e_cam = enc_pair(sv.camera);
    let e_scl = enc_pair(sv.scale);
    let e_rot = enc_num(sv.rotation);
    lemma_subrange_split(s, i3, e_obj, e_grp + (e_sel + (e_cam + (e_scl + e_rot))));
    lemma_dec_counted_enc(s, i3, sv.objects, 0, count_hi());
    let i4 = i3 + e_obj.len() as int;
    lemma_subrange_split(s, i4, e_grp, e_sel + (e_cam + (e_scl + e_rot)));
    lemma_dec_counted_enc(s, i4, sv.groups, 0, count_hi());
    let i5 = i4 + e_grp.len() as int;
    lemma_subrange_split(s, i5, e_sel, e_cam + (e_scl + e_rot));
    lemma_dec_num_in_enc(s, i5, sv.selected, 0, count_hi());
    let i6 = i5 + e_sel.len() as int;
    lemma_subrange_split(s, i6, e_cam, e_scl + e_rot);
    lemma_dec_pair_enc(s, i6, sv.camera, i32_lo(), i32_hi());
    let i7 = i6 + e_cam.len() as int;
    lemma_subrange_split(s, i7, e_scl, e_rot);
    lemma_dec_pair_enc(s, i7, sv.scale, i32_lo(), i32_hi());
    let i8 = i7 + e_scl.len() as int;
    lemma_dec_num_in_enc(s, i8, sv.rotation, i32_lo(), i32_hi());
}

/// An encoded scene decodes back.
#[verifier::rlimit(100)]
#[verifier::spinoff_prover]
proof fn lemma_dec_scene_enc(s: Seq<u8>, i: int, sv: SceneV)
    requires
        0 <= i,
        scene_v_bounded(sv),
        i + enc_scene(sv).len() <= s.len(),
        s.subrange(i, i + enc_scene(sv).len() as int) == enc_scene(sv),
    ensures
        dec_scene_at(s, i) == Some((sv, i + enc_scene(sv).len() as int)),
{
    let e_n = enc_num(sv.arena.len() as int);
    let e_os = enc_objs(sv.arena);
    let e_obj = enc_counted(sv.objects);
    let e_grp = enc_counted(sv.groups);
    let e_sel = enc_num(sv.selected);
    let e_cam = enc_pair(sv.camera);
    let e_scl = enc_pair(sv.scale);
    let e_rot = enc_num(sv.rotation);
    let tail = e_obj + (e_grp + (e_sel + (e_cam + (e_scl + e_rot))));
    let r1 = e_n + (e_os + tail);
    assert(enc_scene(sv) =~= enc_kw(kw_scene_b()) + r1);
    lemma_subrange_split(s, i, enc_kw(kw_scene_b()), r1);
    lemma_dec_kw_enc(s, i, kw_scene_b());
    let i1 = i + 6;
    lemma_subrange_split(s, i1, e_n, e_os + tail);
    lemma_dec_num_in_enc(s, i1, sv.arena.len() as int, 0, count_hi());
    let i2 = i1 + e_n.len() as int;
    lemma_subrange_split(s, i2, e_os, tail);
    lemma_dec_objs_enc(s, i2, sv.arena);
    let i3 = i2 + e_os.len() as int;
    lemma_dec_scene_tail(s, i3, sv);
    assert(SceneV {
        arena: sv.arena,
        objects: sv.objects,
        selected: sv.selected,
        groups: sv.groups,
        camera: (sv.camera.0, sv.camera.1),
        scale: (sv.scale.0, sv.scale.1),
        rotation: sv.rotation,
    } =~= sv);
}

/// Round trip: decoding an encoded scene yields exactly that scene, for
/// every scene image within the codec's machine ranges.
pub proof fn lemma_codec_round_trip(sv: SceneV)
    requires
        scene_v_bounded(sv),
    ensures
        dec_scene(enc_scene(sv)) == Some(sv),
{
    let s = enc_scene(sv);
    assert(s.subrange(0, s.len() as int) =~= s);
    lemma_dec_scene_enc(s, 0, sv);
}

} // verus!

verus! {

/// Relies on char::from_u32: yields the character for exactly the Unicode
/// scalar values, and nothing for surrogates or out-of-range values.
pub assume_specification[ char::from_u32 ](i: u32) -> (r: Option<char>)
    ensures
        vstd::utf8::is_scalar(i) ==> r == Some(i as char),
        !vstd::utf8::is_scalar(i) ==> r is None,
;

/// Relies on String::push: appends exactly the given character.
pub assume_specification[ String::push ](s: &mut String, c: char)
    ensures
        final(s)@ == old(s)@.push(c),
;

/// The digit-run value only grows as scanning continues.
proof fn lemma_scan_ge_acc(s: Seq<u8>, p: int, acc: int)
    requires
        0 <= p <= s.len(),
        acc >= 0,
    ensures
        scan_digits(s, p, acc).0 >= acc,
    decreases s.len() - p,
{
    if p < s.len() && is_digit(s[p]) {
        lemma_scan_ge_acc(s, p + 1, acc * 10 + (s[p] - 48));
    }
}

/// Read one number token, mirroring the specification decoder.
fn read_num(s: &Vec<u8>, i: usize) -> (r: Option<(i64, usize)>)
    ensures
        match r {
            Some(vj) => dec_num(s@, i as int) == Some((vj.0 as int, vj.1 as int))
                && i < vj.1 <= s@.len(),
            None => dec_num(s@, i as int) is None,
        },
{
    if i >= s.len() {
        return None;
    }
    let neg = s[i] == 45;
    let j: usize = if neg { i + 1 } else { i };
    let mut p: usize = j;
    let mut acc: u128 = 0;
    while p < s.len() && s[p] >= 48 && s[p] <= 57
        invariant_except_break
            j <= p <= s@.len(),
            j <= s@.len(),
            0 <= acc <= 0x7fff_ffff_ffff_ffff,
            scan_digits(s@, j as int, 0) == scan_digits(s@, p as int, acc as int),
        ensures
            j <= p <= s@.len(),
            scan_digits(s@, j as int, 0) == scan_digits(s@, p as int, acc as int),
            acc > 0x7fff_ffff_ffff_ffff ==> scan_digits(s@, j as int, 0).0 > max_num(),
            acc <= 0x7fff_ffff_ffff_ffff ==> (p == s@.len() || !is_digit(s@[p as int])),
        decreases s@.len() - p,
    {
        let d = s[p] - 48;
        acc = acc * 10 + (d as u128);
        p = p + 1;
        if acc > 0x7fff_ffff_ffff_ffff {
            proof {
                lemma_scan_ge_acc(s@, p as int, acc as int);
            }
            break;
        }
    }
    if acc > 0x7fff_ffff_ffff_ffff {
        return None;
    }
    proof {
        assert(scan_digits(s@, p as int, acc as int) == (acc as int, p as int));
    }
    if p == j || p >= s.len() {
        return None;
    }
    if s[p] != 32 {
        return None;
    }
    let v: i64 = if neg {
        -(acc as i64)
    } else {
        acc as i64
    };
    Some((v, p + 1))
}

/// Read one number token and require it within `[lo, hi]`.
fn read_num_in(s: &Vec<u8>, i: usize, lo: i64, hi: i64) -> (r: Option<(i64, usize)>)
    ensures
        match r {
            Some(vj) => dec_num_in(s@, i as int, lo as int, hi as int)
                == Some((vj.0 as int, vj.1 as int)) && i < vj.1 <= s@.len()
                && lo <= vj.0 <= hi,
            None => dec_num_in(s@, i as int, lo as int, hi as int) is None,
        },
{
    match read_num(s, i) {
        Some((v, j)) => if lo <= v && v <= hi {
            Some((v, j))
        } else {
            None
        },
        None => None,
    }
}

/// Read a keyword token.
fn read_kw(s: &Vec<u8>, i: usize, kw: &Vec<u8>) -> (r: Option<usize>)
    ensures
        match r {
            Some(j) => dec_kw(s@, i as int, kw@) == Some(j as int) && i < j <= s@.len(),
            None => dec_kw(s@, i as int, kw@) is None,
        },
{
    if i > s.len() || s.len() - i <= kw.len() {
        return None;
    }
    let mut m: usize = 0;
    while m < kw.len()
        invariant
            m <= kw@.len(),
            i + kw@.len() + 1 <= s@.len(),
            s@.len() <= usize::MAX,
            forall|k: int| 0 <= k < m ==> s@[i + k] == #[trigger] kw@[k],
        decreases kw@.len() - m,
    {
        proof {
            assert(i + m < s@.len());
        }
        if s[i + m] != kw[m] {
            proof {
                assert(s@.subrange(i as int, i + kw@.len() as int)[m as int] != kw@[m as int]);
            }
            return None;
        }
        m = m + 1;
    }
    if s[i + kw.len()] != 32 {
        return None;
    }
    proof {
        assert(s@.subrange(i as int, i + kw@.len() as int) =~= kw@);
    }
    Some(i + kw.len() + 1)
}

/// Read a counted handle list.
fn read_counted_handles(s: &Vec<u8>, i: usize) -> (r: Option<(Vec<usize>, usize)>)
    ensures
        match r {
            Some(hj) => dec_counted(s@, i as int, 0, count_hi())
                == Some((hj.0@.map_values(|h: usize| h as int), hj.1 as int))
                && hj.1 <= s@.len(),
            None => dec_counted(s@, i as int, 0, count_hi()) is None,
        },
{
    let nj = match read_num_in(s, i, 0, 0xffff_ffff) {
        Some(x) => x,
        None => {
            return None;
        },
    };
    let n = nj.0 as u64;
    let mut cur: usize = nj.1;
    let mut out: Vec<usize> = Vec::new();
    let mut done: u64 = 0;
    while done < n
        invariant
            done <= n,
            cur <= s@.len(),
            out@.len() == done,
            dec_counted(s@, i as int, 0, count_hi())
                == dec_nums(s@, nj.1 as int, n as nat, 0, count_hi()),
            dec_nums(s@, nj.1 as int, n as nat, 0, count_hi()) == (match dec_nums(
                s@, cur as int, (n - done) as nat, 0, count_hi()) {
                Some(vsk) => Some((out@.map_values(|h: usize| h as int) + vsk.0, vsk.1)),
                None => None::<(Seq<int>, int)>,
            }),
        decreases n - done,
    {
        let vj = match read_num_in(s, cur, 0, 0xffff_ffff) {
            Some(x) => x,
            None => {
                proof {
                    assert(dec_num_in(s@, cur as int, 0, count_hi()) is None);
                    assert(dec_nums(s@, cur as int, (n - done) as nat, 0, count_hi()) is None);
                }
                return None;
            },
        };
        out.push(vj.0 as usize);
        proof {
            assert(out@.map_values(|h: usize| h as int)
                =~= out@.drop_last().map_values(|h: usize| h as int).push(vj.0 as int));
            assert forall|vsk: (Seq<int>, int)|
                dec_nums(s@, vj.1 as int, (n - done - 1) as nat, 0, count_hi()) == Some(vsk)
                implies out@.drop_last().map_values(|h: usize| h as int)
                    + (seq![vj.0 as int] + vsk.0)
                    =~= out@.map_values(|h: usize| h as int) + vsk.0 by {}
        }
        cur = vj.1;
        done = done + 1;
    }
    proof {
        assert(dec_nums(s@, cur as int, 0, 0, count_hi())
            == Some((Seq::<int>::empty(), cur as int)));
        assert(out@.map_values(|h: usize| h as int) + Seq::<int>::empty()
            =~= out@.map_values(|h: usize| h as int));
    }
    Some((out, cur))
}

} // verus!

verus! {

/// Whether a shape is drawable, decided at run time.
fn check_shape_ok(sh: &Shape, n: usize) -> (r: bool)
    ensures
        r == crate::scene::shape_ok(*sh, n as int),
{
    match sh {
        Shape::Circle { width, height } => -46340 <= *width && *width <= 46340
            && -46340 <= *height && *height <= 46340,
        Shape::Rect(_, _) => true,
        Shape::Polygon(ps) => ps.len() >= 2,
        Shape::Letters(t) => t.as_str().unicode_len() <= 1000000,
        Shape::Lines(_) => true,
        Shape::Group(l) => {
            let mut i: usize = 0;
            let mut ok = true;
            while i < l.0.len()
                invariant
                    i <= l.0@.len(),
                    ok == (forall|k: int| 0 <= k < i ==> ((#[trigger] l.0@[k]) as int) < n as int),
                decreases l.0@.len() - i,
            {
                if l.0[i] >= n {
                    ok = false;
                }
                i = i + 1;
            }
            ok
        },
    }
}

/// Whether an object is drawable, decided at run time.
fn check_obj_ok(o: &Object, n: usize) -> (r: bool)
    ensures
        r == crate::scene::obj_ok(*o, n as int),
{
    if o.scale.0 >= 0 && o.scale.1 >= 0 {
        check_shape_ok(&o.shape, n)
    } else {
        false
    }
}

/// Whether a whole scene is structurally sound, decided at run time.
fn check_wf(sc: &Scene) -> (r: bool)
    ensures
        r == sc.wf(),
{
    let n = sc.arena.len();
    let mut i: usize = 0;
    while i < sc.arena.len()
        invariant
            i <= sc.arena@.len(),
            n == sc.arena@.len(),
            forall|k: int| 0 <= k < i
                ==> crate::scene::obj_ok(#[trigger] sc.arena@[k], sc.arena@.len() as int),
        decreases sc.arena@.len() - i,
    {
        if !check_obj_ok(&sc.arena[i], n) {
            return false;
        }
        i = i + 1;
    }
    let mut j: usize = 0;
    while j < sc.objects.0.len()
        invariant
            j <= sc.objects.0@.len(),
            n == sc.arena@.len(),
            forall|k: int| 0 <= k < j
                ==> ((#[trigger] sc.objects.0@[k]) as int) < sc.arena@.len(),
        decreases sc.objects.0@.len() - j,
    {
        if sc.objects.0[j] >= n {
            return false;
        }
        j = j + 1;
    }
    let mut g: usize = 0;
    while g < sc.groups.0.len()
        invariant
            g <= sc.groups.0@.len(),
            n == sc.arena@.len(),
            forall|k: int| 0 <= k < g
                ==> ((#[trigger] sc.groups.0@[k]) as int) < sc.arena@.len(),
        decreases sc.groups.0@.len() - g,
    {
        if sc.groups.0[g] >= n {
            return false;
        }
        g = g + 1;
    }
    sc.scale.0 >= 0 && sc.scale.1 >= 0
}

/// The structural-soundness conditions, over a scene image.
pub open spec fn shape_wf_v(sh: ShapeV, n: int) -> bool {
    match sh {
        ShapeV::Circle { width, height } => -crate::scene::max_semi_axis() <= width
            <= crate::scene::max_semi_axis() && -crate::scene::max_semi_axis() <= height
            <= crate::scene::max_semi_axis(),
        ShapeV::Rect(_, _) => true,
        ShapeV::Polygon(ps) => ps.len() >= 2,
        ShapeV::Letters(t) => t.len() <= crate::scene::max_text_len(),
        ShapeV::Lines(_) => true,
        ShapeV::Group(hs) => forall|k: int| 0 <= k < hs.len() ==> 0 <= #[trigger] hs[k] < n,
    }
}

pub open spec fn obj_wf_v(o: ObjectV, n: int) -> bool {
    shape_wf_v(o.shape, n) && o.scale.0 >= 0 && o.scale.1 >= 0
}

/// Structural soundness of a scene image: every handle in range, every
/// object drawable, the global scale non-negative.
pub open spec fn scene_wf_v(sv: SceneV) -> bool {
    &&& forall|h: int| 0 <= h < sv.arena.len()
        ==> obj_wf_v(#[trigger] sv.arena[h], sv.arena.len() as int)
    &&& forall|k: int| 0 <= k < sv.objects.len() ==> 0 <= #[trigger] sv.objects[k] < sv.arena.len()
    &&& forall|k: int| 0 <= k < sv.groups.len() ==> 0 <= #[trigger] sv.groups[k] < sv.arena.len()
    &&& sv.scale.0 >= 0
    &&& sv.scale.1 >= 0
}

/// A scene is structurally sound exactly when its image is.
pub proof fn lemma_wf_view(sc: Scene)
    ensures
        sc.wf() == scene_wf_v(scene_view(sc)),
{
    let sv = scene_view(sc);
    let n = sc.arena@.len() as int;
    assert(sv.arena.len() == sc.arena@.len());
    assert forall|h: int| 0 <= h < n
        implies (crate::scene::obj_ok(#[trigger] sc.arena@[h], n)
            == obj_wf_v(sv.arena[h], n)) by {
        let o = sc.arena@[h];
        assert(sv.arena[h] == object_view(o));
        match o.shape {
            Shape::Group(l) => {
                let hs = shape_view(o.shape)->Group_0;
                assert forall|k: int| 0 <= k < hs.len()
                    implies #[trigger] hs[k] == l.0@[k] as int by {}
                if crate::scene::shape_ok(o.shape, n) {
                    assert forall|k: int| 0 <= k < hs.len()
                        implies 0 <= #[trigger] hs[k] < n by {
                        assert((l.0@[k] as int) < n);
                        assert(hs[k] == l.0@[k] as int);
                    }
                }
                if shape_wf_v(shape_view(o.shape), n) {
                    assert forall|k: int| 0 <= k < l.0@.len()
                        implies ((#[trigger] l.0@[k]) as int) < n by {
                        assert(0 <= hs[k] < n);
                        assert(hs[k] == l.0@[k] as int);
                    }
                }
            },
            _ => {},
        }
    }
    assert forall|k: int| 0 <= k < sv.objects.len()
        implies #[trigger] sv.objects[k] == sc.objects.0@[k] as int by {}
    assert forall|k: int| 0 <= k < sv.groups.len()
        implies #[trigger] sv.groups[k] == sc.groups.0@[k] as int by {}
    if sc.wf() {
        assert forall|k: int| 0 <= k < sv.objects.len()
            implies 0 <= #[trigger] sv.objects[k] < sv.arena.len() by {
            assert((sc.objects.0@[k] as int) < n);
        }
        assert forall|k: int| 0 <= k < sv.groups.len()
            implies 0 <= #[trigger] sv.groups[k] < sv.arena.len() by {
            assert((sc.groups.0@[k] as int) < n);
        }
        assert(scene_wf_v(sv));
    }
    if scene_wf_v(sv) {
        assert forall|k: int| 0 <= k < sc.objects.0@.len()
            implies ((#[trigger] sc.objects.0@[k]) as int) < sc.arena@.len() by {
            assert(0 <= sv.objects[k] < sv.arena.len());
        }
        assert forall|k: int| 0 <= k < sc.groups.0@.len()
            implies ((#[trigger] sc.groups.0@[k]) as int) < sc.arena@.len() by {
            assert(0 <= sv.groups[k] < sv.arena.len());
        }
        assert(sc.wf());
    }
}

} // verus!

verus! {

/// Read `n` coordinate pairs.
fn read_pts(s: &Vec<u8>, i: usize, n: u64) -> (r: Option<(Vec<Point>, usize)>)
    ensures
        match r {
            Some(pj) => dec_pairs(s@, i as int, n as nat, i32_lo(), i32_hi())
                == Some((pj.0@.map_values(|p: Point| point_v(p)), pj.1 as int)),
            None => dec_pairs(s@, i as int, n as nat, i32_lo(), i32_hi()) is None,
        },
{
    let mut cur: usize = i;
    let mut out: Vec<Point> = Vec::new();
    let mut done: u64 = 0;
    while done < n
        invariant
            done <= n,
            out@.len() == done,
            dec_pairs(s@, i as int, n as nat, i32_lo(), i32_hi()) == (match dec_pairs(
                s@, cur as int, (n - done) as nat, i32_lo(), i32_hi()) {
                Some(psk) => Some((out@.map_values(|p: Point| point_v(p)) + psk.0, psk.1)),
                None => None::<(Seq<(int, int)>, int)>,
            }),
        decreases n - done,
    {
        let xa = match read_num_in(s, cur, -0x8000_0000, 0x7fff_ffff) {
            Some(x) => x,
            None => {
                return None;
            },
        };
        let ya = match read_num_in(s, xa.1, -0x8000_0000, 0x7fff_ffff) {
            Some(x) => x,
            None => {
                return None;
            },
        };
        out.push((xa.0 as i32, ya.0 as i32));
        proof {
            let f = |p: Point| point_v(p);
            assert(out@.map_values(f)
                =~= out@.drop_last().map_values(f).push((xa.0 as int, ya.0 as int)));
            assert forall|psk: (Seq<(int, int)>, int)|
                dec_pairs(s@, ya.1 as int, (n - done - 1) as nat, i32_lo(), i32_hi())
                    == Some(psk)
                implies out@.drop_last().map_values(f)
                    + (seq![(xa.0 as int, ya.0 as int)] + psk.0)
                    =~= out@.map_values(f) + psk.0 by {}
        }
        cur = ya.1;
        done = done + 1;
    }
    proof {
        assert(dec_pairs(s@, cur as int, 0, i32_lo(), i32_hi())
            == Some((Seq::<(int, int)>::empty(), cur as int)));
        assert(out@.map_values(|p: Point| point_v(p)) + Seq::<(int, int)>::empty()
            =~= out@.map_values(|p: Point| point_v(p)));
    }
    Some((out, cur))
}

/// Read `n` segments, four numbers each.
fn read_segs(s: &Vec<u8>, i: usize, n: u64) -> (r: Option<(Vec<Line>, usize)>)
    ensures
        match r {
            Some(lj) => dec_segs(s@, i as int, n as nat)
                == Some((lj.0@.map_values(|l: Line| line_v(l)), lj.1 as int)),
            None => dec_segs(s@, i as int, n as nat) is None,
        },
{
    let mut cur: usize = i;
    let mut out: Vec<Line> = Vec::new();
    let mut done: u64 = 0;
    while done < n
        invariant
            done <= n,
            out@.len() == done,
            dec_segs(s@, i as int, n as nat) == (match dec_segs(
                s@, cur as int, (n - done) as nat) {
                Some(lsk) => Some((out@.map_values(|l: Line| line_v(l)) + lsk.0, lsk.1)),
                None => None::<(Seq<((int, int), (int, int))>, int)>,
            }),
        decreases n - done,
    {
        let x0 = match read_num_in(s, cur, -0x8000_0000, 0x7fff_ffff) {
            Some(x) => x,
            None => {
                return None;
            },
        };
        let y0 = match read_num_in(s, x0.1, -0x8000_0000, 0x7fff_ffff) {
            Some(x) => x,
            None => {
                return None;
            },
        };
        let x1 = match read_num_in(s, y0.1, -0x8000_0000, 0x7fff_ffff) {
            Some(x) => x,
            None => {
                return None;
            },
        };
        let y1 = match read_num_in(s, x1.1, -0x8000_0000, 0x7fff_ffff) {
            Some(x) => x,
            None => {
                return None;
            },
        };
        out.push(((x0.0 as i32, y0.0 as i32), (x1.0 as i32, y1.0 as i32)));
        proof {
            let f = |l: Line| line_v(l);
            let sv = ((x0.0 as int, y0.0 as int), (x1.0 as int, y1.0 as int));
            assert(out@.map_values(f) =~= out@.drop_last().map_values(f).push(sv));
            assert forall|lsk: (Seq<((int, int), (int, int))>, int)|
                dec_segs(s@, y1.1 as int, (n - done - 1) as nat) == Some(lsk)
                implies out@.drop_last().map_values(f) + (seq![sv] + lsk.0)
                    =~= out@.map_values(f) + lsk.0 by {}
        }
        cur = y1.1;
        done = done + 1;
    }
    proof {
        assert(dec_segs(s@, cur as int, 0)
            == Some((Seq::<((int, int), (int, int))>::empty(), cur as int)));
        assert(out@.map_values(|l: Line| line_v(l)) + Seq::<((int, int), (int, int))>::empty()
            =~= out@.map_values(|l: Line| line_v(l)));
    }
    Some((out, cur))
}

/// Read a counted run of code points into text.
fn read_text(s: &Vec<u8>, i: usize) -> (r: Option<(String, usize)>)
    ensures
        match r {
            Some(tj) => ({
                &&& dec_counted(s@, i as int, 0, 0x10ffff) matches Some(vsk)
                    && vsk.1 == tj.1 as int && all_scalars(vsk.0)
                    && tj.0@ == ints_as_chars(vsk.0)
                &&& tj.1 <= s@.len()
            }),
            None => dec_counted(s@, i as int, 0, 0x10ffff) is None
                || !all_scalars(dec_counted(s@, i as int, 0, 0x10ffff)->Some_0.0),
        },
{
    let nj = match read_num_in(s, i, 0, 0xffff_ffff) {
        Some(x) => x,
        None => {
            return None;
        },
    };
    let n = nj.0 as u64;
    let mut cur: usize = nj.1;
    let mut text = String::new();
    let mut done: u64 = 0;
    while done < n
        invariant
            done <= n,
            cur <= s@.len(),
            text@.len() == done,
            dec_counted(s@, i as int, 0, 0x10ffff)
                == dec_nums(s@, nj.1 as int, n as nat, 0, 0x10ffff),
            dec_nums(s@, nj.1 as int, n as nat, 0, 0x10ffff) == (match dec_nums(
                s@, cur as int, (n - done) as nat, 0, 0x10ffff) {
                Some(vsk) => Some((chars_as_ints(text@) + vsk.0, vsk.1)),
                None => None::<(Seq<int>, int)>,
            }),
            all_scalars(chars_as_ints(text@)),
        decreases n - done,
    {
        let vj = match read_num_in(s, cur, 0, 0x10ffff) {
            Some(x) => x,
            None => {
                proof {
                    assert(dec_nums(s@, cur as int, (n - done) as nat, 0, 0x10ffff) is None);
                }
                return None;
            },
        };
        let c = match char::from_u32(vj.0 as u32) {
            Some(c) => c,
            None => {
                proof {
                    if dec_nums(s@, vj.1 as int, (n - done - 1) as nat, 0, 0x10ffff) is Some {
                        let full = dec_nums(s@, nj.1 as int, n as nat, 0, 0x10ffff);
                        assert(dec_nums(s@, cur as int, (n - done) as nat, 0, 0x10ffff)
                            matches Some(vsk) && vsk.0[0] == vj.0 as int);
                        assert(full is Some);
                        let vs = full->Some_0.0;
                        assert(vs[done as int] == vj.0 as int) by {
                            assert(chars_as_ints(text@).len() == done);
                        }
                        assert(!vstd::utf8::is_scalar((vs[done as int]) as u32));
                        assert(!all_scalars(vs));
                    } else {
                        assert(dec_nums(s@, cur as int, (n - done) as nat, 0, 0x10ffff) is None);
                    }
                }
                return None;
            },
        };
        text.push(c);
        proof {
            vstd::utf8::char_u32_cast(c, c as u32);
            assert(c as u32 == vj.0 as u32);
            assert(chars_as_ints(text@)
                =~= chars_as_ints(text@.drop_last()).push(vj.0 as int));
            assert forall|vsk: (Seq<int>, int)|
                dec_nums(s@, vj.1 as int, (n - done - 1) as nat, 0, 0x10ffff) == Some(vsk)
                implies chars_as_ints(text@.drop_last()) + (seq![vj.0 as int] + vsk.0)
                    =~= chars_as_ints(text@) + vsk.0 by {}
            assert(all_scalars(chars_as_ints(text@))) by {
                assert forall|k: int| 0 <= k < text@.len()
                    implies vstd::utf8::is_scalar((#[trigger] chars_as_ints(text@)[k]) as u32) by {
                    vstd::utf8::char_is_scalar(text@[k]);
                    assert(chars_as_ints(text@)[k] == text@[k] as u32 as int);
                }
            }
        }
        cur = vj.1;
        done = done + 1;
    }
    proof {
        assert(chars_as_ints(text@) + Seq::<int>::empty() =~= chars_as_ints(text@));
        assert(ints_as_chars(chars_as_ints(text@)) =~= text@) by {
            assert forall|k: int| 0 <= k < text@.len()
                implies ints_as_chars(chars_as_ints(text@))[k] == text@[k] by {
                vstd::utf8::char_u32_cast(text@[k], text@[k] as u32);
            }
        }
    }
    Some((text, cur))
}

} // verus!

verus! {

/// Read one shape.
#[verifier::rlimit(60)]
fn read_shape(s: &Vec<u8>, i: usize) -> (r: Option<(Shape, usize)>)
    ensures
        match r {
            Some(shj) => dec_shape(s@, i as int) == Some((shape_view(shj.0), shj.1 as int)),
            None => dec_shape(s@, i as int) is None,
        },
{
    let kw_circle: Vec<u8> = vec![99, 105, 114, 99, 108, 101];
    let kw_rect: Vec<u8> = vec![114, 101, 99, 116];
    let kw_polygon: Vec<u8> = vec![112, 111, 108, 121, 103, 111, 110];
    let kw_letters: Vec<u8> = vec![108, 101, 116, 116, 101, 114, 115];
    let kw_lines: Vec<u8> = vec![108, 105, 110, 101, 115];
    let kw_group: Vec<u8> = vec![103, 114, 111, 117, 112];
    proof {
        assert(kw_circle@ =~= kw_circle_b());
        assert(kw_rect@ =~= kw_rect_b());
        assert(kw_polygon@ =~= kw_polygon_b());
        assert(kw_letters@ =~= kw_letters_b());
        assert(kw_lines@ =~= kw_lines_b());
        assert(kw_group@ =~= kw_group_b());
    }
    if let Some(j) = read_kw(s, i, &kw_circle) {
        let w = match read_num_in(s, j, -0x8000_0000, 0x7fff_ffff) {
            Some(x) => x,
            None => {
                return None;
            },
        };
        let h = match read_num_in(s, w.1, -0x8000_0000, 0x7fff_ffff) {
            Some(x) => x,
            None => {
                return None;
            },
        };
        Some((Shape::Circle { width: w.0 as i32, height: h.0 as i32 }, h.1))
    } else if let Some(j) = read_kw(s, i, &kw_rect) {
        let x0 = match read_num_in(s, j, -0x8000_0000, 0x7fff_ffff) {
            Some(x) => x,
            None => {
                return None;
            },
        };
        let y0 = match read_num_in(s, x0.1, -0x8000_0000, 0x7fff_ffff) {
            Some(x) => x,
            None => {
                return None;
            },
        };
        let x1 = match read_num_in(s, y0.1, -0x8000_0000, 0x7fff_ffff) {
            Some(x) => x,
            None => {
                return None;
            },
        };
        let y1 = match read_num_in(s, x1.1, -0x8000_0000, 0x7fff_ffff) {
            Some(x) => x,
            None => {
                return None;
            },
        };
        Some((Shape::Rect((x0.0 as i32, y0.0 as i32), (x1.0 as i32, y1.0 as i32)), y1.1))
    } else if let Some(j) = read_kw(s, i, &kw_polygon) {
        let nj = match read_num_in(s, j, 0, 0xffff_ffff) {
            Some(x) => x,
            None => {
                return None;
            },
        };
        let ps = match read_pts(s, nj.1, nj.0 as u64) {
            Some(x) => x,
            None => {
                return None;
            },
        };
        Some((Shape::Polygon(ps.0), ps.1))
    } else if let Some(j) = read_kw(s, i, &kw_letters) {
        let tj = match read_text(s, j) {
            Some(x) => x,
            None => {
                return None;
            },
        };
        Some((Shape::Letters(tj.0), tj.1))
    } else if let Some(j) = read_kw(s, i, &kw_lines) {
        let nj = match read_num_in(s, j, 0, 0xffff_ffff) {
            Some(x) => x,
            None => {
                return None;
            },
        };
        let ls = match read_segs(s, nj.1, nj.0 as u64) {
            Some(x) => x,
            None => {
                return None;
            },
        };
        Some((Shape::Lines(ls.0), ls.1))
    } else if let Some(j) = read_kw(s, i, &kw_group) {
        let hs = match read_counted_handles(s, j) {
            Some(x) => x,
            None => {
                return None;
            },
        };
        Some((Shape::Group(ObjectList(hs.0)), hs.1))
    } else {
        None
    }
}

/// Read one object.
#[verifier::rlimit(60)]
fn read_obj(s: &Vec<u8>, i: usize) -> (r: Option<(Object, usize)>)
    ensures
        match r {
            Some(oj) => dec_obj(s@, i as int) == Some((object_view(oj.0), oj.1 as int)),
            None => dec_obj(s@, i as int) is None,
        },
{
    let kw_object: Vec<u8> = vec![111, 98, 106, 101, 99, 116];
    proof {
        assert(kw_object@ =~= kw_object_b());
    }
    let j = match read_kw(s, i, &kw_object) {
        Some(x) => x,
        None => {
            return None;
        },
    };
    let sh = match read_shape(s, j) {
        Some(x) => x,
        None => {
            return None;
        },
    };
    let px = match read_num_in(s, sh.1, -0x8000_0000, 0x7fff_ffff) {
        Some(x) => x,
        None => {
            return None;
        },
    };
    let py = match read_num_in(s, px.1, -0x8000_0000, 0x7fff_ffff) {
        Some(x) => x,
        None => {
            return None;
        },
    };
    let sx = match read_num_in(s, py.1, -0x8000_0000, 0x7fff_ffff) {
        Some(x) => x,
        None => {
            return None;
        },
    };
    let sy = match read_num_in(s, sx.1, -0x8000_0000, 0x7fff_ffff) {
        Some(x) => x,
        None => {
            return None;
        },
    };
    let rot = match read_num_in(s, sy.1, -0x8000_0000, 0x7fff_ffff) {
        Some(x) => x,
        None => {
            return None;
        },
    };
    let cr = match read_num_in(s, rot.1, 0, 255) {
        Some(x) => x,
        None => {
            return None;
        },
    };
    let cg = match read_num_in(s, cr.1, 0, 255) {
        Some(x) => x,
        None => {
            return None;
        },
    };
    let cb = match read_num_in(s, cg.1, 0, 255) {
        Some(x) => x,
        None => {
            return None;
        },
    };
    let o = Object {
        shape: sh.0,
        position: (px.0 as i32, py.0 as i32),
        scale: (sx.0 as i32, sy.0 as i32),
        rotation: rot.0 as i32,
        color: (cr.0 as u8, cg.0 as u8, cb.0 as u8),
    };
    Some((o, cb.1))
}

impl Scene {
    /// Parse a serialized scene. Yields the scene exactly when the text is a
    /// complete, well-formed encoding of a structurally sound scene; any
    /// malformed input yields nothing, so a load can fail as a whole.
    #[verifier::rlimit(60)]
    pub fn deserialize(input: &Vec<u8>) -> (r: Option<Scene>)
        ensures
            match r {
                Some(sc) => ({
                    &&& sc.wf()
                    &&& dec_scene(input@) == Some(scene_view(sc))
                    &&& scene_wf_v(scene_view(sc))
                }),
                None => dec_scene(input@) is None
                    || !scene_wf_v(dec_scene(input@)->Some_0),
            },
    {
        let kw_scene: Vec<u8> = vec![115, 99, 101, 110, 101];
        proof {
            assert(kw_scene@ =~= kw_scene_b());
        }
        let j = match read_kw(input, 0, &kw_scene) {
            Some(x) => x,
            None => {
                return None;
            },
        };
        let nj = match read_num_in(input, j, 0, 0xffff_ffff) {
            Some(x) => x,
            None => {
                return None;
            },
        };
        let n = nj.0 as u64;
        let mut cur: usize = nj.1;
        let mut arena: Vec<Object> = Vec::new();
        let mut done: u64 = 0;
        while done < n
            invariant
                done <= n,
                arena@.len() == done,
                dec_kw(input@, 0, kw_scene_b()) == Some(j as int),
                dec_num_in(input@, j as int, 0, count_hi()) == Some((nj.0 as int, nj.1 as int)),
                n == nj.0 as u64,
                0 <= nj.0 <= 0xffff_ffff,
                dec_objs(input@, nj.1 as int, n as nat) == (match dec_objs(
                    input@, cur as int, (n - done) as nat) {
                    Some(osk) => Some((arena@.map_values(|o: Object| object_view(o)) + osk.0,
                        osk.1)),
                    None => None::<(Seq<ObjectV>, int)>,
                }),
            decreases n - done,
        {
            let oj = match read_obj(input, cur) {
                Some(x) => x,
                None => {
                    proof {
                        assert(dec_objs(input@, cur as int, (n - done) as nat) is None);
                    }
                    return None;
                },
            };
            arena.push(oj.0);
            proof {
                let f = |o: Object| object_view(o);
                assert(arena@.map_values(f)
                    =~= arena@.drop_last().map_values(f).push(object_view(oj.0)));
                assert forall|osk: (Seq<ObjectV>, int)|
                    dec_objs(input@, oj.1 as int, (n - done - 1) as nat) == Some(osk)
                    implies arena@.drop_last().map_values(f)
                        + (seq![object_view(oj.0)] + osk.0)
                        =~= arena@.map_values(f) + osk.0 by {}
            }
            cur = oj.1;
            done = done + 1;
        }
        proof {
            assert(dec_objs(input@, cur as int, 0)
                == Some((Seq::<ObjectV>::empty(), cur as int)));
            assert(arena@.map_values(|o: Object| object_view(o)) + Seq::<ObjectV>::empty()
                =~= arena@.map_values(|o: Object| object_view(o)));
        }
        let objs = match read_counted_handles(input, cur) {
            Some(x) => x,
            None => {
                return None;
            },
        };
        let grps = match read_counted_handles(input, objs.1) {
            Some(x) => x,
            None => {
                return None;
            },
        };
        let sel = match read_num_in(input, grps.1, 0, 0xffff_ffff) {
            Some(x) => x,
            None => {
                return None;
            },
        };
        let cx = match read_num_in(input, sel.1, -0x8000_0000, 0x7fff_ffff) {
            Some(x) => x,
            None => {
                return None;
            },
        };
        let cy = match read_num_in(input, cx.1, -0x8000_0000, 0x7fff_ffff) {
            Some(x) => x,
            None => {
                return None;
            },
        };
        let gsx = match read_num_in(input, cy.1, -0x8000_0000, 0x7fff_ffff) {
            Some(x) => x,
            None => {
                return None;
            },
        };
        let gsy = match read_num_in(input, gsx.1, -0x8000_0000, 0x7fff_ffff) {
            Some(x) => x,
            None => {
                return None;
            },
        };
        let grot = match read_num_in(input, gsy.1, -0x8000_0000, 0x7fff_ffff) {
            Some(x) => x,
            None => {
                return None;
            },
        };
        if grot.1 != input.len() {
            return None;
        }
        let sc = Scene {
            arena,
            objects: ObjectList(objs.0),
            selected_object: sel.0 as usize,
            groups: ObjectList(grps.0),
            camera: (cx.0 as i32, cy.0 as i32),
            scale: (gsx.0 as i32, gsy.0 as i32),
            rotation: grot.0 as i32,
        };
        proof {
            assert(dec_scene(input@) == Some(scene_view(sc)));
        }
        if check_wf(&sc) {
            proof {
                lemma_wf_view(sc);
            }
            Some(sc)
        } else {
            proof {
                lemma_wf_view(sc);
            }
            None
        }
    }
}

} // verus!
