//! The built-in glyph table: a fixed mapping from letters, digits and the
//! space to line segments on a 50-unit square.

use vstd::prelude::*;
use crate::scene::{Line, Shape};

verus! {

/// The line segments of the glyph for `c`. Lowercase letters map like their
/// uppercase forms; characters without a glyph map to no segments at all.
pub open spec fn glyph_segs(c: char) -> Seq<Line> {
    match c {
        'A' | 'a' => seq![((0, 50), (25, 0)), ((25, 0), (50, 50)), ((12, 25), (37, 25))],
        'B' | 'b' => seq![((0, 0), (1, 50)), ((0, 0), (25, 12)), ((25, 12), (0, 25)), ((0, 25), (25, 37)), ((25, 37), (0, 50))],
        'C' | 'c' => seq![((25, 0), (0, 25)), ((0, 25), (25, 50))],
        'D' | 'd' => seq![((0, 0), (25, 25)), ((25, 25), (0, 50)), ((0, 0), (1, 50))],
        'E' | 'e' => seq![((0, 0), (1, 50)), ((0, 0), (50, 0)), ((0, 25), (50, 25)), ((0, 50), (50, 50))],
        'F' | 'f' => seq![((0, 0), (1, 50)), ((0, 0), (50, 0)), ((0, 25), (50, 25))],
        'G' | 'g' => seq![((25, 0), (0, 25)), ((0, 25), (25, 50)), ((25, 50), (50, 25)), ((49, 25), (25, 25))],
        'H' | 'h' => seq![((0, 0), (1, 50)), ((50, 0), (49, 50)), ((0, 25), (50, 25))],
        'I' | 'i' => seq![((0, 0), (1, 50))],
        'J' | 'j' => seq![((50, 0), (49, 50)), ((50, 50), (0, 50)), ((0, 50), (1, 25))],
        'K' | 'k' => seq![((0, 0), (1, 50)), ((0, 25), (50, 0)), ((0, 25), (50, 50))],
        'L' | 'l' => seq![((0, 0), (1, 50)), ((1, 50), (50, 50))],
        'M' | 'm' => seq![((0, 0), (1, 50)), ((0, 0), (25, 25)), ((25, 25), (50, 0)), ((50, 0), (49, 50))],
        'N' | 'n' => seq![((0, 0), (1, 50)), ((0, 0), (50, 50)), ((50, 50), (49, 0))],
        'O' | 'o' => seq![((25, 0), (0, 25)), ((25, 0), (50, 25)), ((50, 25), (25, 50)), ((0, 25), (25, 50))],
        'P' | 'p' => seq![((0, 0), (1, 50)), ((0, 0), (25, 12)), ((25, 12), (0, 25))],
        'Q' | 'q' => seq![((25, 0), (0, 25)), ((25, 0), (50, 25)), ((50, 25), (25, 50)), ((0, 25), (25, 50)), ((25, 25), (50, 50))],
        'R' | 'r' => seq![((0, 0), (1, 50)), ((0, 0), (25, 12)), ((25, 12), (0, 25)), ((0, 25), (25, 50))],
        'S' | 's' => seq![((50, 0), (0, 16)), ((0, 16), (50, 33)), ((50, 33), (0, 50))],
        'T' | 't' => seq![((25, 0), (26, 50)), ((0, 0), (50, 0))],
        'U' | 'u' => seq![((0, 0), (1, 50)), ((1, 50), (49, 50)), ((49, 50), (50, 0))],
        'V' | 'v' => seq![((0, 0), (25, 50)), ((25, 50), (50, 0))],
        'W' | 'w' => seq![((0, 0), (16, 50)), ((16, 50), (25, 0)), ((25, 0), (33, 50)), ((33, 50), (50, 0))],
        'X' | 'x' => seq![((0, 0), (50, 50)), ((50, 0), (0, 50))],
        'Y' | 'y' => seq![((0, 0), (25, 25)), ((50, 0), (25, 25)), ((25, 25), (24, 50))],
        'Z' | 'z' => seq![((0, 0), (50, 0)), ((50, 0), (0, 50)), ((0, 50), (50, 50))],
        '0' => seq![((25, 0), (0, 25)), ((25, 0), (50, 25)), ((50, 25), (25, 50)), ((0, 25), (25, 50))],
        '1' => seq![((0, 0), (1, 50))],
        '2' => seq![((0, 0), (50, 0)), ((50, 0), (0, 50)), ((0, 50), (50, 50))],
        '3' => seq![((50, 0), (49, 50)), ((0, 0), (50, 0)), ((0, 25), (50, 25)), ((0, 50), (50, 50))],
        '4' => seq![((50, 0), (0, 25)), ((0, 25), (50, 25)), ((50, 0), (49, 50))],
        '5' => seq![((50, 0), (0, 16)), ((0, 16), (50, 33)), ((50, 33), (0, 50))],
        '6' => seq![((0, 0), (1, 50)), ((0, 50), (25, 37)), ((25, 37), (0, 25))],
        '7' => seq![((0, 0), (50, 0)), ((50, 0), (25, 50))],
        '8' => seq![((1, 0), (0, 50)), ((0, 0), (50, 0)), ((0, 25), (50, 25)), ((49, 0), (50, 50)), ((0, 50), (50, 50))],
        '9' => seq![((50, 0), (49, 50)), ((50, 0), (25, 12)), ((25, 12), (50, 25))],
        ' ' => Seq::empty(),
        _ => Seq::empty(),
    }
}

impl Shape {
    /// The `Lines` shape holding the glyph for one character.
    pub fn for_letter(c: char) -> (r: Shape)
        ensures
            r matches Shape::Lines(v) && v@ == glyph_segs(c),
    {
        let segs: Vec<Line> = match c {
            'A' | 'a' => vec![((0, 50), (25, 0)), ((25, 0), (50, 50)), ((12, 25), (37, 25))],
            'B' | 'b' => vec![((0, 0), (1, 50)), ((0, 0), (25, 12)), ((25, 12), (0, 25)), ((0, 25), (25, 37)), ((25, 37), (0, 50))],
            'C' | 'c' => vec![((25, 0), (0, 25)), ((0, 25), (25, 50))],
            'D' | 'd' => vec![((0, 0), (25, 25)), ((25, 25), (0, 50)), ((0, 0), (1, 50))],
            'E' | 'e' => vec![((0, 0), (1, 50)), ((0, 0), (50, 0)), ((0, 25), (50, 25)), ((0, 50), (50, 50))],
            'F' | 'f' => vec![((0, 0), (1, 50)), ((0, 0), (50, 0)), ((0, 25), (50, 25))],
            'G' | 'g' => vec![((25, 0), (0, 25)), ((0, 25), (25, 50)), ((25, 50), (50, 25)), ((49, 25), (25, 25))],
            'H' | 'h' => vec![((0, 0), (1, 50)), ((50, 0), (49, 50)), ((0, 25), (50, 25))],
            'I' | 'i' => vec![((0, 0), (1, 50))],
            'J' | 'j' => vec![((50, 0), (49, 50)), ((50, 50), (0, 50)), ((0, 50), (1, 25))],
            'K' | 'k' => vec![((0, 0), (1, 50)), ((0, 25), (50, 0)), ((0, 25), (50, 50))],
            'L' | 'l' => vec![((0, 0), (1, 50)), ((1, 50), (50, 50))],
            'M' | 'm' => vec![((0, 0), (1, 50)), ((0, 0), (25, 25)), ((25, 25), (50, 0)), ((50, 0), (49, 50))],
            'N' | 'n' => vec![((0, 0), (1, 50)), ((0, 0), (50, 50)), ((50, 50), (49, 0))],
            'O' | 'o' => vec![((25, 0), (0, 25)), ((25, 0), (50, 25)), ((50, 25), (25, 50)), ((0, 25), (25, 50))],
            'P' | 'p' => vec![((0, 0), (1, 50)), ((0, 0), (25, 12)), ((25, 12), (0, 25))],
            'Q' | 'q' => vec![((25, 0), (0, 25)), ((25, 0), (50, 25)), ((50, 25), (25, 50)), ((0, 25), (25, 50)), ((25, 25), (50, 50))],
            'R' | 'r' => vec![((0, 0), (1, 50)), ((0, 0), (25, 12)), ((25, 12), (0, 25)), ((0, 25), (25, 50))],
            'S' | 's' => vec![((50, 0), (0, 16)), ((0, 16), (50, 33)), ((50, 33), (0, 50))],
            'T' | 't' => vec![((25, 0), (26, 50)), ((0, 0), (50, 0))],
            'U' | 'u' => vec![((0, 0), (1, 50)), ((1, 50), (49, 50)), ((49, 50), (50, 0))],
            'V' | 'v' => vec![((0, 0), (25, 50)), ((25, 50), (50, 0))],
            'W' | 'w' => vec![((0, 0), (16, 50)), ((16, 50), (25, 0)), ((25, 0), (33, 50)), ((33, 50), (50, 0))],
            'X' | 'x' => vec![((0, 0), (50, 50)), ((50, 0), (0, 50))],
            'Y' | 'y' => vec![((0, 0), (25, 25)), ((50, 0), (25, 25)), ((25, 25), (24, 50))],
            'Z' | 'z' => vec![((0, 0), (50, 0)), ((50, 0), (0, 50)), ((0, 50), (50, 50))],
            '0' => vec![((25, 0), (0, 25)), ((25, 0), (50, 25)), ((50, 25), (25, 50)), ((0, 25), (25, 50))],
            '1' => vec![((0, 0), (1, 50))],
            '2' => vec![((0, 0), (50, 0)), ((50, 0), (0, 50)), ((0, 50), (50, 50))],
            '3' => vec![((50, 0), (49, 50)), ((0, 0), (50, 0)), ((0, 25), (50, 25)), ((0, 50), (50, 50))],
            '4' => vec![((50, 0), (0, 25)), ((0, 25), (50, 25)), ((50, 0), (49, 50))],
            '5' => vec![((50, 0), (0, 16)), ((0, 16), (50, 33)), ((50, 33), (0, 50))],
            '6' => vec![((0, 0), (1, 50)), ((0, 50), (25, 37)), ((25, 37), (0, 25))],
            '7' => vec![((0, 0), (50, 0)), ((50, 0), (25, 50))],
            '8' => vec![((1, 0), (0, 50)), ((0, 0), (50, 0)), ((0, 25), (50, 25)), ((49, 0), (50, 50)), ((0, 50), (50, 50))],
            '9' => vec![((50, 0), (49, 50)), ((50, 0), (25, 12)), ((25, 12), (50, 25))],
            ' ' => Vec::new(),
            _ => Vec::new(),
        };
        proof {
            assert(segs@ =~= glyph_segs(c));
        }
        Shape::Lines(segs)
    }
}

} // verus!
