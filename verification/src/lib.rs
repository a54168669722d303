//! A small vector-drawing core: integer rasterization primitives for lines,
//! rectangles, polygons and ellipses; in-place transforms over point sets;
//! a scene graph of positionable, scalable, rotatable objects; and a text
//! persistence codec for whole scenes.

pub mod codec;
pub mod glyphs;
pub mod scene;
pub mod trig;
pub mod util;
