//! Mapping of 8-bit channel samples onto the six levels of the terminal
//! colour cube, and of quantized RGB triples onto cube colour codes.
use vstd::prelude::*;

verus! {

/// The channel level of cube step `i` (0..=5).
pub open spec fn step_level(i: int) -> int {
    if i == 0 {
        0
    } else if i == 1 {
        95
    } else if i == 2 {
        135
    } else if i == 3 {
        175
    } else if i == 4 {
        215
    } else {
        255
    }
}

/// Absolute difference between a sample and cube step `i`.
pub open spec fn step_distance(v: int, i: int) -> int {
    let d = step_level(i) - v;
    if d < 0 {
        -d
    } else {
        d
    }
}

/// `i` is a step at least as close to `v` as every other step, and strictly
/// closer than every step before it.
pub open spec fn is_closest_step(v: int, i: int) -> bool {
    &&& 0 <= i < 6
    &&& forall|j: int| 0 <= j < 6 ==> step_distance(v, i) <= #[trigger] step_distance(v, j)
    &&& forall|j: int| 0 <= j < i ==> step_distance(v, i) < #[trigger] step_distance(v, j)
}

/// The quantized index of a sample: the closest step, the lower one on a tie.
pub open spec fn closest_step(v: int) -> int {
    if v <= 47 {
        0
    } else if v <= 115 {
        1
    } else if v <= 155 {
        2
    } else if v <= 195 {
        3
    } else if v <= 235 {
        4
    } else {
        5
    }
}

/// The cube colour code of three quantized channel indices.
pub open spec fn cube_color(r: int, g: int, b: int) -> int {
    16 + 36 * r + 6 * g + b
}

/// The terminal colour of an RGB triple.
pub open spec fn rgb_color(r: u8, g: u8, b: u8) -> u8 {
    cube_color(closest_step(r as int), closest_step(g as int), closest_step(b as int)) as u8
}

/// Every byte has exactly one quantized index: the step closest to it, the
/// lowest-numbered one when two steps are equally close.
pub proof fn lemma_closest_step(v: u8)
    ensures
        0 <= closest_step(v as int) <= 5,
        is_closest_step(v as int, closest_step(v as int)),
        forall|i: int| is_closest_step(v as int, i) ==> i == closest_step(v as int),
{
    assert forall|i: int| is_closest_step(v as int, i) implies i == closest_step(v as int) by {
        let c = closest_step(v as int);
        assert(step_distance(v as int, i) <= step_distance(v as int, c));
        if i < c {
            assert(step_distance(v as int, c) <= step_distance(v as int, i));
        } else if c < i {
            assert(step_distance(v as int, i) < step_distance(v as int, c));
        }
    }
}

/// The terminal colour of every RGB triple lies in the cube's code range
/// 16..=231, and two triples with the same quantized indices get the same
/// colour.
pub proof fn lemma_rgb_color(r: u8, g: u8, b: u8, r2: u8, g2: u8, b2: u8)
    ensures
        16 <= rgb_color(r, g, b) <= 231,
        rgb_color(r, g, b) as int == cube_color(
            closest_step(r as int),
            closest_step(g as int),
            closest_step(b as int),
        ),
        closest_step(r as int) == closest_step(r2 as int) && closest_step(g as int) == closest_step(
            g2 as int,
        ) && closest_step(b as int) == closest_step(b2 as int) ==> rgb_color(r, g, b)
            == rgb_color(r2, g2, b2),
{
}

/// The channel level of cube step `i`.
pub fn color_step(i: usize) -> (r: u8)
    requires
        i < 6,
    ensures
        r as int == step_level(i as int),
{
    match i {
        0 => 0,
        1 => 95,
        2 => 135,
        3 => 175,
        4 => 215,
        _ => 255,
    }
}

/// Index (0..=5) of the cube step closest to `target`, the lower index on a tie.
pub fn get_closest_color(target: u8) -> (r: u8)
    ensures
        r as int == closest_step(target as int),
        r <= 5,
{
    let mut closest_diff: i16 = 256;
    let mut closest: u8 = 0;
    let mut i: usize = 0;
    while i < 6
        invariant
            i <= 6,
            i == 0 ==> closest == 0 && closest_diff == 256,
            i > 0 ==> closest < i && closest_diff as int == step_distance(target as int, closest as int),
            forall|j: int| 0 <= j < i ==> closest_diff <= #[trigger] step_distance(target as int, j),
            forall|j: int| 0 <= j < closest ==> closest_diff < #[trigger] step_distance(target as int, j),
        decreases 6 - i,
    {
        let level = color_step(i);
        let d: i16 = level as i16 - target as i16;
        let diff: i16 = if d < 0 {
            -d
        } else {
            d
        };
        if diff < closest_diff {
            closest_diff = diff;
            closest = i as u8;
        }
        i += 1;
    }
    proof {
        lemma_closest_step(target);
        assert(is_closest_step(target as int, closest as int));
    }
    closest
}

/// Terminal colour code (16..=231) of an RGB triple: `16 + 36 r + 6 g + b`
/// over the quantized channel indices.
pub fn terminal_color(r: u8, g: u8, b: u8) -> (c: u8)
    ensures
        c == rgb_color(r, g, b),
        16 <= c <= 231,
{
    let ri = get_closest_color(r);
    let gi = get_closest_color(g);
    let bi = get_closest_color(b);
    16 + ri * 36 + gi * 6 + bi
}

} // verus!
