//! Glyphs for escape counts.

use vstd::prelude::*;

verus! {

/// The glyph that stands for an escape count: the higher the count, the
/// denser the glyph, and a blank for counts at either end.
pub open spec fn spec_render_value(val: usize) -> char {
    if val <= 2 {
        ' '
    } else if val <= 5 {
        '.'
    } else if val <= 10 {
        '\u{2022}'
    } else if val <= 30 {
        '*'
    } else if val <= 100 {
        '+'
    } else if val <= 200 {
        'x'
    } else if val <= 400 {
        '$'
    } else if val <= 700 {
        '#'
    } else {
        ' '
    }
}

/// Picks the glyph for an escape count.
pub fn render_value(val: &usize) -> (glyph: char)
    ensures
        glyph == spec_render_value(*val),
{
    let v: usize = *val;
    if v <= 2 {
        ' '
    } else if v <= 5 {
        '.'
    } else if v <= 10 {
        '\u{2022}'
    } else if v <= 30 {
        '*'
    } else if v <= 100 {
        '+'
    } else if v <= 200 {
        'x'
    } else if v <= 400 {
        '$'
    } else if v <= 700 {
        '#'
    } else {
        ' '
    }
}

} // verus!
