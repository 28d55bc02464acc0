//! Rendering of packed words as an assembler listing of `.quad` lines.
use vstd::prelude::*;

verus! {

/// Section marker and label that open every listing.
pub const PREAMBLE: &'static str = ".section .text\nMESSAGE:\n";

/// Indented directive that starts each data line.
pub const QUAD_PREFIX: &'static str = "    .quad 0x";

/// Lowercase hexadecimal digit of a value in 0..16.
pub open spec fn hex_digit(d: int) -> char {
    if d < 10 {
        (48 + d) as u8 as char
    } else {
        (87 + d) as u8 as char
    }
}

/// The `i`-th 4-bit group of `v`, counting from the most significant.
pub open spec fn nibble(v: u64, i: int) -> int {
    ((v >> ((60 - 4 * i) as u64)) & 15u64) as int
}

/// `v` as 16 zero-padded lowercase hexadecimal digits.
pub open spec fn hex16(v: u64) -> Seq<char> {
    Seq::new(16, |i: int| hex_digit(nibble(v, i)))
}

/// The line for one packed word.
pub open spec fn quad_line(v: u64) -> Seq<char> {
    QUAD_PREFIX@ + hex16(v) + seq!['\n']
}

/// The preamble followed by one line per word, in order.
pub open spec fn listing(vs: Seq<u64>) -> Seq<char>
    decreases vs.len(),
{
    if vs.len() == 0 {
        PREAMBLE@
    } else {
        listing(vs.drop_last()) + quad_line(vs.last())
    }
}

/// Relies on `String::push_str`: appends the characters of `t`.
#[verifier::external_body]
fn append_str(s: &mut String, t: &str)
    ensures
        final(s)@ == old(s)@ + t@,
{
    s.push_str(t);
}

/// Relies on `String::push`: appends one character.
#[verifier::external_body]
fn append_char(s: &mut String, c: char)
    ensures
        final(s)@ == old(s)@.push(c),
{
    s.push(c);
}

/// The lowercase hexadecimal digit for `d`.
pub fn hex_char(d: u64) -> (r: char)
    requires
        d < 16,
    ensures
        r == hex_digit(d as int),
{
    if d < 10 {
        (48 + d as u8) as char
    } else {
        (87 + d as u8) as char
    }
}

/// Renders the preamble and one `.quad` line per word, in order.
pub fn render_listing(values: &Vec<u64>) -> (r: String)
    ensures
        r@ == listing(values@),
{
    let mut out = String::new();
    append_str(&mut out, PREAMBLE);
    assert(out@ =~= listing(values@.take(0)));
    let mut i: usize = 0;
    while i < values.len()
        invariant
            i <= values@.len(),
            out@ == listing(values@.take(i as int)),
        decreases values@.len() - i,
    {
        let v = values[i];
        append_str(&mut out, QUAD_PREFIX);
        let mut j: usize = 0;
        while j < 16
            invariant
                j <= 16,
                out@ =~= listing(values@.take(i as int)) + QUAD_PREFIX@ + hex16(v).take(j as int),
            decreases 16 - j,
        {
            let shift: u64 = 60 - 4 * (j as u64);
            let d = (v >> shift) & 15u64;
            assert(d < 16) by (bit_vector)
                requires
                    d == (v >> shift) & 15u64,
            ;
            append_char(&mut out, hex_char(d));
            assert(hex16(v).take(j + 1) =~= hex16(v).take(j as int).push(hex_digit(d as int)));
            j += 1;
        }
        append_char(&mut out, '\n');
        proof {
            let vs = values@.take(i + 1);
            assert(vs.drop_last() =~= values@.take(i as int));
            assert(hex16(v).take(16) =~= hex16(v));
            assert(out@ =~= listing(vs));
        }
        i += 1;
    }
    assert(values@.take(values@.len() as int) =~= values@);
    out
}

} // verus!
