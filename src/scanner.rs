//! Row-wise run-length encoding of a pixel buffer into paint entries.
use vstd::prelude::*;
use crate::quantize::{rgb_color, terminal_color};

verus! {

/// One paint instruction: `repeat` cells of `character` drawn with the given
/// background and foreground colours.
#[derive(Clone, Copy, Debug, PartialEq, Eq, Structural)]
pub struct AsmEntry {
    pub color_bg: u8,
    pub color_fg: u8,
    pub repeat: u8,
    pub character: u8,
}

/// Character drawn by a run entry.
pub const RUN_CHAR: u8 = 0x20;

/// Character of the entry that ends a row.
pub const ROW_END_CHAR: u8 = 0x0a;

/// Longest run a single entry can hold.
pub const MAX_RUN: u8 = 255;

/// The entry for `count` cells of colour `color`.
pub open spec fn run_entry(color: u8, count: u8) -> AsmEntry {
    AsmEntry {
        color_bg: color,
        color_fg: if color == 0 { 1 } else { 0 },
        repeat: count,
        character: RUN_CHAR,
    }
}

/// The entry that ends every row.
pub open spec fn row_end_entry() -> AsmEntry {
    AsmEntry { color_bg: 0, color_fg: 0, repeat: 1, character: ROW_END_CHAR }
}

/// A run of `len` cells of one colour, cut into entries of 255 cells and a
/// last entry with the remainder.
pub open spec fn split_run(color: u8, len: nat) -> Seq<AsmEntry>
    decreases len,
{
    if len <= 255 {
        seq![run_entry(color, len as u8)]
    } else {
        seq![run_entry(color, 255)] + split_run(color, (len - 255) as nat)
    }
}

/// `q` entries of 255 cells of colour `color`.
pub open spec fn full_runs(color: u8, q: nat) -> Seq<AsmEntry> {
    Seq::new(q, |i: int| run_entry(color, 255))
}

/// Length of the longest suffix of `s` whose elements all equal its last one.
pub open spec fn trailing_run(s: Seq<u8>) -> nat
    decreases s.len(),
{
    if s.len() <= 1 {
        s.len()
    } else if s[s.len() - 2] == s.last() {
        1 + trailing_run(s.drop_last())
    } else {
        1
    }
}

/// The run-length entries of a row of colours: each maximal run of equal
/// colours, in order, split by `split_run`.
pub open spec fn encode_runs(s: Seq<u8>) -> Seq<AsmEntry>
    decreases s.len(),
    via encode_runs_decreases
{
    if s.len() == 0 {
        seq![]
    } else {
        let t = trailing_run(s);
        encode_runs(s.take(s.len() - t)) + split_run(s.last(), t)
    }
}

#[via_fn]
proof fn encode_runs_decreases(s: Seq<u8>) {
    if s.len() > 0 {
        lemma_trailing_run_bounds(s);
    }
}

/// A non-empty row ends in a run of at least one and at most all its colours.
pub proof fn lemma_trailing_run_bounds(s: Seq<u8>)
    ensures
        s.len() > 0 ==> 1 <= trailing_run(s) <= s.len(),
        s.len() == 0 ==> trailing_run(s) == 0,
    decreases s.len(),
{
    if s.len() > 1 {
        lemma_trailing_run_bounds(s.drop_last());
    }
}

proof fn lemma_trailing_run_push(s: Seq<u8>, x: u8)
    ensures
        trailing_run(s.push(x)) == if s.len() > 0 && x == s.last() {
            trailing_run(s) + 1
        } else {
            1
        },
{
    let s2 = s.push(x);
    assert(s2.drop_last() =~= s);
}

proof fn lemma_split_run_full(color: u8, q: nat, r: nat)
    requires
        1 <= r <= 255,
    ensures
        split_run(color, 255 * q + r) =~= full_runs(color, q) + seq![run_entry(color, r as u8)],
    decreases q,
{
    if q > 0 {
        lemma_split_run_full(color, (q - 1) as nat, r);
        assert((255 * q + r - 255) as nat == 255 * (q - 1) as nat + r);
    }
}

/// Colour of the pixel whose bytes start at `i`.
pub open spec fn pixel_color(data: Seq<u8>, i: int) -> u8 {
    rgb_color(data[i], data[i + 1], data[i + 2])
}

/// Colours of row `y` of an image `width` pixels wide.
pub open spec fn row_colors(data: Seq<u8>, width: nat, y: nat) -> Seq<u8> {
    Seq::new(width, |x: int| pixel_color(data, (y * width + x) * 4))
}

/// Entries of the first `rows` rows: each row's runs, then a row end.
pub open spec fn encode_image(data: Seq<u8>, width: nat, rows: nat) -> Seq<AsmEntry>
    decreases rows,
{
    if rows == 0 {
        seq![]
    } else {
        encode_image(data, width, (rows - 1) as nat) + encode_runs(
            row_colors(data, width, (rows - 1) as nat),
        ) + seq![row_end_entry()]
    }
}

/// Scan state carried across the pixels of a row: the colour and length of
/// the run in progress, and the entries emitted so far.
pub struct RowScanner {
    last_color: u8,
    run_count: u8,
    entries: Vec<AsmEntry>,
    /// Entries of the rows already ended.
    done: Ghost<Seq<AsmEntry>>,
    /// Colours seen so far in the current row.
    row: Ghost<Seq<u8>>,
    /// Length of the row prefix before the run in progress.
    flushed: Ghost<nat>,
    /// Number of 255-cell entries already emitted for the run in progress.
    chunks: Ghost<nat>,
}

impl RowScanner {
    /// Entries of the rows already ended.
    pub closed spec fn completed(&self) -> Seq<AsmEntry> {
        self.done@
    }

    /// Colours pushed since the last row end.
    pub closed spec fn current_row(&self) -> Seq<u8> {
        self.row@
    }

    /// The flushed entries together with the run in progress account exactly
    /// for the ended rows and the current row's colours.
    pub closed spec fn wf(&self) -> bool {
        let s = self.row@;
        let t = trailing_run(s);
        if s.len() == 0 {
            &&& self.run_count == 0
            &&& self.last_color == 0
            &&& self.entries@ == self.done@
            &&& self.flushed@ == 0
            &&& self.chunks@ == 0
        } else {
            &&& 1 <= self.run_count <= 255
            &&& self.last_color == s.last()
            &&& self.flushed@ + t == s.len()
            &&& t == 255 * self.chunks@ + self.run_count
            &&& self.entries@ == self.done@ + encode_runs(s.take(self.flushed@ as int))
                + full_runs(self.last_color, self.chunks@)
        }
    }

    pub fn new() -> (r: RowScanner)
        ensures
            r.wf(),
            r.completed() == Seq::<AsmEntry>::empty(),
            r.current_row() == Seq::<u8>::empty(),
    {
        RowScanner {
            last_color: 0,
            run_count: 0,
            entries: Vec::new(),
            done: Ghost(Seq::empty()),
            row: Ghost(Seq::empty()),
            flushed: Ghost(0),
            chunks: Ghost(0),
        }
    }

    /// Appends the entry for the run in progress, `run_count` cells long.
    fn flush_run(&mut self)
        ensures
            final(self).entries@ == old(self).entries@.push(
                run_entry(old(self).last_color, old(self).run_count),
            ),
            final(self).last_color == old(self).last_color,
            final(self).run_count == old(self).run_count,
            final(self).done == old(self).done,
            final(self).row == old(self).row,
            final(self).flushed == old(self).flushed,
            final(self).chunks == old(self).chunks,
    {
        let color = self.last_color;
        self.entries.push(
            AsmEntry {
                color_bg: color,
                color_fg: if color == 0 { 1 } else { 0 },
                repeat: self.run_count,
                character: RUN_CHAR,
            },
        );
    }

    /// Feeds the next pixel colour of the current row.
    pub fn push_pixel(&mut self, color: u8)
        requires
            old(self).wf(),
        ensures
            final(self).wf(),
            final(self).completed() == old(self).completed(),
            final(self).current_row() == old(self).current_row().push(color),
    {
        let ghost s = self.row@;
        let ghost s2 = s.push(color);
        proof {
            lemma_trailing_run_push(s, color);
            lemma_trailing_run_bounds(s);
        }
        if color == self.last_color {
            if self.run_count == MAX_RUN {
                self.flush_run();
                self.run_count = 0;
                proof {
                    self.chunks@ = self.chunks@ + 1;
                    assert(full_runs(color, old(self).chunks@).push(run_entry(color, 255))
                        =~= full_runs(color, self.chunks@));
                }
            }
            self.run_count = self.run_count + 1;
            proof {
                if s.len() > 0 {
                    assert(s2.take(self.flushed@ as int) =~= s.take(self.flushed@ as int));
                } else {
                    assert(s2.take(0) =~= Seq::<u8>::empty());
                    assert(encode_runs(Seq::<u8>::empty()) =~= Seq::<AsmEntry>::empty());
                    assert(full_runs(color, 0) =~= Seq::<AsmEntry>::empty());
                    assert(self.entries@ =~= self.done@ + encode_runs(s2.take(0)) + full_runs(
                        color,
                        0,
                    ));
                }
            }
        } else {
            if self.run_count != 0 {
                self.flush_run();
                proof {
                    let t = trailing_run(s);
                    lemma_split_run_full(old(self).last_color, self.chunks@, self.run_count as nat);
                    assert(s.take(s.len() - t) =~= s.take(self.flushed@ as int));
                    assert(self.entries@ =~= self.done@ + encode_runs(s));
                }
            }
            self.last_color = color;
            self.run_count = 1;
            proof {
                self.flushed@ = s.len();
                self.chunks@ = 0;
                assert(s2.take(s.len() as int) =~= s);
                assert(full_runs(color, 0) =~= Seq::<AsmEntry>::empty());
                if s.len() == 0 {
                    assert(encode_runs(s) =~= Seq::<AsmEntry>::empty());
                }
                assert(self.entries@ =~= self.done@ + encode_runs(s2.take(self.flushed@ as int))
                    + full_runs(self.last_color, self.chunks@));
            }
        }
        proof {
            self.row@ = s2;
        }
    }

    /// Closes the current row: flushes the run in progress and appends the
    /// row-end entry.
    pub fn end_row(&mut self)
        requires
            old(self).wf(),
        ensures
            final(self).wf(),
            final(self).completed() == old(self).completed() + encode_runs(
                old(self).current_row(),
            ) + seq![row_end_entry()],
            final(self).current_row() == Seq::<u8>::empty(),
    {
        let ghost s = self.row@;
        if self.run_count != 0 {
            self.flush_run();
            proof {
                let t = trailing_run(s);
                lemma_split_run_full(self.last_color, self.chunks@, self.run_count as nat);
                assert(s.take(s.len() - t) =~= s.take(self.flushed@ as int));
                assert(self.entries@ =~= self.done@ + encode_runs(s));
            }
        } else {
            assert(encode_runs(s) =~= Seq::<AsmEntry>::empty());
        }
        self.entries.push(AsmEntry { color_bg: 0, color_fg: 0, repeat: 1, character: ROW_END_CHAR });
        self.last_color = 0;
        self.run_count = 0;
        proof {
            self.done@ = self.done@ + encode_runs(s) + seq![row_end_entry()];
            self.row@ = Seq::empty();
            self.flushed@ = 0;
            self.chunks@ = 0;
            assert(self.entries@ =~= self.done@);
        }
    }

    /// The entries of all ended rows.
    pub fn into_entries(self) -> (r: Vec<AsmEntry>)
        requires
            self.wf(),
            self.current_row().len() == 0,
        ensures
            r@ == self.completed(),
    {
        self.entries
    }
}

/// Sum of the repeat counts of a sequence of entries.
pub open spec fn repeat_total(es: Seq<AsmEntry>) -> nat
    decreases es.len(),
{
    if es.len() == 0 {
        0
    } else {
        repeat_total(es.drop_last()) + es.last().repeat as nat
    }
}

/// Number of row-end entries in a sequence of entries.
pub open spec fn row_end_count(es: Seq<AsmEntry>) -> nat
    decreases es.len(),
{
    if es.len() == 0 {
        0
    } else {
        row_end_count(es.drop_last()) + if es.last().character == ROW_END_CHAR {
            1nat
        } else {
            0nat
        }
    }
}

/// Every entry is a run entry holding 1 to 255 cells.
pub open spec fn all_runs(es: Seq<AsmEntry>) -> bool {
    forall|k: int|
        0 <= k < es.len() ==> {
            &&& 1 <= (#[trigger] es[k]).repeat <= 255
            &&& es[k].character == RUN_CHAR
        }
}

/// Repeat totals and row-end counts add up over concatenation.
pub proof fn lemma_totals_append(a: Seq<AsmEntry>, b: Seq<AsmEntry>)
    ensures
        repeat_total(a + b) == repeat_total(a) + repeat_total(b),
        row_end_count(a + b) == row_end_count(a) + row_end_count(b),
    decreases b.len(),
{
    if b.len() > 0 {
        lemma_totals_append(a, b.drop_last());
        assert((a + b).drop_last() =~= a + b.drop_last());
    } else {
        assert(a + b =~= a);
    }
}

proof fn lemma_runs_no_row_end(es: Seq<AsmEntry>)
    requires
        all_runs(es),
    ensures
        row_end_count(es) == 0,
    decreases es.len(),
{
    if es.len() > 0 {
        lemma_runs_no_row_end(es.drop_last());
    }
}

/// A run of `len` cells becomes ceil(len / 255) entries, each of 1 to 255
/// cells, whose counts add up to `len`.
pub proof fn lemma_split_run(color: u8, len: nat)
    requires
        len >= 1,
    ensures
        all_runs(split_run(color, len)),
        split_run(color, len).len() == (len + 254) / 255,
        repeat_total(split_run(color, len)) == len,
    decreases len,
{
    let es = split_run(color, len);
    if len <= 255 {
        assert(es.drop_last() =~= Seq::<AsmEntry>::empty());
        assert(repeat_total(es.drop_last()) == 0);
    } else {
        let rest = split_run(color, (len - 255) as nat);
        lemma_split_run(color, (len - 255) as nat);
        lemma_totals_append(seq![run_entry(color, 255)], rest);
        assert(seq![run_entry(color, 255)].drop_last() =~= Seq::<AsmEntry>::empty());
        assert(repeat_total(seq![run_entry(color, 255)].drop_last()) == 0);
        assert forall|k: int| 0 <= k < es.len() implies {
            &&& 1 <= (#[trigger] es[k]).repeat <= 255
            &&& es[k].character == RUN_CHAR
        } by {
            if k > 0 {
                assert(es[k] == rest[k - 1]);
            }
        }
    }
}

/// The entries of a row of colours are run entries of 1 to 255 cells whose
/// counts add up to the row's width.
pub proof fn lemma_encode_runs(s: Seq<u8>)
    ensures
        all_runs(encode_runs(s)),
        repeat_total(encode_runs(s)) == s.len(),
        row_end_count(encode_runs(s)) == 0,
    decreases s.len(),
{
    if s.len() > 0 {
        let t = trailing_run(s);
        lemma_trailing_run_bounds(s);
        let pre = encode_runs(s.take(s.len() - t));
        let tail = split_run(s.last(), t);
        lemma_encode_runs(s.take(s.len() - t));
        lemma_split_run(s.last(), t);
        lemma_totals_append(pre, tail);
        assert forall|k: int| 0 <= k < encode_runs(s).len() implies {
            &&& 1 <= (#[trigger] encode_runs(s)[k]).repeat <= 255
            &&& encode_runs(s)[k].character == RUN_CHAR
        } by {
            if k >= pre.len() {
                assert(encode_runs(s)[k] == tail[k - pre.len()]);
            } else {
                assert(encode_runs(s)[k] == pre[k]);
            }
        }
    }
    lemma_runs_no_row_end(encode_runs(s));
}

/// Each row of a `width`-pixel image yields run entries whose counts add up
/// to `width`, and the image holds exactly one row-end entry per row.
pub proof fn lemma_image_rows(data: Seq<u8>, width: nat, height: nat)
    ensures
        forall|y: nat|
            y < height ==> repeat_total(#[trigger] encode_runs(row_colors(data, width, y)))
                == width && all_runs(encode_runs(row_colors(data, width, y))),
        row_end_count(encode_image(data, width, height)) == height,
    decreases height,
{
    if height > 0 {
        let h1 = (height - 1) as nat;
        lemma_image_rows(data, width, h1);
        let row = encode_runs(row_colors(data, width, h1));
        lemma_encode_runs(row_colors(data, width, h1));
        lemma_totals_append(encode_image(data, width, h1), row);
        lemma_totals_append(encode_image(data, width, h1) + row, seq![row_end_entry()]);
        assert(seq![row_end_entry()].drop_last() =~= Seq::<AsmEntry>::empty());
        assert(row_end_count(seq![row_end_entry()].drop_last()) == 0);
        assert forall|y: nat| y < height implies repeat_total(
            #[trigger] encode_runs(row_colors(data, width, y)),
        ) == width && all_runs(encode_runs(row_colors(data, width, y))) by {
            lemma_encode_runs(row_colors(data, width, y));
        }
    }
}

/// Scans `height` rows of `width` RGBA pixels, left to right and top to
/// bottom, into run-length entries, each row ended by a row-end entry.
pub fn scan_rows(data: &[u8], width: usize, height: usize) -> (r: Vec<AsmEntry>)
    requires
        data@.len() == width * height * 4,
    ensures
        r@ == encode_image(data@, width as nat, height as nat),
{
    let mut scanner = RowScanner::new();
    let mut y: usize = 0;
    let mut i: usize = 0;
    while y < height
        invariant
            y <= height,
            data@.len() == width * height * 4,
            i == y * width * 4,
            scanner.wf(),
            scanner.current_row().len() == 0,
            scanner.completed() == encode_image(data@, width as nat, y as nat),
        decreases height - y,
    {
        let mut x: usize = 0;
        while x < width
            invariant
                y < height,
                x <= width,
                data@.len() == width * height * 4,
                i == (y * width + x) * 4,
                scanner.wf(),
                scanner.completed() == encode_image(data@, width as nat, y as nat),
                scanner.current_row() =~= row_colors(data@, width as nat, y as nat).take(x as int),
            decreases width - x,
        {
            proof {
                assert((y * width + x) * 4 + 4 <= width * height * 4) by (nonlinear_arith)
                    requires
                        y < height,
                        x < width,
                ;
            }
            let color = terminal_color(data[i], data[i + 1], data[i + 2]);
            scanner.push_pixel(color);
            i = i + 4;
            proof {
                assert(row_colors(data@, width as nat, y as nat).take(x + 1) =~= row_colors(
                    data@,
                    width as nat,
                    y as nat,
                ).take(x as int).push(color));
                assert(i == (y * width + (x + 1)) * 4) by (nonlinear_arith)
                    requires
                        i == (y * width + x) * 4 + 4,
                ;
            }
            x += 1;
        }
        proof {
            assert(row_colors(data@, width as nat, y as nat).take(width as int) =~= row_colors(
                data@,
                width as nat,
                y as nat,
            ));
        }
        scanner.end_row();
        proof {
            assert(i == (y + 1) * width * 4) by (nonlinear_arith)
                requires
                    i == (y * width + width) * 4,
            ;
        }
        y += 1;
    }
    scanner.into_entries()
}

} // verus!
