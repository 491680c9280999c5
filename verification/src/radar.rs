//! Radar pictures: character grids with crosshairs, plotted marks and text output.

use vstd::prelude::*;
use crate::occupancy::{CellState, OccupancyGrid, block_summary};

verus! {

/// Glyph of an empty display position (` `).
pub const BLANK: u8 = 32;

/// Glyph of crosshairs, range rings and free map cells (`.`).
pub const DOT: u8 = 46;

/// Glyph of the display centre (`+`).
pub const CENTRE: u8 = 43;

/// Glyph of an occupied map cell (`#`).
pub const HASH: u8 = 35;

/// Glyph of a track whose identifier has more than one digit (`*`).
pub const STAR: u8 = 42;

/// Glyph of the digit zero (`0`).
pub const DIGIT_ZERO: u8 = 48;

/// Separator between the rows of a picture's text.
pub const NEWLINE: u8 = 10;

/// Intensity ramp from faint to strong: ` .:-=+*#%@`.
pub open spec fn ramp() -> Seq<u8> {
    seq![32u8, 46u8, 58u8, 45u8, 61u8, 43u8, 42u8, 35u8, 37u8, 64u8]
}

/// Glyph for a blip of intensity `level` on the ramp; levels past the top are clamped.
pub open spec fn ramp_glyph_of(level: int) -> u8 {
    if level < 9 {
        ramp()[level]
    } else {
        ramp()[9]
    }
}

/// Glyph for a track: its digit for ids below 10, `*` otherwise.
pub open spec fn track_glyph_of(id: int) -> u8 {
    if id < 10 {
        (DIGIT_ZERO + id) as u8
    } else {
        STAR
    }
}

/// Glyph for a map cell: ` ` unknown, `.` free, `#` occupied.
pub open spec fn state_glyph_of(s: CellState) -> u8 {
    match s {
        CellState::Unknown => BLANK,
        CellState::Free => DOT,
        CellState::Occupied => HASH,
    }
}

/// A `width` by `height` picture with `.` along the middle row and middle column.
pub open spec fn crosshairs(width: nat, height: nat) -> Seq<Seq<u8>> {
    Seq::new(
        height,
        |y: int|
            Seq::new(
                width,
                |x: int|
                    if y == height as int / 2 || x == width as int / 2 {
                        DOT
                    } else {
                        BLANK
                    },
            ),
    )
}

/// `pic` with `glyph` at column `x` of row `y`, if that position is inside it.
pub open spec fn put(pic: Seq<Seq<u8>>, x: int, y: int, glyph: u8) -> Seq<Seq<u8>> {
    if 0 <= y < pic.len() && 0 <= x < pic[y].len() {
        pic.update(y, pic[y].update(x, glyph))
    } else {
        pic
    }
}

/// `pic` with `.` put at each of `points`, in order.
pub open spec fn put_dots(pic: Seq<Seq<u8>>, points: Seq<(isize, isize)>) -> Seq<Seq<u8>>
    decreases points.len(),
{
    if points.len() == 0 {
        pic
    } else {
        put(put_dots(pic, points.drop_last()), points.last().0 as int, points.last().1 as int, DOT)
    }
}

/// `pic` with each mark's ramp glyph put at its position, in order.
pub open spec fn put_blips(pic: Seq<Seq<u8>>, marks: Seq<(isize, isize, usize)>) -> Seq<Seq<u8>>
    decreases marks.len(),
{
    if marks.len() == 0 {
        pic
    } else {
        let m = marks.last();
        put(put_blips(pic, marks.drop_last()), m.0 as int, m.1 as int, ramp_glyph_of(m.2 as int))
    }
}

/// `pic` with each mark's track glyph put at its position, in order.
pub open spec fn put_tracks(pic: Seq<Seq<u8>>, marks: Seq<(isize, isize, usize)>) -> Seq<Seq<u8>>
    decreases marks.len(),
{
    if marks.len() == 0 {
        pic
    } else {
        let m = marks.last();
        put(put_tracks(pic, marks.drop_last()), m.0 as int, m.1 as int, track_glyph_of(m.2 as int))
    }
}

/// Rows of text joined by newlines.
pub open spec fn joined(rows: Seq<Seq<u8>>) -> Seq<u8>
    decreases rows.len(),
{
    if rows.len() == 0 {
        Seq::empty()
    } else if rows.len() == 1 {
        rows[0]
    } else {
        joined(rows.drop_last()) + seq![NEWLINE] + rows.last()
    }
}

/// The sweep picture: crosshairs, range-ring dots, `+` at the centre, then blips.
pub open spec fn sweep_spec(
    width: nat,
    height: nat,
    rings: Seq<(isize, isize)>,
    blips: Seq<(isize, isize, usize)>,
) -> Seq<Seq<u8>> {
    put_blips(
        put(put_dots(crosshairs(width, height), rings), width as int / 2, height as int / 2, CENTRE),
        blips,
    )
}

/// The tracks picture: crosshairs, `+` at the centre, then track glyphs.
pub open spec fn tracks_spec(width: nat, height: nat, marks: Seq<(isize, isize, usize)>) -> Seq<
    Seq<u8>,
> {
    put_tracks(put(crosshairs(width, height), width as int / 2, height as int / 2, CENTRE), marks)
}

/// The map picture: one glyph per display cell, summarising the block of grid cells
/// given by the row and column ranges.
pub open spec fn map_spec(
    g: Seq<Seq<CellState>>,
    row_ranges: Seq<(usize, usize)>,
    col_ranges: Seq<(usize, usize)>,
) -> Seq<Seq<u8>> {
    Seq::new(
        row_ranges.len(),
        |dr: int|
            Seq::new(
                col_ranges.len(),
                |dc: int|
                    state_glyph_of(
                        block_summary(
                            g,
                            row_ranges[dr].0 as int,
                            row_ranges[dr].1 as int,
                            col_ranges[dc].0 as int,
                            col_ranges[dc].1 as int,
                        ),
                    ),
            ),
    )
}

/// Putting a glyph keeps the shape of a picture.
proof fn lemma_put_shape(pic: Seq<Seq<u8>>, x: int, y: int, glyph: u8, width: nat)
    requires
        forall|r: int| 0 <= r < pic.len() ==> #[trigger] pic[r].len() == width,
    ensures
        put(pic, x, y, glyph).len() == pic.len(),
        forall|r: int| 0 <= r < pic.len() ==> #[trigger] put(pic, x, y, glyph)[r].len() == width,
{
}

proof fn lemma_put_dots_shape(pic: Seq<Seq<u8>>, points: Seq<(isize, isize)>, width: nat)
    requires
        forall|r: int| 0 <= r < pic.len() ==> #[trigger] pic[r].len() == width,
    ensures
        put_dots(pic, points).len() == pic.len(),
        forall|r: int| 0 <= r < pic.len() ==> #[trigger] put_dots(pic, points)[r].len() == width,
    decreases points.len(),
{
    if points.len() > 0 {
        lemma_put_dots_shape(pic, points.drop_last(), width);
        lemma_put_shape(put_dots(pic, points.drop_last()), points.last().0 as int, points.last().1 as int, DOT, width);
    }
}

proof fn lemma_put_blips_shape(pic: Seq<Seq<u8>>, marks: Seq<(isize, isize, usize)>, width: nat)
    requires
        forall|r: int| 0 <= r < pic.len() ==> #[trigger] pic[r].len() == width,
    ensures
        put_blips(pic, marks).len() == pic.len(),
        forall|r: int| 0 <= r < pic.len() ==> #[trigger] put_blips(pic, marks)[r].len() == width,
    decreases marks.len(),
{
    if marks.len() > 0 {
        let m = marks.last();
        lemma_put_blips_shape(pic, marks.drop_last(), width);
        lemma_put_shape(put_blips(pic, marks.drop_last()), m.0 as int, m.1 as int, ramp_glyph_of(m.2 as int), width);
    }
}

proof fn lemma_put_tracks_shape(pic: Seq<Seq<u8>>, marks: Seq<(isize, isize, usize)>, width: nat)
    requires
        forall|r: int| 0 <= r < pic.len() ==> #[trigger] pic[r].len() == width,
    ensures
        put_tracks(pic, marks).len() == pic.len(),
        forall|r: int| 0 <= r < pic.len() ==> #[trigger] put_tracks(pic, marks)[r].len() == width,
    decreases marks.len(),
{
    if marks.len() > 0 {
        let m = marks.last();
        lemma_put_tracks_shape(pic, marks.drop_last(), width);
        lemma_put_shape(put_tracks(pic, marks.drop_last()), m.0 as int, m.1 as int, track_glyph_of(m.2 as int), width);
    }
}

/// A sweep picture has `height` rows of `width` glyphs, whatever is plotted on it.
pub proof fn sweep_picture_shape(
    width: nat,
    height: nat,
    rings: Seq<(isize, isize)>,
    blips: Seq<(isize, isize, usize)>,
)
    ensures
        sweep_spec(width, height, rings, blips).len() == height,
        forall|r: int|
            0 <= r < height ==> #[trigger] sweep_spec(width, height, rings, blips)[r].len() == width,
{
    let base = crosshairs(width, height);
    lemma_put_dots_shape(base, rings, width);
    let dotted = put_dots(base, rings);
    lemma_put_shape(dotted, width as int / 2, height as int / 2, CENTRE, width);
    lemma_put_blips_shape(put(dotted, width as int / 2, height as int / 2, CENTRE), blips, width);
}

/// A tracks picture has `height` rows of `width` glyphs, whatever is plotted on it.
pub proof fn tracks_picture_shape(width: nat, height: nat, marks: Seq<(isize, isize, usize)>)
    ensures
        tracks_spec(width, height, marks).len() == height,
        forall|r: int| 0 <= r < height ==> #[trigger] tracks_spec(width, height, marks)[r].len() == width,
{
    let base = crosshairs(width, height);
    lemma_put_shape(base, width as int / 2, height as int / 2, CENTRE, width);
    lemma_put_tracks_shape(put(base, width as int / 2, height as int / 2, CENTRE), marks, width);
}

/// Whether every glyph of `pic` is on the intensity ramp ` .:-=+*#%@`.
pub open spec fn on_ramp(pic: Seq<Seq<u8>>) -> bool {
    forall|y: int, x: int|
        0 <= y < pic.len() && 0 <= x < pic[y].len() ==> ramp().contains(#[trigger] pic[y][x])
}

proof fn lemma_put_on_ramp(pic: Seq<Seq<u8>>, x: int, y: int, glyph: u8)
    requires
        on_ramp(pic),
        ramp().contains(glyph),
    ensures
        on_ramp(put(pic, x, y, glyph)),
{
    let q = put(pic, x, y, glyph);
    assert forall|r: int, c: int| 0 <= r < q.len() && 0 <= c < q[r].len() implies ramp().contains(
        #[trigger] q[r][c],
    ) by {
        if !(r == y && c == x) {
            assert(q[r][c] == pic[r][c]);
        }
    }
}

proof fn lemma_put_dots_on_ramp(pic: Seq<Seq<u8>>, points: Seq<(isize, isize)>)
    requires
        on_ramp(pic),
    ensures
        on_ramp(put_dots(pic, points)),
    decreases points.len(),
{
    if points.len() > 0 {
        lemma_put_dots_on_ramp(pic, points.drop_last());
        assert(ramp()[1] == DOT);
        lemma_put_on_ramp(put_dots(pic, points.drop_last()), points.last().0 as int, points.last().1 as int, DOT);
    }
}

proof fn lemma_put_blips_on_ramp(pic: Seq<Seq<u8>>, marks: Seq<(isize, isize, usize)>)
    requires
        on_ramp(pic),
    ensures
        on_ramp(put_blips(pic, marks)),
    decreases marks.len(),
{
    if marks.len() > 0 {
        let m = marks.last();
        lemma_put_blips_on_ramp(pic, marks.drop_last());
        let level = m.2 as int;
        if level < 9 {
            assert(ramp()[level] == ramp_glyph_of(level));
        } else {
            assert(ramp()[9] == ramp_glyph_of(level));
        }
        lemma_put_on_ramp(put_blips(pic, marks.drop_last()), m.0 as int, m.1 as int, ramp_glyph_of(level));
    }
}

/// Blips leave every position that none of them lands on as it was.
proof fn lemma_put_blips_elsewhere(pic: Seq<Seq<u8>>, marks: Seq<(isize, isize, usize)>, x: int, y: int)
    requires
        0 <= y < pic.len(),
        0 <= x < pic[y].len(),
        forall|k: int| 0 <= k < marks.len() ==> !(#[trigger] marks[k].0 == x && marks[k].1 == y),
    ensures
        put_blips(pic, marks).len() == pic.len(),
        put_blips(pic, marks)[y].len() == pic[y].len(),
        put_blips(pic, marks)[y][x] == pic[y][x],
    decreases marks.len(),
{
    if marks.len() > 0 {
        let front = marks.drop_last();
        assert forall|k: int| 0 <= k < front.len() implies !(#[trigger] front[k].0 == x && front[k].1 == y) by {
            assert(front[k] == marks[k]);
        }
        lemma_put_blips_elsewhere(pic, front, x, y);
        assert(marks.last() == marks[marks.len() - 1]);
    }
}

/// Track marks leave every position that none of them lands on as it was.
proof fn lemma_put_tracks_elsewhere(pic: Seq<Seq<u8>>, marks: Seq<(isize, isize, usize)>, x: int, y: int)
    requires
        0 <= y < pic.len(),
        0 <= x < pic[y].len(),
        forall|k: int| 0 <= k < marks.len() ==> !(#[trigger] marks[k].0 == x && marks[k].1 == y),
    ensures
        put_tracks(pic, marks).len() == pic.len(),
        put_tracks(pic, marks)[y].len() == pic[y].len(),
        put_tracks(pic, marks)[y][x] == pic[y][x],
    decreases marks.len(),
{
    if marks.len() > 0 {
        let front = marks.drop_last();
        assert forall|k: int| 0 <= k < front.len() implies !(#[trigger] front[k].0 == x && front[k].1 == y) by {
            assert(front[k] == marks[k]);
        }
        lemma_put_tracks_elsewhere(pic, front, x, y);
        assert(marks.last() == marks[marks.len() - 1]);
    }
}

/// Every glyph of a sweep picture is on the intensity ramp ` .:-=+*#%@`, and the centre
/// shows `+` unless a blip lands on it.
pub proof fn sweep_picture_glyphs(
    width: nat,
    height: nat,
    rings: Seq<(isize, isize)>,
    blips: Seq<(isize, isize, usize)>,
)
    ensures
        on_ramp(sweep_spec(width, height, rings, blips)),
        width >= 1 && height >= 1 && (forall|k: int|
            0 <= k < blips.len() ==> !(#[trigger] blips[k].0 == width as int / 2 && blips[k].1
                == height as int / 2)) ==> sweep_spec(width, height, rings, blips)[height as int / 2][width
            as int / 2] == CENTRE,
{
    let base = crosshairs(width, height);
    assert(ramp()[0] == BLANK && ramp()[1] == DOT && ramp()[5] == CENTRE);
    assert(on_ramp(base));
    lemma_put_dots_on_ramp(base, rings);
    let dotted = put_dots(base, rings);
    lemma_put_on_ramp(dotted, width as int / 2, height as int / 2, CENTRE);
    let centred = put(dotted, width as int / 2, height as int / 2, CENTRE);
    lemma_put_blips_on_ramp(centred, blips);
    if width >= 1 && height >= 1 && (forall|k: int|
        0 <= k < blips.len() ==> !(#[trigger] blips[k].0 == width as int / 2 && blips[k].1 == height
            as int / 2)) {
        lemma_put_dots_shape(base, rings, width);
        lemma_put_shape(dotted, width as int / 2, height as int / 2, CENTRE, width);
        lemma_put_blips_elsewhere(centred, blips, width as int / 2, height as int / 2);
    }
}

/// The centre of a tracks picture shows `+` unless a track mark lands on it.
pub proof fn tracks_picture_centre(width: nat, height: nat, marks: Seq<(isize, isize, usize)>)
    requires
        width >= 1,
        height >= 1,
        forall|k: int|
            0 <= k < marks.len() ==> !(#[trigger] marks[k].0 == width as int / 2 && marks[k].1 == height
                as int / 2),
    ensures
        tracks_spec(width, height, marks)[height as int / 2][width as int / 2] == CENTRE,
{
    let base = crosshairs(width, height);
    let centred = put(base, width as int / 2, height as int / 2, CENTRE);
    lemma_put_tracks_elsewhere(centred, marks, width as int / 2, height as int / 2);
}

/// Every byte of the text of rows whose glyphs are on the ramp is a newline or on the
/// ramp.
pub proof fn joined_on_ramp(rows: Seq<Seq<u8>>)
    requires
        on_ramp(rows),
    ensures
        forall|i: int| 0 <= i < joined(rows).len() ==> #[trigger] joined(rows)[i] == NEWLINE || ramp().contains(joined(rows)[i]),
    decreases rows.len(),
{
    if rows.len() == 1 {
        assert forall|i: int| 0 <= i < joined(rows).len() implies #[trigger] joined(rows)[i] == NEWLINE || ramp().contains(joined(rows)[i]) by {
            assert(joined(rows)[i] == rows[0][i]);
        }
    } else if rows.len() > 1 {
        let front = rows.drop_last();
        assert forall|y: int, x: int| 0 <= y < front.len() && 0 <= x < front[y].len() implies ramp().contains(#[trigger] front[y][x]) by {
            assert(front[y] == rows[y]);
        }
        joined_on_ramp(front);
        let a = joined(front);
        let last = rows.last();
        assert forall|i: int| 0 <= i < joined(rows).len() implies #[trigger] joined(rows)[i] == NEWLINE || ramp().contains(joined(rows)[i]) by {
            if i < a.len() {
                assert(joined(rows)[i] == a[i]);
            } else if i == a.len() {
                assert(joined(rows)[i] == NEWLINE);
            } else {
                assert(joined(rows)[i] == last[i - a.len() - 1]);
                assert(last == rows[rows.len() - 1]);
            }
        }
    }
}

/// The sweep text holds only newlines and glyphs of the intensity ramp ` .:-=+*#%@`.
pub proof fn sweep_text_glyphs(
    width: nat,
    height: nat,
    rings: Seq<(isize, isize)>,
    blips: Seq<(isize, isize, usize)>,
)
    ensures
        forall|i: int|
            0 <= i < joined(sweep_spec(width, height, rings, blips)).len() ==> #[trigger] joined(
                sweep_spec(width, height, rings, blips),
            )[i] == NEWLINE || ramp().contains(joined(sweep_spec(width, height, rings, blips))[i]),
{
    sweep_picture_glyphs(width, height, rings, blips);
    joined_on_ramp(sweep_spec(width, height, rings, blips));
}

/// Track glyphs: a track with a one-digit identifier shows that ASCII digit (`0` is
/// byte 48), any other track shows `*` (byte 42); distinct one-digit tracks show
/// distinct glyphs, none of them `*`.
pub proof fn track_glyph_law()
    ensures
        forall|id: int| 0 <= id < 10 ==> #[trigger] track_glyph_of(id) == 48 + id,
        forall|id: int| id >= 10 ==> #[trigger] track_glyph_of(id) == 42,
        forall|a: int, b: int|
            0 <= a < 10 && 0 <= b < 10 && a != b ==> #[trigger] track_glyph_of(a) != #[trigger] track_glyph_of(b),
{
}

/// Map glyphs: unknown cells show ` ` (32), free cells `.` (46), occupied cells `#`
/// (35); the three are distinct.
pub proof fn state_glyph_law()
    ensures
        state_glyph_of(CellState::Unknown) == 32,
        state_glyph_of(CellState::Free) == 46,
        state_glyph_of(CellState::Occupied) == 35,
{
}

/// Blip glyphs follow the ramp ` .:-=+*#%@` from intensity 0 upward, and every
/// intensity from 9 on shows the strongest glyph `@` (64).
pub proof fn ramp_glyph_law()
    ensures
        ramp_glyph_of(0) == 32,
        ramp_glyph_of(1) == 46,
        ramp_glyph_of(2) == 58,
        ramp_glyph_of(3) == 45,
        ramp_glyph_of(4) == 61,
        ramp_glyph_of(5) == 43,
        ramp_glyph_of(6) == 42,
        ramp_glyph_of(7) == 35,
        ramp_glyph_of(8) == 37,
        forall|level: int| level >= 9 ==> #[trigger] ramp_glyph_of(level) == 64,
{
}

/// Display cell `(dr, dc)` of the map picture shows `#` when some grid cell in grid rows
/// `row_ranges[dr]` and grid columns `col_ranges[dc]` is occupied, else `.` when one of
/// them is free, else ` `; the picture has one row per row range and one glyph per
/// column range.
pub proof fn map_picture_cells(
    g: Seq<Seq<CellState>>,
    row_ranges: Seq<(usize, usize)>,
    col_ranges: Seq<(usize, usize)>,
)
    ensures
        map_spec(g, row_ranges, col_ranges).len() == row_ranges.len(),
        forall|dr: int|
            0 <= dr < row_ranges.len() ==> #[trigger] map_spec(g, row_ranges, col_ranges)[dr].len()
                == col_ranges.len(),
        forall|dr: int, dc: int|
            0 <= dr < row_ranges.len() && 0 <= dc < col_ranges.len() ==> #[trigger] map_spec(
                g,
                row_ranges,
                col_ranges,
            )[dr][dc] == if exists|r: int, c: int|
                #![trigger g[r][c]]
                row_ranges[dr].0 <= r < row_ranges[dr].1 && col_ranges[dc].0 <= c < col_ranges[dc].1
                    && 0 <= r < g.len() && 0 <= c < g[0].len() && g[r][c] == CellState::Occupied {
                35u8
            } else if exists|r: int, c: int|
                #![trigger g[r][c]]
                row_ranges[dr].0 <= r < row_ranges[dr].1 && col_ranges[dc].0 <= c < col_ranges[dc].1
                    && 0 <= r < g.len() && 0 <= c < g[0].len() && g[r][c] == CellState::Free {
                46u8
            } else {
                32u8
            },
{
}

/// Dots land where the points say: a position hit by some point shows `.`, any other
/// keeps its glyph.
proof fn lemma_put_dots_at(pic: Seq<Seq<u8>>, points: Seq<(isize, isize)>, x: int, y: int)
    requires
        0 <= y < pic.len(),
        0 <= x < pic[y].len(),
    ensures
        put_dots(pic, points).len() == pic.len(),
        put_dots(pic, points)[y].len() == pic[y].len(),
        put_dots(pic, points)[y][x] == if exists|k: int|
            0 <= k < points.len() && (#[trigger] points[k]).0 == x && points[k].1 == y {
            46u8
        } else {
            pic[y][x]
        },
    decreases points.len(),
{
    if points.len() > 0 {
        let front = points.drop_last();
        lemma_put_dots_at(pic, front, x, y);
        let last = points[points.len() - 1];
        assert(points.last() == last);
        if exists|k: int| 0 <= k < front.len() && (#[trigger] front[k]).0 == x && front[k].1 == y {
            let k = choose|k: int| 0 <= k < front.len() && (#[trigger] front[k]).0 == x && front[k].1 == y;
            assert(points[k] == front[k]);
        }
        if exists|k: int| 0 <= k < points.len() && (#[trigger] points[k]).0 == x && points[k].1 == y {
            let k = choose|k: int| 0 <= k < points.len() && (#[trigger] points[k]).0 == x && points[k].1 == y;
            if k < front.len() {
                assert(front[k] == points[k]);
            }
        }
    }
}

/// Blips land where they say, later ones over earlier ones: a position shows the ramp
/// glyph of the last blip on it, and a position no blip hits keeps its glyph.
proof fn lemma_put_blips_at(pic: Seq<Seq<u8>>, marks: Seq<(isize, isize, usize)>, x: int, y: int)
    requires
        0 <= y < pic.len(),
        0 <= x < pic[y].len(),
    ensures
        put_blips(pic, marks).len() == pic.len(),
        put_blips(pic, marks)[y].len() == pic[y].len(),
        (forall|k: int| 0 <= k < marks.len() ==> !((#[trigger] marks[k]).0 == x && marks[k].1 == y))
            ==> put_blips(pic, marks)[y][x] == pic[y][x],
        forall|k: int|
            0 <= k < marks.len() && (#[trigger] marks[k]).0 == x && marks[k].1 == y && (forall|q: int|
                k < q < marks.len() ==> !((#[trigger] marks[q]).0 == x && marks[q].1 == y))
                ==> put_blips(pic, marks)[y][x] == ramp_glyph_of(marks[k].2 as int),
    decreases marks.len(),
{
    if marks.len() > 0 {
        let front = marks.drop_last();
        let n = marks.len() - 1;
        lemma_put_blips_at(pic, front, x, y);
        assert(marks.last() == marks[n]);
        assert forall|k: int| 0 <= k < front.len() implies #[trigger] front[k] == marks[k] by {}
        assert forall|k: int|
            0 <= k < marks.len() && (#[trigger] marks[k]).0 == x && marks[k].1 == y && (forall|q: int|
                k < q < marks.len() ==> !((#[trigger] marks[q]).0 == x && marks[q].1 == y))
                implies put_blips(pic, marks)[y][x] == ramp_glyph_of(marks[k].2 as int) by {
            if k < n {
                assert(!(marks[n].0 == x && marks[n].1 == y));
                assert forall|q: int| k < q < front.len() implies !((#[trigger] front[q]).0 == x && front[q].1 == y) by {
                    assert(front[q] == marks[q]);
                }
                assert(front[k] == marks[k]);
            }
        }
        if forall|k: int| 0 <= k < marks.len() ==> !((#[trigger] marks[k]).0 == x && marks[k].1 == y) {
            assert forall|k: int| 0 <= k < front.len() implies !((#[trigger] front[k]).0 == x && front[k].1 == y) by {
                assert(front[k] == marks[k]);
            }
            assert(!(marks[n].0 == x && marks[n].1 == y));
        }
    }
}

/// Track marks land where they say, later ones over earlier ones: a position shows the
/// glyph of the last track on it, and a position no track hits keeps its glyph.
proof fn lemma_put_tracks_at(pic: Seq<Seq<u8>>, marks: Seq<(isize, isize, usize)>, x: int, y: int)
    requires
        0 <= y < pic.len(),
        0 <= x < pic[y].len(),
    ensures
        put_tracks(pic, marks).len() == pic.len(),
        put_tracks(pic, marks)[y].len() == pic[y].len(),
        (forall|k: int| 0 <= k < marks.len() ==> !((#[trigger] marks[k]).0 == x && marks[k].1 == y))
            ==> put_tracks(pic, marks)[y][x] == pic[y][x],
        forall|k: int|
            0 <= k < marks.len() && (#[trigger] marks[k]).0 == x && marks[k].1 == y && (forall|q: int|
                k < q < marks.len() ==> !((#[trigger] marks[q]).0 == x && marks[q].1 == y))
                ==> put_tracks(pic, marks)[y][x] == track_glyph_of(marks[k].2 as int),
    decreases marks.len(),
{
    if marks.len() > 0 {
        let front = marks.drop_last();
        let n = marks.len() - 1;
        lemma_put_tracks_at(pic, front, x, y);
        assert(marks.last() == marks[n]);
        assert forall|k: int| 0 <= k < front.len() implies #[trigger] front[k] == marks[k] by {}
        assert forall|k: int|
            0 <= k < marks.len() && (#[trigger] marks[k]).0 == x && marks[k].1 == y && (forall|q: int|
                k < q < marks.len() ==> !((#[trigger] marks[q]).0 == x && marks[q].1 == y))
                implies put_tracks(pic, marks)[y][x] == track_glyph_of(marks[k].2 as int) by {
            if k < n {
                assert(!(marks[n].0 == x && marks[n].1 == y));
                assert forall|q: int| k < q < front.len() implies !((#[trigger] front[q]).0 == x && front[q].1 == y) by {
                    assert(front[q] == marks[q]);
                }
                assert(front[k] == marks[k]);
            }
        }
        if forall|k: int| 0 <= k < marks.len() ==> !((#[trigger] marks[k]).0 == x && marks[k].1 == y) {
            assert forall|k: int| 0 <= k < front.len() implies !((#[trigger] front[k]).0 == x && front[k].1 == y) by {
                assert(front[k] == marks[k]);
            }
            assert(!(marks[n].0 == x && marks[n].1 == y));
        }
    }
}

/// What each position of a sweep picture shows: the ramp glyph of the last blip on it;
/// with no blip there, `+` (43) at the centre `(width / 2, height / 2)`, else `.` (46)
/// where a range-ring point lies or on the middle row or middle column, else ` ` (32).
pub proof fn sweep_picture_positions(
    width: nat,
    height: nat,
    rings: Seq<(isize, isize)>,
    blips: Seq<(isize, isize, usize)>,
)
    ensures
        forall|y: int, x: int|
            0 <= y < height && 0 <= x < width && (forall|k: int|
                0 <= k < blips.len() ==> !((#[trigger] blips[k]).0 == x && blips[k].1 == y))
                ==> #[trigger] sweep_spec(width, height, rings, blips)[y][x] == if x == width as int / 2 && y
                == height as int / 2 {
                43u8
            } else if (exists|k: int| 0 <= k < rings.len() && (#[trigger] rings[k]).0 == x && rings[k].1 == y)
                || y == height as int / 2 || x == width as int / 2 {
                46u8
            } else {
                32u8
            },
        forall|y: int, x: int, k: int|
            0 <= y < height && 0 <= x < width && 0 <= k < blips.len() && (#[trigger] blips[k]).0 == x
                && blips[k].1 == y && (forall|q: int|
                k < q < blips.len() ==> !((#[trigger] blips[q]).0 == x && blips[q].1 == y))
                ==> #[trigger] sweep_spec(width, height, rings, blips)[y][x] == ramp_glyph_of(blips[k].2 as int),
{
    let base = crosshairs(width, height);
    let dotted = put_dots(base, rings);
    let cx = width as int / 2;
    let cy = height as int / 2;
    let centred = put(dotted, cx, cy, 43u8);
    lemma_put_dots_shape(base, rings, width);
    lemma_put_shape(dotted, cx, cy, 43u8, width);
    assert forall|y: int, x: int|
        0 <= y < height && 0 <= x < width && (forall|k: int|
            0 <= k < blips.len() ==> !((#[trigger] blips[k]).0 == x && blips[k].1 == y))
            implies #[trigger] sweep_spec(width, height, rings, blips)[y][x] == if x == cx && y == cy {
            43u8
        } else if (exists|k: int| 0 <= k < rings.len() && (#[trigger] rings[k]).0 == x && rings[k].1 == y)
            || y == cy || x == cx {
            46u8
        } else {
            32u8
        } by {
        lemma_put_dots_at(base, rings, x, y);
        lemma_put_blips_at(centred, blips, x, y);
    }
    assert forall|y: int, x: int, k: int|
        0 <= y < height && 0 <= x < width && 0 <= k < blips.len() && (#[trigger] blips[k]).0 == x
            && blips[k].1 == y && (forall|q: int|
            k < q < blips.len() ==> !((#[trigger] blips[q]).0 == x && blips[q].1 == y))
            implies #[trigger] sweep_spec(width, height, rings, blips)[y][x] == ramp_glyph_of(blips[k].2 as int) by {
        lemma_put_blips_at(centred, blips, x, y);
    }
}

/// What each position of a tracks picture shows: the glyph of the last track on it;
/// with no track there, `+` (43) at the centre, `.` (46) on the middle row or middle
/// column, else ` ` (32).
pub proof fn tracks_picture_positions(width: nat, height: nat, marks: Seq<(isize, isize, usize)>)
    ensures
        forall|y: int, x: int|
            0 <= y < height && 0 <= x < width && (forall|k: int|
                0 <= k < marks.len() ==> !((#[trigger] marks[k]).0 == x && marks[k].1 == y))
                ==> #[trigger] tracks_spec(width, height, marks)[y][x] == if x == width as int / 2 && y
                == height as int / 2 {
                43u8
            } else if y == height as int / 2 || x == width as int / 2 {
                46u8
            } else {
                32u8
            },
        forall|y: int, x: int, k: int|
            0 <= y < height && 0 <= x < width && 0 <= k < marks.len() && (#[trigger] marks[k]).0 == x
                && marks[k].1 == y && (forall|q: int|
                k < q < marks.len() ==> !((#[trigger] marks[q]).0 == x && marks[q].1 == y))
                ==> #[trigger] tracks_spec(width, height, marks)[y][x] == track_glyph_of(marks[k].2 as int),
{
    let base = crosshairs(width, height);
    let cx = width as int / 2;
    let cy = height as int / 2;
    let centred = put(base, cx, cy, 43u8);
    assert forall|y: int, x: int|
        0 <= y < height && 0 <= x < width && (forall|k: int|
            0 <= k < marks.len() ==> !((#[trigger] marks[k]).0 == x && marks[k].1 == y))
            implies #[trigger] tracks_spec(width, height, marks)[y][x] == if x == cx && y == cy {
            43u8
        } else if y == cy || x == cx {
            46u8
        } else {
            32u8
        } by {
        lemma_put_tracks_at(centred, marks, x, y);
    }
    assert forall|y: int, x: int, k: int|
        0 <= y < height && 0 <= x < width && 0 <= k < marks.len() && (#[trigger] marks[k]).0 == x
            && marks[k].1 == y && (forall|q: int|
            k < q < marks.len() ==> !((#[trigger] marks[q]).0 == x && marks[q].1 == y))
            implies #[trigger] tracks_spec(width, height, marks)[y][x] == track_glyph_of(marks[k].2 as int) by {
        lemma_put_tracks_at(centred, marks, x, y);
    }
}

/// Layout of the text of `height >= 1` rows of `width` glyphs: row `y` occupies bytes
/// `y * (width + 1)` up to `y * (width + 1) + width`, each row but the last is followed by
/// a newline (10), and there is no newline at the end.
pub proof fn joined_layout(rows: Seq<Seq<u8>>, width: nat)
    requires
        rows.len() >= 1,
        forall|y: int| 0 <= y < rows.len() ==> #[trigger] rows[y].len() == width,
    ensures
        joined(rows).len() == rows.len() * (width + 1) - 1,
        forall|y: int, x: int|
            0 <= y < rows.len() && 0 <= x < width ==> joined(rows)[y * (width + 1) + x] == #[trigger] rows[y][x],
        forall|y: int|
            0 <= y < rows.len() - 1 ==> #[trigger] joined(rows)[y * (width + 1) + width] == 10u8,
    decreases rows.len(),
{
    let h = rows.len();
    let w1 = width + 1;
    if h == 1 {
        assert(joined(rows) == rows[0]);
        assert forall|y: int, x: int| 0 <= y < rows.len() && 0 <= x < width implies joined(rows)[y * (width + 1) + x]
            == #[trigger] rows[y][x] by {
            assert(y == 0);
            assert(y * (width + 1) == 0) by (nonlinear_arith)
                requires
                    y == 0,
            ;
        }
        assert(1 * (width + 1) - 1 == width);
    } else {
        let front = rows.drop_last();
        assert forall|y: int| 0 <= y < front.len() implies #[trigger] front[y].len() == width by {
            assert(front[y] == rows[y]);
        }
        joined_layout(front, width);
        let a = joined(front);
        let last = rows.last();
        assert(last == rows[h - 1]);
        assert(a.len() == (h - 1) * w1 - 1);
        assert((h - 1) * w1 + w1 == h * w1) by (nonlinear_arith);
        assert forall|y: int, x: int| 0 <= y < rows.len() && 0 <= x < width implies joined(rows)[y * (width + 1) + x]
            == #[trigger] rows[y][x] by {
            if y < h - 1 {
                assert(y * w1 + w1 <= (h - 1) * w1) by (nonlinear_arith)
                    requires
                        y < h - 1,
                        w1 >= 0,
                ;
                assert(0 <= y * w1) by (nonlinear_arith)
                    requires
                        y >= 0,
                        w1 >= 0,
                ;
                assert(joined(rows)[y * w1 + x] == a[y * w1 + x]);
                assert(front[y] == rows[y]);
            } else {
                assert(y * w1 == (h - 1) * w1);
                assert(joined(rows)[y * w1 + x] == last[x]);
            }
        }
        assert forall|y: int| 0 <= y < rows.len() - 1 implies #[trigger] joined(rows)[y * (width + 1) + width]
            == 10u8 by {
            if y < h - 2 {
                assert(y * w1 + w1 <= (h - 2) * w1) by (nonlinear_arith)
                    requires
                        y < h - 2,
                        w1 >= 0,
                ;
                assert((h - 2) * w1 + w1 == (h - 1) * w1) by (nonlinear_arith);
                assert(0 <= y * w1) by (nonlinear_arith)
                    requires
                        y >= 0,
                        w1 >= 0,
                ;
                assert(joined(rows)[y * w1 + width] == a[y * w1 + width]);
            } else {
                assert(y * w1 == (h - 2) * w1);
                assert((h - 2) * w1 + w1 == (h - 1) * w1) by (nonlinear_arith);
            }
        }
    }
}

/// Glyph for a blip of intensity `level`.
pub fn ramp_glyph(level: usize) -> (g: u8)
    ensures
        g == ramp_glyph_of(level as int),
        level == 0 ==> g == 32,
        level == 1 ==> g == 46,
        level == 2 ==> g == 58,
        level == 3 ==> g == 45,
        level == 4 ==> g == 61,
        level == 5 ==> g == 43,
        level == 6 ==> g == 42,
        level == 7 ==> g == 35,
        level == 8 ==> g == 37,
        level >= 9 ==> g == 64,
{
    let l = if level < 9 { level } else { 9 };
    if l == 0 {
        32u8  // ` `
    } else if l == 1 {
        46u8  // `.`
    } else if l == 2 {
        58u8  // `:`
    } else if l == 3 {
        45u8  // `-`
    } else if l == 4 {
        61u8  // `=`
    } else if l == 5 {
        43u8  // `+`
    } else if l == 6 {
        42u8  // `*`
    } else if l == 7 {
        35u8  // `#`
    } else if l == 8 {
        37u8  // `%`
    } else {
        64u8  // `@`
    }
}

/// Glyph for track `id`.
pub fn track_glyph(id: usize) -> (g: u8)
    ensures
        g == track_glyph_of(id as int),
        id < 10 ==> g == 48 + id,
        id >= 10 ==> g == 42,
{
    if id < 10 {
        DIGIT_ZERO + id as u8
    } else {
        STAR
    }
}

/// Glyph for a map cell.
pub fn state_glyph(s: CellState) -> (g: u8)
    ensures
        g == state_glyph_of(s),
        s == CellState::Unknown ==> g == 32,
        s == CellState::Free ==> g == 46,
        s == CellState::Occupied ==> g == 35,
{
    match s {
        CellState::Unknown => BLANK,
        CellState::Free => DOT,
        CellState::Occupied => HASH,
    }
}

/// The rows of `pic` as sequences of bytes.
pub open spec fn rows_of(pic: Seq<Vec<u8>>) -> Seq<Seq<u8>> {
    pic.map_values(|r: Vec<u8>| r@)
}

/// A picture with crosshairs.
fn crosshair_rows(width: usize, height: usize) -> (pic: Vec<Vec<u8>>)
    ensures
        rows_of(pic@) == crosshairs(width as nat, height as nat),
{
    let cx = width / 2;
    let cy = height / 2;
    let mut pic: Vec<Vec<u8>> = Vec::new();
    let mut y: usize = 0;
    while y < height
        invariant
            y <= height,
            cx == width / 2,
            cy == height / 2,
            pic@.len() == y,
            forall|i: int| 0 <= i < y ==> #[trigger] pic@[i]@ == crosshairs(width as nat, height as nat)[i],
        decreases height - y,
    {
        let mut row: Vec<u8> = Vec::new();
        let mut x: usize = 0;
        while x < width
            invariant
                x <= width,
                y < height,
                cx == width / 2,
                cy == height / 2,
                row@ == crosshairs(width as nat, height as nat)[y as int].take(x as int),
            decreases width - x,
        {
            if y == cy || x == cx {
                row.push(DOT);
            } else {
                row.push(BLANK);
            }
            proof {
                assert(row@ =~= crosshairs(width as nat, height as nat)[y as int].take(x + 1));
            }
            x = x + 1;
        }
        assert(row@ =~= crosshairs(width as nat, height as nat)[y as int]);
        pic.push(row);
        y = y + 1;
    }
    assert(rows_of(pic@) =~= crosshairs(width as nat, height as nat));
    pic
}

/// Put `glyph` at column `x` of row `y`, if that position is inside the picture.
fn put_glyph(pic: &mut Vec<Vec<u8>>, x: isize, y: isize, glyph: u8)
    ensures
        rows_of(final(pic)@) == put(rows_of(old(pic)@), x as int, y as int, glyph),
{
    let ghost p0 = rows_of(pic@);
    if y >= 0 && (y as usize) < pic.len() {
        let yy = y as usize;
        assert(pic@[yy as int]@ == p0[yy as int]);
        if x >= 0 && (x as usize) < pic[yy].len() {
            let xx = x as usize;
            pic[yy][xx] = glyph;
            assert(rows_of(pic@) =~= p0.update(yy as int, p0[yy as int].update(xx as int, glyph)));
        }
    }
}

/// Rows of text joined by newlines.
pub fn join_rows(rows: &Vec<Vec<u8>>) -> (text: Vec<u8>)
    ensures
        text@ == joined(rows_of(rows@)),
{
    let ghost all = rows_of(rows@);
    let mut text: Vec<u8> = Vec::new();
    let mut i: usize = 0;
    while i < rows.len()
        invariant
            all == rows_of(rows@),
            i <= rows@.len(),
            text@ == joined(all.take(i as int)),
        decreases rows@.len() - i,
    {
        let ghost before = text@;
        if i > 0 {
            text.push(NEWLINE);
        }
        let row = &rows[i];
        let mut j: usize = 0;
        while j < row.len()
            invariant
                j <= row@.len(),
                text@ == (if i > 0 { before + seq![NEWLINE] } else { before }) + row@.take(j as int),
            decreases row@.len() - j,
        {
            text.push(row[j]);
            proof {
                assert(row@.take(j + 1) =~= row@.take(j as int).push(row@[j as int]));
            }
            j = j + 1;
        }
        proof {
            assert(row@.take(row@.len() as int) =~= row@);
            assert(all.take(i + 1).drop_last() =~= all.take(i as int));
            assert(all.take(i + 1).last() == row@);
            if i == 0 {
                assert(all.take(1)[0] == row@);
                assert(text@ =~= row@);
            } else {
                assert(text@ =~= joined(all.take(i as int)) + seq![NEWLINE] + row@);
            }
        }
        i = i + 1;
    }
    assert(all.take(rows@.len() as int) =~= all);
    text
}

/// Radar sweep text: crosshairs, a dot at each range-ring point, `+` at the centre,
/// then each blip `(x, y, level)` drawn with the ramp glyph for `level`. Later marks
/// overwrite earlier ones; marks outside the picture are dropped.
pub fn sweep_picture(
    width: usize,
    height: usize,
    rings: &Vec<(isize, isize)>,
    blips: &Vec<(isize, isize, usize)>,
) -> (text: Vec<u8>)
    requires
        width >= 1,
        height >= 1,
    ensures
        text@ == joined(sweep_spec(width as nat, height as nat, rings@, blips@)),
{
    let mut pic = crosshair_rows(width, height);
    let ghost base = crosshairs(width as nat, height as nat);
    let mut i: usize = 0;
    while i < rings.len()
        invariant
            i <= rings@.len(),
            rows_of(pic@) == put_dots(base, rings@.take(i as int)),
        decreases rings@.len() - i,
    {
        let (x, y) = rings[i];
        put_glyph(&mut pic, x, y, DOT);
        assert(rings@.take(i + 1).drop_last() =~= rings@.take(i as int));
        i = i + 1;
    }
    assert(rings@.take(rings@.len() as int) =~= rings@);
    put_glyph(&mut pic, (width / 2) as isize, (height / 2) as isize, CENTRE);
    let ghost centred = rows_of(pic@);
    let mut k: usize = 0;
    while k < blips.len()
        invariant
            k <= blips@.len(),
            rows_of(pic@) == put_blips(centred, blips@.take(k as int)),
        decreases blips@.len() - k,
    {
        let (x, y, level) = blips[k];
        let g = ramp_glyph(level);
        put_glyph(&mut pic, x, y, g);
        assert(blips@.take(k + 1).drop_last() =~= blips@.take(k as int));
        k = k + 1;
    }
    assert(blips@.take(blips@.len() as int) =~= blips@);
    join_rows(&pic)
}

/// Track display text: crosshairs, `+` at the centre, then each mark `(x, y, id)`
/// drawn with the glyph for track `id`. Later marks overwrite earlier ones; marks
/// outside the picture are dropped.
pub fn tracks_picture(width: usize, height: usize, marks: &Vec<(isize, isize, usize)>) -> (text: Vec<u8>)
    requires
        width >= 1,
        height >= 1,
    ensures
        text@ == joined(tracks_spec(width as nat, height as nat, marks@)),
{
    let mut pic = crosshair_rows(width, height);
    put_glyph(&mut pic, (width / 2) as isize, (height / 2) as isize, CENTRE);
    let ghost centred = rows_of(pic@);
    let mut k: usize = 0;
    while k < marks.len()
        invariant
            k <= marks@.len(),
            rows_of(pic@) == put_tracks(centred, marks@.take(k as int)),
        decreases marks@.len() - k,
    {
        let (x, y, id) = marks[k];
        let g = track_glyph(id);
        put_glyph(&mut pic, x, y, g);
        assert(marks@.take(k + 1).drop_last() =~= marks@.take(k as int));
        k = k + 1;
    }
    assert(marks@.take(marks@.len() as int) =~= marks@);
    join_rows(&pic)
}

/// Map display text: display row `dr` and column `dc` show the summary of grid rows
/// `row_ranges[dr]` and grid columns `col_ranges[dc]` (half-open ranges).
pub fn map_picture(
    grid: &OccupancyGrid,
    row_ranges: &Vec<(usize, usize)>,
    col_ranges: &Vec<(usize, usize)>,
) -> (text: Vec<u8>)
    ensures
        text@ == joined(map_spec(grid@, row_ranges@, col_ranges@)),
        map_spec(grid@, row_ranges@, col_ranges@).len() == row_ranges@.len(),
        forall|dr: int|
            0 <= dr < row_ranges@.len() ==> #[trigger] map_spec(grid@, row_ranges@, col_ranges@)[dr].len()
                == col_ranges@.len(),
        forall|dr: int, dc: int|
            0 <= dr < row_ranges@.len() && 0 <= dc < col_ranges@.len() ==> #[trigger] map_spec(
                grid@,
                row_ranges@,
                col_ranges@,
            )[dr][dc] == if exists|r: int, c: int|
                #![trigger grid@[r][c]]
                row_ranges@[dr].0 <= r < row_ranges@[dr].1 && col_ranges@[dc].0 <= c < col_ranges@[dc].1
                    && 0 <= r < grid@.len() && 0 <= c < grid@[0].len() && grid@[r][c] == CellState::Occupied {
                35u8
            } else if exists|r: int, c: int|
                #![trigger grid@[r][c]]
                row_ranges@[dr].0 <= r < row_ranges@[dr].1 && col_ranges@[dc].0 <= c < col_ranges@[dc].1
                    && 0 <= r < grid@.len() && 0 <= c < grid@[0].len() && grid@[r][c] == CellState::Free {
                46u8
            } else {
                32u8
            },
{
    proof {
        map_picture_cells(grid@, row_ranges@, col_ranges@);
    }
    let ghost want = map_spec(grid@, row_ranges@, col_ranges@);
    let mut pic: Vec<Vec<u8>> = Vec::new();
    let mut dr: usize = 0;
    while dr < row_ranges.len()
        invariant
            want == map_spec(grid@, row_ranges@, col_ranges@),
            dr <= row_ranges@.len(),
            pic@.len() == dr,
            forall|i: int| 0 <= i < dr ==> #[trigger] pic@[i]@ == want[i],
        decreases row_ranges@.len() - dr,
    {
        let (r0, r1) = row_ranges[dr];
        let mut line: Vec<u8> = Vec::new();
        let mut dc: usize = 0;
        while dc < col_ranges.len()
            invariant
                want == map_spec(grid@, row_ranges@, col_ranges@),
                    dr < row_ranges@.len(),
                (r0, r1) == row_ranges@[dr as int],
                dc <= col_ranges@.len(),
                line@ == want[dr as int].take(dc as int),
            decreases col_ranges@.len() - dc,
        {
            let (c0, c1) = col_ranges[dc];
            let s = grid.block_state(r0, r1, c0, c1);
            line.push(state_glyph(s));
            assert(line@ =~= want[dr as int].take(dc + 1));
            dc = dc + 1;
        }
        assert(line@ =~= want[dr as int]);
        pic.push(line);
        dr = dr + 1;
    }
    assert(rows_of(pic@) =~= want);
    join_rows(&pic)
}

} // verus!
