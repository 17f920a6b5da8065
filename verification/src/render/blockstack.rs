//! A deterministic tetromino stack: the pieces that have settled after a given
//! share of a session, the piece falling next, and the picture of both.
use vstd::prelude::*;

verus! {

/// Represents the visual state of the layout relative to the active timer.
#[derive(Debug, Clone, Copy, PartialEq, Eq, Structural)]
pub enum VisualState {
    /// The timer is actively ticking downwards.
    Running,
    /// The timer has been paused by the user.
    Paused,
    /// The timer has reached zero.
    Completed,
}

/// The colour of a piece.
#[derive(Debug, Clone, Copy, PartialEq, Eq, Structural)]
pub enum PieceColor {
    Cyan,
    /// The RGB colour (255, 165, 0).
    Orange,
    Blue,
    Yellow,
    Green,
    Magenta,
    Red,
}

/// Stores information about the actively falling piece to be rendered.
pub struct ActivePiece {
    /// List of absolute cell coordinates `(row, col)` currently occupied by this piece.
    pub cells: Vec<(u16, u16)>,
    /// The color assigned to the active piece.
    pub color: PieceColor,
    /// Absolute target column where it will land.
    pub spawn_col: u16,
    /// Absolute target row where it will land.
    pub landing_row: u16,
    /// The normalized final rotated shape array.
    pub final_shape: Vec<(u16, u16)>,
}

/// Where the falling piece is headed: everything about it that does not depend
/// on how far it has fallen.
pub struct Placement {
    /// The number of the piece.
    pub piece_index: u16,
    /// The piece's shape before it is turned.
    pub base_shape: Vec<CellOffset>,
    /// The number of quarter turns the piece makes on its way down.
    pub rot: u8,
    /// The piece's shape once it has turned.
    pub final_shape: Vec<CellOffset>,
    /// The column where it will land.
    pub spawn_col: u16,
    /// The row where it will land.
    pub landing_row: u16,
    /// The column where it enters: its final shape centred on the board.
    pub start_col: u16,
    /// The piece's colour.
    pub color: PieceColor,
}

/// How far the falling piece has come, as the animation computes it from the
/// fraction of the current piece's time that has passed.
#[derive(Debug, Clone, Copy, PartialEq, Eq, Structural)]
pub struct PieceMotion {
    /// The row it has fallen to (capped at its landing row).
    pub fall_row: u16,
    /// The column it has glided to (negative values count as 0).
    pub glide_col: i16,
    /// The quarter turns it has made so far (capped at its final turn).
    pub turn: u8,
}

/// What a cell of the board shows.
#[derive(Debug, Clone, Copy, PartialEq, Eq, Structural)]
pub enum Glyph {
    /// A full block, `██`.
    Solid,
    /// A shaded block, `░░`.
    Shaded,
    /// The wireframe of the falling piece's landing place, `[]`.
    Wire,
    /// Nothing: two spaces.
    Blank,
}

/// The colour a cell is drawn in.
#[derive(Debug, Clone, Copy, PartialEq, Eq, Structural)]
pub enum Tint {
    Piece(PieceColor),
    DarkGray,
    /// The terminal's own colour.
    Plain,
}

/// A cell of the picture: what it shows, in which colour.
#[derive(Debug, Clone, Copy, PartialEq, Eq, Structural)]
pub struct Cell {
    pub glyph: Glyph,
    pub tint: Tint,
}

/// The picture of the piece that falls next.
pub enum Preview {
    /// No piece follows: four rows of eight spaces.
    Blank,
    /// Four rows of four cells, each empty or showing a block in the piece's colour.
    Piece(Vec<Vec<Option<PieceColor>>>),
}

/// A core rendering engine that turns the progress of a session, counted in
/// settled pieces, into a fully deterministic Tetris block packing game matrix.
///
/// The renderer calculates falling blocks, ghost projections, and settled stacks.
#[derive(Debug, Clone, Copy, Default, PartialEq, Eq, Structural)]
pub struct BlockStackRenderer;

/// A cell of a piece: `(row, column)` offsets from the piece's corner.
pub type CellOffset = (u16, u16);

/// A board: rows of cells, each empty or holding the colour of the piece that filled it.
pub type Grid = Vec<Vec<Option<PieceColor>>>;

/// The shape of piece number `k`, which cycles through I, L, J, O, S, T, Z.
pub open spec fn spec_shape(k: nat) -> Seq<CellOffset> {
    let i = k % 7;
    if i == 0 {
        seq![(0u16, 0u16), (0u16, 1u16), (0u16, 2u16), (0u16, 3u16)]
    } else if i == 1 {
        seq![(0u16, 0u16), (1u16, 0u16), (1u16, 1u16), (1u16, 2u16)]
    } else if i == 2 {
        seq![(0u16, 2u16), (1u16, 0u16), (1u16, 1u16), (1u16, 2u16)]
    } else if i == 3 {
        seq![(0u16, 0u16), (0u16, 1u16), (1u16, 0u16), (1u16, 1u16)]
    } else if i == 4 {
        seq![(0u16, 1u16), (0u16, 2u16), (1u16, 0u16), (1u16, 1u16)]
    } else if i == 5 {
        seq![(0u16, 1u16), (1u16, 0u16), (1u16, 1u16), (1u16, 2u16)]
    } else {
        seq![(0u16, 0u16), (0u16, 1u16), (1u16, 1u16), (1u16, 2u16)]
    }
}

/// The colour of piece number `k`, cycling with the shapes.
pub open spec fn spec_color(k: nat) -> PieceColor {
    let i = k % 7;
    if i == 0 {
        PieceColor::Cyan
    } else if i == 1 {
        PieceColor::Orange
    } else if i == 2 {
        PieceColor::Blue
    } else if i == 3 {
        PieceColor::Yellow
    } else if i == 4 {
        PieceColor::Green
    } else if i == 5 {
        PieceColor::Magenta
    } else {
        PieceColor::Red
    }
}

/// The row offsets of the cells of `s`.
pub open spec fn rows_of(s: Seq<CellOffset>) -> Seq<int> {
    s.map_values(|p: CellOffset| p.0 as int)
}

/// The column offsets of the cells of `s`.
pub open spec fn cols_of(s: Seq<CellOffset>) -> Seq<int> {
    s.map_values(|p: CellOffset| p.1 as int)
}

/// The least of `x`, or 0 for an empty sequence.
pub open spec fn min_of(x: Seq<int>) -> int
    decreases x.len(),
{
    if x.len() == 0 {
        0
    } else if x.len() == 1 {
        x[0]
    } else {
        let m = min_of(x.drop_last());
        if x.last() < m {
            x.last()
        } else {
            m
        }
    }
}

/// The greatest of `x`, or 0 for an empty sequence.
pub open spec fn max_of(x: Seq<int>) -> int
    decreases x.len(),
{
    if x.len() == 0 {
        0
    } else if x.len() == 1 {
        x[0]
    } else {
        let m = max_of(x.drop_last());
        if x.last() > m {
            x.last()
        } else {
            m
        }
    }
}

/// Whether every offset of `s` is at most 100 (the pivot of a quarter turn).
pub open spec fn bounded_shape(s: Seq<CellOffset>) -> bool {
    forall|i: int| 0 <= i < s.len() ==> (#[trigger] s[i]).0 <= 100 && s[i].1 <= 100
}

/// Whether every row offset of `s` is below `u16::MAX`, so that its height fits a `u16`.
pub open spec fn rows_below_max(s: Seq<CellOffset>) -> bool {
    forall|i: int| 0 <= i < s.len() ==> (#[trigger] s[i]).0 < u16::MAX
}

/// Whether every column offset of `s` is below `u16::MAX`, so that its width fits a `u16`.
pub open spec fn cols_below_max(s: Seq<CellOffset>) -> bool {
    forall|i: int| 0 <= i < s.len() ==> (#[trigger] s[i]).1 < u16::MAX
}

/// Whether the least row and the least column of the non-empty shape `s` are 0.
pub open spec fn normalized_shape(s: Seq<CellOffset>) -> bool {
    s.len() > 0 ==> min_of(rows_of(s)) == 0 && min_of(cols_of(s)) == 0
}

/// `s` turned a quarter clockwise about the point 100: `(r, c)` goes to `(c, 100 - r)`.
pub open spec fn turn(s: Seq<CellOffset>) -> Seq<CellOffset> {
    s.map_values(|p: CellOffset| (p.1, (100 - p.0) as u16))
}

/// `s` turned a quarter clockwise, then moved so that its least row and least column are 0.
pub open spec fn rotate_once(s: Seq<CellOffset>) -> Seq<CellOffset> {
    let t = turn(s);
    let mr = min_of(rows_of(t));
    let mc = min_of(cols_of(t));
    t.map_values(|p: CellOffset| ((p.0 - mr) as u16, (p.1 - mc) as u16))
}

/// `s` turned `n` quarters clockwise.
pub open spec fn rotate_n(s: Seq<CellOffset>, n: nat) -> Seq<CellOffset>
    decreases n,
{
    if n == 0 {
        s
    } else {
        rotate_once(rotate_n(s, (n - 1) as nat))
    }
}

/// `s` turned `times` quarters clockwise (four quarters being a full turn).
pub open spec fn spec_rotate(s: Seq<CellOffset>, times: u8) -> Seq<CellOffset> {
    rotate_n(s, (times % 4) as nat)
}

/// The number of columns that `s` spans (its greatest column plus one), 1 for an empty shape.
pub open spec fn spec_width(s: Seq<CellOffset>) -> int {
    if s.len() == 0 {
        1
    } else {
        max_of(cols_of(s)) + 1
    }
}

/// The number of rows that `s` spans (its greatest row plus one), 1 for an empty shape.
pub open spec fn spec_height(s: Seq<CellOffset>) -> int {
    if s.len() == 0 {
        1
    } else {
        max_of(rows_of(s)) + 1
    }
}

// ---------------------------------------------------------------------------
// Lemmas on least and greatest elements
// ---------------------------------------------------------------------------

/// The least element is at most each element, and is one of them.
pub proof fn lemma_min_of(x: Seq<int>)
    ensures
        forall|i: int| 0 <= i < x.len() ==> min_of(x) <= #[trigger] x[i],
        x.len() > 0 ==> exists|i: int| 0 <= i < x.len() && min_of(x) == x[i],
    decreases x.len(),
{
    if x.len() > 1 {
        lemma_min_of(x.drop_last());
        let m = min_of(x.drop_last());
        let w = choose|i: int| 0 <= i < x.drop_last().len() && m == x.drop_last()[i];
        assert(forall|i: int| 0 <= i < x.len() - 1 ==> x[i] == x.drop_last()[i]);
        if x.last() < m {
            assert(min_of(x) == x[x.len() - 1]);
        } else {
            assert(min_of(x) == x[w]);
        }
    } else if x.len() == 1 {
        assert(min_of(x) == x[0]);
    }
}

/// The greatest element is at least each element, and is one of them.
pub proof fn lemma_max_of(x: Seq<int>)
    ensures
        forall|i: int| 0 <= i < x.len() ==> #[trigger] x[i] <= max_of(x),
        x.len() > 0 ==> exists|i: int| 0 <= i < x.len() && max_of(x) == x[i],
    decreases x.len(),
{
    if x.len() > 1 {
        lemma_max_of(x.drop_last());
        let m = max_of(x.drop_last());
        let w = choose|i: int| 0 <= i < x.drop_last().len() && m == x.drop_last()[i];
        assert(forall|i: int| 0 <= i < x.len() - 1 ==> x[i] == x.drop_last()[i]);
        if x.last() > m {
            assert(max_of(x) == x[x.len() - 1]);
        } else {
            assert(max_of(x) == x[w]);
        }
    } else if x.len() == 1 {
        assert(max_of(x) == x[0]);
    }
}

/// A value that is at most every element and equal to one of them is the least element.
pub proof fn lemma_min_is(x: Seq<int>, m: int)
    requires
        x.len() > 0,
        forall|i: int| 0 <= i < x.len() ==> m <= #[trigger] x[i],
        exists|i: int| 0 <= i < x.len() && m == x[i],
    ensures
        min_of(x) == m,
{
    lemma_min_of(x);
    let w = choose|i: int| 0 <= i < x.len() && min_of(x) == x[i];
    let v = choose|i: int| 0 <= i < x.len() && m == x[i];
    assert(min_of(x) <= x[v]);
    assert(m <= x[w]);
}

/// A value that is at least every element and equal to one of them is the greatest element.
pub proof fn lemma_max_is(x: Seq<int>, m: int)
    requires
        x.len() > 0,
        forall|i: int| 0 <= i < x.len() ==> #[trigger] x[i] <= m,
        exists|i: int| 0 <= i < x.len() && m == x[i],
    ensures
        max_of(x) == m,
{
    lemma_max_of(x);
    let w = choose|i: int| 0 <= i < x.len() && max_of(x) == x[i];
    let v = choose|i: int| 0 <= i < x.len() && m == x[i];
    assert(max_of(x) >= x[v]);
    assert(m >= x[w]);
}

// ---------------------------------------------------------------------------
// Shapes, colours and rotation
// ---------------------------------------------------------------------------

/// The least row offset of `s`, 0 for an empty shape.
fn least_row(s: &[CellOffset]) -> (m: u16)
    ensures
        m == min_of(rows_of(s@)),
{
    let n = s.len();
    if n == 0 {
        return 0;
    }
    let mut m = s[0].0;
    let mut i: usize = 1;
    assert(rows_of(s@.take(1)) =~= seq![s@[0].0 as int]);
    while i < n
        invariant
            1 <= i <= n,
            n == s@.len(),
            m == min_of(rows_of(s@.take(i as int))),
        decreases n - i,
    {
        assert(rows_of(s@.take(i + 1)).drop_last() =~= rows_of(s@.take(i as int)));
        if s[i].0 < m {
            m = s[i].0;
        }
        i = i + 1;
    }
    assert(s@.take(n as int) =~= s@);
    m
}

/// The least column offset of `s`, 0 for an empty shape.
fn least_col(s: &[CellOffset]) -> (m: u16)
    ensures
        m == min_of(cols_of(s@)),
{
    let n = s.len();
    if n == 0 {
        return 0;
    }
    let mut m = s[0].1;
    let mut i: usize = 1;
    assert(cols_of(s@.take(1)) =~= seq![s@[0].1 as int]);
    while i < n
        invariant
            1 <= i <= n,
            n == s@.len(),
            m == min_of(cols_of(s@.take(i as int))),
        decreases n - i,
    {
        assert(cols_of(s@.take(i + 1)).drop_last() =~= cols_of(s@.take(i as int)));
        if s[i].1 < m {
            m = s[i].1;
        }
        i = i + 1;
    }
    assert(s@.take(n as int) =~= s@);
    m
}

/// The greatest row offset of `s`, 0 for an empty shape.
fn greatest_row(s: &[CellOffset]) -> (m: u16)
    ensures
        m == max_of(rows_of(s@)),
{
    let n = s.len();
    if n == 0 {
        return 0;
    }
    let mut m = s[0].0;
    let mut i: usize = 1;
    assert(rows_of(s@.take(1)) =~= seq![s@[0].0 as int]);
    while i < n
        invariant
            1 <= i <= n,
            n == s@.len(),
            m == max_of(rows_of(s@.take(i as int))),
        decreases n - i,
    {
        assert(rows_of(s@.take(i + 1)).drop_last() =~= rows_of(s@.take(i as int)));
        if s[i].0 > m {
            m = s[i].0;
        }
        i = i + 1;
    }
    assert(s@.take(n as int) =~= s@);
    m
}

/// The greatest column offset of `s`, 0 for an empty shape.
fn greatest_col(s: &[CellOffset]) -> (m: u16)
    ensures
        m == max_of(cols_of(s@)),
{
    let n = s.len();
    if n == 0 {
        return 0;
    }
    let mut m = s[0].1;
    let mut i: usize = 1;
    assert(cols_of(s@.take(1)) =~= seq![s@[0].1 as int]);
    while i < n
        invariant
            1 <= i <= n,
            n == s@.len(),
            m == max_of(cols_of(s@.take(i as int))),
        decreases n - i,
    {
        assert(cols_of(s@.take(i + 1)).drop_last() =~= cols_of(s@.take(i as int)));
        if s[i].1 > m {
            m = s[i].1;
        }
        i = i + 1;
    }
    assert(s@.take(n as int) =~= s@);
    m
}

/// A quarter turn keeps every offset of a bounded shape within the bound.
pub proof fn lemma_rotate_once_bounded(s: Seq<CellOffset>)
    requires
        bounded_shape(s),
    ensures
        bounded_shape(rotate_once(s)),
        rotate_once(s).len() == s.len(),
{
    let t = turn(s);
    lemma_min_of(rows_of(t));
    lemma_min_of(cols_of(t));
    assert forall|i: int| 0 <= i < s.len() implies (#[trigger] rotate_once(s)[i]).0 <= 100
        && rotate_once(s)[i].1 <= 100 by {
        assert(rows_of(t)[i] == t[i].0);
        assert(cols_of(t)[i] == t[i].1);
    }
}

/// Turns of a bounded shape stay bounded.
pub proof fn lemma_rotate_n_bounded(s: Seq<CellOffset>, n: nat)
    requires
        bounded_shape(s),
    ensures
        bounded_shape(rotate_n(s, n)),
        rotate_n(s, n).len() == s.len(),
    decreases n,
{
    if n > 0 {
        lemma_rotate_n_bounded(s, (n - 1) as nat);
        lemma_rotate_once_bounded(rotate_n(s, (n - 1) as nat));
    }
}

impl BlockStackRenderer {
    /// Constructs a new `BlockStackRenderer`.
    pub fn new() -> (r: Self)
        ensures
            r == BlockStackRenderer,
    {
        BlockStackRenderer
    }

    /// Turns `shape` clockwise by `times` quarter turns; after each turn the
    /// shape is moved so that its least row and least column are 0. A whole
    /// number of turns gives the shape back as it is.
    pub fn rotate_shape(shape: &[CellOffset], times: u8) -> (res: Vec<CellOffset>)
        requires
            times % 4 == 0 || bounded_shape(shape@),
        ensures
            res@ == spec_rotate(shape@, times),
            bounded_shape(shape@) ==> bounded_shape(res@),
    {
        let mut res: Vec<CellOffset> = Vec::new();
        let n = shape.len();
        let mut i: usize = 0;
        while i < n
            invariant
                i <= n,
                n == shape@.len(),
                res@ == shape@.take(i as int),
            decreases n - i,
        {
            res.push(shape[i]);
            assert(shape@.take(i + 1) =~= shape@.take(i as int).push(shape@[i as int]));
            i = i + 1;
        }
        assert(shape@.take(n as int) =~= shape@);
        let turns = times % 4;
        if turns == 0 {
            return res;
        }
        let mut k: u8 = 0;
        while k < turns
            invariant
                k <= turns,
                turns == times % 4,
                res@ == rotate_n(shape@, k as nat),
                turns > 0,
                bounded_shape(shape@),
                bounded_shape(res@),
            decreases turns - k,
        {
            let m = res.len();
            let mut next: Vec<CellOffset> = Vec::new();
            let mut j: usize = 0;
            while j < m
                invariant
                    j <= m,
                    m == res@.len(),
                    bounded_shape(res@),
                    next@ == turn(res@).take(j as int),
                decreases m - j,
            {
                let (r, c) = res[j];
                // 90 deg clockwise: (r, c) -> (c, -r)
                next.push((c, 100 - r));
                assert(turn(res@).take(j + 1) =~= turn(res@).take(j as int).push(
                    turn(res@)[j as int],
                ));
                j = j + 1;
            }
            assert(turn(res@).take(m as int) =~= turn(res@));
            let min_r = least_row(next.as_slice());
            let min_c = least_col(next.as_slice());
            proof {
                lemma_min_of(rows_of(next@));
                lemma_min_of(cols_of(next@));
                assert forall|q: int| 0 <= q < m implies min_r <= (#[trigger] next@[q]).0 && min_c
                    <= next@[q].1 by {
                    assert(rows_of(next@)[q] == next@[q].0);
                    assert(cols_of(next@)[q] == next@[q].1);
                }
            }
            let mut shifted: Vec<CellOffset> = Vec::new();
            let mut j: usize = 0;
            while j < m
                invariant
                    j <= m,
                    m == next@.len(),
                    min_r == min_of(rows_of(next@)),
                    min_c == min_of(cols_of(next@)),
                    forall|q: int| 0 <= q < m ==> min_r <= (#[trigger] next@[q]).0 && min_c <= next@[q].1,
                    shifted@ == next@.map_values(
                        |p: CellOffset| ((p.0 - min_r) as u16, (p.1 - min_c) as u16),
                    ).take(j as int),
                decreases m - j,
            {
                let (r, c) = next[j];
                assert(rows_of(next@)[j as int] == r);
                assert(cols_of(next@)[j as int] == c);
                shifted.push((r - min_r, c - min_c));
                assert(next@.map_values(
                    |p: CellOffset| ((p.0 - min_r) as u16, (p.1 - min_c) as u16),
                ).take(j + 1) =~= next@.map_values(
                    |p: CellOffset| ((p.0 - min_r) as u16, (p.1 - min_c) as u16),
                ).take(j as int).push(((r - min_r) as u16, (c - min_c) as u16)));
                j = j + 1;
            }
            proof {
                assert(next@.map_values(
                    |p: CellOffset| ((p.0 - min_r) as u16, (p.1 - min_c) as u16),
                ).take(m as int) =~= rotate_once(res@));
                lemma_rotate_once_bounded(res@);
            }
            res = shifted;
            k = k + 1;
        }
        res
    }

    /// The shape of piece number `piece_index`: I, L, J, O, S, T, Z in turn.
    pub fn shape_for(&self, piece_index: u16) -> (s: Vec<CellOffset>)
        ensures
            s@ == spec_shape(piece_index as nat),
    {
        let i = piece_index % 7;
        if i == 0 {
            vec![(0, 0), (0, 1), (0, 2), (0, 3)]  // I
        } else if i == 1 {
            vec![(0, 0), (1, 0), (1, 1), (1, 2)]  // L
        } else if i == 2 {
            vec![(0, 2), (1, 0), (1, 1), (1, 2)]  // J
        } else if i == 3 {
            vec![(0, 0), (0, 1), (1, 0), (1, 1)]  // O
        } else if i == 4 {
            vec![(0, 1), (0, 2), (1, 0), (1, 1)]  // S
        } else if i == 5 {
            vec![(0, 1), (1, 0), (1, 1), (1, 2)]  // T
        } else {
            vec![(0, 0), (0, 1), (1, 1), (1, 2)]  // Z
        }
    }

    /// The colour of piece number `piece_index`.
    pub fn color_for_piece(&self, piece_index: u16) -> (c: PieceColor)
        ensures
            c == spec_color(piece_index as nat),
    {
        let i = piece_index % 7;
        if i == 0 {
            PieceColor::Cyan
        } else if i == 1 {
            PieceColor::Orange
        } else if i == 2 {
            PieceColor::Blue
        } else if i == 3 {
            PieceColor::Yellow
        } else if i == 4 {
            PieceColor::Green
        } else if i == 5 {
            PieceColor::Magenta
        } else {
            PieceColor::Red
        }
    }

    /// The number of columns that `shape` spans.
    pub fn shape_width(&self, shape: &[CellOffset]) -> (w: u16)
        requires
            cols_below_max(shape@),
        ensures
            w == spec_width(shape@),
    {
        if shape.len() == 0 {
            1
        } else {
            proof {
                lemma_max_of(cols_of(shape@));
                let j = choose|j: int| 0 <= j < shape@.len() && max_of(cols_of(shape@)) == cols_of(shape@)[j];
                assert(cols_of(shape@)[j] == shape@[j].1);
            }
            greatest_col(shape) + 1
        }
    }

    /// The number of rows that `shape` spans.
    pub fn shape_height(&self, shape: &[CellOffset]) -> (h: u16)
        requires
            rows_below_max(shape@),
        ensures
            h == spec_height(shape@),
    {
        if shape.len() == 0 {
            1
        } else {
            proof {
                lemma_max_of(rows_of(shape@));
                let j = choose|j: int| 0 <= j < shape@.len() && max_of(rows_of(shape@)) == rows_of(shape@)[j];
                assert(rows_of(shape@)[j] == shape@[j].0);
            }
            greatest_row(shape) + 1
        }
    }
}

/// A quarter turn of a bounded normalized shape maps each cell `(r, c)` to
/// `(c, R - r)`, where `R` is the shape's greatest row; the result is normalized,
/// its greatest row is the shape's greatest column and its greatest column is `R`.
pub proof fn lemma_rotate_once_normalized(s: Seq<CellOffset>)
    requires
        s.len() > 0,
        bounded_shape(s),
        normalized_shape(s),
    ensures
        forall|i: int|
            0 <= i < s.len() ==> #[trigger] rotate_once(s)[i] == (
                s[i].1,
                (max_of(rows_of(s)) - s[i].0) as u16,
            ),
        bounded_shape(rotate_once(s)),
        normalized_shape(rotate_once(s)),
        rotate_once(s).len() == s.len(),
        max_of(rows_of(rotate_once(s))) == max_of(cols_of(s)),
        max_of(cols_of(rotate_once(s))) == max_of(rows_of(s)),
{
    let t = turn(s);
    let big_r = max_of(rows_of(s));
    let big_c = max_of(cols_of(s));
    lemma_max_of(rows_of(s));
    lemma_max_of(cols_of(s));
    lemma_min_of(rows_of(s));
    lemma_min_of(cols_of(s));
    // The rows of the turned shape are the columns of the shape.
    assert(rows_of(t) =~= cols_of(s));
    // The least column of the turned shape is 100 less the greatest row.
    let wr = choose|i: int| 0 <= i < rows_of(s).len() && big_r == rows_of(s)[i];
    assert(cols_of(t)[wr] == 100 - big_r);
    assert forall|i: int| 0 <= i < cols_of(t).len() implies 100 - big_r <= #[trigger] cols_of(t)[i] by {
        assert(rows_of(s)[i] <= big_r);
    }
    lemma_min_is(cols_of(t), 100 - big_r);
    lemma_rotate_once_bounded(s);
    let u = rotate_once(s);
    assert forall|i: int| 0 <= i < s.len() implies #[trigger] u[i] == (
        s[i].1,
        (big_r - s[i].0) as u16,
    ) by {
        assert(rows_of(s)[i] == s[i].0);
        assert(cols_of(s)[i] == s[i].1);
        assert(rows_of(s)[i] <= big_r);
    }
    // Rows of the result are the columns of the shape.
    assert(rows_of(u) =~= cols_of(s));
    // Columns of the result are R less the rows of the shape.
    let wmin = choose|i: int| 0 <= i < rows_of(s).len() && min_of(rows_of(s)) == rows_of(s)[i];
    assert forall|i: int| 0 <= i < cols_of(u).len() implies #[trigger] cols_of(u)[i] == big_r
        - rows_of(s)[i] by {
        assert(u[i] == (s[i].1, (big_r - s[i].0) as u16));
        assert(rows_of(s)[i] <= big_r);
    }
    assert forall|i: int| 0 <= i < cols_of(u).len() implies 0 <= #[trigger] cols_of(u)[i] by {
        assert(rows_of(s)[i] <= big_r);
    }
    assert(cols_of(u)[wr] == 0);
    lemma_min_is(cols_of(u), 0);
    assert forall|i: int| 0 <= i < cols_of(u).len() implies #[trigger] cols_of(u)[i] <= big_r by {
        assert(0 <= rows_of(s)[i]);
    }
    assert(cols_of(u)[wmin] == big_r);
    lemma_max_is(cols_of(u), big_r);
}

/// Four quarter turns bring a bounded shape whose least row and column are 0
/// back to itself, cell for cell.
pub proof fn law_four_turns_restore_shape(s: Seq<CellOffset>)
    requires
        bounded_shape(s),
        normalized_shape(s),
    ensures
        rotate_n(s, 4) == s,
{
    assert(rotate_n(s, 0) == s);
    assert(rotate_n(s, 1) == rotate_once(rotate_n(s, 0)));
    assert(rotate_n(s, 2) == rotate_once(rotate_n(s, 1)));
    assert(rotate_n(s, 3) == rotate_once(rotate_n(s, 2)));
    assert(rotate_n(s, 4) == rotate_once(rotate_n(s, 3)));
    if s.len() == 0 {
        assert(turn(s) =~= s);
        assert(rotate_once(s) =~= s);
        assert(rotate_n(s, 1) =~= s);
        assert(rotate_n(s, 2) =~= s);
        assert(rotate_n(s, 3) =~= s);
        assert(rotate_n(s, 4) =~= s);
    } else {
        let big_r = max_of(rows_of(s));
        let big_c = max_of(cols_of(s));
        let t1 = rotate_n(s, 1);
        assert(t1 == rotate_once(s));
        lemma_rotate_once_normalized(s);
        let t2 = rotate_n(s, 2);
        assert(t2 == rotate_once(t1));
        lemma_rotate_once_normalized(t1);
        let t3 = rotate_n(s, 3);
        assert(t3 == rotate_once(t2));
        lemma_rotate_once_normalized(t2);
        let t4 = rotate_n(s, 4);
        assert(t4 == rotate_once(t3));
        lemma_rotate_once_normalized(t3);
        assert forall|i: int| 0 <= i < s.len() implies #[trigger] t4[i] == s[i] by {
            assert(t1[i] == (s[i].1, (big_r - s[i].0) as u16));
            assert(t2[i] == (t1[i].1, (big_c - t1[i].0) as u16));
            assert(t3[i] == (t2[i].1, (big_r - t2[i].0) as u16));
            assert(t4[i] == (t3[i].1, (big_c - t3[i].0) as u16));
            lemma_max_of(rows_of(s));
            lemma_max_of(cols_of(s));
            assert(rows_of(s)[i] == s[i].0);
            assert(cols_of(s)[i] == s[i].1);
        }
        assert(t4 =~= s);
    }
}

/// Every turn of a non-empty bounded normalized shape is again bounded and
/// normalized, with as many cells.
pub proof fn law_turns_stay_normalized(s: Seq<CellOffset>, times: u8)
    requires
        bounded_shape(s),
        normalized_shape(s),
    ensures
        bounded_shape(spec_rotate(s, times)),
        normalized_shape(spec_rotate(s, times)),
        spec_rotate(s, times).len() == s.len(),
{
    lemma_turns_normalized(s, (times % 4) as nat);
}

proof fn lemma_turns_normalized(s: Seq<CellOffset>, n: nat)
    requires
        bounded_shape(s),
        normalized_shape(s),
    ensures
        bounded_shape(rotate_n(s, n)),
        normalized_shape(rotate_n(s, n)),
        rotate_n(s, n).len() == s.len(),
    decreases n,
{
    if n > 0 {
        lemma_turns_normalized(s, (n - 1) as nat);
        let prev = rotate_n(s, (n - 1) as nat);
        lemma_rotate_once_bounded(prev);
        if prev.len() > 0 {
            lemma_rotate_once_normalized(prev);
        }
    }
}

// ---------------------------------------------------------------------------
// Boards
// ---------------------------------------------------------------------------

/// The abstract board: rows of cells.
pub type Board = Seq<Seq<Option<PieceColor>>>;

/// The board that the rows `g` hold.
pub open spec fn board_of(g: Seq<Vec<Option<PieceColor>>>) -> Board {
    g.map_values(|r: Vec<Option<PieceColor>>| r@)
}

/// The number of columns of `b`: the length of its first row, 0 without rows.
pub open spec fn board_cols(b: Board) -> int {
    if b.len() > 0 {
        b[0].len() as int
    } else {
        0
    }
}

/// Whether `b` is a rectangle whose sides fit in a `u16`.
pub open spec fn wf_board(b: Board) -> bool {
    &&& b.len() <= u16::MAX
    &&& board_cols(b) <= u16::MAX
    &&& forall|r: int| 0 <= r < b.len() ==> (#[trigger] b[r]).len() == board_cols(b)
}

/// `a + d`, saturating at `u16::MAX`.
pub open spec fn sat_add(a: u16, d: u16) -> int {
    if a + d > u16::MAX {
        u16::MAX as int
    } else {
        a + d
    }
}

/// Whether the cell `(r, c)` lies outside `b` or is filled.
pub open spec fn blocked(b: Board, r: int, c: int) -> bool {
    r >= b.len() || c >= board_cols(b) || b[r][c] is Some
}

/// Whether the cell `(r, c)` lies inside `b` and is filled.
pub open spec fn filled(b: Board, r: int, c: int) -> bool {
    0 <= r < b.len() && 0 <= c < board_cols(b) && b[r][c] is Some
}

/// Whether `shape` placed with its corner at `(row, col)` leaves the board or overlaps a filled cell.
pub open spec fn spec_collides(b: Board, shape: Seq<CellOffset>, row: u16, col: u16) -> bool {
    exists|i: int|
        0 <= i < shape.len() && #[trigger] blocked(
            b,
            sat_add(row, shape[i].0),
            sat_add(col, shape[i].1),
        )
}

/// The row at which `shape`, dropped from `row` in column `col`, comes to rest.
pub open spec fn drop_from(b: Board, shape: Seq<CellOffset>, col: u16, row: nat) -> nat
    decreases b.len() - row,
{
    if row + spec_height(shape) < b.len() && !spec_collides(b, shape, (row + 1) as u16, col) {
        drop_from(b, shape, col, row + 1)
    } else {
        row
    }
}

/// The row at which `shape`, dropped from the top in column `col`, comes to rest;
/// `None` where it does not fit at the top.
pub open spec fn spec_landing_row(b: Board, shape: Seq<CellOffset>, col: u16) -> Option<nat> {
    if spec_collides(b, shape, 0, col) {
        None
    } else {
        Some(drop_from(b, shape, col, 0))
    }
}

/// The sides of the cell `(r, c)` that touch the floor, a wall or a filled cell:
/// below, to the left and to the right.
pub open spec fn cell_contacts(b: Board, r: int, c: int) -> nat {
    (if r + 1 == b.len() || filled(b, r + 1, c) {
        1nat
    } else {
        0nat
    }) + (if c == 0 || filled(b, r, c - 1) {
        1nat
    } else {
        0nat
    }) + (if c + 1 == board_cols(b) || filled(b, r, c + 1) {
        1nat
    } else {
        0nat
    })
}

/// Whether every cell of `shape`, placed with its corner at `(row, col)`, lies
/// in a row and a column below `u16::MAX`, so that the row below it and the
/// column beside it can be numbered.
pub open spec fn short_of_u16_max(shape: Seq<CellOffset>, row: u16, col: u16) -> bool {
    forall|i: int|
        0 <= i < shape.len() ==> sat_add(row, (#[trigger] shape[i]).0) < u16::MAX && sat_add(
            col,
            shape[i].1,
        ) < u16::MAX
}

/// A placement that leaves no cell outside a board lies short of `u16::MAX`.
pub proof fn lemma_fit_short_of_max(b: Board, shape: Seq<CellOffset>, row: u16, col: u16)
    requires
        wf_board(b),
        !spec_collides(b, shape, row, col),
    ensures
        short_of_u16_max(shape, row, col),
{
    assert forall|i: int| 0 <= i < shape.len() implies sat_add(row, (#[trigger] shape[i]).0)
        < u16::MAX && sat_add(col, shape[i].1) < u16::MAX by {
        assert(!blocked(b, sat_add(row, shape[i].0), sat_add(col, shape[i].1)));
    }
}

/// The contacts of all cells of `shape` placed with its corner at `(row, col)`.
pub open spec fn spec_contacts(b: Board, shape: Seq<CellOffset>, row: u16, col: u16) -> nat
    decreases shape.len(),
{
    if shape.len() == 0 {
        0
    } else {
        spec_contacts(b, shape.drop_last(), row, col) + cell_contacts(
            b,
            sat_add(row, shape.last().0),
            sat_add(col, shape.last().1),
        )
    }
}

/// A shape that stays inside the board at some row and column has no cell at `u16::MAX`.
proof fn lemma_drop_from_fits(b: Board, shape: Seq<CellOffset>, col: u16, row: nat)
    requires
        wf_board(b),
        row < b.len(),
        !spec_collides(b, shape, row as u16, col),
    ensures
        !spec_collides(b, shape, drop_from(b, shape, col, row) as u16, col),
        row <= drop_from(b, shape, col, row) < b.len(),
    decreases b.len() - row,
{
    if row + spec_height(shape) < b.len() && !spec_collides(b, shape, (row + 1) as u16, col) {
        lemma_drop_from_fits(b, shape, col, row + 1);
    }
}

/// Where a shape lands, it overlaps nothing and lies inside the board.
pub proof fn lemma_landing_fits(b: Board, shape: Seq<CellOffset>, col: u16)
    requires
        wf_board(b),
        shape.len() > 0,
        spec_landing_row(b, shape, col) is Some,
    ensures
        spec_landing_row(b, shape, col)->0 < b.len(),
        !spec_collides(b, shape, spec_landing_row(b, shape, col)->0 as u16, col),
{
    if b.len() == 0 {
        assert(blocked(b, sat_add(0, shape[0].0), sat_add(col, shape[0].1)));
    }
    lemma_drop_from_fits(b, shape, col, 0);
}

/// Dropped from `start`, where it fits, a shape fits in every row down to the row
/// where it comes to rest, and one row lower it would leave the board or overlap a
/// filled cell.
proof fn lemma_drop_from_stops(b: Board, shape: Seq<CellOffset>, col: u16, start: nat)
    requires
        wf_board(b),
        start <= u16::MAX,
        !spec_collides(b, shape, start as u16, col),
    ensures
        start <= drop_from(b, shape, col, start),
        forall|r: nat|
            start <= r <= drop_from(b, shape, col, start) ==> !#[trigger] spec_collides(
                b,
                shape,
                r as u16,
                col,
            ),
        drop_from(b, shape, col, start) + spec_height(shape) >= b.len() || spec_collides(
            b,
            shape,
            (drop_from(b, shape, col, start) + 1) as u16,
            col,
        ),
    decreases b.len() - start,
{
    lemma_max_of(rows_of(shape));
    if shape.len() > 0 {
        assert(rows_of(shape)[0] == shape[0].0);
    }
    if start + spec_height(shape) < b.len() && !spec_collides(b, shape, (start + 1) as u16, col) {
        lemma_drop_from_stops(b, shape, col, start + 1);
        assert forall|r: nat| start <= r <= drop_from(b, shape, col, start) implies !#[trigger] spec_collides(
            b,
            shape,
            r as u16,
            col,
        ) by {
            if r > start {
                assert(start + 1 <= r);
            }
        }
    }
}

/// A dropped piece comes to rest at the first obstruction: it has no landing row
/// exactly where it does not fit at the top; otherwise it fits in every row down
/// to its landing row, and one row lower it would leave the board or overlap a
/// settled block.
pub proof fn law_landing_row_first_obstruction(b: Board, shape: Seq<CellOffset>, col: u16)
    requires
        wf_board(b),
    ensures
        spec_landing_row(b, shape, col) is None <==> spec_collides(b, shape, 0, col),
        spec_landing_row(b, shape, col) matches Some(row) ==> {
            &&& forall|r: nat| r <= row ==> !#[trigger] spec_collides(b, shape, r as u16, col)
            &&& (row + spec_height(shape) >= b.len() || spec_collides(
                b,
                shape,
                (row + 1) as u16,
                col,
            ))
        },
{
    if !spec_collides(b, shape, 0, col) {
        lemma_drop_from_stops(b, shape, col, 0);
    }
}

/// The number of rows of `grid`.
fn grid_rows(grid: &[Vec<Option<PieceColor>>]) -> (n: u16)
    requires
        wf_board(board_of(grid@)),
    ensures
        n == board_of(grid@).len(),
{
    grid.len() as u16
}

/// The number of columns of `grid`: the length of its first row, 0 without rows.
fn grid_cols(grid: &[Vec<Option<PieceColor>>]) -> (n: u16)
    requires
        wf_board(board_of(grid@)),
    ensures
        n == board_cols(board_of(grid@)),
{
    if grid.len() > 0 {
        grid[0].len() as u16
    } else {
        0
    }
}

/// Whether the cell `(r, c)` of `grid` exists and is filled.
fn cell_filled(grid: &[Vec<Option<PieceColor>>], r: usize, c: usize) -> (f: bool)
    requires
        wf_board(board_of(grid@)),
    ensures
        f == filled(board_of(grid@), r as int, c as int),
{
    if r < grid.len() && c < grid[r].len() {
        assert(board_of(grid@)[r as int] == grid@[r as int]@);
        grid[r][c].is_some()
    } else {
        false
    }
}

impl BlockStackRenderer {
    /// Whether `shape` placed with its corner at `(row, col)` leaves the grid or
    /// overlaps a filled cell.
    pub fn collides(
        &self,
        grid: &[Vec<Option<PieceColor>>],
        shape: &[CellOffset],
        row: u16,
        col: u16,
    ) -> (b: bool)
        requires
            wf_board(board_of(grid@)),
        ensures
            b == spec_collides(board_of(grid@), shape@, row, col),
    {
        let rows = grid_rows(grid);
        let cols = grid_cols(grid);
        let ghost b = board_of(grid@);
        let n = shape.len();
        let mut i: usize = 0;
        while i < n
            invariant
                i <= n,
                n == shape@.len(),
                rows == b.len(),
                cols == board_cols(b),
                b == board_of(grid@),
                wf_board(b),
                forall|j: int|
                    0 <= j < i ==> !#[trigger] blocked(
                        b,
                        sat_add(row, shape@[j].0),
                        sat_add(col, shape@[j].1),
                    ),
            decreases n - i,
        {
            let (dr, dc) = shape[i];
            let r = row.saturating_add(dr);
            let c = col.saturating_add(dc);
            if r >= rows || c >= cols {
                assert(blocked(b, sat_add(row, shape@[i as int].0), sat_add(col, shape@[i as int].1)));
                return true;
            }
            assert(b[r as int] == grid@[r as int]@);
            if grid[r as usize][c as usize].is_some() {
                assert(blocked(b, sat_add(row, shape@[i as int].0), sat_add(col, shape@[i as int].1)));
                return true;
            }
            i = i + 1;
        }
        false
    }

    /// The row at which `shape`, dropped from the top in column `col`, comes to
    /// rest; `None` where it does not fit at the top.
    pub fn find_landing_row(
        &self,
        grid: &[Vec<Option<PieceColor>>],
        shape: &[CellOffset],
        col: u16,
    ) -> (r: Option<u16>)
        requires
            wf_board(board_of(grid@)),
        ensures
            r matches Some(v) ==> spec_landing_row(board_of(grid@), shape@, col) == Some(v as nat),
            r is None ==> spec_landing_row(board_of(grid@), shape@, col) is None,
    {
        let ghost b = board_of(grid@);
        let rows = grid_rows(grid);
        let mut row = 0_u16;

        if self.collides(grid, shape, row, col) {
            return None;
        }
        proof {
            // Every cell lies inside the board at the top, so each row offset is below `rows`.
            assert forall|i: int| 0 <= i < shape@.len() implies (#[trigger] shape@[i]).0 < rows by {
                assert(!blocked(b, sat_add(0, shape@[i].0), sat_add(col, shape@[i].1)));
            }
            lemma_max_of(rows_of(shape@));
            if shape@.len() > 0 {
                assert(rows_of(shape@)[0] == shape@[0].0);
                let j = choose|j: int| 0 <= j < shape@.len() && max_of(rows_of(shape@)) == rows_of(shape@)[j];
                assert(rows_of(shape@)[j] == shape@[j].0);
            }
        }
        let piece_height = self.shape_height(shape);
        while row + piece_height < rows && !self.collides(grid, shape, row + 1, col)
            invariant
                b == board_of(grid@),
                wf_board(b),
                rows == b.len(),
                piece_height == spec_height(shape@),
                1 <= piece_height,
                row + piece_height <= u16::MAX,
                drop_from(b, shape@, col, row as nat) == drop_from(b, shape@, col, 0),
            decreases rows - row,
        {
            row += 1;
        }

        Some(row)
    }

    /// The sides of the cells of `shape`, placed with its corner at `(row, col)`,
    /// that touch the floor, a wall or a filled cell.
    pub fn count_contacts(
        &self,
        grid: &[Vec<Option<PieceColor>>],
        shape: &[CellOffset],
        row: u16,
        col: u16,
    ) -> (score: u16)
        requires
            wf_board(board_of(grid@)),
            short_of_u16_max(shape@, row, col),
            3 * shape@.len() <= u16::MAX,
        ensures
            score == spec_contacts(board_of(grid@), shape@, row, col),
            score <= 3 * shape@.len(),
    {
        let ghost b = board_of(grid@);
        let mut score: u16 = 0;
        let rows = grid_rows(grid);
        let cols = grid_cols(grid);
        let n = shape.len();
        let mut i: usize = 0;
        while i < n
            invariant
                i <= n,
                n == shape@.len(),
                3 * n <= u16::MAX,
                b == board_of(grid@),
                wf_board(b),
                rows == b.len(),
                cols == board_cols(b),
                short_of_u16_max(shape@, row, col),
                score <= 3 * i,
                score == spec_contacts(b, shape@.take(i as int), row, col),
            decreases n - i,
        {
            let (dr, dc) = shape[i];
            let r = row.saturating_add(dr);
            let c = col.saturating_add(dc);
            assert(shape@.take(i + 1).drop_last() =~= shape@.take(i as int));

            if r + 1 == rows || cell_filled(grid, r as usize + 1, c as usize) {
                score += 1;
            }
            if c == 0 || cell_filled(grid, r as usize, c as usize - 1) {
                score += 1;
            }
            if c + 1 == cols || cell_filled(grid, r as usize, c as usize + 1) {
                score += 1;
            }
            i = i + 1;
        }
        assert(shape@.take(n as int) =~= shape@);
        score
    }
}

// ---------------------------------------------------------------------------
// Choosing where a piece goes
// ---------------------------------------------------------------------------

/// The best placement found so far while scanning the candidates.
pub struct Best {
    pub col: u16,
    pub rot: u8,
    /// The landing row of the best placement; `None` before a candidate fits.
    pub deepest: Option<nat>,
    /// The contacts of the best placement.
    pub contacts: nat,
}

/// The state before any candidate has been looked at.
pub open spec fn no_best() -> Best {
    Best { col: 0, rot: 0, deepest: None, contacts: 0 }
}

/// The pseudo-random number of piece `k`: an xorshift of `k`, times 2654435761 (mod 2^32).
pub open spec fn spec_hash(k: u16) -> u32 {
    let s0 = k as u32;
    let s1 = s0 ^ (s0 << 13u32);
    let s2 = s1 ^ (s1 >> 17u32);
    let s3 = s2 ^ (s2 << 5u32);
    vstd::wrapping::u32_specs::wrapping_mul(s3, 2654435761u32)
}

/// `best` after looking at `shape` (turned `rot` quarters) dropped in column `c`:
/// the candidate replaces it where it lands deeper, or as deep with more contacts.
pub open spec fn consider(b: Board, shape: Seq<CellOffset>, rot: u8, c: u16, best: Best) -> Best {
    match spec_landing_row(b, shape, c) {
        None => best,
        Some(row) => {
            let contacts = spec_contacts(b, shape, row as u16, c);
            let replace = match best.deepest {
                None => true,
                Some(d) => row > d || (row == d && contacts > best.contacts),
            };
            if replace {
                Best { col: c, rot, deepest: Some(row), contacts }
            } else {
                best
            }
        },
    }
}

/// The column looked at in step `i` of the scan of `span + 1` columns that starts at `offset`.
pub open spec fn scan_col(span: nat, offset: nat, i: nat) -> u16 {
    ((i + offset) % (span + 1)) as u16
}

/// `best` after looking at the columns of steps `i..=span`.
pub open spec fn scan_cols(
    b: Board,
    shape: Seq<CellOffset>,
    rot: u8,
    span: nat,
    offset: nat,
    i: nat,
    best: Best,
) -> Best
    decreases span + 1 - i,
{
    if i > span {
        best
    } else {
        scan_cols(
            b,
            shape,
            rot,
            span,
            offset,
            i + 1,
            consider(b, shape, rot, scan_col(span, offset, i), best),
        )
    }
}

/// The columns in which `shape` may be placed, less one: the board's width less the shape's, or 0.
pub open spec fn spec_span(b: Board, shape: Seq<CellOffset>) -> nat {
    if board_cols(b) >= spec_width(shape) {
        (board_cols(b) - spec_width(shape)) as nat
    } else {
        0
    }
}

/// `best` after looking at the turns `rot..4` of `base`, each over all its columns,
/// starting at the column that `hash` picks.
pub open spec fn scan_rots(b: Board, base: Seq<CellOffset>, hash: u32, rot: nat, best: Best) -> Best
    decreases 4 - rot,
{
    if rot >= 4 {
        best
    } else {
        let shape = spec_rotate(base, rot as u8);
        let span = spec_span(b, shape);
        let offset = (hash as nat) % (span + 1);
        scan_rots(b, base, hash, rot + 1, scan_cols(b, shape, rot as u8, span, offset, 0, best))
    }
}

/// Where piece number `k` of shape `base` goes on `b`: the column and the number
/// of quarter turns of the deepest-landing candidate with the most contacts,
/// the first such one in the scan.
pub open spec fn spec_choose_placement(b: Board, base: Seq<CellOffset>, k: u16) -> (u16, u8) {
    let best = scan_rots(b, base, spec_hash(k), 0, no_best());
    (best.col, best.rot)
}

impl BlockStackRenderer {
    /// The pseudo-random number that decides where the scan of piece `piece_index` starts.
    fn placement_hash(piece_index: u16) -> (h: u32)
        ensures
            h == spec_hash(piece_index),
    {
        let mut seed = piece_index as u32;
        seed ^= seed << 13;
        seed ^= seed >> 17;
        seed ^= seed << 5;
        seed.wrapping_mul(2654435761)
    }

    /// Chooses the column and the number of quarter turns for piece number
    /// `piece_index` of shape `base_shape`: every turn and every column is tried
    /// (the columns starting at a pseudo-random one), and the placement that lands
    /// deepest, with the most contacts among those, wins; ties go to the first found.
    pub fn choose_placement(
        &self,
        grid: &[Vec<Option<PieceColor>>],
        base_shape: &[CellOffset],
        piece_index: u16,
    ) -> (res: (u16, u8))
        requires
            wf_board(board_of(grid@)),
            bounded_shape(base_shape@),
            3 * base_shape@.len() <= u16::MAX,
        ensures
            res == spec_choose_placement(board_of(grid@), base_shape@, piece_index),
    {
        let ghost b = board_of(grid@);
        let cols = grid_cols(grid);
        let mut best_col: u16 = 0;
        let mut best_rot: u8 = 0;
        let mut deepest_row: Option<u16> = None;
        let mut max_contacts: u16 = 0;

        let hash = Self::placement_hash(piece_index);
        let ghost target = scan_rots(b, base_shape@, hash, 0, no_best());

        let mut rot: u8 = 0;
        while rot < 4
            invariant
                rot <= 4,
                b == board_of(grid@),
                wf_board(b),
                cols == board_cols(b),
                bounded_shape(base_shape@),
                3 * base_shape@.len() <= u16::MAX,
                scan_rots(
                    b,
                    base_shape@,
                    hash,
                    rot as nat,
                    Best {
                        col: best_col,
                        rot: best_rot,
                        deepest: opt_u16_nat(deepest_row),
                        contacts: max_contacts as nat,
                    },
                ) == target,
            decreases 4 - rot,
        {
            let shape = Self::rotate_shape(base_shape, rot);
            proof {
                lemma_rotate_n_bounded(base_shape@, (rot % 4) as nat);
            }
            let width = self.shape_width(shape.as_slice());
            let span = cols.saturating_sub(width);
            let offset = (hash % (span as u32 + 1)) as u16;

            let ghost before = Best {
                col: best_col,
                rot: best_rot,
                deepest: opt_u16_nat(deepest_row),
                contacts: max_contacts as nat,
            };
            let ghost after_rot = scan_cols(b, shape@, rot, span as nat, offset as nat, 0, before);

            let mut i: u16 = 0;
            while i <= span
                invariant
                    i <= span + 1,
                    span < u16::MAX,
                    offset <= span,
                    b == board_of(grid@),
                    wf_board(b),
                    bounded_shape(shape@),
                    3 * shape@.len() <= u16::MAX,
                    scan_cols(
                        b,
                        shape@,
                        rot,
                        span as nat,
                        offset as nat,
                        i as nat,
                        Best {
                            col: best_col,
                            rot: best_rot,
                            deepest: opt_u16_nat(deepest_row),
                            contacts: max_contacts as nat,
                        },
                    ) == after_rot,
                decreases span + 1 - i,
            {
                let c = ((i as u32 + offset as u32) % (span as u32 + 1)) as u16;
                if let Some(row) = self.find_landing_row(grid, shape.as_slice(), c) {
                    proof {
                        if shape@.len() > 0 {
                            lemma_landing_fits(b, shape@, c);
                            lemma_fit_short_of_max(b, shape@, row, c);
                        }
                    }
                    let contacts = self.count_contacts(grid, shape.as_slice(), row, c);
                    let replace = match deepest_row {
                        None => true,
                        Some(dr) => row > dr || (row == dr && contacts > max_contacts),
                    };

                    if replace {
                        deepest_row = Some(row);
                        best_col = c;
                        best_rot = rot;
                        max_contacts = contacts;
                    }
                }
                i = i + 1;
            }
            rot = rot + 1;
        }

        (best_col, best_rot)
    }
}

/// Whether the best placement found so far is a real one: its turn lands where it says.
pub open spec fn best_fits(b: Board, base: Seq<CellOffset>, best: Best) -> bool {
    best.deepest matches Some(d) ==> {
        &&& best.rot < 4
        &&& spec_landing_row(b, spec_rotate(base, best.rot), best.col) == Some(d)
        &&& best.contacts == spec_contacts(b, spec_rotate(base, best.rot), d as u16, best.col)
    }
}

/// Whether `best` lands deeper than `row`, or as deep with at least `contacts` contacts.
pub open spec fn beats(best: Best, row: nat, contacts: nat) -> bool {
    best.deepest matches Some(d) && (row < d || (row == d && contacts <= best.contacts))
}

proof fn lemma_consider(b: Board, base: Seq<CellOffset>, rot: u8, c: u16, best: Best)
    requires
        rot < 4,
        best_fits(b, base, best),
    ensures
        best_fits(b, base, consider(b, spec_rotate(base, rot), rot, c, best)),
        forall|row: nat, k: nat|
            #[trigger] beats(best, row, k) ==> beats(
                consider(b, spec_rotate(base, rot), rot, c, best),
                row,
                k,
            ),
        spec_landing_row(b, spec_rotate(base, rot), c) matches Some(row) ==> beats(
            consider(b, spec_rotate(base, rot), rot, c, best),
            row,
            spec_contacts(b, spec_rotate(base, rot), row as u16, c),
        ),
        consider(b, spec_rotate(base, rot), rot, c, best).deepest is None ==> consider(
            b,
            spec_rotate(base, rot),
            rot,
            c,
            best,
        ) == best,
{
}

proof fn lemma_scan_cols(
    b: Board,
    base: Seq<CellOffset>,
    rot: u8,
    span: nat,
    offset: nat,
    i: nat,
    best: Best,
)
    requires
        rot < 4,
        best_fits(b, base, best),
    ensures
        best_fits(b, base, scan_cols(b, spec_rotate(base, rot), rot, span, offset, i, best)),
        forall|row: nat, k: nat|
            #[trigger] beats(best, row, k) ==> beats(
                scan_cols(b, spec_rotate(base, rot), rot, span, offset, i, best),
                row,
                k,
            ),
        scan_cols(b, spec_rotate(base, rot), rot, span, offset, i, best).deepest is None
            ==> scan_cols(b, spec_rotate(base, rot), rot, span, offset, i, best) == best,
    decreases span + 1 - i,
{
    if i <= span {
        let c = scan_col(span, offset, i);
        let nb = consider(b, spec_rotate(base, rot), rot, c, best);
        lemma_consider(b, base, rot, c, best);
        lemma_scan_cols(b, base, rot, span, offset, i + 1, nb);
    }
}

proof fn lemma_scan_cols_finds(
    b: Board,
    base: Seq<CellOffset>,
    rot: u8,
    span: nat,
    offset: nat,
    i: nat,
    best: Best,
    j: nat,
    row: nat,
)
    requires
        rot < 4,
        best_fits(b, base, best),
        i <= j <= span,
        spec_landing_row(b, spec_rotate(base, rot), scan_col(span, offset, j)) == Some(row),
    ensures
        beats(
            scan_cols(b, spec_rotate(base, rot), rot, span, offset, i, best),
            row,
            spec_contacts(b, spec_rotate(base, rot), row as u16, scan_col(span, offset, j)),
        ),
    decreases span + 1 - i,
{
    let c = scan_col(span, offset, i);
    let nb = consider(b, spec_rotate(base, rot), rot, c, best);
    lemma_consider(b, base, rot, c, best);
    if i == j {
        lemma_scan_cols(b, base, rot, span, offset, i + 1, nb);
    } else {
        lemma_scan_cols_finds(b, base, rot, span, offset, i + 1, nb, j, row);
    }
}

proof fn lemma_scan_rots(b: Board, base: Seq<CellOffset>, hash: u32, rot: nat, best: Best)
    requires
        best_fits(b, base, best),
    ensures
        best_fits(b, base, scan_rots(b, base, hash, rot, best)),
        forall|row: nat, k: nat|
            #[trigger] beats(best, row, k) ==> beats(scan_rots(b, base, hash, rot, best), row, k),
        scan_rots(b, base, hash, rot, best).deepest is None ==> scan_rots(b, base, hash, rot, best)
            == best,
    decreases 4 - rot,
{
    if rot < 4 {
        let shape = spec_rotate(base, rot as u8);
        let span = spec_span(b, shape);
        let offset = (hash as nat) % (span + 1);
        let nb = scan_cols(b, shape, rot as u8, span, offset, 0, best);
        lemma_scan_cols(b, base, rot as u8, span, offset, 0, best);
        lemma_scan_rots(b, base, hash, rot + 1, nb);
    }
}

proof fn lemma_scan_rots_finds(
    b: Board,
    base: Seq<CellOffset>,
    hash: u32,
    rot: nat,
    best: Best,
    r: u8,
    j: nat,
    row: nat,
)
    requires
        best_fits(b, base, best),
        rot <= r < 4,
        j <= spec_span(b, spec_rotate(base, r)),
        spec_landing_row(
            b,
            spec_rotate(base, r),
            scan_col(
                spec_span(b, spec_rotate(base, r)),
                (hash as nat) % (spec_span(b, spec_rotate(base, r)) + 1),
                j,
            ),
        ) == Some(row),
    ensures
        beats(
            scan_rots(b, base, hash, rot, best),
            row,
            spec_contacts(
                b,
                spec_rotate(base, r),
                row as u16,
                scan_col(
                    spec_span(b, spec_rotate(base, r)),
                    (hash as nat) % (spec_span(b, spec_rotate(base, r)) + 1),
                    j,
                ),
            ),
        ),
    decreases 4 - rot,
{
    let shape = spec_rotate(base, rot as u8);
    let span = spec_span(b, shape);
    let offset = (hash as nat) % (span + 1);
    let nb = scan_cols(b, shape, rot as u8, span, offset, 0, best);
    lemma_scan_cols(b, base, rot as u8, span, offset, 0, best);
    if rot == r {
        lemma_scan_cols_finds(b, base, rot as u8, span, offset, 0, best, j, row);
        lemma_scan_rots(b, base, hash, rot + 1, nb);
    } else {
        lemma_scan_rots_finds(b, base, hash, rot + 1, nb, r, j, row);
    }
}

/// The scan of `span + 1` columns starting at `offset` (below `span + 1`) visits every column up to `span`.
proof fn lemma_scan_visits(span: nat, offset: nat, c: nat) -> (j: nat)
    requires
        offset <= span,
        c <= span,
        c <= u16::MAX,
    ensures
        j <= span,
        scan_col(span, offset, j) == c,
{
    if c >= offset {
        let j = (c - offset) as nat;
        assert((j + offset) % (span + 1) == c) by (nonlinear_arith)
            requires
                j + offset == c,
                c < span + 1,
        ;
        j
    } else {
        let j = (c + span + 1 - offset) as nat;
        assert((j + offset) % (span + 1) == c) by (nonlinear_arith)
            requires
                j + offset == c + (span + 1),
                c < span + 1,
        ;
        j
    }
}

/// The placement chosen for a piece lands at least as deep as any turn of the
/// piece in any column of the board, and, among those that land as deep, it
/// has the most sides touching the floor, the walls or settled blocks.
pub proof fn law_placement_lands_deepest(
    b: Board,
    base: Seq<CellOffset>,
    k: u16,
    rot: u8,
    c: u16,
    row: nat,
)
    requires
        rot < 4,
        c <= spec_span(b, spec_rotate(base, rot)),
        spec_landing_row(b, spec_rotate(base, rot), c) == Some(row),
    ensures
        ({
            let (best_col, best_rot) = spec_choose_placement(b, base, k);
            let best_shape = spec_rotate(base, best_rot);
            &&& spec_landing_row(b, best_shape, best_col) matches Some(best_row)
            &&& (row < best_row || (row == best_row && spec_contacts(
                b,
                spec_rotate(base, rot),
                row as u16,
                c,
            ) <= spec_contacts(b, best_shape, best_row as u16, best_col)))
        }),
{
    let hash = spec_hash(k);
    let span = spec_span(b, spec_rotate(base, rot));
    let offset = (hash as nat) % (span + 1);
    assert(offset <= span) by (nonlinear_arith)
        requires
            offset == (hash as nat) % (span + 1),
    ;
    let j = lemma_scan_visits(span, offset, c as nat);
    assert(scan_col(span, offset, j) == c);
    lemma_scan_rots_finds(b, base, hash, 0, no_best(), rot, j, row);
    lemma_scan_rots(b, base, hash, 0, no_best());
}

/// The chosen placement makes fewer than four quarter turns, and where no turn of
/// the piece fits at the top of any column the choice is column 0 with no turn.
pub proof fn law_placement_fallback(b: Board, base: Seq<CellOffset>, k: u16)
    ensures
        spec_choose_placement(b, base, k).1 < 4,
        (forall|r: u8, c: u16|
            r < 4 ==> (#[trigger] spec_landing_row(b, spec_rotate(base, r), c)) is None)
            ==> spec_choose_placement(b, base, k) == (0u16, 0u8),
{
    lemma_scan_rots(b, base, spec_hash(k), 0, no_best());
}

// ---------------------------------------------------------------------------
// Settling pieces
// ---------------------------------------------------------------------------

/// `b` with the cells of `shape`, placed with its corner at `(row, col)`, filled
/// with `color` (cells outside the board are left out).
pub open spec fn paint(b: Board, shape: Seq<CellOffset>, row: u16, col: u16, color: PieceColor) -> Board
    decreases shape.len(),
{
    if shape.len() == 0 {
        b
    } else {
        let b2 = paint(b, shape.drop_last(), row, col, color);
        let r = sat_add(row, shape.last().0);
        let c = sat_add(col, shape.last().1);
        if 0 <= r < b2.len() && 0 <= c < b2[r].len() {
            b2.update(r, b2[r].update(c, Some(color)))
        } else {
            b2
        }
    }
}

/// `b` with `shape` dropped in column `col` and settled in `color` where it lands;
/// `b` itself where the shape does not fit at the top.
pub open spec fn spec_place(b: Board, shape: Seq<CellOffset>, col: u16, color: PieceColor) -> Board {
    match spec_landing_row(b, shape, col) {
        None => b,
        Some(row) => paint(b, shape, row as u16, col, color),
    }
}

/// The empty board of `rows` rows and `cols` columns.
pub open spec fn empty_board(cols: nat, rows: nat) -> Board {
    Seq::new(rows, |r: int| Seq::new(cols, |c: int| None::<PieceColor>))
}

/// `b` after piece number `k` is placed where `spec_choose_placement` puts it.
pub open spec fn settle(b: Board, k: u16) -> Board {
    let base = spec_shape(k as nat);
    let (col, rot) = spec_choose_placement(b, base, k);
    spec_place(b, spec_rotate(base, rot), col, spec_color(k as nat))
}

/// The board of `rows` rows and `cols` columns after the first `n` pieces have settled.
pub open spec fn spec_settled(cols: u16, rows: u16, n: nat) -> Board
    decreases n,
{
    if n == 0 {
        empty_board(cols as nat, rows as nat)
    } else {
        settle(spec_settled(cols, rows, (n - 1) as nat), (n - 1) as u16)
    }
}

/// How many pieces fit, counted from piece `k` on: pieces settle one after
/// another until one does not fit at the top, one comes to rest in the top row
/// (it still counts), or 10000 have been counted.
pub open spec fn capacity_from(cols: u16, rows: u16, k: nat) -> nat
    decreases 10000 - k,
{
    if k >= 10000 {
        k
    } else {
        let b = spec_settled(cols, rows, k);
        let base = spec_shape(k);
        let (col, rot) = spec_choose_placement(b, base, k as u16);
        match spec_landing_row(b, spec_rotate(base, rot), col) {
            None => k,
            Some(row) => if row == 0 || k + 1 >= 10000 {
                k + 1
            } else {
                capacity_from(cols, rows, k + 1)
            },
        }
    }
}

/// How many pieces the board of `rows` rows and `cols` columns holds.
pub open spec fn spec_capacity(cols: u16, rows: u16) -> nat {
    if cols == 0 || rows == 0 {
        0
    } else {
        capacity_from(cols, rows, 0)
    }
}

/// Where piece number `k` comes to rest on the board of `rows` rows and `cols`
/// columns that holds the first `k` settled pieces, if it fits at the top.
#[verifier::opaque]
pub open spec fn piece_landing(cols: u16, rows: u16, k: nat) -> Option<nat> {
    let b = spec_settled(cols, rows, k);
    let base = spec_shape(k);
    let (col, rot) = spec_choose_placement(b, base, k as u16);
    spec_landing_row(b, spec_rotate(base, rot), col)
}

/// One step of the count: piece `k` is counted where it lands, and the count
/// goes on only where it lands below the top row.
proof fn lemma_capacity_step(cols: u16, rows: u16, k: nat)
    requires
        k < 10000,
    ensures
        capacity_from(cols, rows, k) == (match piece_landing(cols, rows, k) {
            None => k,
            Some(row) => if row == 0 || k + 1 >= 10000 {
                k + 1
            } else {
                capacity_from(cols, rows, k + 1)
            },
        }),
{
    reveal(piece_landing);
}

proof fn lemma_capacity_from_stops(cols: u16, rows: u16, k: nat)
    requires
        k <= 10000,
    ensures
        k <= capacity_from(cols, rows, k) <= 10000,
        forall|j: nat|
            k <= j < capacity_from(cols, rows, k) ==> (#[trigger] piece_landing(cols, rows, j)) is Some,
        forall|j: nat|
            k <= j && j + 1 < capacity_from(cols, rows, k) ==> ((#[trigger] piece_landing(
                cols,
                rows,
                j,
            )) matches Some(r) && r > 0),
        ({
            let n = capacity_from(cols, rows, k);
            ||| n == 10000
            ||| (n > k && piece_landing(cols, rows, (n - 1) as nat) == Some(0nat))
            ||| piece_landing(cols, rows, n) is None
        }),
    decreases 10000 - k,
{
    if k < 10000 {
        lemma_capacity_step(cols, rows, k);
        match piece_landing(cols, rows, k) {
            None => {},
            Some(row) => {
                if row != 0 && k + 1 < 10000 {
                    lemma_capacity_from_stops(cols, rows, k + 1);
                }
            },
        }
    }
}

/// The number of pieces a board holds is exact: pieces are counted one after
/// another, each landing below the top row, until one does not fit at the top,
/// one comes to rest in the top row (which still counts), or 10000 are counted.
/// So counting never stops while the next piece still lands below the top row.
pub proof fn law_capacity_is_exact(cols: u16, rows: u16)
    requires
        cols > 0,
        rows > 0,
    ensures
        spec_capacity(cols, rows) <= 10000,
        forall|j: nat|
            j < spec_capacity(cols, rows) ==> (#[trigger] piece_landing(cols, rows, j)) is Some,
        forall|j: nat|
            j + 1 < spec_capacity(cols, rows) ==> ((#[trigger] piece_landing(cols, rows, j))
                matches Some(r) && r > 0),
        ({
            let n = spec_capacity(cols, rows);
            ||| n == 10000
            ||| (n > 0 && piece_landing(cols, rows, (n - 1) as nat) == Some(0nat))
            ||| piece_landing(cols, rows, n) is None
        }),
{
    lemma_capacity_from_stops(cols, rows, 0);
}

/// Every piece's shape has four cells, a least row and column of 0, and small offsets.
pub proof fn lemma_shape_facts(k: nat)
    ensures
        spec_shape(k).len() == 4,
        bounded_shape(spec_shape(k)),
        normalized_shape(spec_shape(k)),
{
    let s = spec_shape(k);
    assert(bounded_shape(s));
    reveal_with_fuel(min_of, 5);
    assert(rows_of(s) =~= seq![s[0].0 as int, s[1].0 as int, s[2].0 as int, s[3].0 as int]);
    assert(cols_of(s) =~= seq![s[0].1 as int, s[1].1 as int, s[2].1 as int, s[3].1 as int]);
    assert(rows_of(s).drop_last() =~= seq![s[0].0 as int, s[1].0 as int, s[2].0 as int]);
    assert(cols_of(s).drop_last() =~= seq![s[0].1 as int, s[1].1 as int, s[2].1 as int]);
    assert(rows_of(s).drop_last().drop_last() =~= seq![s[0].0 as int, s[1].0 as int]);
    assert(cols_of(s).drop_last().drop_last() =~= seq![s[0].1 as int, s[1].1 as int]);
    assert(rows_of(s).drop_last().drop_last().drop_last() =~= seq![s[0].0 as int]);
    assert(cols_of(s).drop_last().drop_last().drop_last() =~= seq![s[0].1 as int]);
}

/// Painting cells keeps the board's shape.
pub proof fn lemma_paint_wf(b: Board, shape: Seq<CellOffset>, row: u16, col: u16, color: PieceColor)
    requires
        wf_board(b),
    ensures
        wf_board(paint(b, shape, row, col, color)),
        paint(b, shape, row, col, color).len() == b.len(),
        board_cols(paint(b, shape, row, col, color)) == board_cols(b),
    decreases shape.len(),
{
    if shape.len() > 0 {
        lemma_paint_wf(b, shape.drop_last(), row, col, color);
    }
}

/// Settling pieces keeps the board's shape.
pub proof fn lemma_settled_wf(cols: u16, rows: u16, n: nat)
    ensures
        wf_board(spec_settled(cols, rows, n)),
        spec_settled(cols, rows, n).len() == rows,
        rows > 0 ==> board_cols(spec_settled(cols, rows, n)) == cols,
        rows == 0 ==> board_cols(spec_settled(cols, rows, n)) == 0,
    decreases n,
{
    if n == 0 {
        let e = empty_board(cols as nat, rows as nat);
        assert(forall|r: int| 0 <= r < e.len() ==> (#[trigger] e[r]).len() == cols);
    } else {
        let b = spec_settled(cols, rows, (n - 1) as nat);
        lemma_settled_wf(cols, rows, (n - 1) as nat);
        let k = (n - 1) as u16;
        let base = spec_shape(k as nat);
        let (col, rot) = spec_choose_placement(b, base, k);
        let fs = spec_rotate(base, rot);
        match spec_landing_row(b, fs, col) {
            None => {},
            Some(row) => {
                lemma_paint_wf(b, fs, row as u16, col, spec_color(k as nat));
            },
        }
    }
}

/// Painting a shape where it overlaps nothing leaves every filled cell as it was.
proof fn lemma_paint_keeps_filled(
    b: Board,
    shape: Seq<CellOffset>,
    row: u16,
    col: u16,
    color: PieceColor,
    r: int,
    c: int,
)
    requires
        wf_board(b),
        !spec_collides(b, shape, row, col),
        filled(b, r, c),
    ensures
        paint(b, shape, row, col, color)[r][c] == b[r][c],
    decreases shape.len(),
{
    if shape.len() > 0 {
        let s2 = shape.drop_last();
        if spec_collides(b, s2, row, col) {
            let i = choose|i: int|
                0 <= i < s2.len() && #[trigger] blocked(
                    b,
                    sat_add(row, s2[i].0),
                    sat_add(col, s2[i].1),
                );
            assert(blocked(b, sat_add(row, shape[i].0), sat_add(col, shape[i].1)));
        }
        lemma_paint_keeps_filled(b, s2, row, col, color, r, c);
        lemma_paint_wf(b, s2, row, col, color);
        let last = shape.len() - 1;
        assert(!blocked(b, sat_add(row, shape[last].0), sat_add(col, shape[last].1)));
    }
}

/// Once a cell of the stack is filled, the next piece to settle leaves it as it is.
pub proof fn law_next_piece_keeps_stack(cols: u16, rows: u16, n: nat, r: int, c: int)
    requires
        n < 65536,
        filled(spec_settled(cols, rows, n), r, c),
    ensures
        spec_settled(cols, rows, n + 1)[r][c] == spec_settled(cols, rows, n)[r][c],
{
    let b = spec_settled(cols, rows, n);
    lemma_settled_wf(cols, rows, n);
    let k = n as u16;
    let base = spec_shape(k as nat);
    lemma_shape_facts(k as nat);
    let (col, rot) = spec_choose_placement(b, base, k);
    let fs = spec_rotate(base, rot);
    law_turns_stay_normalized(base, rot);
    assert(spec_settled(cols, rows, n + 1) == settle(b, k));
    match spec_landing_row(b, fs, col) {
        None => {},
        Some(row) => {
            lemma_landing_fits(b, fs, col);
            lemma_paint_keeps_filled(b, fs, row as u16, col, spec_color(k as nat), r, c);
        },
    }
}

/// The stack only grows: a cell filled after `n` pieces have settled is filled
/// with the same colour after any later number `m` of pieces.
pub proof fn law_stack_only_grows(cols: u16, rows: u16, n: nat, m: nat, r: int, c: int)
    requires
        n <= m < 65536,
        filled(spec_settled(cols, rows, n), r, c),
    ensures
        spec_settled(cols, rows, m)[r][c] == spec_settled(cols, rows, n)[r][c],
    decreases m - n,
{
    if n < m {
        law_next_piece_keeps_stack(cols, rows, n, r, c);
        lemma_settled_wf(cols, rows, n);
        lemma_settled_wf(cols, rows, n + 1);
        law_stack_only_grows(cols, rows, n + 1, m, r, c);
    }
}

// ---------------------------------------------------------------------------
// Counting blocks
// ---------------------------------------------------------------------------

/// The number of filled cells of `row`.
pub open spec fn row_blocks(row: Seq<Option<PieceColor>>) -> nat
    decreases row.len(),
{
    if row.len() == 0 {
        0
    } else {
        row_blocks(row.drop_last()) + if row.last() is Some {
            1nat
        } else {
            0nat
        }
    }
}

/// The number of filled cells of `b`.
pub open spec fn board_blocks(b: Board) -> nat
    decreases b.len(),
{
    if b.len() == 0 {
        0
    } else {
        board_blocks(b.drop_last()) + row_blocks(b.last())
    }
}

proof fn lemma_row_blocks_fill(row: Seq<Option<PieceColor>>, c: int, color: PieceColor)
    requires
        0 <= c < row.len(),
        row[c] is None,
    ensures
        row_blocks(row.update(c, Some(color))) == row_blocks(row) + 1,
    decreases row.len(),
{
    let u = row.update(c, Some(color));
    if c == row.len() - 1 {
        assert(u.drop_last() =~= row.drop_last());
    } else {
        assert(u.drop_last() =~= row.drop_last().update(c, Some(color)));
        lemma_row_blocks_fill(row.drop_last(), c, color);
    }
}

proof fn lemma_board_blocks_fill(b: Board, r: int, c: int, color: PieceColor)
    requires
        0 <= r < b.len(),
        0 <= c < b[r].len(),
        b[r][c] is None,
    ensures
        board_blocks(b.update(r, b[r].update(c, Some(color)))) == board_blocks(b) + 1,
    decreases b.len(),
{
    let u = b.update(r, b[r].update(c, Some(color)));
    if r == b.len() - 1 {
        assert(u.drop_last() =~= b.drop_last());
        lemma_row_blocks_fill(b[r], c, color);
    } else {
        assert(u.drop_last() =~= b.drop_last().update(r, b.drop_last()[r].update(c, Some(color))));
        lemma_board_blocks_fill(b.drop_last(), r, c, color);
    }
}

/// Whether no two cells of `s` coincide.
pub open spec fn distinct_cells(s: Seq<CellOffset>) -> bool {
    forall|i: int, j: int| 0 <= i < s.len() && 0 <= j < s.len() && i != j ==> s[i] != s[j]
}

/// Painting leaves every cell that the shape does not cover as it was.
proof fn lemma_paint_elsewhere(
    b: Board,
    shape: Seq<CellOffset>,
    row: u16,
    col: u16,
    color: PieceColor,
    r: int,
    c: int,
)
    requires
        0 <= r < b.len(),
        0 <= c < b[r].len(),
        forall|i: int|
            0 <= i < shape.len() ==> !(sat_add(row, (#[trigger] shape[i]).0) == r && sat_add(
                col,
                shape[i].1,
            ) == c),
    ensures
        paint(b, shape, row, col, color)[r][c] == b[r][c],
        paint(b, shape, row, col, color).len() == b.len(),
        paint(b, shape, row, col, color)[r].len() == b[r].len(),
    decreases shape.len(),
{
    if shape.len() > 0 {
        let s2 = shape.drop_last();
        assert forall|i: int| 0 <= i < s2.len() implies !(sat_add(row, (#[trigger] s2[i]).0) == r
            && sat_add(col, s2[i].1) == c) by {
            assert(s2[i] == shape[i]);
        }
        lemma_paint_elsewhere(b, s2, row, col, color, r, c);
        assert(shape.last() == shape[shape.len() - 1]);
    }
}

/// Painting fills each cell of the shape that lies inside the board with the colour.
proof fn lemma_paint_covers(
    b: Board,
    shape: Seq<CellOffset>,
    row: u16,
    col: u16,
    color: PieceColor,
    i: int,
)
    requires
        wf_board(b),
        0 <= i < shape.len(),
        sat_add(row, shape[i].0) < b.len(),
        sat_add(col, shape[i].1) < board_cols(b),
    ensures
        paint(b, shape, row, col, color)[sat_add(row, shape[i].0)][sat_add(col, shape[i].1)] == Some(
            color,
        ),
    decreases shape.len(),
{
    let s2 = shape.drop_last();
    lemma_paint_wf(b, s2, row, col, color);
    if i < shape.len() - 1 {
        assert(s2[i] == shape[i]);
        lemma_paint_covers(b, s2, row, col, color, i);
    }
}

/// Placing a piece fills each cell that it covers at its landing place with its
/// colour and leaves every other cell as it was; a piece that does not fit at the
/// top leaves the board as it was.
pub proof fn law_place_fills_landing_cells(
    b: Board,
    shape: Seq<CellOffset>,
    col: u16,
    color: PieceColor,
    r: int,
    c: int,
)
    requires
        wf_board(b),
        0 <= r < b.len(),
        0 <= c < board_cols(b),
    ensures
        wf_board(spec_place(b, shape, col, color)),
        spec_place(b, shape, col, color).len() == b.len(),
        board_cols(spec_place(b, shape, col, color)) == board_cols(b),
        spec_landing_row(b, shape, col) is None ==> spec_place(b, shape, col, color) == b,
        spec_landing_row(b, shape, col) matches Some(row) ==> spec_place(b, shape, col, color)[r][c]
            == (if exists|i: int|
            0 <= i < shape.len() && sat_add(row as u16, (#[trigger] shape[i]).0) == r && sat_add(
                col,
                shape[i].1,
            ) == c {
            Some(color)
        } else {
            b[r][c]
        }),
{
    match spec_landing_row(b, shape, col) {
        None => {},
        Some(row) => {
            lemma_paint_wf(b, shape, row as u16, col, color);
            if exists|i: int|
                0 <= i < shape.len() && sat_add(row as u16, (#[trigger] shape[i]).0) == r && sat_add(
                    col,
                    shape[i].1,
                ) == c {
                let i = choose|i: int|
                    0 <= i < shape.len() && sat_add(row as u16, (#[trigger] shape[i]).0) == r
                        && sat_add(col, shape[i].1) == c;
                lemma_paint_covers(b, shape, row as u16, col, color, i);
            } else {
                lemma_paint_elsewhere(b, shape, row as u16, col, color, r, c);
            }
        },
    }
}

/// Painting distinct cells where the shape overlaps nothing adds one block per cell.
proof fn lemma_paint_adds_blocks(b: Board, shape: Seq<CellOffset>, row: u16, col: u16, color: PieceColor)
    requires
        wf_board(b),
        !spec_collides(b, shape, row, col),
        distinct_cells(shape),
    ensures
        board_blocks(paint(b, shape, row, col, color)) == board_blocks(b) + shape.len(),
    decreases shape.len(),
{
    if shape.len() > 0 {
        let s2 = shape.drop_last();
        let last = shape.len() - 1;
        if spec_collides(b, s2, row, col) {
            let i = choose|i: int|
                0 <= i < s2.len() && #[trigger] blocked(
                    b,
                    sat_add(row, s2[i].0),
                    sat_add(col, s2[i].1),
                );
            assert(blocked(b, sat_add(row, shape[i].0), sat_add(col, shape[i].1)));
        }
        assert(distinct_cells(s2)) by {
            assert forall|i: int, j: int|
                0 <= i < s2.len() && 0 <= j < s2.len() && i != j implies s2[i] != s2[j] by {
                assert(s2[i] == shape[i] && s2[j] == shape[j]);
            }
        }
        lemma_paint_adds_blocks(b, s2, row, col, color);
        let r = sat_add(row, shape[last].0);
        let c = sat_add(col, shape[last].1);
        assert(!blocked(b, r, c));
        // The earlier cells sit elsewhere: none of them saturates, as all lie inside the board.
        assert forall|i: int| 0 <= i < s2.len() implies !(sat_add(row, (#[trigger] s2[i]).0) == r
            && sat_add(col, s2[i].1) == c) by {
            assert(s2[i] == shape[i]);
            assert(!blocked(b, sat_add(row, shape[i].0), sat_add(col, shape[i].1)));
            assert(shape[i] != shape[last]);
        }
        lemma_paint_elsewhere(b, s2, row, col, color, r, c);
        lemma_paint_wf(b, s2, row, col, color);
        let b2 = paint(b, s2, row, col, color);
        assert(shape.last() == shape[last]);
        assert(b[r].len() == board_cols(b));
        lemma_board_blocks_fill(b2, r, c, color);
    }
}

/// Every piece's shape has distinct cells.
proof fn lemma_shape_distinct(k: nat)
    ensures
        distinct_cells(spec_shape(k)),
{
}

/// A quarter turn of a bounded shape keeps its cells distinct.
proof fn lemma_rotate_once_distinct(s: Seq<CellOffset>)
    requires
        bounded_shape(s),
        distinct_cells(s),
    ensures
        distinct_cells(rotate_once(s)),
{
    let t = turn(s);
    lemma_min_of(rows_of(t));
    lemma_min_of(cols_of(t));
    let u = rotate_once(s);
    assert forall|i: int, j: int| 0 <= i < u.len() && 0 <= j < u.len() && i != j implies u[i]
        != u[j] by {
        assert(rows_of(t)[i] == t[i].0 && rows_of(t)[j] == t[j].0);
        assert(cols_of(t)[i] == t[i].1 && cols_of(t)[j] == t[j].1);
        assert(s[i] != s[j]);
    }
}

/// Turns of a bounded shape keep its cells distinct.
proof fn lemma_rotate_n_distinct(s: Seq<CellOffset>, n: nat)
    requires
        bounded_shape(s),
        distinct_cells(s),
    ensures
        distinct_cells(rotate_n(s, n)),
    decreases n,
{
    if n > 0 {
        lemma_rotate_n_distinct(s, (n - 1) as nat);
        lemma_rotate_n_bounded(s, (n - 1) as nat);
        lemma_rotate_once_distinct(rotate_n(s, (n - 1) as nat));
    }
}

/// Each piece counted by the capacity, from piece `k` on, lands.
proof fn lemma_capacity_lands(cols: u16, rows: u16, k: nat, j: nat)
    requires
        k <= j < capacity_from(cols, rows, k),
    ensures
        ({
            let b = spec_settled(cols, rows, j);
            let base = spec_shape(j);
            let (col, rot) = spec_choose_placement(b, base, j as u16);
            spec_landing_row(b, spec_rotate(base, rot), col) is Some
        }),
    decreases 10000 - k,
{
    if k < 10000 {
        let b = spec_settled(cols, rows, k);
        let base = spec_shape(k);
        let (col, rot) = spec_choose_placement(b, base, k as u16);
        match spec_landing_row(b, spec_rotate(base, rot), col) {
            None => {},
            Some(row) => {
                if j > k {
                    lemma_capacity_lands(cols, rows, k + 1, j);
                }
            },
        }
    }
}

proof fn lemma_capacity_from_bound(cols: u16, rows: u16, k: nat)
    requires
        k <= 10000,
    ensures
        k <= capacity_from(cols, rows, k) <= 10000,
    decreases 10000 - k,
{
    if k < 10000 {
        let b = spec_settled(cols, rows, k);
        let base = spec_shape(k);
        let (col, rot) = spec_choose_placement(b, base, k as u16);
        match spec_landing_row(b, spec_rotate(base, rot), col) {
            None => {},
            Some(row) => {
                if !(row == 0 || k + 1 >= 10000) {
                    lemma_capacity_from_bound(cols, rows, k + 1);
                }
            },
        }
    }
}

/// No settled piece is lost or overlaps another: after `n` pieces have settled,
/// up to the board's capacity, the stack holds exactly four blocks per piece.
pub proof fn law_each_piece_adds_four_blocks(cols: u16, rows: u16, n: nat)
    requires
        n <= spec_capacity(cols, rows),
    ensures
        board_blocks(spec_settled(cols, rows, n)) == 4 * n,
    decreases n,
{
    if n == 0 {
        let e = empty_board(cols as nat, rows as nat);
        assert forall|m: nat| m <= e.len() implies #[trigger] board_blocks(e.take(m as int)) == 0 by {
            lemma_empty_blocks(cols as nat, m);
            assert(e.take(m as int) =~= empty_board(cols as nat, m));
        }
        assert(e.take(e.len() as int) =~= e);
    } else {
        let k = (n - 1) as nat;
        law_each_piece_adds_four_blocks(cols, rows, k);
        assert(cols > 0 && rows > 0);
        lemma_capacity_from_bound(cols, rows, 0);
        lemma_capacity_lands(cols, rows, 0, k);
        let b = spec_settled(cols, rows, k);
        lemma_settled_wf(cols, rows, k);
        let base = spec_shape(k);
        lemma_shape_facts(k);
        lemma_shape_distinct(k);
        let (col, rot) = spec_choose_placement(b, base, k as u16);
        let fs = spec_rotate(base, rot);
        law_turns_stay_normalized(base, rot);
        lemma_rotate_n_distinct(base, (rot % 4) as nat);
        assert(spec_settled(cols, rows, n) == settle(b, k as u16));
        let row = spec_landing_row(b, fs, col)->0;
        lemma_landing_fits(b, fs, col);
        lemma_paint_adds_blocks(b, fs, row as u16, col, spec_color(k));
    }
}

proof fn lemma_empty_blocks(cols: nat, m: nat)
    ensures
        board_blocks(empty_board(cols, m)) == 0,
    decreases m,
{
    if m > 0 {
        lemma_empty_blocks(cols, (m - 1) as nat);
        assert(empty_board(cols, m).drop_last() =~= empty_board(cols, (m - 1) as nat));
        lemma_empty_row_blocks(cols);
        assert(empty_board(cols, m).last() =~= Seq::new(cols, |c: int| None::<PieceColor>));
    }
}

proof fn lemma_empty_row_blocks(cols: nat)
    ensures
        row_blocks(Seq::new(cols, |c: int| None::<PieceColor>)) == 0,
    decreases cols,
{
    if cols > 0 {
        lemma_empty_row_blocks((cols - 1) as nat);
        assert(Seq::new(cols, |c: int| None::<PieceColor>).drop_last() =~= Seq::new(
            (cols - 1) as nat,
            |c: int| None::<PieceColor>,
        ));
    }
}

/// `o` as a mathematical number.
pub open spec fn opt_u16_nat(o: Option<u16>) -> Option<nat> {
    match o {
        Some(v) => Some(v as nat),
        None => None,
    }
}

impl BlockStackRenderer {
    /// Drops `shape` in column `col` of `grid` and fills the cells where it lands with `color`.
    pub fn place_piece(
        &self,
        grid: &mut Grid,
        shape: &[CellOffset],
        col: u16,
        color: PieceColor,
    )
        requires
            wf_board(board_of(old(grid)@)),
        ensures
            board_of(final(grid)@) == spec_place(board_of(old(grid)@), shape@, col, color),
            wf_board(board_of(final(grid)@)),
    {
        let ghost b0 = board_of(grid@);
        if let Some(row) = self.find_landing_row(grid.as_slice(), shape, col) {
            let n = shape.len();
            let mut i: usize = 0;
            while i < n
                invariant
                    i <= n,
                    n == shape@.len(),
                    wf_board(b0),
                    board_of(grid@) == paint(b0, shape@.take(i as int), row, col, color),
                decreases n - i,
            {
                proof {
                    lemma_paint_wf(b0, shape@.take(i as int), row, col, color);
                    assert(shape@.take(i + 1).drop_last() =~= shape@.take(i as int));
                }
                let (dr, dc) = shape[i];
                let r = row.saturating_add(dr) as usize;
                let c = col.saturating_add(dc) as usize;
                if r < grid.len() && c < grid[r].len() {
                    let ghost before = grid@;
                    grid[r][c] = Some(color);
                    proof {
                        assert(board_of(grid@) =~= board_of(before).update(
                            r as int,
                            board_of(before)[r as int].update(c as int, Some(color)),
                        ));
                    }
                }
                i = i + 1;
            }
            assert(shape@.take(n as int) =~= shape@);
        }
        proof {
            match spec_landing_row(b0, shape@, col) {
                None => {},
                Some(row) => {
                    lemma_paint_wf(b0, shape@, row as u16, col, color);
                },
            }
        }
    }
}

impl BlockStackRenderer {
    /// An empty grid of `rows` rows and `cols` columns.
    fn empty_grid(cols: u16, rows: u16) -> (g: Grid)
        ensures
            board_of(g@) == empty_board(cols as nat, rows as nat),
    {
        let mut g: Grid = Vec::new();
        let mut r: u16 = 0;
        while r < rows
            invariant
                r <= rows,
                board_of(g@) == empty_board(cols as nat, r as nat),
            decreases rows - r,
        {
            let mut line: Vec<Option<PieceColor>> = Vec::new();
            let mut c: u16 = 0;
            while c < cols
                invariant
                    c <= cols,
                    line@ == Seq::new(c as nat, |i: int| None::<PieceColor>),
                decreases cols - c,
            {
                line.push(None);
                assert(line@ =~= Seq::new((c + 1) as nat, |i: int| None::<PieceColor>));
                c = c + 1;
            }
            let ghost prev = g@;
            let ghost lv = line@;
            assert(board_of(prev).len() == prev.len());
            assert(prev.len() == r);
            g.push(line);
            proof {
                let e = empty_board(cols as nat, (r + 1) as nat);
                assert(g@.len() == r + 1);
                assert(board_of(g@).len() == r + 1);
                assert forall|i: int| 0 <= i < r + 1 implies #[trigger] board_of(g@)[i] =~= e[i] by {
                    assert(board_of(g@)[i] == g@[i]@);
                    if i < r {
                        assert(g@[i] == prev[i]);
                        assert(board_of(prev)[i] == prev[i]@);
                        assert(board_of(prev)[i] == empty_board(cols as nat, r as nat)[i]);
                    } else {
                        assert(g@[i] == g@.last());
                    }
                }
                assert(board_of(g@) =~= e);
            }
            r = r + 1;
        }
        g
    }

    /// The grid of `rows` rows and `cols` columns after the first `settled_count`
    /// pieces have been placed, each where `choose_placement` puts it.
    pub fn settled_grid(&self, cols: u16, rows: u16, settled_count: u16) -> (g: Grid)
        ensures
            board_of(g@) == spec_settled(cols, rows, settled_count as nat),
    {
        let mut grid = Self::empty_grid(cols, rows);
        let mut piece_index: u16 = 0;
        while piece_index < settled_count
            invariant
                piece_index <= settled_count,
                board_of(grid@) == spec_settled(cols, rows, piece_index as nat),
            decreases settled_count - piece_index,
        {
            proof {
                lemma_shape_facts(piece_index as nat);
                lemma_settled_wf(cols, rows, piece_index as nat);
            }
            let base_shape = self.shape_for(piece_index);
            let (col, rot) = self.choose_placement(grid.as_slice(), base_shape.as_slice(), piece_index);
            let final_shape = Self::rotate_shape(base_shape.as_slice(), rot);
            let color = self.color_for_piece(piece_index);
            self.place_piece(&mut grid, final_shape.as_slice(), col, color);
            piece_index = piece_index + 1;
        }
        grid
    }

    /// How many pieces a grid of `rows` rows and `cols` columns holds: pieces
    /// settle one after another until one does not fit at the top, one comes to
    /// rest in the top row (it still counts), or 10000 have been counted.
    pub fn piece_capacity(&self, cols: u16, rows: u16) -> (n: u16)
        ensures
            n == spec_capacity(cols, rows),
            n <= 10000,
    {
        if cols == 0 || rows == 0 {
            return 0;
        }

        let mut grid = Self::empty_grid(cols, rows);
        let mut count: u16 = 0;

        while count < 10000
            invariant
                count <= 10000,
                cols > 0,
                rows > 0,
                board_of(grid@) == spec_settled(cols, rows, count as nat),
                capacity_from(cols, rows, count as nat) == capacity_from(cols, rows, 0),
            decreases 10000 - count,
        {
            proof {
                lemma_shape_facts(count as nat);
                lemma_settled_wf(cols, rows, count as nat);
            }
            let base_shape = self.shape_for(count);
            let (col, rot) = self.choose_placement(grid.as_slice(), base_shape.as_slice(), count);
            let final_shape = Self::rotate_shape(base_shape.as_slice(), rot);
            proof {
                lemma_rotate_n_bounded(base_shape@, (rot % 4) as nat);
            }

            match self.find_landing_row(grid.as_slice(), final_shape.as_slice(), col) {
                Some(row) => {
                    let color = self.color_for_piece(count);
                    self.place_piece(&mut grid, final_shape.as_slice(), col, color);
                    count += 1;
                    if row == 0 {
                        return count;
                    }
                },
                None => {
                    return count;
                },
            }
        }

        count
    }
}

// ---------------------------------------------------------------------------
// The falling piece and the picture
// ---------------------------------------------------------------------------

/// The cells, on a board of `rows` rows and `cols` columns, that `shape` covers
/// with its corner at `(row, col)`, in the order of the shape's cells; cells
/// outside the board are left out.
pub open spec fn piece_cells(shape: Seq<CellOffset>, row: u16, col: u16, rows: nat, cols: nat) -> Seq<
    (u16, u16),
>
    decreases shape.len(),
{
    if shape.len() == 0 {
        seq![]
    } else {
        let prev = piece_cells(shape.drop_last(), row, col, rows, cols);
        let r = sat_add(row, shape.last().0);
        let c = sat_add(col, shape.last().1);
        if r < rows && c < cols {
            prev.push((r as u16, c as u16))
        } else {
            prev
        }
    }
}

/// The cells a piece covers on the board are no more than the cells of its
/// shape, and each of them lies inside the board.
pub proof fn law_piece_cells_inside(shape: Seq<CellOffset>, row: u16, col: u16, rows: nat, cols: nat)
    ensures
        piece_cells(shape, row, col, rows, cols).len() <= shape.len(),
        forall|j: int|
            0 <= j < piece_cells(shape, row, col, rows, cols).len() ==> (#[trigger] piece_cells(
                shape,
                row,
                col,
                rows,
                cols,
            )[j]).0 < rows && piece_cells(shape, row, col, rows, cols)[j].1 < cols,
    decreases shape.len(),
{
    if shape.len() > 0 {
        law_piece_cells_inside(shape.drop_last(), row, col, rows, cols);
    }
}

/// Whether piece number `k` comes to rest somewhere on the board of the first `k`
/// settled pieces, and where: the column, the quarter turns and the row.
pub open spec fn spec_placement(cols: u16, rows: u16, k: u16) -> Option<(u16, u8, nat)> {
    if k >= spec_capacity(cols, rows) {
        None
    } else {
        let b = spec_settled(cols, rows, k as nat);
        let base = spec_shape(k as nat);
        let (col, rot) = spec_choose_placement(b, base, k);
        match spec_landing_row(b, spec_rotate(base, rot), col) {
            None => None,
            Some(row) => Some((col, rot, row)),
        }
    }
}

/// What the cell `(row, col)` of the picture shows, given the settled board `b`,
/// the falling piece (its cells, colour and landing cells) and the visual state:
/// the falling piece over the settled blocks over the landing wireframe. The
/// falling piece and its wireframe show only while the session runs.
pub open spec fn spec_cell(
    b: Board,
    active: Option<(Seq<(u16, u16)>, PieceColor, Seq<(u16, u16)>)>,
    visual_state: VisualState,
    row: u16,
    col: u16,
) -> Cell {
    let in_active = visual_state == VisualState::Running && match active {
        Some((cells, _, _)) => cells.contains((row, col)),
        None => false,
    };
    let in_ghost = match active {
        Some((_, _, ghost)) => ghost.contains((row, col)),
        None => false,
    };
    if in_active {
        Cell { glyph: Glyph::Solid, tint: Tint::Piece((active->0).1) }
    } else if b[row as int][col as int] is Some {
        Cell {
            glyph: if visual_state == VisualState::Paused {
                Glyph::Shaded
            } else {
                Glyph::Solid
            },
            tint: if visual_state == VisualState::Paused || visual_state == VisualState::Completed {
                Tint::DarkGray
            } else {
                Tint::Piece(b[row as int][col as int]->0)
            },
        }
    } else if in_ghost && visual_state == VisualState::Running {
        Cell { glyph: Glyph::Wire, tint: Tint::DarkGray }
    } else {
        Cell { glyph: Glyph::Blank, tint: Tint::Plain }
    }
}

/// While the session runs, the falling piece is drawn over everything else:
/// each cell it covers shows a solid block in its colour, whether a settled
/// block or its own landing wireframe lies there too. A cell it does not cover
/// shows no block in its colour unless a settled block of that colour lies there.
pub proof fn law_falling_piece_on_top(
    b: Board,
    cells: Seq<(u16, u16)>,
    color: PieceColor,
    ghost_cells: Seq<(u16, u16)>,
    row: u16,
    col: u16,
)
    ensures
        cells.contains((row, col)) ==> spec_cell(
            b,
            Some((cells, color, ghost_cells)),
            VisualState::Running,
            row,
            col,
        ) == (Cell { glyph: Glyph::Solid, tint: Tint::Piece(color) }),
        !cells.contains((row, col)) ==> spec_cell(
            b,
            Some((cells, color, ghost_cells)),
            VisualState::Running,
            row,
            col,
        ) == spec_cell(b, None, VisualState::Running, row, col) || (ghost_cells.contains((row, col))
            && b[row as int][col as int] is None && spec_cell(
            b,
            Some((cells, color, ghost_cells)),
            VisualState::Running,
            row,
            col,
        ) == (Cell { glyph: Glyph::Wire, tint: Tint::DarkGray })),
{
}

/// While the session is paused or completed, the picture shows no falling piece
/// and no wireframe, and the settled blocks drop into gray: shaded while paused,
/// solid once time is up; every other cell is blank.
pub proof fn law_stopped_board_is_gray(
    b: Board,
    active: Option<(Seq<(u16, u16)>, PieceColor, Seq<(u16, u16)>)>,
    visual_state: VisualState,
    row: u16,
    col: u16,
)
    requires
        visual_state != VisualState::Running,
    ensures
        spec_cell(b, active, visual_state, row, col) == (if b[row as int][col as int] is Some {
            Cell {
                glyph: if visual_state == VisualState::Paused {
                    Glyph::Shaded
                } else {
                    Glyph::Solid
                },
                tint: Tint::DarkGray,
            }
        } else {
            Cell { glyph: Glyph::Blank, tint: Tint::Plain }
        }),
{
}

/// The falling piece's cells, colour and landing cells on a board of `rows` rows and `cols` columns.
pub open spec fn active_view(active: Option<&ActivePiece>, rows: nat, cols: nat) -> Option<
    (Seq<(u16, u16)>, PieceColor, Seq<(u16, u16)>),
> {
    match active {
        Some(a) => Some(
            (
                a.cells@,
                a.color,
                piece_cells(a.final_shape@, a.landing_row, a.spawn_col, rows, cols),
            ),
        ),
        None => None,
    }
}

/// The row offset of the preview of piece number `k`: the I piece sits one row higher.
pub open spec fn preview_row_offset(k: nat) -> int {
    if k % 7 == 0 {
        0
    } else {
        1
    }
}

/// The cell `(r, c)` of the preview of piece number `k`.
pub open spec fn spec_preview_cell(k: nat, r: int, c: int) -> Option<PieceColor> {
    if r >= preview_row_offset(k) && spec_shape(k).contains(
        ((r - preview_row_offset(k)) as u16, c as u16),
    ) {
        Some(spec_color(k))
    } else {
        None
    }
}

/// While the session runs and no piece falls, each settled block shows solid
/// in the colour of its piece and every other cell is blank.
pub proof fn law_running_board_in_colour(b: Board, row: u16, col: u16)
    ensures
        spec_cell(b, None, VisualState::Running, row, col) == (match b[row as int][col as int] {
            Some(color) => Cell { glyph: Glyph::Solid, tint: Tint::Piece(color) },
            None => Cell { glyph: Glyph::Blank, tint: Tint::Plain },
        }),
{
}

/// The picture of the falling piece `a` shows each cell it covers as a solid
/// block in its colour while the session runs.
pub proof fn law_frame_shows_falling_piece(b: Board, a: &ActivePiece, rows: nat, cols: nat, row: u16, col: u16)
    requires
        a.cells@.contains((row, col)),
    ensures
        spec_cell(b, active_view(Some(a), rows, cols), VisualState::Running, row, col) == (Cell {
            glyph: Glyph::Solid,
            tint: Tint::Piece(a.color),
        }),
{
    law_falling_piece_on_top(
        b,
        a.cells@,
        a.color,
        piece_cells(a.final_shape@, a.landing_row, a.spawn_col, rows, cols),
        row,
        col,
    );
}

/// The preview of piece number `k` is its shape itself, in the piece's colour,
/// neither mirrored nor turned: each cell `(dr, dc)` of the shape shows at
/// `(dr + 1, dc)` (at `(dr, dc)` for the I piece, which sits one row higher)
/// inside the four-by-four box, and no other cell of the box is filled.
pub proof fn law_preview_is_the_shape(k: nat)
    ensures
        forall|i: int|
            0 <= i < spec_shape(k).len() ==> {
                let off: int = if k % 7 == 0 {
                    0
                } else {
                    1
                };
                let cell = #[trigger] spec_shape(k)[i];
                &&& cell.0 + off < 4
                &&& cell.1 < 4
                &&& spec_preview_cell(k, cell.0 + off, cell.1 as int) == Some(spec_color(k))
            },
        forall|r: int, c: int|
            0 <= r < 4 && 0 <= c < 4 && (#[trigger] spec_preview_cell(k, r, c)) is Some ==> {
                let off: int = if k % 7 == 0 {
                    0
                } else {
                    1
                };
                &&& spec_preview_cell(k, r, c) == Some(spec_color(k))
                &&& exists|i: int|
                    0 <= i < spec_shape(k).len() && spec_shape(k)[i].0 + off == r
                        && spec_shape(k)[i].1 == c
            },
{
    let s = spec_shape(k);
    lemma_shape_facts(k);
    assert forall|i: int| 0 <= i < s.len() implies {
        let off: int = if k % 7 == 0 {
            0
        } else {
            1
        };
        let cell = #[trigger] s[i];
        &&& cell.0 + off < 4
        &&& cell.1 < 4
        &&& spec_preview_cell(k, cell.0 + off, cell.1 as int) == Some(spec_color(k))
    } by {
        let off: int = if k % 7 == 0 {
            0
        } else {
            1
        };
        assert(s.contains(s[i]));
        assert(((s[i].0 + off - off) as u16, (s[i].1 as int) as u16) == s[i]);
    }
    assert forall|r: int, c: int|
        0 <= r < 4 && 0 <= c < 4 && (#[trigger] spec_preview_cell(k, r, c)) is Some implies {
        let off: int = if k % 7 == 0 {
            0
        } else {
            1
        };
        &&& spec_preview_cell(k, r, c) == Some(spec_color(k))
        &&& exists|i: int| 0 <= i < s.len() && s[i].0 + off == r && s[i].1 == c
    } by {
        let off: int = if k % 7 == 0 {
            0
        } else {
            1
        };
        let i = choose|i: int| 0 <= i < s.len() && s[i] == ((r - off) as u16, c as u16);
        assert(s[i].0 + off == r && s[i].1 == c);
    }
}

/// Whether `cells` holds `(row, col)`.
fn holds_cell(cells: &[(u16, u16)], row: u16, col: u16) -> (b: bool)
    ensures
        b == cells@.contains((row, col)),
{
    let n = cells.len();
    let mut i: usize = 0;
    while i < n
        invariant
            i <= n,
            n == cells@.len(),
            forall|j: int| 0 <= j < i ==> cells@[j] != (row, col),
        decreases n - i,
    {
        if cells[i].0 == row && cells[i].1 == col {
            assert(cells@[i as int] == (row, col));
            return true;
        }
        i = i + 1;
    }
    false
}

/// The cells that `shape` covers with its corner at `(row, col)`, within `rows` by `cols`.
fn covered_cells(shape: &[CellOffset], row: u16, col: u16, rows: u16, cols: u16) -> (v: Vec<(u16, u16)>)
    ensures
        v@ == piece_cells(shape@, row, col, rows as nat, cols as nat),
{
    let mut v: Vec<(u16, u16)> = Vec::new();
    let n = shape.len();
    let mut i: usize = 0;
    while i < n
        invariant
            i <= n,
            n == shape@.len(),
            v@ == piece_cells(shape@.take(i as int), row, col, rows as nat, cols as nat),
        decreases n - i,
    {
        assert(shape@.take(i + 1).drop_last() =~= shape@.take(i as int));
        let (dr, dc) = shape[i];
        let r = row.saturating_add(dr);
        let c = col.saturating_add(dc);
        if r < rows && c < cols {
            v.push((r, c));
        }
        i = i + 1;
    }
    assert(shape@.take(n as int) =~= shape@);
    v
}

/// A copy of `s`.
fn copy_cells(s: &[CellOffset]) -> (v: Vec<CellOffset>)
    ensures
        v@ == s@,
{
    let mut v: Vec<CellOffset> = Vec::new();
    let n = s.len();
    let mut i: usize = 0;
    while i < n
        invariant
            i <= n,
            n == s@.len(),
            v@ == s@.take(i as int),
        decreases n - i,
    {
        v.push(s[i]);
        assert(s@.take(i + 1) =~= s@.take(i as int).push(s@[i as int]));
        i = i + 1;
    }
    assert(s@.take(n as int) =~= s@);
    v
}

impl BlockStackRenderer {
    /// Where piece number `settled_count` (the one after the settled pieces) is
    /// headed while the session runs: `None` while it is paused or completed, where
    /// the board is full, or where the piece does not fit at the top.
    pub fn active_placement(
        &self,
        cols: u16,
        rows: u16,
        settled_count: u16,
        visual_state: VisualState,
    ) -> (p: Option<Placement>)
        ensures
            visual_state != VisualState::Running ==> p is None,
            visual_state == VisualState::Running ==> match (p, spec_placement(cols, rows, settled_count)) {
                (Some(pl), Some((col, rot, row))) => {
                    &&& pl.piece_index == settled_count
                    &&& pl.base_shape@ == spec_shape(settled_count as nat)
                    &&& pl.rot == rot
                    &&& pl.final_shape@ == spec_rotate(spec_shape(settled_count as nat), rot)
                    &&& pl.spawn_col == col
                    &&& pl.landing_row == row
                    &&& pl.start_col == (if cols >= spec_width(pl.final_shape@) {
                        (cols - spec_width(pl.final_shape@)) / 2
                    } else {
                        0
                    })
                    &&& pl.color == spec_color(settled_count as nat)
                },
                (None, None) => true,
                _ => false,
            },
    {
        if visual_state != VisualState::Running {
            return None;
        }
        let capacity = self.piece_capacity(cols, rows);
        if settled_count >= capacity {
            return None;
        }

        let settled = self.settled_grid(cols, rows, settled_count);
        proof {
            lemma_shape_facts(settled_count as nat);
            lemma_settled_wf(cols, rows, settled_count as nat);
        }
        let base_shape = self.shape_for(settled_count);
        let (spawn_col, rot) = self.choose_placement(settled.as_slice(), base_shape.as_slice(), settled_count);
        let final_shape = Self::rotate_shape(base_shape.as_slice(), rot);
        proof {
            lemma_rotate_n_bounded(base_shape@, (rot % 4) as nat);
        }

        match self.find_landing_row(settled.as_slice(), final_shape.as_slice(), spawn_col) {
            None => None,
            Some(landing_row) => {
                let width = self.shape_width(final_shape.as_slice());
                let start_col = cols.saturating_sub(width) / 2;
                let color = self.color_for_piece(settled_count);
                Some(
                    Placement {
                        piece_index: settled_count,
                        base_shape,
                        rot,
                        final_shape,
                        spawn_col,
                        landing_row,
                        start_col,
                        color,
                    },
                )
            },
        }
    }

    /// The falling piece headed for `placement`, drawn where `motion` has brought it
    /// on a board of `rows` rows and `cols` columns.
    pub fn active_piece_at(
        &self,
        placement: &Placement,
        motion: PieceMotion,
        cols: u16,
        rows: u16,
    ) -> (a: ActivePiece)
        requires
            bounded_shape(placement.base_shape@),
        ensures
            ({
                let row = if motion.fall_row <= placement.landing_row {
                    motion.fall_row
                } else {
                    placement.landing_row
                };
                let col = if motion.glide_col >= 0 {
                    motion.glide_col as u16
                } else {
                    0u16
                };
                let turn = if motion.turn <= placement.rot {
                    motion.turn
                } else {
                    placement.rot
                };
                a.cells@ == piece_cells(
                    spec_rotate(placement.base_shape@, turn),
                    row,
                    col,
                    rows as nat,
                    cols as nat,
                )
            }),
            a.color == placement.color,
            a.spawn_col == placement.spawn_col,
            a.landing_row == placement.landing_row,
            a.final_shape@ == placement.final_shape@,
    {
        let animated_row = if motion.fall_row <= placement.landing_row {
            motion.fall_row
        } else {
            placement.landing_row
        };
        let animated_col = if motion.glide_col >= 0 {
            motion.glide_col as u16
        } else {
            0
        };
        let animated_rot = if motion.turn <= placement.rot {
            motion.turn
        } else {
            placement.rot
        };
        let animated_shape = Self::rotate_shape(placement.base_shape.as_slice(), animated_rot);
        let cells = covered_cells(animated_shape.as_slice(), animated_row, animated_col, rows, cols);
        ActivePiece {
            cells,
            color: placement.color,
            spawn_col: placement.spawn_col,
            landing_row: placement.landing_row,
            final_shape: copy_cells(placement.final_shape.as_slice()),
        }
    }

    /// The picture of a board of `rows` rows and `cols` columns with the first
    /// `settled_count` pieces settled and, where given, the falling piece `active`
    /// and its landing wireframe: one row of cells per board row.
    pub fn build_frame(
        &self,
        cols: u16,
        rows: u16,
        settled_count: u16,
        active: Option<&ActivePiece>,
        visual_state: VisualState,
    ) -> (frame: Vec<Vec<Cell>>)
        ensures
            cols == 0 || rows == 0 ==> frame@.len() == 0,
            cols > 0 && rows > 0 ==> frame@.len() == rows,
            forall|r: int|
                0 <= r < frame@.len() ==> (#[trigger] frame@[r])@.len() == cols,
            forall|r: int, c: int|
                0 <= r < frame@.len() && 0 <= c < cols ==> (#[trigger] frame@[r]@[c]) == spec_cell(
                    spec_settled(cols, rows, settled_count as nat),
                    active_view(active, rows as nat, cols as nat),
                    visual_state,
                    r as u16,
                    c as u16,
                ),
    {
        let mut lines: Vec<Vec<Cell>> = Vec::new();
        if cols == 0 || rows == 0 {
            return lines;
        }

        let settled = self.settled_grid(cols, rows, settled_count);
        proof {
            lemma_settled_wf(cols, rows, settled_count as nat);
        }
        let ghost b = spec_settled(cols, rows, settled_count as nat);
        let ghost av = active_view(active, rows as nat, cols as nat);

        let ghost_cells: Vec<(u16, u16)> = match active {
            Some(a) => covered_cells(a.final_shape.as_slice(), a.landing_row, a.spawn_col, rows, cols),
            None => Vec::new(),
        };

        let mut row: u16 = 0;
        while row < rows
            invariant
                row <= rows,
                cols > 0,
                b == board_of(settled@),
                wf_board(b),
                b.len() == rows,
                board_cols(b) == cols,
                av == active_view(active, rows as nat, cols as nat),
                av matches Some((_, _, g)) ==> ghost_cells@ == g,
                lines@.len() == row,
                forall|r: int| 0 <= r < row ==> (#[trigger] lines@[r])@.len() == cols,
                forall|r: int, c: int|
                    0 <= r < row && 0 <= c < cols ==> (#[trigger] lines@[r]@[c]) == spec_cell(
                        b,
                        av,
                        visual_state,
                        r as u16,
                        c as u16,
                    ),
            decreases rows - row,
        {
            let mut spans: Vec<Cell> = Vec::new();
            let mut col: u16 = 0;
            assert(b[row as int] == settled@[row as int]@);
            while col < cols
                invariant
                    row < rows,
                    col <= cols,
                    b == board_of(settled@),
                    wf_board(b),
                    b.len() == rows,
                    board_cols(b) == cols,
                    b[row as int] == settled@[row as int]@,
                    av == active_view(active, rows as nat, cols as nat),
                    av matches Some((_, _, g)) ==> ghost_cells@ == g,
                    spans@.len() == col,
                    forall|c: int|
                        0 <= c < col ==> (#[trigger] spans@[c]) == spec_cell(
                            b,
                            av,
                            visual_state,
                            row,
                            c as u16,
                        ),
                decreases cols - col,
            {
                let in_active = visual_state == VisualState::Running && match active {
                    Some(a) => holds_cell(a.cells.as_slice(), row, col),
                    None => false,
                };
                let cell = if in_active {
                    match active {
                        Some(a) => Cell { glyph: Glyph::Solid, tint: Tint::Piece(a.color) },
                        None => Cell { glyph: Glyph::Blank, tint: Tint::Plain },
                    }
                } else if let Some(color) = settled[row as usize][col as usize] {
                    let glyph = if visual_state == VisualState::Paused {
                        Glyph::Shaded
                    } else {
                        Glyph::Solid
                    };
                    let tint = if visual_state == VisualState::Paused || visual_state
                        == VisualState::Completed {
                        Tint::DarkGray
                    } else {
                        Tint::Piece(color)
                    };
                    Cell { glyph, tint }
                } else if active.is_some() && holds_cell(ghost_cells.as_slice(), row, col)
                    && visual_state == VisualState::Running {
                    // ghost is wireframe
                    Cell { glyph: Glyph::Wire, tint: Tint::DarkGray }
                } else {
                    Cell { glyph: Glyph::Blank, tint: Tint::Plain }
                };
                spans.push(cell);
                col = col + 1;
            }
            lines.push(spans);
            row = row + 1;
        }

        lines
    }

    /// The picture of the piece that falls after the `settled_count` settled
    /// ones and the falling one, in a box of four rows of four cells; blank once
    /// the board of `rows` rows and `cols` columns is full.
    pub fn build_next_piece_preview(&self, cols: u16, rows: u16, settled_count: u16) -> (p: Preview)
        ensures
            settled_count >= spec_capacity(cols, rows) <==> p is Blank,
            p matches Preview::Piece(lines) ==> {
                &&& lines@.len() == 4
                &&& forall|r: int| 0 <= r < 4 ==> (#[trigger] lines@[r])@.len() == 4
                &&& forall|r: int, c: int|
                    0 <= r < 4 && 0 <= c < 4 ==> (#[trigger] lines@[r]@[c]) == spec_preview_cell(
                        (settled_count + 1) as nat,
                        r,
                        c,
                    )
            },
    {
        let capacity = self.piece_capacity(cols, rows);
        if settled_count >= capacity {
            return Preview::Blank;
        }

        let next_piece = settled_count + 1;
        let shape = self.shape_for(next_piece);
        let color = self.color_for_piece(next_piece);

        let row_offset: u16 = if next_piece % 7 == 0 {
            0
        } else {
            1
        };

        let mut lines: Vec<Vec<Option<PieceColor>>> = Vec::new();
        let mut r: u16 = 0;
        while r < 4
            invariant
                r <= 4,
                next_piece == settled_count + 1,
                shape@ == spec_shape(next_piece as nat),
                color == spec_color(next_piece as nat),
                row_offset == preview_row_offset(next_piece as nat),
                lines@.len() == r,
                forall|i: int| 0 <= i < r ==> (#[trigger] lines@[i])@.len() == 4,
                forall|i: int, c: int|
                    0 <= i < r && 0 <= c < 4 ==> (#[trigger] lines@[i]@[c]) == spec_preview_cell(
                        next_piece as nat,
                        i,
                        c,
                    ),
            decreases 4 - r,
        {
            let mut spans: Vec<Option<PieceColor>> = Vec::new();
            let mut c: u16 = 0;
            while c < 4
                invariant
                    r < 4,
                    c <= 4,
                    shape@ == spec_shape(next_piece as nat),
                    color == spec_color(next_piece as nat),
                    row_offset == preview_row_offset(next_piece as nat),
                    spans@.len() == c,
                    forall|j: int|
                        0 <= j < c ==> (#[trigger] spans@[j]) == spec_preview_cell(
                            next_piece as nat,
                            r as int,
                            j,
                        ),
                decreases 4 - c,
            {
                if r >= row_offset && holds_cell(shape.as_slice(), r - row_offset, c) {
                    spans.push(Some(color));
                } else {
                    spans.push(None);
                }
                c = c + 1;
            }
            lines.push(spans);
            r = r + 1;
        }
        Preview::Piece(lines)
    }
}

/// The text of a glyph: two terminal columns.
pub fn glyph_text(g: Glyph) -> (t: &'static str)
    ensures
        g == Glyph::Solid ==> t@ == "██"@,
        g == Glyph::Shaded ==> t@ == "░░"@,
        g == Glyph::Wire ==> t@ == "[]"@,
        g == Glyph::Blank ==> t@ == "  "@,
{
    match g {
        Glyph::Solid => "██",
        Glyph::Shaded => "░░",
        Glyph::Wire => "[]",
        Glyph::Blank => "  ",
    }
}

} // verus!
