//! The canvas: a sparse store of Braille cells, addressed by pixel.

use std::collections::BTreeMap;
use vstd::prelude::*;

use crate::braille::{
    dot, dot_mask, glyph, glyph_of, is_glyph, lemma_dot_mask_distinct, lemma_dot_mask_is_dot,
    lemma_flip, lemma_glyph, lemma_lower, lemma_raise,
};
use crate::line::{line_point, line_points, line_steps, point_at, points_view, steps};
use crate::text::{join, join_lines, lemma_join_lines_chars, lines_view, push_char};

verus! {

/// What a canvas holds, as mathematics.
///
/// Pixels have integer coordinates `(x, y)`; pixel `(x, y)` lives in cell
/// `(x / 2, y / 4)`. A cell is named by its column and its row, in that order.
pub struct CanvasView {
    /// Mask of every cell that was ever written since the canvas was last
    /// cleared. A stored cell may have the empty mask.
    pub cells: Map<(int, int), u8>,
    /// Last column that is rendered even if no cell is stored so far out.
    pub width: nat,
    /// Last row that is rendered even if no cell is stored so far out.
    pub height: nat,
}

impl CanvasView {
    /// The cell that holds pixel `(x, y)`.
    pub open spec fn cell_of(x: int, y: int) -> (int, int) {
        (x / 2, y / 4)
    }

    /// The canvas made for a given size in pixels, with no cell stored.
    pub open spec fn blank(pixel_width: int, pixel_height: int) -> CanvasView {
        CanvasView {
            cells: Map::empty(),
            width: (pixel_width / 2) as nat,
            height: (pixel_height / 4) as nat,
        }
    }

    /// Mask of `cell`; a cell that is not stored reads as empty.
    pub open spec fn mask_at(self, cell: (int, int)) -> u8 {
        if self.cells.contains_key(cell) {
            self.cells[cell]
        } else {
            0
        }
    }

    /// The canvas with `mask` stored for `cell`.
    pub open spec fn with_mask(self, cell: (int, int), mask: u8) -> CanvasView {
        CanvasView { cells: self.cells.insert(cell, mask), ..self }
    }

    /// Whether pixel `(x, y)` is lit.
    pub open spec fn get(self, x: int, y: int) -> bool {
        self.mask_at(Self::cell_of(x, y)) & dot_mask(x, y) != 0
    }

    /// The canvas with pixel `(x, y)` lit.
    pub open spec fn set(self, x: int, y: int) -> CanvasView {
        let cell = Self::cell_of(x, y);
        self.with_mask(cell, self.mask_at(cell) | dot_mask(x, y))
    }

    /// The canvas with pixel `(x, y)` dark.
    pub open spec fn unset(self, x: int, y: int) -> CanvasView {
        let cell = Self::cell_of(x, y);
        self.with_mask(cell, self.mask_at(cell) & !dot_mask(x, y))
    }

    /// The canvas with pixel `(x, y)` inverted.
    pub open spec fn toggle(self, x: int, y: int) -> CanvasView {
        let cell = Self::cell_of(x, y);
        self.with_mask(cell, self.mask_at(cell) ^ dot_mask(x, y))
    }

    /// The canvas with no cell stored and its declared size kept.
    pub open spec fn clear(self) -> CanvasView {
        CanvasView { cells: Map::empty(), ..self }
    }

    /// The canvas declared `pixel_width` pixels wide.
    pub open spec fn with_pixel_width(self, pixel_width: int) -> CanvasView {
        CanvasView { width: (pixel_width / 2) as nat, ..self }
    }

    /// The canvas declared `pixel_height` pixels high.
    pub open spec fn with_pixel_height(self, pixel_height: int) -> CanvasView {
        CanvasView { height: (pixel_height / 4) as nat, ..self }
    }

    /// The canvas after lighting the pixels `points`, first to last.
    pub open spec fn plot(self, points: Seq<(int, int)>) -> CanvasView
        decreases points.len(),
    {
        if points.len() == 0 {
            self
        } else {
            self.plot(points.drop_last()).set(points.last().0, points.last().1)
        }
    }

    /// The canvas after drawing the segment from `(x1, y1)` to `(x2, y2)`.
    pub open spec fn line(self, x1: int, y1: int, x2: int, y2: int) -> CanvasView {
        self.plot(line_points(x1, y1, x2, y2))
    }

    /// Whether `col` is the last rendered column: the declared width, or the
    /// column of the stored cell furthest out if that lies beyond.
    pub open spec fn is_last_col(self, col: int) -> bool {
        &&& col >= self.width
        &&& forall|k: (int, int)| #[trigger] self.cells.contains_key(k) ==> k.0 <= col
        &&& (col == self.width || exists|k: (int, int)| #[trigger]
            self.cells.contains_key(k) && k.0 == col)
    }

    /// Whether `row` is the last rendered row: the declared height, or the row
    /// of the stored cell furthest down if that lies beyond.
    pub open spec fn is_last_row(self, row: int) -> bool {
        &&& row >= self.height
        &&& forall|k: (int, int)| #[trigger] self.cells.contains_key(k) ==> k.1 <= row
        &&& (row == self.height || exists|k: (int, int)| #[trigger]
            self.cells.contains_key(k) && k.1 == row)
    }

    /// The last rendered column.
    pub open spec fn last_col(self) -> int {
        choose|col: int| self.is_last_col(col)
    }

    /// The last rendered row.
    pub open spec fn last_row(self) -> int {
        choose|row: int| self.is_last_row(row)
    }

    /// The text of row `row`: one character for each column from 0 to the
    /// last rendered column.
    pub open spec fn row(self, row: int) -> Seq<char> {
        Seq::new((self.last_col() + 1) as nat, |col: int| glyph(self.mask_at((col, row))))
    }

    /// The rendered rows, from row 0 to the last rendered row.
    pub open spec fn rows(self) -> Seq<Seq<char>> {
        Seq::new((self.last_row() + 1) as nat, |row: int| self.row(row))
    }

    /// The rendered text: the rows, separated by line feeds.
    pub open spec fn frame(self) -> Seq<char> {
        join_lines(self.rows())
    }

    /// The last rendered column is determined by the canvas.
    pub proof fn lemma_last_col_unique(self, col: int)
        requires
            self.is_last_col(col),
        ensures
            self.last_col() == col,
    {
        let chosen = self.last_col();
        assert(self.is_last_col(chosen));
    }

    /// The last rendered row is determined by the canvas.
    pub proof fn lemma_last_row_unique(self, row: int)
        requires
            self.is_last_row(row),
        ensures
            self.last_row() == row,
    {
        let chosen = self.last_row();
        assert(self.is_last_row(chosen));
    }

    /// A canvas with finitely many stored cells has a last rendered column and
    /// a last rendered row.
    pub proof fn lemma_extent_exists(self)
        requires
            self.cells.dom().finite(),
        ensures
            self.is_last_col(self.last_col()),
            self.is_last_row(self.last_row()),
        decreases self.cells.dom().len(),
    {
        if self.cells.dom().len() == 0 {
            assert forall|k: (int, int)| !self.cells.contains_key(k) by {
                if self.cells.dom().contains(k) {
                    assert(self.cells.dom().len() > 0);
                }
            }
            assert(self.is_last_col(self.width as int));
            assert(self.is_last_row(self.height as int));
        } else {
            let cell = self.cells.dom().choose();
            let rest = CanvasView { cells: self.cells.remove(cell), ..self };
            rest.lemma_extent_exists();
            let col = if cell.0 > rest.last_col() {
                cell.0
            } else {
                rest.last_col()
            };
            let row = if cell.1 > rest.last_row() {
                cell.1
            } else {
                rest.last_row()
            };
            assert(self.cells.contains_key(cell));
            assert forall|k: (int, int)| #[trigger] self.cells.contains_key(k) implies k.0 <= col
                && k.1 <= row by {
                if k != cell {
                    assert(rest.cells.contains_key(k));
                }
            }
            if col != self.width && col != cell.0 {
                let k = choose|k: (int, int)| #[trigger]
                    rest.cells.contains_key(k) && k.0 == col;
                assert(self.cells.contains_key(k));
            }
            if row != self.height && row != cell.1 {
                let k = choose|k: (int, int)| #[trigger]
                    rest.cells.contains_key(k) && k.1 == row;
                assert(self.cells.contains_key(k));
            }
            assert(self.is_last_col(col));
            assert(self.is_last_row(row));
        }
    }

    /// A pixel reads as lit once it has been lit, and lighting it changes no
    /// other pixel.
    pub proof fn lemma_set_get(self, x: int, y: int)
        ensures
            self.set(x, y).get(x, y),
            forall|a: int, b: int|
                (a, b) != (x, y) ==> #[trigger] self.set(x, y).get(a, b) == self.get(a, b),
    {
        let cell = Self::cell_of(x, y);
        lemma_dot_mask_is_dot(x, y);
        lemma_raise(self.mask_at(cell), dot_mask(x, y), dot_mask(x, y));
        assert forall|a: int, b: int| (a, b) != (x, y) implies #[trigger] self.set(x, y).get(a, b)
            == self.get(a, b) by {
            if Self::cell_of(a, b) == cell {
                lemma_dot_mask_is_dot(a, b);
                lemma_dot_mask_distinct(x, y, a, b);
                lemma_raise(self.mask_at(cell), dot_mask(x, y), dot_mask(a, b));
            }
        }
    }

    /// A pixel reads as dark once it has been darkened, and darkening it
    /// changes no other pixel.
    pub proof fn lemma_unset_get(self, x: int, y: int)
        ensures
            !self.unset(x, y).get(x, y),
            forall|a: int, b: int|
                (a, b) != (x, y) ==> #[trigger] self.unset(x, y).get(a, b) == self.get(a, b),
    {
        let cell = Self::cell_of(x, y);
        lemma_dot_mask_is_dot(x, y);
        lemma_lower(self.mask_at(cell), dot_mask(x, y), dot_mask(x, y));
        assert forall|a: int, b: int| (a, b) != (x, y) implies #[trigger] self.unset(x, y).get(
            a,
            b,
        ) == self.get(a, b) by {
            if Self::cell_of(a, b) == cell {
                lemma_dot_mask_is_dot(a, b);
                lemma_dot_mask_distinct(x, y, a, b);
                lemma_lower(self.mask_at(cell), dot_mask(x, y), dot_mask(a, b));
            }
        }
    }

    /// A pixel that is lit and then darkened reads as dark.
    pub proof fn lemma_set_unset_get(self, x: int, y: int)
        ensures
            !self.set(x, y).unset(x, y).get(x, y),
    {
        self.set(x, y).lemma_unset_get(x, y);
    }

    /// Inverting a pixel inverts its reading and changes no other pixel.
    pub proof fn lemma_toggle_get(self, x: int, y: int)
        ensures
            self.toggle(x, y).get(x, y) == !self.get(x, y),
            forall|a: int, b: int|
                (a, b) != (x, y) ==> #[trigger] self.toggle(x, y).get(a, b) == self.get(a, b),
    {
        let cell = Self::cell_of(x, y);
        lemma_dot_mask_is_dot(x, y);
        lemma_flip(self.mask_at(cell), dot_mask(x, y), dot_mask(x, y));
        assert forall|a: int, b: int| (a, b) != (x, y) implies #[trigger] self.toggle(x, y).get(
            a,
            b,
        ) == self.get(a, b) by {
            if Self::cell_of(a, b) == cell {
                lemma_dot_mask_is_dot(a, b);
                lemma_dot_mask_distinct(x, y, a, b);
                lemma_flip(self.mask_at(cell), dot_mask(x, y), dot_mask(a, b));
            }
        }
    }

    /// Inverting a pixel twice restores the mask of every cell, and with it
    /// the reading of every pixel.
    pub proof fn lemma_toggle_twice(self, x: int, y: int)
        ensures
            forall|cell: (int, int)| #[trigger]
                self.toggle(x, y).toggle(x, y).mask_at(cell) == self.mask_at(cell),
            forall|a: int, b: int| #[trigger]
                self.toggle(x, y).toggle(x, y).get(a, b) == self.get(a, b),
    {
        lemma_dot_mask_is_dot(x, y);
        lemma_flip(self.mask_at(Self::cell_of(x, y)), dot_mask(x, y), dot_mask(x, y));
    }

    /// A cleared canvas has no lit pixel.
    pub proof fn lemma_clear_get(self, x: int, y: int)
        ensures
            !self.clear().get(x, y),
    {
        let d = dot_mask(x, y);
        assert(0u8 & d == 0u8) by (bit_vector);
    }

    /// A cleared canvas renders as spaces alone, in as many rows and columns
    /// as its declared size asks for.
    pub proof fn lemma_clear_rows(self)
        ensures
            self.clear().rows() == Seq::new(
                self.height + 1,
                |row: int| Seq::new(self.width + 1, |col: int| ' '),
            ),
    {
        let cleared = self.clear();
        cleared.lemma_last_col_unique(self.width as int);
        cleared.lemma_last_row_unique(self.height as int);
        assert forall|row: int| 0 <= row <= self.height implies #[trigger] cleared.row(row)
            == Seq::new(self.width + 1, |col: int| ' ') by {
            assert(cleared.row(row) =~= Seq::new(self.width + 1, |col: int| ' '));
        }
        assert(cleared.rows() =~= Seq::new(
            self.height + 1,
            |row: int| Seq::new(self.width + 1, |col: int| ' '),
        ));
    }

    /// Rendered text is made of spaces, line feeds and Braille patterns with
    /// at least one dot raised.
    pub proof fn lemma_frame_chars(self, i: int)
        requires
            0 <= i < self.frame().len(),
        ensures
            self.frame()[i] == '\n' || is_glyph(self.frame()[i]),
    {
        let allowed = |c: char| c == '\n' || is_glyph(c);
        assert forall|r: int, j: int|
            0 <= r < self.rows().len() && 0 <= j < self.rows()[r].len() implies allowed(
            #[trigger] self.rows()[r][j],
        ) by {
            lemma_glyph(self.mask_at((j, r)), 0);
        }
        lemma_join_lines_chars(self.rows(), allowed);
        assert(allowed(self.frame()[i]));
    }

    /// After lighting a list of pixels, a pixel is lit if it was lit before
    /// or is in the list, and only then.
    pub proof fn lemma_plot_get(self, points: Seq<(int, int)>, x: int, y: int)
        ensures
            self.plot(points).get(x, y) == (self.get(x, y) || points.contains((x, y))),
        decreases points.len(),
    {
        if points.len() > 0 {
            let before = self.plot(points.drop_last());
            let p = points.last();
            self.lemma_plot_get(points.drop_last(), x, y);
            before.lemma_set_get(p.0, p.1);
            if points.drop_last().contains((x, y)) {
                let i = choose|i: int|
                    0 <= i < points.drop_last().len() && points.drop_last()[i] == (x, y);
                assert(points[i] == (x, y));
            }
            if points.contains((x, y)) && p != (x, y) {
                let i = choose|i: int| 0 <= i < points.len() && points[i] == (x, y);
                assert(points.drop_last()[i] == (x, y));
            }
            if p == (x, y) {
                assert(points[points.len() - 1] == (x, y));
            } else {
                assert(before.set(p.0, p.1).get(x, y) == before.get(x, y));
            }
        }
    }

    /// After drawing a segment, a pixel is lit if it was lit before or is a
    /// point of the segment, and only then.
    pub proof fn lemma_line_get(self, x1: int, y1: int, x2: int, y2: int, x: int, y: int)
        ensures
            self.line(x1, y1, x2, y2).get(x, y) == (self.get(x, y) || line_points(
                x1,
                y1,
                x2,
                y2,
            ).contains((x, y))),
    {
        self.lemma_plot_get(line_points(x1, y1, x2, y2), x, y);
    }
}

/// A canvas of pixels, rendered as Braille text.
#[derive(Clone, Debug, PartialEq, Eq)]
pub struct Canvas {
    chars: BTreeMap<(usize, usize), u8>,
    width: usize,
    height: usize,
}

/// Whether a cell of the model can be a key of the store.
spec fn storable(cell: (int, int)) -> bool {
    0 <= cell.0 <= usize::MAX && 0 <= cell.1 <= usize::MAX
}

/// The store's key for a cell of the model.
spec fn key_of(cell: (int, int)) -> (usize, usize) {
    (cell.0 as usize, cell.1 as usize)
}

impl View for Canvas {
    type V = CanvasView;

    closed spec fn view(&self) -> CanvasView {
        CanvasView {
            cells: Map::new(
                |cell: (int, int)| storable(cell) && self.chars@.contains_key(key_of(cell)),
                |cell: (int, int)| self.chars@[key_of(cell)],
            ),
            width: self.width as nat,
            height: self.height as nat,
        }
    }
}

impl Canvas {
    /// The invariant of a canvas: no stored cell and no declared size lies
    /// further out than a pixel coordinate can reach.
    pub closed spec fn wf(&self) -> bool {
        &&& self.width <= usize::MAX / 2
        &&& self.height <= usize::MAX / 4
        &&& forall|k: (usize, usize)| #[trigger]
            self.chars@.contains_key(k) ==> k.0 <= usize::MAX / 2 && k.1 <= usize::MAX / 4
    }

    /// Every canvas stores finitely many cells, none of them at a negative
    /// column or row, and so has a last rendered column and row.
    pub proof fn lemma_view_bounded(&self)
        ensures
            self@.cells.dom().finite(),
            forall|k: (int, int)| #[trigger] self@.cells.contains_key(k) ==> 0 <= k.0 && 0 <= k.1,
            self@.is_last_col(self@.last_col()),
            self@.is_last_row(self@.last_row()),
    {
        let cell_of_key = |k: (usize, usize)| (k.0 as int, k.1 as int);
        self.chars@.dom().lemma_map_finite(cell_of_key);
        let cells = self.chars@.dom().map(cell_of_key);
        assert(self@.cells.dom() =~= cells) by {
            assert forall|cell: (int, int)| self@.cells.dom().contains(cell) implies cells.contains(
                cell,
            ) by {
                assert(self.chars@.dom().contains(key_of(cell)));
                assert(cell_of_key(key_of(cell)) == cell);
            }
        }
        self@.lemma_extent_exists();
    }

    /// Makes an empty canvas that renders at least `width` by `height` pixels.
    pub fn new(width: usize, height: usize) -> (canvas: Canvas)
        ensures
            canvas.wf(),
            canvas@ == CanvasView::blank(width as int, height as int),
    {
        let canvas = Canvas { chars: BTreeMap::new(), width: width / 2, height: height / 4 };
        assert(canvas@.cells =~= Map::empty());
        canvas
    }

    /// Forgets every stored cell; the declared size stays.
    pub fn clear(&mut self)
        requires
            old(self).wf(),
        ensures
            final(self).wf(),
            final(self)@ == old(self)@.clear(),
    {
        self.chars.clear();
        assert(self@.cells =~= Map::empty());
    }

    /// Mask of the cell in column `col` and row `row`.
    fn mask(&self, col: usize, row: usize) -> (m: u8)
        ensures
            m == self@.mask_at((col as int, row as int)),
    {
        assert(storable((col as int, row as int)));
        match self.chars.get(&(col, row)) {
            Some(m) => *m,
            None => 0,
        }
    }

    /// Stores `mask` for the cell that holds pixel `(x, y)`.
    fn store(&mut self, x: usize, y: usize, mask: u8)
        requires
            old(self).wf(),
        ensures
            final(self).wf(),
            final(self)@ == old(self)@.with_mask(CanvasView::cell_of(x as int, y as int), mask),
    {
        self.chars.insert((x / 2, y / 4), mask);
        assert(self@.cells =~= old(self)@.cells.insert(
            CanvasView::cell_of(x as int, y as int),
            mask,
        )) by {
            assert(storable(CanvasView::cell_of(x as int, y as int)));
            assert(key_of(CanvasView::cell_of(x as int, y as int)) == (x / 2, y / 4));
        }
    }

    /// Lights pixel `(x, y)`.
    pub fn set(&mut self, x: usize, y: usize)
        requires
            old(self).wf(),
        ensures
            final(self).wf(),
            final(self)@ == old(self)@.set(x as int, y as int),
    {
        let mask = self.mask(x / 2, y / 4);
        self.store(x, y, mask | dot(x, y));
    }

    /// Darkens pixel `(x, y)`.
    pub fn unset(&mut self, x: usize, y: usize)
        requires
            old(self).wf(),
        ensures
            final(self).wf(),
            final(self)@ == old(self)@.unset(x as int, y as int),
    {
        let mask = self.mask(x / 2, y / 4);
        self.store(x, y, mask & !dot(x, y));
    }

    /// Inverts pixel `(x, y)`.
    pub fn toggle(&mut self, x: usize, y: usize)
        requires
            old(self).wf(),
        ensures
            final(self).wf(),
            final(self)@ == old(self)@.toggle(x as int, y as int),
    {
        let mask = self.mask(x / 2, y / 4);
        self.store(x, y, mask ^ dot(x, y));
    }

    /// Whether pixel `(x, y)` is lit.
    pub fn get(&self, x: usize, y: usize) -> (lit: bool)
        ensures
            lit == self@.get(x as int, y as int),
    {
        self.mask(x / 2, y / 4) & dot(x, y) != 0
    }

    /// The pixels of the segment from `(x1, y1)` to `(x2, y2)`, in drawing
    /// order. The segment must be short enough for a vector to hold its points.
    pub fn line_vec(&self, x1: usize, y1: usize, x2: usize, y2: usize) -> (points: Vec<
        (usize, usize),
    >)
        requires
            line_steps(x1 as int, y1 as int, x2 as int, y2 as int) < usize::MAX,
        ensures
            points@.len() == line_steps(x1 as int, y1 as int, x2 as int, y2 as int) + 1,
            points_view(points@) == line_points(x1 as int, y1 as int, x2 as int, y2 as int),
    {
        let r = steps(x1, y1, x2, y2);
        let mut points: Vec<(usize, usize)> = Vec::new();
        let mut i: usize = 0;
        while i <= r
            invariant
                r == line_steps(x1 as int, y1 as int, x2 as int, y2 as int),
                r < usize::MAX,
                i <= r + 1,
                points@.len() == i,
                forall|j: int|
                    0 <= j < i ==> (#[trigger] points@[j].0 as int, points@[j].1 as int)
                        == line_point(x1 as int, y1 as int, x2 as int, y2 as int, j),
            decreases r + 1 - i,
        {
            points.push(point_at(x1, y1, x2, y2, i));
            i += 1;
        }
        assert(points_view(points@) =~= line_points(x1 as int, y1 as int, x2 as int, y2 as int));
        points
    }

    /// Lights every pixel of the segment from `(x1, y1)` to `(x2, y2)`.
    pub fn line(&mut self, x1: usize, y1: usize, x2: usize, y2: usize)
        requires
            old(self).wf(),
        ensures
            final(self).wf(),
            final(self)@ == old(self)@.line(x1 as int, y1 as int, x2 as int, y2 as int),
    {
        let r = steps(x1, y1, x2, y2);
        let ghost points = line_points(x1 as int, y1 as int, x2 as int, y2 as int);
        let mut i: usize = 0;
        loop
            invariant_except_break
                i <= r,
                self@ == old(self)@.plot(points.take(i as int)),
            invariant
                self.wf(),
                r == line_steps(x1 as int, y1 as int, x2 as int, y2 as int),
                points == line_points(x1 as int, y1 as int, x2 as int, y2 as int),
            ensures
                self@ == old(self)@.plot(points),
            decreases r - i,
        {
            let p = point_at(x1, y1, x2, y2, i);
            self.set(p.0, p.1);
            proof {
                assert(points.take(i + 1).drop_last() == points.take(i as int));
                assert(points.take(i + 1).last() == (p.0 as int, p.1 as int));
            }
            if i == r {
                assert(points.take(i + 1) == points);
                break ;
            }
            i += 1;
        }
    }

    /// Declares the canvas `pixel_width` pixels wide. Stored cells stay.
    pub fn set_pixel_width(&mut self, pixel_width: usize)
        requires
            old(self).wf(),
        ensures
            final(self).wf(),
            final(self)@ == old(self)@.with_pixel_width(pixel_width as int),
    {
        self.width = pixel_width / 2;
    }

    /// Declares the canvas `pixel_height` pixels high. Stored cells stay.
    pub fn set_pixel_height(&mut self, pixel_height: usize)
        requires
            old(self).wf(),
        ensures
            final(self).wf(),
            final(self)@ == old(self)@.with_pixel_height(pixel_height as int),
    {
        self.height = pixel_height / 4;
    }

    /// The last rendered column and the last rendered row.
    fn extent(&self) -> (last: (usize, usize))
        requires
            self.wf(),
        ensures
            last.0 == self@.last_col(),
            last.1 == self@.last_row(),
            last.0 < usize::MAX,
            last.1 < usize::MAX,
    {
        let mut col = self.width;
        let mut row = self.height;
        for key in keys: self.chars.keys()
            invariant
                self.wf(),
                self.width <= col <= usize::MAX / 2,
                self.height <= row <= usize::MAX / 4,
                forall|i: int| 0 <= i < keys.index() ==> (#[trigger] keys.seq()[i]).0 <= col,
                forall|i: int| 0 <= i < keys.index() ==> (#[trigger] keys.seq()[i]).1 <= row,
                col == self.width || exists|k: (usize, usize)| #[trigger]
                    self.chars@.contains_key(k) && k.0 == col,
                row == self.height || exists|k: (usize, usize)| #[trigger]
                    self.chars@.contains_key(k) && k.1 == row,
        {
            assert(self.chars@.contains_key(*key));
            if key.0 > col {
                col = key.0;
            }
            if key.1 > row {
                row = key.1;
            }
        }
        proof {
            assert forall|k: (int, int)| #[trigger] self@.cells.contains_key(k) implies k.0 <= col
                && k.1 <= row by {
                assert(self.chars@.contains_key(key_of(k)));
            }
            if col != self.width {
                let k = choose|k: (usize, usize)| #[trigger]
                    self.chars@.contains_key(k) && k.0 == col;
                assert(storable((k.0 as int, k.1 as int)));
                assert(self@.cells.contains_key((k.0 as int, k.1 as int)));
            }
            if row != self.height {
                let k = choose|k: (usize, usize)| #[trigger]
                    self.chars@.contains_key(k) && k.1 == row;
                assert(storable((k.0 as int, k.1 as int)));
                assert(self@.cells.contains_key((k.0 as int, k.1 as int)));
            }
            self@.lemma_last_col_unique(col as int);
            self@.lemma_last_row_unique(row as int);
        }
        (col, row)
    }

    /// The text of row `row`, from column 0 to column `last_col`.
    fn render_row(&self, row: usize, last_col: usize) -> (text: String)
        requires
            last_col == self@.last_col(),
            last_col < usize::MAX,
        ensures
            text@ == self@.row(row as int),
    {
        let mut text = String::new();
        let mut col: usize = 0;
        while col <= last_col
            invariant
                last_col == self@.last_col(),
                last_col < usize::MAX,
                col <= last_col + 1,
                text@ == self@.row(row as int).take(col as int),
            decreases last_col + 1 - col,
        {
            push_char(&mut text, glyph_of(self.mask(col, row)));
            assert(self@.row(row as int).take(col + 1) == self@.row(row as int).take(
                col as int,
            ).push(self@.row(row as int)[col as int]));
            col += 1;
        }
        assert(self@.row(row as int).take(col as int) == self@.row(row as int));
        text
    }

    /// The rendered rows, top to bottom: one string for each row from 0 to the
    /// last rendered row, one character for each column from 0 to the last
    /// rendered column.
    pub fn rows(&self) -> (rows: Vec<String>)
        requires
            self.wf(),
        ensures
            lines_view(rows@) == self@.rows(),
    {
        let (last_col, last_row) = self.extent();
        let mut rows: Vec<String> = Vec::new();
        let mut next: usize = 0;
        while next <= last_row
            invariant
                last_col == self@.last_col(),
                last_row == self@.last_row(),
                last_col < usize::MAX,
                last_row < usize::MAX,
                next <= last_row + 1,
                rows@.len() == next,
                forall|i: int| 0 <= i < next ==> (#[trigger] rows@[i])@ == self@.row(i),
            decreases last_row + 1 - next,
        {
            rows.push(self.render_row(next, last_col));
            next += 1;
        }
        assert(lines_view(rows@) =~= self@.rows());
        rows
    }

    /// The rendered text: the rows, separated by line feeds, with no line feed
    /// after the last row.
    pub fn frame(&self) -> (text: String)
        requires
            self.wf(),
        ensures
            text@ == self@.frame(),
    {
        join(&self.rows())
    }
}

/// Rendering is repeatable: whatever text `frame` returns for a canvas, it
/// returns the same text whenever it is called on that canvas again.
pub proof fn lemma_frame_repeatable(canvas: &Canvas, first: String, second: String)
    requires
        call_ensures(Canvas::frame, (canvas,), first),
        call_ensures(Canvas::frame, (canvas,), second),
    ensures
        first@ == second@,
{
}

} // verus!
