//! A damage-tracked character grid: writes mark the cells whose glyph
//! changed, and a flush draws only those, moving the cursor only where the
//! cells drawn are not side by side.
use vstd::prelude::*;
use vstd::arithmetic::div_mod::{
    lemma_div_pos_is_pos, lemma_fundamental_div_mod, lemma_fundamental_div_mod_converse_div,
    lemma_fundamental_div_mod_converse_mod, lemma_mod_pos_bound,
};
use crate::chars::chars_of;

verus! {

/// A cell position. Points order row first, then column (the order in which
/// the fields are declared), which is the order in which cells are drawn.
#[derive(Clone, Copy, PartialEq, Eq, PartialOrd, Ord, Debug, Structural)]
pub struct Point {
    pub y: usize,
    pub x: usize,
}

/// One step of terminal output.
#[derive(Clone, Copy, PartialEq, Eq, Debug, Structural)]
pub enum DrawOp {
    /// Wipe the whole screen.
    ClearScreen,
    /// Put the cursor at column `x`, row `y` (both from zero).
    MoveTo { x: usize, y: usize },
    /// Draw a glyph at the cursor, which then moves one column right.
    Glyph(char),
}

/// The abstract state of a grid: its size, the glyph of each cell (row by
/// row), which cells are dirty, and the two whole-screen flags.
pub struct GridState {
    pub w: usize,
    pub h: usize,
    pub cells: Seq<char>,
    pub dirty: Seq<bool>,
    pub redraw_all: bool,
    pub clear_all: bool,
}

/// `n` blank cells.
pub open spec fn blank_cells(n: nat) -> Seq<char> {
    Seq::new(n, |i: int| ' ')
}

/// `n` dirty marks, all clear.
pub open spec fn clean(n: nat) -> Seq<bool> {
    Seq::new(n, |i: int| false)
}

/// The glyph that writing `text` at `loc` puts in cell `i`, if it reaches
/// that cell: characters go one column apart along the row of `loc`, and
/// those past the right edge are dropped.
pub open spec fn written_glyph(s: GridState, loc: Point, text: Seq<char>, i: int) -> Option<char> {
    if s.w > 0 && 0 <= i < s.cells.len() && i / (s.w as int) == loc.y && loc.x <= i % (s.w as int)
        && i % (s.w as int) - loc.x < text.len() {
        Some(text[i % (s.w as int) - loc.x])
    } else {
        None
    }
}

/// The grid after writing `text` at `loc`: each cell reached takes its new
/// glyph, and becomes dirty if that glyph differs from the one it held.
pub open spec fn written(s: GridState, loc: Point, text: Seq<char>) -> GridState {
    GridState {
        cells: Seq::new(
            s.cells.len(),
            |i: int|
                match written_glyph(s, loc, text, i) {
                    Some(c) => c,
                    None => s.cells[i],
                },
        ),
        dirty: Seq::new(
            s.dirty.len(),
            |i: int|
                s.dirty[i] || match written_glyph(s, loc, text, i) {
                    Some(c) => c != s.cells[i],
                    None => false,
                },
        ),
        ..s
    }
}

/// The cells that a flush draws among the first `n`, in row-major order:
/// all of them after a resize or a clear, else the dirty ones.
pub open spec fn marked(s: GridState, n: int) -> Seq<int>
    decreases n,
{
    if n <= 0 {
        Seq::empty()
    } else {
        marked(s, n - 1) + if s.redraw_all || s.dirty[n - 1] {
            seq![n - 1]
        } else {
            Seq::empty()
        }
    }
}

/// Whether cell `i` stands right after cell `p` on the same row.
pub open spec fn contiguous(p: int, i: int, w: int) -> bool {
    p / w == i / w && i % w == p % w + 1
}

/// Drawing the glyph of cell `i`.
pub open spec fn glyph_op(cells: Seq<char>, i: int) -> DrawOp {
    DrawOp::Glyph(cells[i])
}

/// Moving the cursor to cell `i` of a grid `w` cells wide.
pub open spec fn move_op(i: int, w: int) -> DrawOp {
    DrawOp::MoveTo { x: (i % w) as usize, y: (i / w) as usize }
}

/// The drawing of the cells `idx` in turn: each glyph, preceded by a cursor
/// move unless its cell stands right after the one drawn before it.
pub open spec fn cell_ops(cells: Seq<char>, w: int, idx: Seq<int>) -> Seq<DrawOp>
    decreases idx.len(),
{
    if idx.len() == 0 {
        Seq::empty()
    } else {
        let i = idx.last();
        let rest = idx.drop_last();
        if rest.len() > 0 && contiguous(rest.last(), i, w) {
            cell_ops(cells, w, rest).push(glyph_op(cells, i))
        } else {
            cell_ops(cells, w, rest).push(move_op(i, w)).push(glyph_op(cells, i))
        }
    }
}

proof fn lemma_cell_ops_push(cells: Seq<char>, w: int, idx: Seq<int>, i: int)
    ensures
        cell_ops(cells, w, idx.push(i)) == if idx.len() > 0 && contiguous(idx.last(), i, w) {
            cell_ops(cells, w, idx).push(glyph_op(cells, i))
        } else {
            cell_ops(cells, w, idx).push(move_op(i, w)).push(glyph_op(cells, i))
        },
{
    let m = idx.push(i);
    assert(m.drop_last() =~= idx);
    assert(m.last() == i);
}

/// What a flush of `s` emits: a screen clear if one is pending, then the
/// drawing of the marked cells.
pub open spec fn flush_ops(s: GridState) -> Seq<DrawOp> {
    (if s.clear_all {
        seq![DrawOp::ClearScreen]
    } else {
        Seq::empty()
    }) + cell_ops(s.cells, s.w as int, marked(s, s.cells.len() as int))
}

/// The grid after a flush: nothing dirty, no flag set.
pub open spec fn flushed(s: GridState) -> GridState {
    GridState { dirty: clean(s.dirty.len()), redraw_all: false, clear_all: false, ..s }
}

/// The grid after a resize to `w` by `h`: every cell blank, nothing dirty,
/// and the whole grid to be drawn.
pub open spec fn resized(s: GridState, w: usize, h: usize) -> GridState {
    GridState {
        w,
        h,
        cells: blank_cells((w * h) as nat),
        dirty: clean((w * h) as nat),
        redraw_all: true,
        ..s
    }
}

/// A damage-tracked grid of glyphs.
pub struct DamageBuffer {
    w: usize,
    h: usize,
    /// The glyph of each cell, row by row.
    buffer: Vec<char>,
    /// Whether each cell changed since the last flush.
    dirty: Vec<bool>,
    redraw_all: bool,
    clear_all: bool,
}

impl View for DamageBuffer {
    type V = GridState;

    closed spec fn view(&self) -> GridState {
        GridState {
            w: self.w,
            h: self.h,
            cells: self.buffer@,
            dirty: self.dirty@,
            redraw_all: self.redraw_all,
            clear_all: self.clear_all,
        }
    }
}

/// A cell index of a `w` by `h` grid splits into a row below `h` and a
/// column below `w`.
proof fn lemma_cell_coords(j: int, w: int, h: int)
    requires
        0 <= j < w * h,
        w > 0,
    ensures
        0 <= j / w < h,
        0 <= j % w < w,
        j == (j / w) * w + j % w,
{
    lemma_fundamental_div_mod(j, w);
    lemma_mod_pos_bound(j, w);
    lemma_div_pos_is_pos(j, w);
    let q = j / w;
    let r = j % w;
    assert(q < h) by (nonlinear_arith)
        requires
            j == w * q + r,
            0 <= r,
            j < w * h,
            w > 0,
    ;
    assert(q * w == w * q) by (nonlinear_arith);
}

/// The cell at row `y`, column `x` has index `y * w + x`.
proof fn lemma_cell_index(y: int, x: int, w: int, h: int)
    requires
        0 <= y < h,
        0 <= x < w,
    ensures
        0 <= y * w + x < w * h,
        (y * w + x) / w == y,
        (y * w + x) % w == x,
{
    assert(0 <= y * w + x < w * h) by (nonlinear_arith)
        requires
            0 <= y < h,
            0 <= x < w,
    ;
    lemma_fundamental_div_mod_converse_div(y * w + x, w, y, x);
    lemma_fundamental_div_mod_converse_mod(y * w + x, w, y, x);
}

fn blank_grid(n: usize) -> (r: (Vec<char>, Vec<bool>))
    ensures
        r.0@ == blank_cells(n as nat),
        r.1@ == clean(n as nat),
{
    let mut cells: Vec<char> = Vec::new();
    let mut k: usize = 0;
    while k < n
        invariant
            k <= n,
            cells@ == blank_cells(k as nat),
        decreases n - k,
    {
        cells.push(' ');
        proof {
            assert(cells@ =~= blank_cells((k + 1) as nat));
        }
        k = k + 1;
    }
    (cells, clean_marks(n))
}

fn clean_marks(n: usize) -> (r: Vec<bool>)
    ensures
        r@ == clean(n as nat),
{
    let mut dirty: Vec<bool> = Vec::new();
    let mut k: usize = 0;
    while k < n
        invariant
            k <= n,
            dirty@ == clean(k as nat),
        decreases n - k,
    {
        dirty.push(false);
        proof {
            assert(dirty@ =~= clean((k + 1) as nat));
        }
        k = k + 1;
    }
    dirty
}

impl DamageBuffer {
    /// The grid's invariant: one glyph and one dirty mark per cell.
    pub open spec fn wf_state(s: GridState) -> bool {
        &&& s.cells.len() == s.w * s.h
        &&& s.dirty.len() == s.w * s.h
    }

    pub open spec fn wf(&self) -> bool {
        Self::wf_state(self@)
    }

    /// A blank grid of `w` by `h` cells, none of them dirty.
    pub fn new(w: usize, h: usize) -> (r: DamageBuffer)
        requires
            w * h <= usize::MAX,
        ensures
            r.wf(),
            r@ == (GridState {
                w,
                h,
                cells: blank_cells((w * h) as nat),
                dirty: clean((w * h) as nat),
                redraw_all: false,
                clear_all: false,
            }),
    {
        let (buffer, dirty) = blank_grid(w * h);
        DamageBuffer { w, h, buffer, dirty, redraw_all: false, clear_all: false }
    }

    /// Blank every cell and drop the pending damage; the next flush clears
    /// the screen and draws the whole grid.
    pub fn clear(&mut self)
        requires
            old(self).wf(),
        ensures
            final(self).wf(),
            final(self)@ == (GridState {
                cells: blank_cells(old(self)@.cells.len()),
                dirty: clean(old(self)@.cells.len()),
                redraw_all: true,
                clear_all: true,
                ..old(self)@
            }),
    {
        let (buffer, dirty) = blank_grid(self.buffer.len());
        self.buffer = buffer;
        self.dirty = dirty;
        self.redraw_all = true;
        self.clear_all = true;
    }

    /// Give the grid a new size, with every cell blank; the next flush draws
    /// the whole grid.
    pub fn resize(&mut self, new_w: usize, new_h: usize)
        requires
            old(self).wf(),
            new_w * new_h <= usize::MAX,
        ensures
            final(self).wf(),
            final(self)@ == resized(old(self)@, new_w, new_h),
    {
        let (buffer, dirty) = blank_grid(new_w * new_h);
        self.w = new_w;
        self.h = new_h;
        self.buffer = buffer;
        self.dirty = dirty;
        self.redraw_all = true;
    }
}

impl DamageBuffer {
    /// Write `what` from `loc` rightwards along its row, one character per
    /// cell. Characters that fall outside the grid are dropped; a cell whose
    /// glyph changes becomes dirty, one that gets the glyph it had does not.
    pub fn write_string(&mut self, loc: Point, what: String)
        requires
            old(self).wf(),
        ensures
            final(self).wf(),
            final(self)@ == written(old(self)@, loc, what@),
    {
        let cs = chars_of(what.as_str());
        let ghost s0 = self@;
        let mut k: usize = 0;
        proof {
            assert(self@.cells =~= written(s0, loc, cs@.take(0)).cells);
            assert(self@.dirty =~= written(s0, loc, cs@.take(0)).dirty);
        }
        while k < cs.len()
            invariant
                k <= cs.len(),
                cs@ == what@,
                self.wf(),
                Self::wf_state(s0),
                self@ == written(s0, loc, cs@.take(k as int)),
            decreases cs.len() - k,
        {
            let ghost before = self@;
            let ghost t0 = cs@.take(k as int);
            let ghost t1 = cs@.take(k + 1);
            let w = self.w;
            if loc.y < self.h && loc.x < w && k < w - loc.x {
                let x = loc.x + k;
                proof {
                    lemma_cell_index(loc.y as int, x as int, w as int, self.h as int);
                    assert(self.buffer.len() == w * self.h);
                    assert(loc.y * w <= loc.y * w + x);
                }
                let i = loc.y * w + x;
                let c = cs[k];
                if self.buffer[i] != c {
                    self.buffer[i] = c;
                    self.dirty[i] = true;
                }
                proof {
                    assert forall|j: int| 0 <= j < s0.cells.len() && j != i implies written_glyph(
                        s0,
                        loc,
                        t1,
                        j,
                    ) == written_glyph(s0, loc, t0, j) by {
                        lemma_cell_coords(j, w as int, self.h as int);
                        if written_glyph(s0, loc, t1, j).is_some() && j % (w as int) - loc.x == k {
                            assert(j == loc.y * w + x);
                        }
                    }
                    assert(written_glyph(s0, loc, t1, i as int) == Some(c));
                    assert(written_glyph(s0, loc, t0, i as int).is_none());
                    assert(self@.cells =~= written(s0, loc, t1).cells);
                    assert(self@.dirty =~= written(s0, loc, t1).dirty);
                }
            } else {
                proof {
                    assert forall|j: int| 0 <= j < s0.cells.len() implies written_glyph(
                        s0,
                        loc,
                        t1,
                        j,
                    ) == written_glyph(s0, loc, t0, j) by {
                        if w > 0 {
                            lemma_cell_coords(j, w as int, self.h as int);
                        }
                    }
                    assert(self@.cells =~= written(s0, loc, t1).cells);
                    assert(self@.dirty =~= written(s0, loc, t1).dirty);
                }
            }
            k = k + 1;
        }
        proof {
            assert(cs@.take(cs.len() as int) =~= what@);
        }
    }
}

impl DamageBuffer {
    /// Draw what changed since the last flush, and forget the damage.
    ///
    /// A pending clear comes first. Then every cell (after a resize or a
    /// clear) or every dirty cell is drawn in row-major order; the cursor is
    /// moved only before a cell that does not stand right after the one
    /// drawn before it, as drawing a glyph moves the cursor one column on.
    pub fn flush(&mut self) -> (ops: Vec<DrawOp>)
        requires
            old(self).wf(),
        ensures
            final(self).wf(),
            final(self)@ == flushed(old(self)@),
            ops@ == flush_ops(old(self)@),
    {
        let mut ops: Vec<DrawOp> = Vec::new();
        if self.clear_all {
            ops.push(DrawOp::ClearScreen);
        }
        let ghost head = ops@;
        let n = self.buffer.len();
        let w = self.w;
        let mut any = false;
        let mut last_x: usize = 0;
        let mut last_y: usize = 0;
        let mut i: usize = 0;
        while i < n
            invariant
                i <= n,
                n == self.buffer.len(),
                w == self.w,
                self@ == old(self)@,
                self.wf(),
                head == (if self.clear_all {
                    seq![DrawOp::ClearScreen]
                } else {
                    Seq::empty()
                }),
                ops@ == head + cell_ops(self@.cells, w as int, marked(self@, i as int)),
                any == (marked(self@, i as int).len() > 0),
                any ==> last_x < w,
                any ==> last_x == marked(self@, i as int).last() % (w as int),
                any ==> last_y == marked(self@, i as int).last() / (w as int),
            decreases n - i,
        {
            let ghost before = ops@;
            let ghost m0 = marked(self@, i as int);
            let ghost (old_any, old_x, old_y) = (any, last_x, last_y);
            if self.redraw_all || self.dirty[i] {
                proof {
                    assert(w > 0) by (nonlinear_arith)
                        requires
                            i < w * self.h,
                    ;
                    lemma_cell_coords(i as int, w as int, self.h as int);
                    assert(marked(self@, i + 1) == m0.push(i as int));
                    assert(m0.push(i as int).drop_last() =~= m0);
                }
                let x = i % w;
                let y = i / w;
                if !(any && y == last_y && x == last_x + 1) {
                    ops.push(DrawOp::MoveTo { x, y });
                }
                ops.push(DrawOp::Glyph(self.buffer[i]));
                last_x = x;
                last_y = y;
                any = true;
                proof {
                    let m1 = m0.push(i as int);
                    let cells = self@.cells;
                    assert(m1.last() == i as int);
                    assert(m1.drop_last() == m0);
                    assert((m0.len() > 0 && contiguous(m0.last(), i as int, w as int)) == (old_any
                        && y == old_y && x == old_x + 1));
                    assert(move_op(i as int, w as int) == DrawOp::MoveTo { x, y });
                    assert(glyph_op(cells, i as int) == DrawOp::Glyph(self.buffer@[i as int]));
                    lemma_cell_ops_push(cells, w as int, m0, i as int);
                    assert(ops@ =~= head + cell_ops(self@.cells, w as int, marked(self@, i + 1)));
                }
            } else {
                proof {
                    assert(marked(self@, i + 1) =~= m0);
                }
            }
            i = i + 1;
        }
        self.dirty = clean_marks(n);
        self.redraw_all = false;
        self.clear_all = false;
        ops
    }
}

proof fn lemma_marked_all(s: GridState, n: int)
    requires
        s.redraw_all,
        n >= 0,
    ensures
        marked(s, n) == Seq::new(n as nat, |i: int| i),
    decreases n,
{
    if n > 0 {
        lemma_marked_all(s, n - 1);
        assert(marked(s, n) =~= Seq::new(n as nat, |i: int| i));
    }
}

proof fn lemma_marked_none(s: GridState, n: int)
    requires
        !s.redraw_all,
        n <= s.dirty.len(),
        forall|i: int| 0 <= i < n ==> !(#[trigger] s.dirty[i]),
    ensures
        marked(s, n) == Seq::<int>::empty(),
    decreases n,
{
    if n > 0 {
        lemma_marked_none(s, n - 1);
        assert(marked(s, n) =~= Seq::<int>::empty());
    }
}

/// Writing a glyph into a cell that already shows it leaves the cell's dirty
/// mark as it was; writing a different glyph marks the cell dirty.
pub proof fn lemma_write_marks_changes(s: GridState, loc: Point, c: char)
    requires
        DamageBuffer::wf_state(s),
        loc.x < s.w,
        loc.y < s.h,
    ensures
        written(s, loc, seq![c]).cells[loc.y * s.w + loc.x] == c,
        written(s, loc, seq![c]).dirty[loc.y * s.w + loc.x] == (s.dirty[loc.y * s.w + loc.x]
            || s.cells[loc.y * s.w + loc.x] != c),
{
    lemma_cell_index(loc.y as int, loc.x as int, s.w as int, s.h as int);
}

/// A flush leaves nothing dirty and no flag set, so a second flush with no
/// write in between draws nothing at all.
pub proof fn lemma_flush_twice(s: GridState)
    requires
        DamageBuffer::wf_state(s),
    ensures
        forall|i: int| 0 <= i < flushed(s).dirty.len() ==> !(#[trigger] flushed(s).dirty[i]),
        flush_ops(flushed(s)) == Seq::<DrawOp>::empty(),
{
    let f = flushed(s);
    lemma_marked_none(f, f.cells.len() as int);
    assert(flush_ops(f) =~= Seq::<DrawOp>::empty());
}

/// After a resize the next flush draws every cell of the grid, in
/// row-major order, whatever was dirty before: each a blank glyph, unless
/// written since (see `lemma_redraw_all_glyphs`).
pub proof fn lemma_resize_redraws_all(s: GridState, w: usize, h: usize)
    requires
        w * h <= usize::MAX,
    ensures
        marked(resized(s, w, h), (w * h) as int) == Seq::new((w * h) as nat, |i: int| i),
        flush_ops(resized(s, w, h)) == (if s.clear_all {
            seq![DrawOp::ClearScreen]
        } else {
            Seq::empty()
        }) + cell_ops(blank_cells((w * h) as nat), w as int, Seq::new((w * h) as nat, |i: int| i)),
        glyphs(flush_ops(resized(s, w, h))) == blank_cells((w * h) as nat),
{
    lemma_redraw_all_glyphs(resized(s, w, h));
    assert(0 <= w * h) by (nonlinear_arith);
    lemma_marked_all(resized(s, w, h), (w * h) as int);
}

/// The glyphs that `ops` draw, in order.
pub open spec fn glyphs(ops: Seq<DrawOp>) -> Seq<char>
    decreases ops.len(),
{
    if ops.len() == 0 {
        Seq::empty()
    } else {
        let rest = glyphs(ops.drop_last());
        match ops.last() {
            DrawOp::Glyph(c) => rest.push(c),
            _ => rest,
        }
    }
}

proof fn lemma_glyphs_push(ops: Seq<DrawOp>, op: DrawOp)
    ensures
        glyphs(ops.push(op)) == match op {
            DrawOp::Glyph(c) => glyphs(ops).push(c),
            _ => glyphs(ops),
        },
{
    assert(ops.push(op).drop_last() =~= ops);
}

proof fn lemma_glyphs_add(a: Seq<DrawOp>, b: Seq<DrawOp>)
    ensures
        glyphs(a + b) == glyphs(a) + glyphs(b),
    decreases b.len(),
{
    if b.len() == 0 {
        assert(a + b =~= a);
        assert(glyphs(a) + glyphs(b) =~= glyphs(a));
    } else {
        lemma_glyphs_add(a, b.drop_last());
        assert(a + b =~= (a + b.drop_last()).push(b.last()));
        assert(b =~= b.drop_last().push(b.last()));
        lemma_glyphs_push(a + b.drop_last(), b.last());
        lemma_glyphs_push(b.drop_last(), b.last());
        match b.last() {
            DrawOp::Glyph(c) => {
                assert(glyphs(a) + glyphs(b.drop_last()).push(c) =~= (glyphs(a) + glyphs(
                    b.drop_last(),
                )).push(c));
            },
            _ => {},
        }
    }
}

proof fn lemma_cell_glyphs(cells: Seq<char>, w: int, idx: Seq<int>)
    ensures
        glyphs(cell_ops(cells, w, idx)) == idx.map_values(|i: int| cells[i]),
    decreases idx.len(),
{
    if idx.len() > 0 {
        let rest = idx.drop_last();
        let i = idx.last();
        lemma_cell_glyphs(cells, w, rest);
        assert(idx =~= rest.push(i));
        lemma_cell_ops_push(cells, w, rest, i);
        let base = cell_ops(cells, w, rest);
        lemma_glyphs_push(base, glyph_op(cells, i));
        lemma_glyphs_push(base, move_op(i, w));
        lemma_glyphs_push(base.push(move_op(i, w)), glyph_op(cells, i));
        assert(idx.map_values(|q: int| cells[q]) =~= rest.map_values(|q: int| cells[q]).push(
            cells[i],
        ));
    } else {
        assert(idx.map_values(|q: int| cells[q]) =~= Seq::<char>::empty());
    }
}

/// While the whole grid is to be redrawn (after a resize or a clear, and
/// whatever was written since), a flush draws the glyph of every cell once,
/// in row-major order.
pub proof fn lemma_redraw_all_glyphs(s: GridState)
    requires
        s.redraw_all,
    ensures
        glyphs(flush_ops(s)) == s.cells,
{
    let n = s.cells.len() as int;
    lemma_marked_all(s, n);
    let idx = Seq::new(n as nat, |i: int| i);
    lemma_cell_glyphs(s.cells, s.w as int, idx);
    assert(idx.map_values(|i: int| s.cells[i]) =~= s.cells);
    let head = if s.clear_all {
        seq![DrawOp::ClearScreen]
    } else {
        Seq::empty()
    };
    lemma_glyphs_add(head, cell_ops(s.cells, s.w as int, idx));
    lemma_glyphs_push(Seq::<DrawOp>::empty(), DrawOp::ClearScreen);
    assert(seq![DrawOp::ClearScreen] =~= Seq::<DrawOp>::empty().push(DrawOp::ClearScreen));
    assert(glyphs(head) + s.cells =~= s.cells);
}

} // verus!
