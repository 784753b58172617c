use crate::ui::style::Tone;
use vstd::prelude::*;

verus! {

/// The state of one cluster on the simulated disk.
#[derive(Clone, Copy, PartialEq, Eq, Structural, Debug)]
pub enum Cell {
    Free,
    Used,
    Fragmented,
    Unmovable,
    Bad,
    Reading,
    Writing,
}

/// A cluster holds file data when it is used or fragmented.
pub open spec fn is_data_cell(c: Cell) -> bool {
    c is Used || c is Fragmented
}

/// The character that draws a cell.
pub open spec fn glyph_of(c: Cell) -> char {
    match c {
        Cell::Free => '·',
        Cell::Used => '█',
        Cell::Fragmented => '▓',
        Cell::Unmovable => '▒',
        Cell::Bad => 'X',
        Cell::Reading => 'R',
        Cell::Writing => 'W',
    }
}

/// The legend's name of a cell.
pub open spec fn label_of(c: Cell) -> Seq<char> {
    match c {
        Cell::Free => "Free"@,
        Cell::Used => "Used"@,
        Cell::Fragmented => "Fragmented"@,
        Cell::Unmovable => "Unmovable"@,
        Cell::Bad => "Bad"@,
        Cell::Reading => "Reading"@,
        Cell::Writing => "Writing"@,
    }
}

/// The colour a cell is drawn in.
pub open spec fn tone_of(c: Cell) -> Tone {
    match c {
        Cell::Free => Tone::Dimmed,
        Cell::Used => Tone::BrightGreen,
        Cell::Fragmented => Tone::Yellow,
        Cell::Unmovable => Tone::BrightBlue,
        Cell::Bad => Tone::BoldBrightRed,
        Cell::Reading => Tone::BoldBrightCyan,
        Cell::Writing => Tone::BoldBrightMagenta,
    }
}

impl Cell {
    /// The colour this cell is drawn in.
    pub fn tone(self) -> (t: Tone)
        ensures
            t == tone_of(self),
    {
        match self {
            Cell::Free => Tone::Dimmed,
            Cell::Used => Tone::BrightGreen,
            Cell::Fragmented => Tone::Yellow,
            Cell::Unmovable => Tone::BrightBlue,
            Cell::Bad => Tone::BoldBrightRed,
            Cell::Reading => Tone::BoldBrightCyan,
            Cell::Writing => Tone::BoldBrightMagenta,
        }
    }

    /// Whether the cluster holds file data (used or fragmented).
    pub fn is_data(self) -> (r: bool)
        ensures
            r == is_data_cell(self),
    {
        match self {
            Cell::Used | Cell::Fragmented => true,
            _ => false,
        }
    }

    /// The character that draws this cell.
    pub fn glyph(self) -> (g: char)
        ensures
            g == glyph_of(self),
    {
        match self {
            Cell::Free => '·',
            Cell::Used => '█',
            Cell::Fragmented => '▓',
            Cell::Unmovable => '▒',
            Cell::Bad => 'X',
            Cell::Reading => 'R',
            Cell::Writing => 'W',
        }
    }

    /// The name this cell has in the legend.
    pub fn label(self) -> (l: &'static str)
        ensures
            l@ == label_of(self),
    {
        match self {
            Cell::Free => "Free",
            Cell::Used => "Used",
            Cell::Fragmented => "Fragmented",
            Cell::Unmovable => "Unmovable",
            Cell::Bad => "Bad",
            Cell::Reading => "Reading",
            Cell::Writing => "Writing",
        }
    }
}

/// A grid of clusters, drawn `width` cells to a row.
pub struct BlockGrid {
    width: usize,
    cells: Vec<Cell>,
    last_frame: usize,
}

impl View for BlockGrid {
    type V = Seq<Cell>;

    closed spec fn view(&self) -> Seq<Cell> {
        self.cells@
    }
}

impl BlockGrid {
    /// Number of cells per drawn row.
    pub closed spec fn spec_width(&self) -> nat {
        self.width as nat
    }

    /// Number of lines the last drawn frame took on the terminal.
    pub closed spec fn spec_last_frame(&self) -> nat {
        self.last_frame as nat
    }

    /// A grid of `width * height` free clusters.
    pub fn new(width: usize, height: usize) -> (grid: Self)
        requires
            width * height <= usize::MAX,
        ensures
            grid@.len() == width * height,
            forall|i: int| 0 <= i < grid@.len() ==> grid@[i] == Cell::Free,
            grid.spec_width() == width,
            grid.spec_last_frame() == 0,
    {
        let total = width * height;
        let mut cells: Vec<Cell> = Vec::new();
        while cells.len() < total
            invariant
                cells.len() <= total,
                forall|i: int| 0 <= i < cells.len() ==> cells@[i] == Cell::Free,
            decreases total - cells.len(),
        {
            cells.push(Cell::Free);
        }
        BlockGrid { width, cells, last_frame: 0 }
    }

    /// Number of clusters.
    pub fn len(&self) -> (n: usize)
        ensures
            n == self@.len(),
    {
        self.cells.len()
    }

    /// Number of cells per drawn row.
    pub fn width(&self) -> (w: usize)
        ensures
            w == self.spec_width(),
    {
        self.width
    }

    /// The cluster at `index`.
    pub fn get(&self, index: usize) -> (c: Cell)
        requires
            index < self@.len(),
        ensures
            c == self@[index as int],
    {
        self.cells[index]
    }

    /// Overwrites the cluster at `index`; nothing else changes.
    pub fn set(&mut self, index: usize, cell: Cell)
        requires
            index < old(self)@.len(),
        ensures
            final(self)@ == old(self)@.update(index as int, cell),
            final(self).spec_width() == old(self).spec_width(),
            final(self).spec_last_frame() == old(self).spec_last_frame(),
    {
        self.cells.set(index, cell);
    }

    /// The first index at or after `from` whose cell satisfies `predicate`.
    pub fn find(&self, from: usize, predicate: impl Fn(Cell) -> bool) -> (r: Option<usize>)
        requires
            forall|c: Cell| predicate.requires((c,)),
        ensures
            match r {
                Some(i) => {
                    &&& from <= i < self@.len()
                    &&& predicate.ensures((self@[i as int],), true)
                    &&& forall|j: int|
                        from <= j < i ==> predicate.ensures((#[trigger] self@[j],), false)
                },
                None => forall|j: int|
                    from <= j < self@.len() ==> predicate.ensures((#[trigger] self@[j],), false),
            },
    {
        let n = self.cells.len();
        let mut i = from;
        while i < n
            invariant
                from <= i,
                n == self@.len(),
                forall|c: Cell| predicate.requires((c,)),
                forall|j: int| from <= j < i ==> predicate.ensures((#[trigger] self@[j],), false),
            decreases n - i,
        {
            if predicate(self.cells[i]) {
                return Some(i);
            }
            i = i + 1;
        }
        None
    }

    /// The last index before `before` whose cell satisfies `predicate`.
    pub fn rfind(&self, before: usize, predicate: impl Fn(Cell) -> bool) -> (r: Option<usize>)
        requires
            forall|c: Cell| predicate.requires((c,)),
        ensures
            match r {
                Some(i) => {
                    &&& i < before
                    &&& i < self@.len()
                    &&& predicate.ensures((self@[i as int],), true)
                    &&& forall|j: int|
                        i < j < before && j < self@.len() ==> predicate.ensures(
                            (#[trigger] self@[j],),
                            false,
                        )
                },
                None => forall|j: int|
                    0 <= j < before && j < self@.len() ==> predicate.ensures(
                        (#[trigger] self@[j],),
                        false,
                    ),
            },
    {
        let n = self.cells.len();
        let mut i = if before < n {
            before
        } else {
            n
        };
        while i > 0
            invariant
                i <= n,
                i <= before,
                n == self@.len(),
                forall|c: Cell| predicate.requires((c,)),
                forall|j: int|
                    i <= j < before && j < n ==> predicate.ensures((#[trigger] self@[j],), false),
            decreases i,
        {
            i = i - 1;
            if predicate(self.cells[i]) {
                return Some(i);
            }
        }
        None
    }

    /// Forgets the last frame, so the next one is drawn below it.
    pub fn finish(&mut self)
        ensures
            final(self)@ == old(self)@,
            final(self).spec_width() == old(self).spec_width(),
            final(self).spec_last_frame() == 0,
    {
        self.last_frame = 0;
    }
}

/// The width a fitted grid takes: the terminal's columns (80 when unknown or
/// zero) less a margin of four, kept within `[20, max_width]`.
pub open spec fn fit_width(size: Option<(u16, u16)>, max_width: nat) -> nat {
    let columns: int = match size {
        Some((c, _)) if c > 0 => c as int,
        _ => 80,
    };
    let margin: int = if columns >= 4 {
        columns - 4
    } else {
        0
    };
    if margin < 20 {
        20
    } else if margin > max_width {
        max_width
    } else {
        margin as nat
    }
}

/// The cells a run-length encoding stands for.
pub open spec fn expand_runs(runs: Seq<(Cell, usize)>) -> Seq<Cell>
    decreases runs.len(),
{
    if runs.len() == 0 {
        Seq::empty()
    } else {
        expand_runs(runs.drop_last()) + Seq::new(runs.last().1 as nat, |i: int| runs.last().0)
    }
}

/// Runs are non-empty and no two neighbours hold the same cell.
pub open spec fn maximal_runs(runs: Seq<(Cell, usize)>) -> bool {
    &&& forall|i: int| 0 <= i < runs.len() ==> #[trigger] runs[i].1 > 0
    &&& forall|i: int| 0 <= i < runs.len() - 1 ==> #[trigger] runs[i].0 != runs[i + 1].0
}

/// Number of rows of `width` cells needed for `len` cells.
pub open spec fn row_count(len: nat, width: nat) -> nat {
    if len % width == 0 {
        len / width
    } else {
        len / width + 1
    }
}

impl BlockGrid {
    /// A grid `height` rows high, as wide as the terminal allows (`size` is
    /// the terminal's `(columns, rows)` where it could be read).
    pub fn fit(size: Option<(u16, u16)>, max_width: usize, height: usize) -> (grid: Self)
        requires
            20 <= max_width,
            fit_width(size, max_width as nat) * height <= usize::MAX,
        ensures
            grid.spec_width() == fit_width(size, max_width as nat),
            grid@.len() == fit_width(size, max_width as nat) * height,
            forall|i: int| 0 <= i < grid@.len() ==> grid@[i] == Cell::Free,
            grid.spec_last_frame() == 0,
    {
        let width = Self::fitted_width(size, max_width);
        Self::new(width, height)
    }

    /// The width `fit` gives a grid on a terminal of `size`.
    pub fn fitted_width(size: Option<(u16, u16)>, max_width: usize) -> (width: usize)
        requires
            20 <= max_width,
        ensures
            width == fit_width(size, max_width as nat),
    {
        let columns: usize = match size {
            Some((c, _)) if c > 0 => c as usize,
            _ => 80,
        };
        let margin = columns.saturating_sub(4);
        if margin < 20 {
            20
        } else if margin > max_width {
            max_width
        } else {
            margin
        }
    }

    /// Number of rows the grid is drawn in.
    pub fn rows(&self) -> (r: usize)
        requires
            self.spec_width() > 0,
        ensures
            r == row_count(self@.len(), self.spec_width()),
    {
        let n = self.cells.len();
        let w = self.width;
        proof {
            assert(n % w != 0 ==> n / w < n) by (nonlinear_arith)
                requires
                    w >= 1,
            ;
        }
        if n % self.width == 0 {
            n / self.width
        } else {
            n / self.width + 1
        }
    }

    /// The row `row` as runs of equal cells, in order.
    pub fn row_runs(&self, row: usize) -> (runs: Vec<(Cell, usize)>)
        requires
            self.spec_width() > 0,
            row * self.spec_width() < self@.len(),
        ensures
            expand_runs(runs@) == self@.subrange(
                row * self.spec_width(),
                if row * self.spec_width() + self.spec_width() <= self@.len() {
                    row * self.spec_width() + self.spec_width()
                } else {
                    self@.len() as int
                },
            ),
            maximal_runs(runs@),
    {
        let len = self.cells.len();
        proof {
            assert(row * self.width == row * self.spec_width());
        }
        let start = row * self.width;
        let end = if self.width <= self.cells.len() - start {
            start + self.width
        } else {
            self.cells.len()
        };
        let mut runs: Vec<(Cell, usize)> = Vec::new();
        let mut current = self.cells[start];
        let mut count: usize = 0;
        let mut i = start;
        while i < end
            invariant
                start <= i <= end <= self@.len(),
                start < end,
                count <= i - start,
                i > start ==> count > 0,
                i == start ==> count == 0 && current == self@[start as int],
                expand_runs(runs@) + Seq::new(count as nat, |k: int| current) == self@.subrange(
                    start as int,
                    i as int,
                ),
                maximal_runs(runs@),
                runs@.len() > 0 ==> runs@.last().0 != current,
            decreases end - i,
        {
            let cell = self.cells[i];
            if cell != current {
                let ghost before = runs@;
                runs.push((current, count));
                proof {
                    assert(runs@.drop_last() =~= before);
                    assert(expand_runs(runs@) =~= expand_runs(before) + Seq::new(
                        count as nat,
                        |k: int| current,
                    ));
                }
                current = cell;
                count = 1;
                proof {
                    assert(self@.subrange(start as int, i + 1) =~= self@.subrange(
                        start as int,
                        i as int,
                    ).push(cell));
                    assert(expand_runs(runs@) + Seq::new(1nat, |k: int| current) =~= self@.subrange(
                        start as int,
                        i + 1,
                    ));
                }
            } else {
                proof {
                    assert(self@.subrange(start as int, i + 1) =~= self@.subrange(
                        start as int,
                        i as int,
                    ).push(cell));
                    assert(expand_runs(runs@) + Seq::new((count + 1) as nat, |k: int| current)
                        =~= (expand_runs(runs@) + Seq::new(count as nat, |k: int| current)).push(
                        cell,
                    ));
                }
                count = count + 1;
            }
            i = i + 1;
        }
        let ghost before = runs@;
        runs.push((current, count));
        proof {
            assert(runs@.drop_last() =~= before);
        }
        runs
    }

    /// Lines the last frame took on the terminal, to be drawn over.
    pub fn last_frame(&self) -> (n: usize)
        ensures
            n == self.spec_last_frame(),
    {
        self.last_frame
    }

    /// Records that a frame of `lines` lines has just been drawn.
    pub fn record_frame(&mut self, lines: usize)
        ensures
            final(self)@ == old(self)@,
            final(self).spec_width() == old(self).spec_width(),
            final(self).spec_last_frame() == lines,
    {
        self.last_frame = lines;
    }
}

/// A fitted grid is never narrower than 20 cells nor wider than asked.
pub proof fn lemma_fit_width_bounds(size: Option<(u16, u16)>, max_width: nat)
    requires
        20 <= max_width,
    ensures
        20 <= fit_width(size, max_width) <= max_width,
{
}

/// Reading a cluster after writing it gives what was written; every other
/// cluster reads as before.
pub proof fn lemma_get_after_set(cells: Seq<Cell>, index: int, cell: Cell, other: int)
    requires
        0 <= index < cells.len(),
        0 <= other < cells.len(),
    ensures
        cells.update(index, cell)[index] == cell,
        other != index ==> cells.update(index, cell)[other] == cells[other],
        cells.update(index, cell).len() == cells.len(),
{
}

} // verus!
