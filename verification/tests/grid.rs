use install_nothing::ui::block_grid::{BlockGrid, Cell};
use install_nothing::ui::style::Tone;

#[test]
fn new_grid_is_free() {
    let grid = BlockGrid::new(7, 3);
    assert_eq!(grid.len(), 21);
    assert_eq!(grid.width(), 7);
    assert_eq!(grid.last_frame(), 0);
    assert!((0..21).all(|i| grid.get(i) == Cell::Free));
}

#[test]
fn set_then_get() {
    let mut grid = BlockGrid::new(4, 2);
    grid.set(5, Cell::Bad);
    assert_eq!(grid.get(5), Cell::Bad);
    assert_eq!(grid.get(4), Cell::Free);
    assert_eq!(grid.get(6), Cell::Free);
}

#[test]
fn find_and_rfind() {
    let mut grid = BlockGrid::new(10, 1);
    grid.set(2, Cell::Used);
    grid.set(6, Cell::Fragmented);
    grid.set(8, Cell::Used);
    assert_eq!(grid.find(0, |c| c.is_data()), Some(2));
    assert_eq!(grid.find(3, |c| c.is_data()), Some(6));
    assert_eq!(grid.find(9, |c| c.is_data()), None);
    assert_eq!(grid.rfind(10, Cell::is_data), Some(8));
    assert_eq!(grid.rfind(8, Cell::is_data), Some(6));
    assert_eq!(grid.rfind(2, Cell::is_data), None);
    assert_eq!(grid.rfind(100, Cell::is_data), Some(8));
}

#[test]
fn fit_uses_terminal_width() {
    let grid = BlockGrid::fit(Some((100, 40)), 64, 2);
    assert_eq!(grid.width(), 64);
    let grid = BlockGrid::fit(Some((50, 40)), 64, 2);
    assert_eq!(grid.width(), 46);
    assert_eq!(grid.len(), 92);
    let grid = BlockGrid::fit(Some((10, 40)), 64, 2);
    assert_eq!(grid.width(), 20);
    let grid = BlockGrid::fit(Some((0, 40)), 100, 1);
    assert_eq!(grid.width(), 76);
    let grid = BlockGrid::fit(None, 100, 1);
    assert_eq!(grid.width(), 76);
}

#[test]
fn rows_and_runs() {
    let mut grid = BlockGrid::new(4, 2);
    grid.set(1, Cell::Used);
    grid.set(2, Cell::Used);
    grid.set(7, Cell::Bad);
    assert_eq!(grid.rows(), 2);
    assert_eq!(
        grid.row_runs(0),
        vec![(Cell::Free, 1), (Cell::Used, 2), (Cell::Free, 1)]
    );
    assert_eq!(grid.row_runs(1), vec![(Cell::Free, 3), (Cell::Bad, 1)]);
    let odd = BlockGrid::new(5, 1);
    let mut odd_rows = BlockGrid::new(3, 1);
    odd_rows.set(0, Cell::Used);
    assert_eq!(odd.rows(), 1);
    assert_eq!(odd_rows.row_runs(0), vec![(Cell::Used, 1), (Cell::Free, 2)]);
}

#[test]
fn frames_are_recorded() {
    let mut grid = BlockGrid::new(2, 2);
    grid.record_frame(9);
    assert_eq!(grid.last_frame(), 9);
    grid.finish();
    assert_eq!(grid.last_frame(), 0);
}

#[test]
fn cell_glyphs_and_labels() {
    assert_eq!(Cell::Free.glyph(), '·');
    assert_eq!(Cell::Used.glyph(), '█');
    assert_eq!(Cell::Writing.glyph(), 'W');
    assert_eq!(Cell::Fragmented.label(), "Fragmented");
    assert_eq!(Cell::Unmovable.label(), "Unmovable");
    assert!(Cell::Used.is_data() && Cell::Fragmented.is_data());
    assert!(!Cell::Free.is_data() && !Cell::Reading.is_data() && !Cell::Bad.is_data());
}

#[test]
fn cell_tones() {

    assert_eq!(Cell::Free.tone(), Tone::Dimmed);
    assert_eq!(Cell::Used.tone(), Tone::BrightGreen);
    assert_eq!(Cell::Fragmented.tone(), Tone::Yellow);
    assert_eq!(Cell::Bad.tone(), Tone::BoldBrightRed);
    assert_eq!(Cell::Writing.tone(), Tone::BoldBrightMagenta);
}

#[test]
fn fitted_width_allows_huge_maximum() {
    assert_eq!(BlockGrid::fitted_width(Some((80, 24)), usize::MAX), 76);
    let grid = BlockGrid::fit(Some((80, 24)), usize::MAX, 2);
    assert_eq!(grid.width(), 76);
    assert_eq!(grid.len(), 152);
    assert_eq!(BlockGrid::fitted_width(None, 30), 30);
}
