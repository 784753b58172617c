use install_nothing::stages::defrag::{
    abort_transfers, advance_frame, batch_size, commit_transfers, displace_once, format_duration,
    nth_free, pending, place_run, plan_frame, restart, restart_due,
    plan_transfers, refragment, scatter, thousands, Transfer,
};
use install_nothing::ui::block_grid::{BlockGrid, Cell};
use Cell::{Fragmented, Free, Reading, Unmovable, Used, Writing};

fn grid_of(cells: &[Cell]) -> BlockGrid {
    let mut grid = BlockGrid::new(cells.len(), 1);
    for (i, cell) in cells.iter().enumerate() {
        grid.set(i, *cell);
    }
    grid
}

fn cells_of(grid: &BlockGrid) -> Vec<Cell> {
    (0..grid.len()).map(|i| grid.get(i)).collect()
}

fn data_count(grid: &BlockGrid) -> usize {
    cells_of(grid).iter().filter(|c| c.is_data()).count()
}

fn free_count(grid: &BlockGrid) -> usize {
    cells_of(grid).iter().filter(|c| **c == Cell::Free).count()
}

#[test]
fn test_thousands() {
    assert_eq!(thousands(0), "0");
    assert_eq!(thousands(512), "512");
    assert_eq!(thousands(2_097_152), "2,097,152");
}

#[test]
fn thousands_edges() {
    assert_eq!(thousands(999), "999");
    assert_eq!(thousands(1000), "1,000");
    assert_eq!(thousands(123_456), "123,456");
    assert_eq!(thousands(u64::MAX), "18,446,744,073,709,551,615");
    assert_eq!(thousands(1_000_000).replace(',', ""), "1000000");
}

#[test]
fn test_format_duration() {
    assert_eq!(format_duration((0.0f64).round() as u64), "0 minutes");
    assert_eq!(format_duration((1.0f64).round() as u64), "1 minute");
    assert_eq!(format_duration((11.4f64).round() as u64), "11 minutes");
    assert_eq!(format_duration((252.0f64).round() as u64), "4 hours 12 minutes");
    assert_eq!(format_duration((1500.0f64).round() as u64), "1 day 1 hour");
}

#[test]
fn format_duration_parts() {
    assert_eq!(format_duration(60), "1 hour");
    assert_eq!(format_duration(1440), "1 day");
    assert_eq!(format_duration(2 * 1440 + 3 * 60 + 1), "2 days 3 hours 1 minute");
    assert_eq!(format_duration(1441), "1 day 1 minute");
    assert_eq!(format_duration(59), "59 minutes");
}

#[test]
fn batch_size_clamps() {
    assert_eq!(batch_size(1000, 100, 2, 40), 10);
    assert_eq!(batch_size(10, 100, 2, 40), 2);
    assert_eq!(batch_size(100_000, 100, 2, 40), 40);
}

#[test]
fn pending_counts_data_behind_first_free() {
    let grid = grid_of(&[Used, Free, Fragmented, Unmovable, Used, Free]);
    assert_eq!(pending(&grid), 2);
    let settled = grid_of(&[Used, Fragmented, Unmovable, Free, Free]);
    assert_eq!(pending(&settled), 0);
    let full = grid_of(&[Used, Used]);
    assert_eq!(pending(&full), 0);
}

#[test]
fn plan_moves_last_data_to_first_free() {
    let mut grid = grid_of(&[Used, Free, Used, Free, Fragmented, Used]);
    let ts = plan_transfers(&mut grid, 5);
    assert_eq!(
        ts,
        vec![Transfer { source: 5, target: 1 }, Transfer { source: 4, target: 3 }]
    );
    assert_eq!(cells_of(&grid), vec![Used, Writing, Used, Writing, Reading, Reading]);
}

#[test]
fn plan_respects_move_limit() {
    let mut grid = grid_of(&[Free, Free, Used, Used]);
    let ts = plan_transfers(&mut grid, 1);
    assert_eq!(ts, vec![Transfer { source: 3, target: 0 }]);
    assert_eq!(cells_of(&grid), vec![Writing, Free, Used, Reading]);
}

#[test]
fn plan_on_settled_grid_is_empty() {
    let mut grid = grid_of(&[Used, Fragmented, Free, Free]);
    let ts = plan_transfers(&mut grid, 3);
    assert!(ts.is_empty());
    assert_eq!(cells_of(&grid), vec![Used, Fragmented, Free, Free]);
}

#[test]
fn commit_and_abort_keep_data() {
    let start = [Free, Used, Free, Fragmented, Used];
    let mut grid = grid_of(&start);
    let before = data_count(&grid);
    let mut ts = plan_transfers(&mut grid, 10);
    commit_transfers(&mut grid, &mut ts);
    assert!(ts.is_empty());
    assert_eq!(data_count(&grid), before);
    assert_eq!(cells_of(&grid), vec![Used, Used, Used, Free, Free]);
    assert_eq!(pending(&grid), 0);

    let mut grid = grid_of(&start);
    let mut ts = plan_transfers(&mut grid, 10);
    abort_transfers(&mut grid, &mut ts);
    assert!(ts.is_empty());
    assert_eq!(data_count(&grid), before);
    assert_eq!(free_count(&grid), 2);
    assert_eq!(cells_of(&grid), vec![Free, Used, Free, Fragmented, Fragmented]);
}

#[test]
fn defragmenting_to_the_end_settles() {
    let mut grid = BlockGrid::new(30, 4);
    scatter(&mut grid, 60, 2, true);
    let data = data_count(&grid);
    for _ in 0..200 {
        let mut ts = plan_frame(&mut grid, 3);
        if ts.is_empty() {
            break;
        }
        commit_transfers(&mut grid, &mut ts);
    }
    assert_eq!(pending(&grid), 0);
    assert_eq!(data_count(&grid), data);
}

#[test]
fn plan_frame_draws_varying_move_counts() {
    let mut counts = std::collections::BTreeSet::new();
    for _ in 0..200 {
        let mut cells = vec![Cell::Free; 20];
        cells.extend(vec![Cell::Used; 20]);
        let mut grid = grid_of(&cells);
        let ts = plan_frame(&mut grid, 4);
        assert!(ts.len() >= 4 && ts.len() <= 4 + 2 + 1);
        counts.insert(ts.len());
    }
    assert!(counts.len() > 1);
}

#[test]
fn scatter_places_data_and_overlays() {
    let mut fragmented = 0;
    let mut used = 0;
    for _ in 0..20 {
        let mut grid = BlockGrid::new(40, 5);
        scatter(&mut grid, 120, 3, true);
        let cells = cells_of(&grid);
        let data = data_count(&grid);
        assert!(data <= 120 && data + 3 + 1 >= 120);
        assert!(cells[..100].iter().all(|c| *c != Cell::Unmovable));
        assert!(cells.iter().filter(|c| **c == Cell::Bad).count() <= 1);
        assert!(cells
            .iter()
            .all(|c| *c != Cell::Reading && *c != Cell::Writing));
        fragmented += cells.iter().filter(|c| **c == Cell::Fragmented).count();
        used += cells.iter().filter(|c| **c == Cell::Used).count();
    }
    assert!(fragmented > 0 && used > 0);
}

#[test]
fn scatter_without_overlays_is_exact() {
    let mut grid = BlockGrid::new(10, 3);
    scatter(&mut grid, 17, 0, false);
    assert_eq!(data_count(&grid), 17);
    assert_eq!(free_count(&grid), 13);
    let mut empty = BlockGrid::new(0, 0);
    scatter(&mut empty, 0, 0, false);
    assert_eq!(empty.len(), 0);
}

#[test]
fn refragment_moves_data_behind_head() {
    for _ in 0..20 {
        let mut grid = grid_of(&[Used, Used, Fragmented, Free, Free, Free, Free, Free]);
        refragment(&mut grid, 3, 2);
        let cells = cells_of(&grid);
        assert_eq!(data_count(&grid), 3);
        assert_eq!(cells[0], Used);
        assert!(cells[3..].iter().all(|c| *c == Free || *c == Fragmented));
        let moved = cells[..3].iter().filter(|c| **c == Free).count();
        assert!(moved <= 2);
        if cells[1] == Free {
            assert_eq!(cells[2], Free);
        }
    }
    let mut none_free = grid_of(&[Used, Used]);
    refragment(&mut none_free, 0, 5);
    assert_eq!(cells_of(&none_free), vec![Used, Used]);
}

fn data_weight(grid: &BlockGrid) -> usize {
    cells_of(grid)
        .iter()
        .enumerate()
        .filter(|(_, c)| c.is_data())
        .map(|(i, _)| i)
        .sum()
}

#[test]
fn committed_moves_bring_data_forward() {
    let mut grid = grid_of(&[Used, Free, Free, Unmovable, Fragmented, Free, Used, Used]);
    let before = data_weight(&grid);
    assert_eq!(before, 0 + 4 + 6 + 7);
    let mut ts = plan_transfers(&mut grid, 2);
    let moves = ts.len();
    assert_eq!(moves, 2);
    commit_transfers(&mut grid, &mut ts);
    assert_eq!(cells_of(&grid), vec![Used, Used, Used, Unmovable, Fragmented, Free, Free, Free]);
    assert_eq!(data_weight(&grid), 0 + 1 + 2 + 4);
    assert!(data_weight(&grid) + moves <= before);
}

#[test]
fn displace_once_moves_last_data_before_head() {
    let mut grid = grid_of(&[Used, Fragmented, Free, Free, Used, Free]);
    displace_once(&mut grid, 2, 5);
    assert_eq!(cells_of(&grid), vec![Used, Free, Free, Free, Used, Fragmented]);
    displace_once(&mut grid, 2, 4);
    assert_eq!(cells_of(&grid), vec![Used, Free, Free, Free, Used, Fragmented]);
    displace_once(&mut grid, 2, 3);
    assert_eq!(cells_of(&grid), vec![Free, Free, Free, Fragmented, Used, Fragmented]);
    displace_once(&mut grid, 2, 2);
    assert_eq!(cells_of(&grid), vec![Free, Free, Free, Fragmented, Used, Fragmented]);
}

#[test]
fn refragment_empties_before_head_when_room_is_left() {
    for _ in 0..20 {
        let mut grid = grid_of(&[Used, Free, Free, Free, Free, Free, Free, Free, Free, Free]);
        refragment(&mut grid, 1, 50);
        let cells = cells_of(&grid);
        assert_eq!(data_count(&grid), 1);
        assert_eq!(cells[0], Free);
    }
}

#[test]
fn scatter_places_every_overlay() {
    for _ in 0..30 {
        let mut grid = BlockGrid::new(20, 3);
        scatter(&mut grid, 30, 4, true);
        let cells = cells_of(&grid);
        let unmovable = cells.iter().filter(|c| **c == Unmovable).count();
        let bad = cells.iter().filter(|c| **c == Cell::Bad).count();
        assert_eq!(bad, 1);
        assert!(unmovable <= 4);
        assert!(30 <= data_count(&grid) + unmovable + bad);

        let mut grid = BlockGrid::new(20, 3);
        scatter(&mut grid, 30, 4, false);
        let cells = cells_of(&grid);
        let unmovable = cells.iter().filter(|c| **c == Unmovable).count();
        assert!(unmovable >= 1 && unmovable <= 4);
        assert!(cells.iter().all(|c| *c != Cell::Bad));
        assert!(30 <= data_count(&grid) + unmovable);
    }
}

#[test]
fn a_pass_ends_settled_and_keeps_data() {
    let mut grid = BlockGrid::new(25, 4);
    scatter(&mut grid, 50, 3, true);
    let data = data_count(&grid);
    let mut transfers: Vec<Transfer> = Vec::new();
    let mut restarts: usize = 0;
    let mut frames = 0;
    loop {
        let done = advance_frame(&mut grid, &mut transfers, 2);
        frames += 1;
        assert!(frames < 1000);
        if done {
            break;
        }
        if restart_due(restarts, 2, frames % 7 == 0) {
            let head = restart(&mut grid, &mut transfers, &mut restarts);
            assert!(transfers.is_empty());
            assert_eq!(data_count(&grid), data);
            refragment(&mut grid, head, head / 3);
        }
    }
    assert!(restarts <= 2);
    assert_eq!(pending(&grid), 0);
    assert_eq!(data_count(&grid), data);
    assert!(transfers.is_empty());
}

#[test]
fn restart_calls_moves_off_and_finds_head() {
    let mut grid = grid_of(&[Used, Free, Free, Used, Fragmented]);
    let mut transfers: Vec<Transfer> = Vec::new();
    let done = advance_frame(&mut grid, &mut transfers, 1);
    assert!(!done);
    assert!(!transfers.is_empty());
    let mut restarts = 0;
    let head = restart(&mut grid, &mut transfers, &mut restarts);
    assert_eq!(restarts, 1);
    assert_eq!(head, 1);
    assert_eq!(data_count(&grid), 3);
    let mut full = grid_of(&[Used, Used]);
    let mut none: Vec<Transfer> = Vec::new();
    assert_eq!(restart(&mut full, &mut none, &mut restarts), 0);
    assert!(restart_due(0, 1, true));
    assert!(!restart_due(1, 1, true));
    assert!(!restart_due(0, 1, false));
}

#[test]
fn nth_free_counts_free_clusters() {
    let grid = grid_of(&[Used, Free, Unmovable, Free, Free, Fragmented]);
    assert_eq!(nth_free(&grid, 0), 1);
    assert_eq!(nth_free(&grid, 1), 3);
    assert_eq!(nth_free(&grid, 2), 4);
}

#[test]
fn place_run_follows_flags_and_budget() {
    let mut grid = grid_of(&[Free, Free, Used, Free, Free, Free]);
    let placed = place_run(&mut grid, 1, &vec![true, false, false], 5);
    assert_eq!(placed, 2);
    assert_eq!(cells_of(&grid), vec![Free, Fragmented, Used, Used, Free, Free]);
    let placed = place_run(&mut grid, 4, &vec![false, true, true], 1);
    assert_eq!(placed, 1);
    assert_eq!(cells_of(&grid), vec![Free, Fragmented, Used, Used, Used, Free]);
    let placed = place_run(&mut grid, 5, &vec![true, true, true], 3);
    assert_eq!(placed, 1);
    assert_eq!(cells_of(&grid), vec![Free, Fragmented, Used, Used, Used, Fragmented]);
    let placed = place_run(&mut grid, 9, &vec![true], 3);
    assert_eq!(placed, 0);
}

#[test]
fn a_pass_keeps_fixtures_and_data_in_transit() {
    for _ in 0..10 {
        let mut grid = BlockGrid::new(30, 3);
        scatter(&mut grid, 40, 4, true);
        let start = cells_of(&grid);
        let fixed: Vec<bool> = start.iter().map(|c| *c == Unmovable || *c == Cell::Bad).collect();
        let transit = |g: &BlockGrid| {
            cells_of(g).iter().filter(|c| c.is_data() || **c == Reading).count()
        };
        let data = transit(&grid);
        let mut transfers: Vec<Transfer> = Vec::new();
        let mut restarts = 0;
        for frame in 0..500 {
            let done = advance_frame(&mut grid, &mut transfers, 3);
            let now = cells_of(&grid);
            assert_eq!(now.len(), start.len());
            for (i, c) in now.iter().enumerate() {
                assert_eq!(*c == Unmovable || *c == Cell::Bad, fixed[i]);
                assert_eq!(*c, if fixed[i] { start[i] } else { *c });
            }
            assert_eq!(transit(&grid), data);
            if done {
                break;
            }
            if restart_due(restarts, 3, frame % 5 == 4) {
                let head = restart(&mut grid, &mut transfers, &mut restarts);
                assert_eq!(transit(&grid), data);
                refragment(&mut grid, head, head / 2);
                assert_eq!(transit(&grid), data);
            }
        }
        assert_eq!(pending(&grid), 0);
    }
}
