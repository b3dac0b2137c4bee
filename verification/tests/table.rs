use favonius::display::percent_text;
use favonius::eval::{evaluate, DisplayCell, EvalError};
use favonius::grid::build_grid;

fn cells(trials: i32) -> Vec<Vec<DisplayCell>> {
    let grid = build_grid();
    evaluate(&grid, trials).unwrap()
}

#[test]
fn grid_dimensions_and_values() {
    let grid = build_grid();
    assert_eq!(grid.cells.len(), 5);
    for (i, row) in grid.cells.iter().enumerate() {
        assert_eq!(row.len(), 10);
        for (j, &cell) in row.iter().enumerate() {
            let expected: u64 = 100 - ((j as u64 + 1) * (i as u64 + 6));
            assert_eq!(cell, expected);
            let as_probability = cell as f64 / 100.0;
            let formula = 1.0 - ((10 * (j + 1)) as f64 / 100.0) * (0.6 + 0.1 * i as f64);
            assert!((as_probability - formula).abs() < 1e-9);
        }
    }
}

#[test]
fn grid_certain_emission_corner() {
    let grid = build_grid();
    assert_eq!(grid.cells[4][9], 0);
    assert_eq!(grid.cells[4][9] as f64 / 100.0, 0.0);
}

#[test]
fn grid_weakest_corner() {
    let grid = build_grid();
    assert_eq!(grid.cells[0][0], 94);
    assert!((grid.cells[0][0] as f64 / 100.0 - 0.94).abs() < 1e-9);
}

#[test]
fn single_hit_lowest_cell() {
    let table = cells(1);
    let cell = table[0][0];
    assert_eq!(cell.tenths, 60);
    assert_eq!(cell.text(), "6.0%");
    assert!(!cell.highlight);
}

#[test]
fn rank_five_full_crit_twenty_hits() {
    let table = cells(20);
    let cell = table[4][9];
    assert_eq!(cell.tenths, 1000);
    assert_eq!(cell.text(), "100%");
    assert!(cell.highlight);
}

#[test]
fn rank_three_half_crit_five_hits() {
    // Rank R3 (coefficient 0.8) at 50% crit rate: non-occurrence 0.6 per hit,
    // so five hits give 100 * (1 - 0.6^5) = 92.224 percent.
    let table = cells(5);
    let cell = table[2][4];
    assert_eq!(cell.tenths, 922);
    assert_eq!(cell.text(), "92.2%");
    assert!(cell.highlight);
}

#[test]
fn rounds_up_to_flat_hundred() {
    // Non-occurrence 0.55 per hit; after 13 hits the occurrence chance is
    // 99.9578...%, which rounds to 100.0 and therefore displays as "100%".
    let table = cells(13);
    let cell = table[3][4];
    assert_eq!(cell.tenths, 1000);
    assert_eq!(cell.text(), "100%");
    assert!(cell.highlight);
}

#[test]
fn exact_seventy_not_highlighted() {
    // Rank R2 (coefficient 0.7) at 100% crit rate, one hit: exactly 70%.
    let table = cells(1);
    let cell = table[1][9];
    assert_eq!(cell.tenths, 700);
    assert_eq!(cell.text(), "70.0%");
    assert!(!cell.highlight);
}

#[test]
fn just_above_seventy_highlighted() {
    // Non-occurrence 0.86 per hit, eight hits: 70.0782...%, displayed as
    // "70.1%" and highlighted because the unrounded value exceeds 70.
    let table = cells(8);
    let cell = table[1][1];
    assert_eq!(cell.tenths, 701);
    assert_eq!(cell.text(), "70.1%");
    assert!(cell.highlight);
}

#[test]
fn half_tenth_rounds_up_on_percent_side() {
    // Non-occurrence 0.55 per hit, two hits: exactly 69.75%, displayed as
    // "69.8%" (ties round toward the higher percentage) and not highlighted.
    let table = cells(2);
    let cell = table[3][4];
    assert_eq!(cell.tenths, 698);
    assert_eq!(cell.text(), "69.8%");
    assert!(!cell.highlight);
}

#[test]
fn non_positive_hit_counts_rejected() {
    let grid = build_grid();
    assert_eq!(evaluate(&grid, 0), Err(EvalError::InvalidInput));
    assert_eq!(evaluate(&grid, -7), Err(EvalError::InvalidInput));
    assert_eq!(evaluate(&grid, i32::MIN), Err(EvalError::InvalidInput));
}

#[test]
fn evaluation_is_deterministic() {
    let grid = build_grid();
    let first = evaluate(&grid, 9).unwrap();
    let second = evaluate(&grid, 9).unwrap();
    assert_eq!(first, second);
}

#[test]
fn single_hit_is_exact_everywhere() {
    let grid = build_grid();
    let table = evaluate(&grid, 1).unwrap();
    for i in 0..5 {
        for j in 0..10 {
            let n = grid.cells[i][j] as u16;
            assert_eq!(table[i][j].tenths, 1000 - 10 * n);
        }
    }
}

#[test]
fn percentage_never_decreases_with_hits() {
    for i in 0..5 {
        for j in 0..10 {
            let mut previous: u16 = 0;
            for trials in 1..=40 {
                let cell = cells(trials)[i][j];
                assert!(cell.tenths >= previous);
                previous = cell.tenths;
            }
        }
    }
}

#[test]
fn huge_hit_counts_are_flat_hundred() {
    for &trials in &[500, 1_000_000, i32::MAX] {
        let table = cells(trials);
        for row in &table {
            for cell in row {
                assert_eq!(cell.tenths, 1000);
                assert_eq!(cell.text(), "100%");
                assert!(cell.highlight);
            }
        }
    }
}

#[test]
fn percent_text_formatting() {
    assert_eq!(percent_text(0), "0.0%");
    assert_eq!(percent_text(5), "0.5%");
    assert_eq!(percent_text(60), "6.0%");
    assert_eq!(percent_text(100), "10.0%");
    assert_eq!(percent_text(700), "70.0%");
    assert_eq!(percent_text(922), "92.2%");
    assert_eq!(percent_text(999), "99.9%");
    assert_eq!(percent_text(1000), "100%");
}
