use photo_packer::grid::materialize;
use photo_packer::photo::{PackError, Placement};

fn placed(id: &str, x: usize, y: usize, width: u32, height: u32) -> Placement {
    Placement { photo_id: id.to_string(), x, y, width, height }
}

fn clash(id: &str) -> Result<Vec<Vec<Option<usize>>>, PackError> {
    Err(PackError::InternalInvariantViolation { id: id.to_string() })
}

#[test]
fn no_placements_give_no_rows() {
    assert_eq!(materialize(&Vec::new(), 1500), Ok(Vec::new()));
}

#[test]
fn grid_has_a_row_up_to_the_highest_top() {
    let grid = materialize(&vec![placed("a", 0, 0, 2, 1), placed("b", 3, 2, 1, 2)], 5).unwrap();
    assert_eq!(
        grid,
        vec![
            vec![Some(0), Some(0), None, None, None],
            vec![None, None, None, None, None],
            vec![None, None, None, Some(1), None],
            vec![None, None, None, Some(1), None],
        ]
    );
}

#[test]
fn rectangles_that_touch_do_not_clash() {
    let grid = materialize(
        &vec![placed("a", 0, 0, 2, 2), placed("b", 2, 0, 2, 2), placed("c", 0, 2, 4, 1)],
        4,
    )
    .unwrap();
    assert_eq!(
        grid,
        vec![
            vec![Some(0), Some(0), Some(1), Some(1)],
            vec![Some(0), Some(0), Some(1), Some(1)],
            vec![Some(2), Some(2), Some(2), Some(2)],
        ]
    );
}

#[test]
fn a_cell_written_twice_is_an_error() {
    let placements = vec![placed("a", 0, 0, 3, 3), placed("b", 5, 0, 2, 2), placed("c", 2, 2, 2, 2)];
    assert_eq!(materialize(&placements, 10), clash("c"));
}

#[test]
fn the_first_clash_is_named() {
    let placements = vec![
        placed("a", 0, 0, 3, 3),
        placed("b", 1, 1, 1, 1),
        placed("c", 9, 0, 5, 1),
        placed("d", 0, 0, 1, 1),
    ];
    assert_eq!(materialize(&placements, 10), clash("b"));
    let placements = vec![
        placed("a", 0, 0, 3, 3),
        placed("c", 9, 0, 5, 1),
        placed("b", 1, 1, 1, 1),
    ];
    assert_eq!(materialize(&placements, 10), clash("c"));
}

#[test]
fn a_rectangle_beyond_the_canvas_is_an_error() {
    assert_eq!(materialize(&vec![placed("a", 8, 0, 3, 1)], 10), clash("a"));
    assert_eq!(materialize(&vec![placed("a", 11, 0, 0, 1)], 10), clash("a"));
    assert_eq!(materialize(&vec![placed("a", 0, usize::MAX, 1, 1)], 10), clash("a"));
    assert!(materialize(&vec![placed("a", 7, 0, 3, 1)], 10).is_ok());
}

#[test]
fn empty_rectangles_hold_no_cell() {
    let grid = materialize(&vec![placed("flat", 0, 0, 3, 0), placed("thin", 1, 0, 0, 2), placed("a", 0, 0, 3, 1)], 3)
        .unwrap();
    assert_eq!(grid, vec![vec![Some(2), Some(2), Some(2)], vec![None, None, None]]);
}

#[test]
fn placement_fits_by_width_and_rows() {
    assert!(placed("a", 7, 0, 3, 1).fits(10));
    assert!(!placed("a", 8, 0, 3, 1).fits(10));
    assert!(placed("a", 10, 0, 0, 1).fits(10));
    assert!(!placed("a", 11, 0, 0, 1).fits(10));
    assert!(placed("a", 0, usize::MAX - 1, 1, 1).fits(10));
    assert!(!placed("a", 0, usize::MAX - 1, 1, 2).fits(10));
    assert_eq!(placed("a", 1, 2, 3, 4).clone(), placed("a", 1, 2, 3, 4));
}
