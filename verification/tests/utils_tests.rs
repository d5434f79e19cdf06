use grid_engine::error::InnerGridError;
use grid_engine::utils::{for_cell, ForCellArgs};

#[test]
fn test_for_cell_visits_all_cells() {
    let args = ForCellArgs {
        x: 1,
        y: 2,
        w: 2,
        h: 2,
    };
    let visited = for_cell(args);

    assert_eq!(
        visited,
        vec![(1, 2), (1, 3), (2, 2), (2, 3)],
        "Should visit all cells in the specified rectangle"
    );
}

#[test]
fn test_for_cell_handles_zero_dimensions() {
    assert!(for_cell(ForCellArgs {
        x: 0,
        y: 0,
        w: 0,
        h: 1
    })
    .is_empty());

    assert!(for_cell(ForCellArgs {
        x: 0,
        y: 0,
        w: 1,
        h: 0
    })
    .is_empty());

    assert!(for_cell(ForCellArgs {
        x: 0,
        y: 0,
        w: 0,
        h: 0
    })
    .is_empty());
}

#[test]
fn test_for_cell_propagates_error() {
    // consuming the enumeration stops at the first failing cell
    let mut result: Result<(), InnerGridError> = Ok(());
    for (x, _y) in for_cell(ForCellArgs {
        x: 1,
        y: 1,
        w: 2,
        h: 1,
    }) {
        if x > 1 {
            result = Err(InnerGridError::OutOfBoundsAccess { x: 0, y: 0 });
            break;
        }
    }

    assert!(result.is_err());
}

#[test]
fn grid_engine_test_for_cell() {
    let results = for_cell(ForCellArgs {
        x: 1,
        y: 2,
        w: 2,
        h: 2,
    });

    assert_eq!(results, vec![(1, 2), (1, 3), (2, 2), (2, 3)]);
}
