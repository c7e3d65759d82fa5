use lira_analyzer::canvas::plan_canvas;

fn entries(levels: &[Vec<bool>], per: usize, total: usize) -> (Vec<(usize, Vec<usize>)>, usize, usize) {
    let plan = plan_canvas(&levels.to_vec(), per, total);
    let list = plan.levels.iter().map(|l| (l.level, l.shapes.clone())).collect();
    (list, plan.total_shapes, plan.visible_levels())
}

#[test]
fn test_plan_canvas_takes_rows_in_order() {
    let levels = vec![vec![true, false, true], vec![false, true]];
    let (list, total, visible) = entries(&levels, 10, 10);
    assert_eq!(list, vec![(0, vec![0, 2]), (1, vec![1])]);
    assert_eq!(total, 3);
    assert_eq!(visible, 2);
}

#[test]
fn test_plan_canvas_per_level_limit() {
    let levels = vec![vec![true, true, true], vec![true, true]];
    let (list, total, _) = entries(&levels, 2, 10);
    assert_eq!(list, vec![(0, vec![0, 1]), (1, vec![0, 1])]);
    assert_eq!(total, 4);
}

#[test]
fn test_plan_canvas_total_limit_stops_levels() {
    let levels = vec![vec![true, true], vec![true, true], vec![true]];
    let (list, total, visible) = entries(&levels, 5, 3);
    assert_eq!(list, vec![(0, vec![0, 1]), (1, vec![0])]);
    assert_eq!(total, 3);
    assert_eq!(visible, 2);
}

#[test]
fn test_plan_canvas_skips_levels_without_rows() {
    let levels = vec![vec![false, false], vec![], vec![true]];
    let (list, total, visible) = entries(&levels, 5, 5);
    assert_eq!(list, vec![(2, vec![0])]);
    assert_eq!(total, 1);
    assert_eq!(visible, 1);
}

#[test]
fn test_plan_canvas_zero_limits_draw_nothing() {
    let levels = vec![vec![true, true]];
    assert_eq!(entries(&levels, 0, 5).1, 0);
    assert_eq!(entries(&levels, 5, 0).1, 0);
    assert!(entries(&levels, 5, 0).0.is_empty());
}
