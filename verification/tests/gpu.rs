use moonowl::gpu::{can_stack, disjoint, grid, minus, stack, Run};

fn run(on: [u32; 2], size: [u32; 2]) -> Run {
    Run { span: [0, 0, size[0], size[1]], on, from: on, ink: [0; 3], paper: [0; 3] }
}

fn area(runs: &[Run]) -> u64 {
    runs.iter().map(|r| r.span[2] as u64 * r.span[3] as u64).sum()
}

#[test]
fn runs_are_shelved_within_the_page_width() {
    let mut runs: Vec<Run> = (0..100)
        .map(|at| Run { span: [0, 0, 400, 100], on: [0, at * 100], from: [0, 0], ink: [0; 3], paper: [0; 3] })
        .collect();
    stack(&mut runs, 1000);
    let (across, down) = grid(&runs);
    assert_eq!(across, 800);
    assert_eq!(down, 5000);
    assert_eq!(runs[1].span[..2], [400, 0]);
    assert_eq!(runs[2].span[..2], [0, 100]);
}

#[test]
fn a_run_less_one_inside_it_is_four_strips() {
    let pieces = minus(run([0, 0], [10, 10]), &run([3, 3], [4, 4]));
    assert_eq!(pieces.len(), 4);
    assert_eq!(area(&pieces), 100 - 16);
    assert_eq!(pieces[0].on, [0, 0]);
    assert_eq!(pieces[0].span[2..], [10, 3]);
    assert_eq!(pieces[1].on, [0, 3]);
    assert_eq!(pieces[1].span[2..], [3, 4]);
    assert_eq!(pieces[2].on, [7, 3]);
    assert_eq!(pieces[3].on, [0, 7]);
    assert_eq!(pieces[3].span[2..], [10, 3]);
}

#[test]
fn a_run_apart_from_another_is_kept_whole() {
    let whole = run([0, 0], [10, 10]);
    assert_eq!(minus(whole, &run([20, 20], [5, 5])), vec![whole]);
}

#[test]
fn a_piece_reads_from_where_it_sat() {
    let mut under = run([10, 10], [10, 10]);
    under.from = [100, 200];
    let pieces = minus(under, &run([10, 10], [10, 4]));
    assert_eq!(pieces.len(), 1);
    assert_eq!(pieces[0].on, [10, 14]);
    assert_eq!(pieces[0].from, [100, 204]);
}

#[test]
fn the_later_run_wins_where_two_overlap() {
    let kept = disjoint(vec![run([0, 0], [10, 10]), run([5, 5], [10, 10])]);
    assert_eq!(area(&kept), 100 + 100 - 25);
    assert_eq!(kept.last().unwrap().on, [5, 5]);
    assert_eq!(kept.last().unwrap().span[2..], [10, 10]);
}

#[test]
fn an_empty_grid_is_still_one_by_one() {
    assert_eq!(grid(&Vec::new()), (1, 1));
}

#[test]
fn runs_whose_widths_add_past_a_u32_can_still_be_shelved() {
    // Three runs, each over a third of the largest width: together wider
    // than a u32, but each on a shelf of its own.
    let wide = 1_500_000_000u32;
    let mut runs: Vec<Run> = (0..3).map(|_| run([0, 0], [wide, 10])).collect();
    assert!(can_stack(&runs, 1000));
    stack(&mut runs, 1000);
    assert_eq!(runs[0].span[..2], [0, 0]);
    assert_eq!(runs[1].span[..2], [0, 10]);
    assert_eq!(runs[2].span[..2], [0, 20]);
    // Shelves whose heights add past one are refused, and so is a shelf
    // whose next run would take it past one.
    let tall: Vec<Run> = (0..3).map(|_| run([0, 0], [wide, 3_000_000_000])).collect();
    assert!(!can_stack(&tall, 1000));
    let wider: Vec<Run> = (0..2).map(|_| run([0, 0], [3_000_000_000, 10])).collect();
    assert!(!can_stack(&wider, 1000));
    assert!(can_stack(&Vec::new(), 0));
}
