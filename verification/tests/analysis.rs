use code_gen::coloring::assign_colors;
use code_gen::degree::row_degree;
use code_gen::interference::build_interference;
use code_gen::ir::is_well_formed;
use code_gen::liveness::{build_live_ranges, count_registers};
use code_gen::matrix::{filled, set_cell};
use code_gen::simplify::simplify;
use code_gen::{is_empty, Integer, LiveRangeCell, OpeCode, Register};

fn ldi(dst: usize, value: i32) -> OpeCode {
    OpeCode::LdI { dst: Register::new(dst), value: Integer::new(value) }
}

fn add(dst: usize, src1: usize, src2: usize) -> OpeCode {
    OpeCode::Add { dst: Register::new(dst), src1: Register::new(src1), src2: Register::new(src2) }
}

fn print(src: usize) -> OpeCode {
    OpeCode::Print { src: Register::new(src) }
}

fn linear_add_chain() -> Vec<OpeCode> {
    vec![
        ldi(1, 1),
        ldi(2, 2),
        ldi(3, 3),
        ldi(4, 4),
        add(5, 1, 2),
        add(6, 5, 3),
        add(7, 6, 4),
        print(7),
    ]
}

fn row(text: &str) -> Vec<LiveRangeCell> {
    text.chars()
        .map(|c| match c {
            '.' => LiveRangeCell::Dead,
            '*' => LiveRangeCell::Birth,
            '-' => LiveRangeCell::Live,
            '=' => LiveRangeCell::Used,
            'x' => LiveRangeCell::EndPoint,
            _ => panic!("unknown cell"),
        })
        .collect()
}

#[test]
fn live_cells() {
    assert!(!LiveRangeCell::Dead.is_live());
    assert!(LiveRangeCell::Birth.is_live());
    assert!(LiveRangeCell::Live.is_live());
    assert!(LiveRangeCell::Used.is_live());
    assert!(!LiveRangeCell::EndPoint.is_live());
}

#[test]
fn used_cells() {
    assert!(!LiveRangeCell::Dead.is_used());
    assert!(LiveRangeCell::Birth.is_used());
    assert!(!LiveRangeCell::Live.is_used());
    assert!(LiveRangeCell::Used.is_used());
    assert!(LiveRangeCell::EndPoint.is_used());
}

#[test]
fn register_count_is_one_more_than_the_largest_identifier() {
    assert_eq!(count_registers(&linear_add_chain()), 8);
    assert_eq!(count_registers(&vec![add(2, 9, 4)]), 10);
    assert_eq!(count_registers(&vec![add(2, 3, 11)]), 12);
    assert_eq!(count_registers(&Vec::new()), 1);
}

#[test]
fn live_ranges_of_the_linear_add_chain() {
    let live_range = build_live_ranges(&linear_add_chain());
    let expected = vec![
        row("........"),
        row("*---x..."),
        row(".*--x..."),
        row("..*--x.."),
        row("...*--x."),
        row("....*x.."),
        row(".....*x."),
        row("......*x"),
    ];
    assert_eq!(live_range, expected);
}

#[test]
fn live_ranges_with_redefinition_and_repeated_use() {
    let program = vec![ldi(1, 1), print(1), print(1), ldi(1, 2), ldi(2, 0), print(1)];
    let live_range = build_live_ranges(&program);
    assert_eq!(live_range, vec![row("......"), row("*=x*-x"), row("....*.")]);
}

#[test]
fn a_write_wins_over_a_read_by_the_same_instruction() {
    let program = vec![ldi(1, 1), ldi(2, 5), add(1, 1, 1), print(1)];
    let live_range = build_live_ranges(&program);
    assert_eq!(live_range, vec![row("...."), row("*.*x"), row(".*..")]);
}

#[test]
fn a_read_without_a_write_is_live_from_the_start() {
    let program = vec![ldi(2, 1), print(1)];
    let live_range = build_live_ranges(&program);
    assert_eq!(live_range, vec![row(".."), row("-x"), row("*.")]);
}

fn edges(matrix: &Vec<Vec<bool>>) -> Vec<(usize, usize)> {
    let mut found = Vec::new();
    for a in 0..matrix.len() {
        for b in 0..matrix[a].len() {
            if matrix[a][b] {
                found.push((a, b));
            }
        }
    }
    found
}

#[test]
fn interference_of_the_linear_add_chain() {
    let matrix = build_interference(&build_live_ranges(&linear_add_chain()));
    assert_eq!(matrix.len(), 8);
    let mut expected = Vec::new();
    for (a, b) in [(1, 2), (1, 3), (2, 3), (1, 4), (2, 4), (3, 4), (3, 5), (4, 5), (4, 6)] {
        expected.push((a, b));
        expected.push((b, a));
    }
    expected.sort();
    assert_eq!(edges(&matrix), expected);
    for a in 0..8 {
        assert!(!matrix[a][a]);
        for b in 0..8 {
            assert_eq!(matrix[a][b], matrix[b][a]);
        }
    }
}

#[test]
fn simplification_marks_the_lowest_high_degree_nodes() {
    let matrix = build_interference(&build_live_ranges(&linear_add_chain()));
    let (removed, spills) = simplify(&matrix, 2);
    assert_eq!(removed, vec![0, 6, 7, 1, 2, 3, 4, 5]);
    assert_eq!(spills, vec![1, 2, 3]);
}

#[test]
fn simplification_without_marks() {
    let matrix = build_interference(&build_live_ranges(&linear_add_chain()));
    let (removed, spills) = simplify(&matrix, 4);
    assert_eq!(removed, vec![0, 1, 2, 3, 4, 5, 6, 7]);
    assert_eq!(spills, Vec::<usize>::new());
}

#[test]
fn colors_of_the_linear_add_chain_with_six_registers() {
    let matrix = build_interference(&build_live_ranges(&linear_add_chain()));
    let (removed, _) = simplify(&matrix, 4);
    let colors = assign_colors(&matrix, &removed, 6);
    let listed: Vec<usize> = (0..8).map(|id| colors[&id]).collect();
    assert_eq!(listed, vec![1, 4, 1, 3, 2, 1, 1, 1]);
    for a in 0..8 {
        for b in 0..8 {
            if matrix[a][b] {
                assert_ne!(colors[&a], colors[&b]);
            }
        }
    }
}

#[test]
fn degree_counts_set_cells() {
    assert_eq!(row_degree(&vec![]), 0);
    assert_eq!(row_degree(&vec![false, false]), 0);
    assert_eq!(row_degree(&vec![true, false, true, true]), 3);
}

#[test]
fn empty_matrices() {
    assert!(is_empty(&Vec::<Vec<bool>>::new(), false));
    assert!(is_empty(&vec![vec![false, false], vec![false, false]], false));
    assert!(!is_empty(&vec![vec![false, false], vec![false, true]], false));
    assert!(is_empty(&vec![vec![7, 7], vec![], vec![7]], 7));
    assert!(!is_empty(&vec![vec![7, 7], vec![], vec![8]], 7));
}

#[test]
fn filled_matrix_and_cell_update() {
    let mut matrix = filled(2, 3, 0u8);
    assert_eq!(matrix, vec![vec![0, 0, 0], vec![0, 0, 0]]);
    set_cell(&mut matrix, 1, 2, 9);
    assert_eq!(matrix, vec![vec![0, 0, 0], vec![0, 0, 9]]);
}

#[test]
fn well_formed_programs() {
    assert!(is_well_formed(&linear_add_chain()));
    assert!(is_well_formed(&Vec::new()));
    assert!(!is_well_formed(&vec![print(1)]));
    assert!(!is_well_formed(&vec![ldi(1, 0), add(1, 1, 2)]));
    assert!(is_well_formed(&vec![ldi(1, 0), add(1, 1, 1)]));
}
