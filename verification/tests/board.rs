use pseudo_board::PseudoBoard;

fn grid_of(rows: &[&[i8]]) -> PseudoBoard {
    let width = rows[0].len();
    let mut data = Vec::new();
    for row in rows {
        assert_eq!(row.len(), width);
        data.extend_from_slice(row);
    }
    PseudoBoard::new(data, width).unwrap()
}

#[test]
fn new_takes_a_rectangle() {
    let b = PseudoBoard::new(vec![0, 1, -1, 0, 0, 0], 3).unwrap();
    assert_eq!(b.width, 3);
    assert_eq!(b.data, vec![0, 1, -1, 0, 0, 0]);
}

#[test]
fn new_takes_the_empty_board() {
    let b = PseudoBoard::new(vec![], 4).unwrap();
    assert_eq!(b.width, 4);
    assert!(b.data.is_empty());
    assert_eq!(b.get(0), None);
    assert_eq!(b.get_neighbors(0), Vec::<usize>::new());
    assert_eq!(b.get_floating_stones(), Vec::<usize>::new());
}

#[test]
fn new_refuses_rows_of_no_points() {
    assert!(PseudoBoard::new(vec![], 0).is_none());
    assert!(PseudoBoard::new(vec![0, 0], 0).is_none());
}

#[test]
fn new_refuses_a_short_last_row() {
    assert!(PseudoBoard::new(vec![0, 0, 0, 0, 0], 3).is_none());
    assert!(PseudoBoard::new(vec![0], 2).is_none());
}

#[test]
fn a_board_can_be_written_as_a_struct() {
    let b = PseudoBoard { data: vec![1, 0, 0, -1], width: 2 };
    assert_eq!(b.get(0), Some(1));
    assert_eq!(b.get(3), Some(-1));
    assert_eq!(b.get_neighbors(0), vec![2, 1]);
}

#[test]
fn get_reads_cells_and_nothing_off_board() {
    let b = grid_of(&[&[0, 1, -1], &[1, 0, 0]]);
    assert_eq!(b.get(0), Some(0));
    assert_eq!(b.get(1), Some(1));
    assert_eq!(b.get(2), Some(-1));
    assert_eq!(b.get(3), Some(1));
    assert_eq!(b.get(5), Some(0));
    assert_eq!(b.get(6), None);
    assert_eq!(b.get(usize::MAX), None);
}

#[test]
fn set_writes_one_cell() {
    let mut b = grid_of(&[&[0, 0, 0], &[0, 0, 0]]);
    b.set(4, -1);
    assert_eq!(b.data, vec![0, 0, 0, 0, -1, 0]);
    b.set(0, 1);
    assert_eq!(b.data, vec![1, 0, 0, 0, -1, 0]);
    b.set(4, 0);
    assert_eq!(b.data, vec![1, 0, 0, 0, 0, 0]);
    assert_eq!(b.width, 3);
}

#[test]
fn set_off_board_writes_nothing() {
    let mut b = grid_of(&[&[0, 1], &[-1, 0]]);
    b.set(4, 1);
    b.set(usize::MAX, -1);
    assert_eq!(b.data, vec![0, 1, -1, 0]);
    assert_eq!(b.width, 2);
}

#[test]
fn neighbors_of_an_inner_point() {
    let b = grid_of(&[&[0, 0, 0], &[0, 0, 0], &[0, 0, 0]]);
    assert_eq!(b.get_neighbors(4), vec![1, 7, 3, 5]);
}

#[test]
fn neighbors_of_corners() {
    let b = grid_of(&[&[0, 0, 0], &[0, 0, 0], &[0, 0, 0]]);
    assert_eq!(b.get_neighbors(0), vec![3, 1]);
    assert_eq!(b.get_neighbors(2), vec![5, 1]);
    assert_eq!(b.get_neighbors(6), vec![3, 7]);
    assert_eq!(b.get_neighbors(8), vec![5, 7]);
}

#[test]
fn neighbors_of_edge_points() {
    let b = grid_of(&[&[0, 0, 0], &[0, 0, 0], &[0, 0, 0]]);
    assert_eq!(b.get_neighbors(1), vec![4, 0, 2]);
    assert_eq!(b.get_neighbors(3), vec![0, 6, 4]);
    assert_eq!(b.get_neighbors(5), vec![2, 8, 4]);
    assert_eq!(b.get_neighbors(7), vec![4, 6, 8]);
}

#[test]
fn rows_do_not_wrap() {
    let b = grid_of(&[&[0, 0, 0, 0], &[0, 0, 0, 0]]);
    assert_eq!(b.get_neighbors(3), vec![7, 2]);
    assert_eq!(b.get_neighbors(4), vec![0, 5]);
}

#[test]
fn neighbors_on_a_single_point() {
    let b = grid_of(&[&[0]]);
    assert_eq!(b.get_neighbors(0), Vec::<usize>::new());
}

#[test]
fn neighbors_on_a_single_column() {
    let b = grid_of(&[&[0], &[0], &[0]]);
    assert_eq!(b.get_neighbors(0), vec![1]);
    assert_eq!(b.get_neighbors(1), vec![0, 2]);
    assert_eq!(b.get_neighbors(2), vec![1]);
}

#[test]
fn neighbors_on_a_single_row() {
    let b = grid_of(&[&[0, 0, 0]]);
    assert_eq!(b.get_neighbors(0), vec![1]);
    assert_eq!(b.get_neighbors(1), vec![0, 2]);
    assert_eq!(b.get_neighbors(2), vec![1]);
}

#[test]
fn neighbors_of_points_off_the_board() {
    let b = grid_of(&[&[0, 0, 0], &[0, 0, 0], &[0, 0, 0]]);
    assert_eq!(b.get_neighbors(9), vec![6]);
    assert_eq!(b.get_neighbors(10), vec![7]);
    assert_eq!(b.get_neighbors(11), vec![8]);
    assert_eq!(b.get_neighbors(12), Vec::<usize>::new());
    assert_eq!(b.get_neighbors(usize::MAX), Vec::<usize>::new());
}

#[test]
fn a_stone_with_no_friend_beside_it_is_a_point_chain() {
    let b = grid_of(&[&[1, 0], &[0, 1]]);
    assert!(b.is_point_chain(0));
    assert!(b.is_point_chain(3));
    let c = grid_of(&[&[1, -1], &[-1, 1]]);
    assert!(c.is_point_chain(0));
    assert!(c.is_point_chain(1));
}

#[test]
fn a_stone_with_a_friend_beside_it_is_no_point_chain() {
    let b = grid_of(&[&[1, 1], &[0, 0]]);
    assert!(!b.is_point_chain(0));
    assert!(!b.is_point_chain(1));
    assert!(!b.is_point_chain(2));
    let c = grid_of(&[&[-1, 0], &[-1, 0]]);
    assert!(!c.is_point_chain(0));
    assert!(!c.is_point_chain(2));
}

#[test]
fn point_chain_off_the_board() {
    let b = grid_of(&[&[1, 1], &[0, 0]]);
    assert!(b.is_point_chain(4));
    assert!(b.is_point_chain(6));
    assert!(b.is_point_chain(usize::MAX));
}

#[test]
fn point_chain_on_a_single_point() {
    let b = grid_of(&[&[1]]);
    assert!(b.is_point_chain(0));
}

#[test]
fn a_clone_is_a_board_of_its_own() {
    let b = grid_of(&[&[0, 1], &[-1, 0]]);
    let mut c = b.clone();
    c.set(0, 1);
    assert_eq!(b.data, vec![0, 1, -1, 0]);
    assert_eq!(c.data, vec![1, 1, -1, 0]);
    assert_eq!(c.width, 2);
}
