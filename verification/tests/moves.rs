use pseudo_board::PseudoBoard;

fn layout(rows: &[&[i8]]) -> PseudoBoard {
    let width = rows[0].len();
    let mut data = Vec::new();
    for row in rows {
        assert_eq!(row.len(), width);
        data.extend_from_slice(row);
    }
    PseudoBoard::new(data, width).unwrap()
}

#[test]
fn a_move_on_an_open_board_captures_nothing() {
    let mut b = layout(&[&[0, 0, 0], &[0, 0, 0], &[0, 0, 0]]);
    assert_eq!(b.make_pseudo_move(1, 4), Some(vec![]));
    assert_eq!(b.data, vec![0, 0, 0, 0, 1, 0, 0, 0, 0]);
    assert_eq!(b.make_pseudo_move(-1, 0), Some(vec![]));
    assert_eq!(b.data, vec![-1, 0, 0, 0, 1, 0, 0, 0, 0]);
    assert_eq!(b.width, 3);
}

#[test]
fn simple_capture_of_four_stones() {
    let mut b = layout(&[&[1, -1, 1], &[-1, 0, -1], &[1, -1, 1]]);
    assert_eq!(b.make_pseudo_move(1, 4), Some(vec![1, 3, 5, 7]));
    assert_eq!(b.data, vec![1, 0, 1, 0, 1, 0, 1, 0, 1]);
}

#[test]
fn simple_capture_with_the_colors_exchanged() {
    let mut b = layout(&[&[-1, 1, -1], &[1, 0, 1], &[-1, 1, -1]]);
    assert_eq!(b.make_pseudo_move(-1, 4), Some(vec![1, 3, 5, 7]));
    assert_eq!(b.data, vec![-1, 0, -1, 0, -1, 0, -1, 0, -1]);
}

#[test]
fn capture_by_a_stone_that_keeps_a_liberty() {
    let mut b = layout(&[&[0, 1, 0], &[1, -1, 0], &[0, 1, 0]]);
    assert_eq!(b.make_pseudo_move(1, 5), Some(vec![4]));
    assert_eq!(b.data, vec![0, 1, 0, 1, 0, 1, 0, 1, 0]);
}

#[test]
fn capture_of_a_chain_of_several_stones() {
    let mut b = layout(&[&[1, 0, -1], &[-1, -1, -1]]);
    assert_eq!(b.make_pseudo_move(1, 1), Some(vec![2, 3, 4, 5]));
    assert_eq!(b.data, vec![1, 1, 0, 0, 0, 0]);
}

#[test]
fn suicide_into_the_sole_empty_point_is_rejected() {
    let mut b = layout(&[&[0, -1, 0, 0], &[-1, 0, -1, 0], &[0, -1, 0, 0]]);
    let before = b.data.clone();
    assert_eq!(b.make_pseudo_move(1, 5), None);
    assert_eq!(b.data, before);
    assert_eq!(b.width, 4);
}

#[test]
fn suicide_of_a_group_is_rejected() {
    let mut b = layout(&[&[1, 0, -1], &[-1, -1, 0]]);
    let before = b.data.clone();
    assert_eq!(b.make_pseudo_move(1, 1), None);
    assert_eq!(b.data, before);
}

#[test]
fn a_lone_stone_that_takes_one_chain_is_rejected() {
    let mut b = layout(&[&[0, 1, -1, 0], &[1, -1, 0, -1], &[0, 1, -1, 0]]);
    let before = b.data.clone();
    assert_eq!(b.make_pseudo_move(1, 6), None);
    assert_eq!(b.data, before);
}

#[test]
fn a_lone_stone_that_takes_two_chains_stays() {
    let mut b = layout(&[&[1, -1, 1], &[-1, 0, -1], &[1, -1, 0]]);
    assert_eq!(b.make_pseudo_move(1, 4), Some(vec![1, 3]));
    assert_eq!(b.data, vec![1, 0, 1, 0, 1, -1, 1, -1, 0]);
}

#[test]
fn two_neighbours_of_one_chain_count_as_one_chain() {
    let mut b = layout(&[&[0, -1], &[-1, -1]]);
    assert_eq!(b.make_pseudo_move(1, 0), None);
    assert_eq!(b.data, vec![0, -1, -1, -1]);
}

#[test]
fn a_group_that_takes_one_chain_stays() {
    let mut b = layout(&[&[1, 0, -1], &[-1, -1, -1]]);
    assert_eq!(b.make_pseudo_move(1, 1), Some(vec![2, 3, 4, 5]));
    assert_eq!(b.get(1), Some(1));
    assert_eq!(b.get(0), Some(1));
}

#[test]
fn a_move_among_friends_only_is_rejected_outright() {
    let mut b = layout(&[&[1, 1, 1], &[1, 0, 1], &[1, 1, 1]]);
    let before = b.data.clone();
    assert_eq!(b.make_pseudo_move(1, 4), None);
    assert_eq!(b.data, before);
}

#[test]
fn a_move_among_friends_with_liberties_elsewhere_is_rejected_outright() {
    let mut b = layout(&[&[0, 1, 0, 0], &[1, 0, 1, 0], &[0, 1, 0, 0]]);
    let before = b.data.clone();
    assert_eq!(b.make_pseudo_move(1, 5), None);
    assert_eq!(b.data, before);
}

#[test]
fn a_move_in_a_corner_between_friends_and_the_edge_is_rejected_outright() {
    let mut b = layout(&[&[0, 1], &[1, 0]]);
    assert_eq!(b.make_pseudo_move(1, 0), None);
    assert_eq!(b.data, vec![0, 1, 1, 0]);
    assert_eq!(b.make_pseudo_move(-1, 0), None);
    assert_eq!(b.data, vec![0, 1, 1, 0]);
}

#[test]
fn a_move_on_a_single_point_is_rejected_outright() {
    let mut b = layout(&[&[0]]);
    assert_eq!(b.make_pseudo_move(1, 0), None);
    assert_eq!(b.data, vec![0]);
    assert_eq!(b.make_pseudo_move(-1, 0), None);
    assert_eq!(b.data, vec![0]);
}

#[test]
fn a_move_off_the_board_is_rejected() {
    let mut b = layout(&[&[0, -1], &[-1, 1]]);
    let before = b.data.clone();
    assert_eq!(b.make_pseudo_move(1, 4), None);
    assert_eq!(b.data, before);
    assert_eq!(b.make_pseudo_move(1, 5), None);
    assert_eq!(b.data, before);
    assert_eq!(b.make_pseudo_move(-1, 5), None);
    assert_eq!(b.data, before);
    assert_eq!(b.make_pseudo_move(-1, 6), None);
    assert_eq!(b.data, before);
    assert_eq!(b.make_pseudo_move(1, usize::MAX), None);
    assert_eq!(b.data, before);
}

#[test]
fn a_move_off_the_board_below_a_dead_chain_takes_nothing() {
    let mut b = layout(&[&[1, 1], &[1, -1]]);
    let before = b.data.clone();
    assert_eq!(b.make_pseudo_move(1, 5), None);
    assert_eq!(b.data, before);
}

#[test]
fn a_rejected_move_onto_a_stone_leaves_the_stone() {
    let mut b = layout(&[&[1, -1], &[-1, 0]]);
    assert_eq!(b.make_pseudo_move(1, 0), None);
    assert_eq!(b.data, vec![1, -1, -1, 0]);
    assert_eq!(b.make_pseudo_move(-1, 0), None);
    assert_eq!(b.data, vec![1, -1, -1, 0]);
}

#[test]
fn a_rejected_move_onto_a_stone_puts_back_what_it_took() {
    let mut b = layout(&[&[-1, -1], &[-1, -1]]);
    assert_eq!(b.make_pseudo_move(1, 0), None);
    assert_eq!(b.data, vec![-1, -1, -1, -1]);
    let mut c = layout(&[&[1, -1], &[-1, -1]]);
    assert_eq!(c.make_pseudo_move(1, 0), None);
    assert_eq!(c.data, vec![1, -1, -1, -1]);
}

#[test]
fn a_move_onto_a_stone_that_is_rejected_outright_changes_nothing() {
    let mut b = layout(&[&[-1, 1], &[1, 0]]);
    assert_eq!(b.make_pseudo_move(1, 0), None);
    assert_eq!(b.data, vec![-1, 1, 1, 0]);
}

#[test]
fn captured_stones_are_empty_and_the_rest_is_kept() {
    let mut b = layout(&[
        &[0, 1, 1, 0, 0],
        &[1, -1, -1, 1, 0],
        &[0, 1, 0, -1, 0],
        &[0, 0, 1, 0, -1],
    ]);
    let before = b.data.clone();
    let dead = b.make_pseudo_move(1, 12).unwrap();
    assert_eq!(dead, vec![6, 7]);
    for v in 0..20 {
        if dead.contains(&v) {
            assert_eq!(b.get(v), Some(0));
        } else if v == 12 {
            assert_eq!(b.get(v), Some(1));
        } else {
            assert_eq!(b.get(v), Some(before[v]));
        }
    }
}

#[test]
fn a_lone_stone_in_a_corner_takes_two_chains() {
    let mut b = layout(&[&[0, 1, -1], &[1, -1, 0], &[-1, 0, 0]]);
    assert_eq!(b.make_pseudo_move(-1, 0), Some(vec![1, 3]));
    assert_eq!(b.data, vec![-1, 0, -1, 0, -1, 0, -1, 0, 0]);
}

#[test]
fn a_chain_with_a_liberty_is_not_captured() {
    let mut b = layout(&[&[-1, 1, 0], &[1, 1, 0], &[0, 0, 0]]);
    assert_eq!(b.make_pseudo_move(-1, 2), Some(vec![]));
    assert_eq!(b.data, vec![-1, 1, -1, 1, 1, 0, 0, 0, 0]);
}

#[test]
fn moves_in_a_row() {
    let mut b = layout(&[&[0, 0, 0], &[0, 0, 0], &[0, 0, 0]]);
    assert_eq!(b.make_pseudo_move(-1, 0), Some(vec![]));
    assert_eq!(b.make_pseudo_move(1, 1), Some(vec![]));
    assert_eq!(b.make_pseudo_move(1, 3), Some(vec![0]));
    assert_eq!(b.data, vec![0, 1, 0, 1, 0, 0, 0, 0, 0]);
    assert_eq!(b.make_pseudo_move(-1, 0), None);
    assert_eq!(b.data, vec![0, 1, 0, 1, 0, 0, 0, 0, 0]);
    assert_eq!(b.make_pseudo_move(1, 0), None);
    assert_eq!(b.data, vec![0, 1, 0, 1, 0, 0, 0, 0, 0]);
}

#[test]
fn captures_come_in_ascending_order() {
    let mut b = layout(&[
        &[0, -1, 1, 0],
        &[-1, 0, -1, 1],
        &[1, -1, 1, 0],
        &[0, 1, 0, 0],
    ]);
    assert_eq!(b.make_pseudo_move(1, 5), Some(vec![6, 9]));
    assert_eq!(
        b.data,
        vec![0, -1, 1, 0, -1, 1, 0, 1, 1, 0, 1, 0, 0, 1, 0, 0]
    );
}

#[test]
fn a_move_onto_a_stone_replaces_it() {
    let mut b = layout(&[&[1, 0], &[0, 0]]);
    assert_eq!(b.make_pseudo_move(1, 0), Some(vec![]));
    assert_eq!(b.data, vec![1, 0, 0, 0]);
    assert_eq!(b.make_pseudo_move(-1, 0), Some(vec![]));
    assert_eq!(b.data, vec![-1, 0, 0, 0]);
}

#[test]
fn a_capture_on_a_large_board() {
    let mut rows: Vec<Vec<i8>> = vec![vec![0; 19]; 19];
    for x in 0..19 {
        rows[0][x] = -1;
        rows[1][x] = 1;
    }
    rows[0][18] = 0;
    let refs: Vec<&[i8]> = rows.iter().map(|r| r.as_slice()).collect();
    let mut b = layout(&refs);
    assert_eq!(b.make_pseudo_move(1, 18), Some((0..18).collect::<Vec<usize>>()));
    for v in 0..18 {
        assert_eq!(b.get(v), Some(0));
    }
    for v in 18..38 {
        assert_eq!(b.get(v), Some(1));
    }
    assert_eq!(b.get(38), Some(0));
}
