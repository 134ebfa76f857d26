use othello::bitboard::{can_locate, coordinate_to_square, get_rev_pat, make_index, make_legal_actions, pop_count};

const BLACK_0: u64 = 0x0000_0008_1000_0000;
const WHITE_0: u64 = 0x0000_0010_0800_0000;

#[test]
fn test_get_rev_pat() {
    get_rev_pat(BLACK_0, WHITE_0, 0);
    let actions = make_legal_actions(BLACK_0, WHITE_0);
    assert_eq!(get_rev_pat(BLACK_0, WHITE_0, actions[0]), 0x800_0000);
}

#[test]
fn test_can_locate() {
    assert_eq!(can_locate(BLACK_0, WHITE_0), 0x1020_0408_0000);
}

#[test]
fn start_position_has_four_single_captures() {
    let actions = make_legal_actions(BLACK_0, WHITE_0);
    assert_eq!(actions.len(), 4);
    for mv in actions {
        assert_eq!(mv.count_ones(), 1);
        let f = get_rev_pat(BLACK_0, WHITE_0, mv);
        assert_eq!(f.count_ones(), 1);
        assert_eq!(f & !WHITE_0, 0);
    }
}

#[test]
fn legal_moves_in_ascending_square_order() {
    assert_eq!(
        make_legal_actions(BLACK_0, WHITE_0),
        vec![0x0000_0000_0008_0000, 0x0000_0000_0400_0000, 0x0000_0020_0000_0000, 0x0000_1000_0000_0000]
    );
}

#[test]
fn legal_moves_avoid_occupied_squares() {
    let positions = [
        (BLACK_0, WHITE_0),
        (WHITE_0, BLACK_0),
        (0x6000_1008_1012_0500, 0x8EFC_EFF7_6F6D_3A3F),
        (0x8EFC_EFF7_6F6D_3A3F, 0x6000_1008_1012_0500),
    ];
    for (m, o) in positions {
        assert_eq!(can_locate(m, o) & (m | o), 0);
    }
}

#[test]
fn flips_on_occupied_square_are_empty() {
    assert_eq!(get_rev_pat(BLACK_0, WHITE_0, 0x0000_0008_0000_0000), 0);
    assert_eq!(get_rev_pat(BLACK_0, WHITE_0, 0x0000_0010_0000_0000), 0);
}

#[test]
fn flip_mask_nonzero_exactly_on_legal_squares() {
    let positions = [
        (BLACK_0, WHITE_0),
        (0x6000_1008_1012_0500, 0x8EFC_EFF7_6F6D_3A3F),
        (0x0000_0018_3c00_0000, 0x0000_2424_0000_0000),
    ];
    for (m, o) in positions {
        let legal = can_locate(m, o);
        for k in 0..64 {
            let sq = 1u64 << k;
            if sq & (m | o) == 0 {
                assert_eq!(get_rev_pat(m, o, sq) != 0, legal & sq != 0);
            }
        }
    }
}

#[test]
fn flip_runs_to_the_mover_disc() {
    // black on A1, white on B1..G1, H1 empty: playing H1 flips the whole row
    let black = 0x8000_0000_0000_0000u64;
    let white = 0x7e00_0000_0000_0000u64;
    assert_eq!(get_rev_pat(black, white, 0x0100_0000_0000_0000), white);
    // without the anchoring disc nothing is flipped
    assert_eq!(get_rev_pat(0, white, 0x0100_0000_0000_0000), 0);
}

#[test]
fn placing_keeps_counts_monotone() {
    for mv in make_legal_actions(BLACK_0, WHITE_0) {
        let f = get_rev_pat(BLACK_0, WHITE_0, mv);
        let mover = BLACK_0 ^ (mv | f);
        let opp = WHITE_0 ^ f;
        assert!(mover.count_ones() >= BLACK_0.count_ones());
        assert!(opp.count_ones() <= WHITE_0.count_ones());
        assert_eq!(mover.count_ones(), 4);
        assert_eq!(opp.count_ones(), 1);
    }
}

#[test]
fn pop_count_matches_count_ones() {
    for x in [0u64, 1, 0xff, u64::MAX, BLACK_0 | WHITE_0, 0x8000_0000_0000_0001] {
        assert_eq!(pop_count(x), x.count_ones());
    }
}

#[test]
fn coordinate_names() {
    assert_eq!(make_index(0), "Pa");
    assert_eq!(make_index(0x8000_0000_0000_0000), "A1");
    assert_eq!(make_index(1), "H8");
    assert_eq!(make_index(0x0000_0000_0008_0000), "E6");
}

#[test]
fn coordinate_round_trip_all_squares() {
    for k in 0..64 {
        let sq = 1u64 << k;
        let name = make_index(sq);
        assert_eq!(coordinate_to_square(&name), Some(sq));
    }
    assert_eq!(coordinate_to_square("Pa"), Some(0));
    assert_eq!(coordinate_to_square(&make_index(0)), Some(0));
}

#[test]
fn coordinate_parsing_rejects_bad_text() {
    assert_eq!(coordinate_to_square("a1"), Some(0x8000_0000_0000_0000));
    assert_eq!(coordinate_to_square("Z1"), None);
    assert_eq!(coordinate_to_square("A9"), None);
    assert_eq!(coordinate_to_square("A"), None);
    assert_eq!(coordinate_to_square("A12"), None);
    assert_eq!(coordinate_to_square(""), None);
}
