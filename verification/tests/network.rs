use go19::batch::{value_class, PackedBatch};
use go19::game::{Board, Move};
use go19::grid::CELL_COUNT;
use go19::lines::affected;
use go19::model::{
    local_ray_codes, role_index, ArchError, PolicyValueArch, INPUT_SIZE, MOVE_COUNT_INPUT,
    ROLE_INPUT_START,
};
use go19::packing::{count_slots, pack_actions, pack_inputs};
use go19::replay::Sample;

#[test]
fn local_axis_encoding_is_reflection_invariant() {
    let mut board = Board::new();
    for text in ["d5", "c5", "e5", "a1", "f5", "a2"] {
        assert!(board.play(Move::parse(text).unwrap()));
    }
    let candidate = Move::parse("g5").unwrap();
    let forward = local_ray_codes(&board, candidate, 0, 1);
    let backward = local_ray_codes(&board, candidate, 0, -1);
    assert_eq!(forward, backward);
}

#[test]
fn packing_masks_only_rule_illegal_moves() {
    let mut board = Board::new();
    let occupied = Move::new(7, 7).unwrap();
    assert!(board.play(occupied));
    let corner = Move::new(0, 0).unwrap();
    let nearby = Move::new(7, 8).unwrap();
    let rows = pack_actions(&board);
    assert!(!rows.legal[occupied.0]);
    assert!(rows.legal[corner.0]);
    assert!(rows.legal[nearby.0]);
    assert!(rows.legal[Move::pass().0]);
}

#[test]
fn packing_has_explicit_absolute_role() {
    let black = Board::new();
    let mut white = Board::new();
    assert!(white.play(Move::new(7, 7).unwrap()));
    assert_eq!(role_index(black.to_move()), 0);
    assert_eq!(role_index(white.to_move()), 1);
    let first = pack_inputs(&black);
    let second = pack_inputs(&white);
    assert_eq!(first.len(), INPUT_SIZE);
    assert_eq!(first[ROLE_INPUT_START], 1);
    assert_eq!(first[ROLE_INPUT_START + 1], 0);
    assert_eq!(second[ROLE_INPUT_START], 0);
    assert_eq!(second[ROLE_INPUT_START + 1], 1);
    assert_eq!(first[MOVE_COUNT_INPUT], 0);
    assert_eq!(second[MOVE_COUNT_INPUT], 1);
    assert_eq!(second[CELL_COUNT + 7 * 19 + 7], 1);
}

#[test]
fn slots_count_own_and_opposing_stones() {
    let mut board = Board::new();
    assert!(board.play(Move::new(3, 4).unwrap()));
    assert!(board.play(Move::new(5, 6).unwrap()));
    assert!(board.play(Move::new(5, 7).unwrap()));
    let sides = count_slots(&board, 1);
    assert_eq!(sides, vec![1, 2]);
    let ranks = count_slots(&board, 2);
    assert_eq!(ranks.iter().sum::<u32>(), 3);
}

#[test]
fn architecture_wants_a_supported_width() {
    assert!(PolicyValueArch::default().validate().is_ok());
    assert!(matches!(
        PolicyValueArch::with_hidden_size(0).validate(),
        Err(ArchError::EmptyHidden)
    ));
}

fn labelled(board: Board, value: f32) -> Sample {
    Sample {
        board,
        policy: Vec::new(),
        value: value.to_bits(),
        generation: 0,
        policy_weight: 0,
        value_weight: 0,
        policy_surprise: 0,
        value_surprise: 0,
        predicted_value: 0,
    }
}

#[test]
fn batches_are_padded_to_one_width() {
    let mut first = Board::new();
    assert!(first.play(Move(0)));
    assert!(first.play(Move(16)));
    assert!(first.play(Move(40)));
    let second = Board::new();
    let packed = PackedBatch::new(&[labelled(first, 1.0), labelled(second, -1.0)]);
    assert_eq!((packed.tokens, packed.candidates), (3, 361));
    assert_eq!(packed.stone_positions, vec![0, 16, 40, 0, 0, 0]);
    assert_eq!(packed.stone_sides, vec![1, 0, 1, 0, 0, 0]);
    assert_eq!(
        packed.token_valid,
        vec![true, true, true, false, false, false]
    );
    assert_eq!(
        packed.self_mask[..9],
        [true, true, false, true, true, false, false, false, true]
    );
    assert!(packed.self_mask[9..].iter().all(|mark| !mark));
    assert_eq!(packed.legal_positions[..3], [1, 2, 3]);
    assert!(packed.legal_mask[..358].iter().all(|&mark| mark));
    assert!(packed.legal_mask[358..361].iter().all(|mark| !mark));
    assert_eq!(packed.cross_mask[..3], [true, true, false]);
    assert!(packed.query_valid[0]);
    assert!(packed.query_valid[361..].iter().all(|mark| !mark));
    assert_eq!(packed.value_classes, vec![0, 2]);
}

#[test]
fn values_fall_into_three_classes() {
    for (value, class) in [
        (1.0f32, 0),
        (0.5, 1),
        (0.50001, 0),
        (0.0, 1),
        (-0.5, 1),
        (-0.6, 2),
        (f32::INFINITY, 0),
        (f32::NEG_INFINITY, 2),
        (f32::NAN, 1),
        (-f32::NAN, 1),
    ] {
        assert_eq!(value_class(value.to_bits()), class);
    }
}

#[test]
fn changes_spread_along_lines() {
    let moves = [Move(0), Move(16), Move(17), Move(40)];
    assert_eq!(
        affected(&moves, &[true, false, false, false]),
        vec![true, true, false, false]
    );
    assert_eq!(
        affected(&moves, &[true, true, false, false]),
        vec![true, true, true, false]
    );
    assert_eq!(affected(&moves, &[false; 4]), vec![false; 4]);
}
