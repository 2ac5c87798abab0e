use threes_rs::n_tuple_network::{
    default_phase, encode_board, encode_tile, feature_index, TupleConfig, TupleLayout,
};

#[test]
fn ntuple_encode_tile_codes() {
    assert_eq!(encode_tile(0), 0);
    assert_eq!(encode_tile(1), 1);
    assert_eq!(encode_tile(2), 2);
    assert_eq!(encode_tile(3), 3);
    assert_eq!(encode_tile(6), 4);
    assert_eq!(encode_tile(12), 5);
    assert_eq!(encode_tile(48), 7);
    assert_eq!(encode_tile(3072), 13);
    assert_eq!(encode_tile(6144), 14);
    assert_eq!(encode_tile(12288), 14);
    assert_eq!(encode_tile(u32::MAX), 14);
}

#[test]
fn ntuple_encode_board_codes_each_cell() {
    let board = [0, 1, 2, 3, 6, 12, 24, 48, 96, 192, 384, 768, 1536, 3072, 6144, 12288];
    let codes = encode_board(&board);
    assert_eq!(codes, [0, 1, 2, 3, 4, 5, 6, 7, 8, 9, 10, 11, 12, 13, 14, 14]);
}

#[test]
fn ntuple_feature_index_base_15() {
    let codes = [3usize, 1, 4, 1, 5, 9, 2, 6, 5, 3, 5, 8, 9, 7, 9, 3];
    assert_eq!(feature_index(&[0, 1, 2], &codes), 3 * 225 + 1 * 15 + 4);
    assert_eq!(feature_index(&[15, 0], &codes), 3 * 15 + 3);
    assert_eq!(feature_index(&[], &codes), 0);
}

#[test]
fn ntuple_default_phase_rises() {
    assert!(default_phase());
}

#[test]
fn ntuple_layout_tables() {
    let layout = TupleLayout::new();
    let mut sizes = vec![759375usize; 12];
    sizes.extend(vec![50625usize; 3]);
    assert_eq!(layout.table_sizes, sizes);
    assert!(layout.is_well_formed());
}

#[test]
fn ntuple_layout_first_block_is_sorted_copies_of_first_window() {
    let layout = TupleLayout::new();
    let first: Vec<&TupleConfig> = layout.tuples.iter().filter(|t| t.weight_index == 0).collect();
    let mut expected: Vec<Vec<usize>> = Vec::new();
    let rot = |i: usize| (i % 4) * 4 + (3 - i / 4);
    let mir = |i: usize| (i / 4) * 4 + (3 - i % 4);
    let mut cur = vec![0usize, 1, 2, 3, 7];
    for _ in 0..4 {
        expected.push(cur.clone());
        expected.push(cur.iter().map(|&x| mir(x)).collect());
        cur = cur.iter().map(|&x| rot(x)).collect();
    }
    expected.sort();
    expected.dedup();
    let got: Vec<Vec<usize>> = first.iter().map(|t| t.indices.clone()).collect();
    assert_eq!(got, expected);
    assert_eq!(got.len(), 8);
    // The first block comes first.
    assert!(layout.tuples[..8].iter().all(|t| t.weight_index == 0));
}

#[test]
fn ntuple_layout_counts_per_table() {
    let layout = TupleLayout::new();
    let mut counts = vec![0usize; 15];
    for t in &layout.tuples {
        counts[t.weight_index] += 1;
    }
    assert!(counts[..12].iter().all(|&n| n == 8));
    // As ordered lists, even the centre square has eight distinct copies.
    assert_eq!(counts[12], 8);
    assert_eq!(counts[13], 8);
    assert_eq!(counts[14], 8);
    assert_eq!(layout.tuples.len(), 15 * 8);
    // Table ids never go back.
    assert!(layout.tuples.windows(2).all(|w| w[0].weight_index <= w[1].weight_index));
}

#[test]
fn ntuple_feature_slots_stay_in_their_tables() {
    let layout = TupleLayout::new();
    let board = [6144u32, 3, 1, 2, 0, 12, 24, 0, 96, 1, 1, 2, 48, 3, 6, 12288];
    let slots = layout.feature_slots(&board);
    assert_eq!(slots.len(), layout.tuples.len());
    let codes = encode_board(&board);
    for (i, &(table, idx)) in slots.iter().enumerate() {
        assert_eq!(table, layout.tuples[i].weight_index);
        assert_eq!(idx, feature_index(&layout.tuples[i].indices, &codes));
        assert!(idx < layout.table_sizes[table]);
    }
}

#[test]
fn ntuple_layout_parts_add_up() {
    let mut layout = TupleLayout { tuples: Vec::new(), table_sizes: Vec::new() };
    layout.add_all_2x2_squares();
    assert_eq!(layout.table_sizes, vec![50625; 3]);
    assert_eq!(layout.tuples.len(), 24);
    let before = layout.tuples.len();
    layout.add_shared_snake();
    assert_eq!(layout.table_sizes.len(), 15);
    assert_eq!(layout.tuples.len(), before + 96);
    assert!(layout.tuples[before..].iter().all(|t| t.weight_index >= 3));
}

#[test]
fn ntuple_ill_formed_layout_is_detected() {
    let layout = TupleLayout {
        tuples: vec![TupleConfig { indices: vec![0, 1, 2], weight_index: 0 }],
        table_sizes: vec![3374],
    };
    assert!(!layout.is_well_formed());
    let fits = TupleLayout {
        tuples: vec![TupleConfig { indices: vec![0, 1, 2], weight_index: 0 }],
        table_sizes: vec![3375],
    };
    assert!(fits.is_well_formed());
    let off_board = TupleLayout {
        tuples: vec![TupleConfig { indices: vec![16], weight_index: 0 }],
        table_sizes: vec![100],
    };
    assert!(!off_board.is_well_formed());
    let no_table = TupleLayout {
        tuples: vec![TupleConfig { indices: vec![1], weight_index: 1 }],
        table_sizes: vec![100],
    };
    assert!(!no_table.is_well_formed());
}

#[test]
fn ntuple_symmetries_of_one_square() {
    let mut layout = TupleLayout { tuples: Vec::new(), table_sizes: vec![50625] };
    layout.add_symmetries_shared(vec![5, 6, 9, 10], 0);
    assert_eq!(layout.tuples.len(), 8);
    assert!(layout.tuples.iter().all(|t| t.weight_index == 0));
    assert!(layout.tuples.windows(2).all(|w| w[0].indices < w[1].indices));
    assert!(layout.is_well_formed());
}
