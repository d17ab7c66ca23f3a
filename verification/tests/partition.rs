use rusty_av1e::partition::{
    get_sub_partitions, BlockSize, PartitionType, RefType, TileBlockOffset, RAV1E_PARTITION_TYPES,
};
use rusty_av1e::predict::PredictionMode;
use rusty_av1e::transform::TxSize;

#[test]
fn check_partition_types_order() {
    assert_eq!(
        RAV1E_PARTITION_TYPES[RAV1E_PARTITION_TYPES.len() - 1],
        PartitionType::PARTITION_SPLIT
    );
}

#[test]
fn parts_of_a_block() {
    let bo = TileBlockOffset { x: 16, y: 32 };
    let at = |x, y| TileBlockOffset { x, y };
    let b = BlockSize::BLOCK_32X32;
    let parts = |p: PartitionType| get_sub_partitions(bo, p, b.subsize(p)).to_vec();
    assert_eq!(parts(PartitionType::PARTITION_NONE), vec![at(16, 32)]);
    assert_eq!(parts(PartitionType::PARTITION_HORZ), vec![at(16, 32), at(16, 36)]);
    assert_eq!(parts(PartitionType::PARTITION_VERT), vec![at(16, 32), at(20, 32)]);
    assert_eq!(
        parts(PartitionType::PARTITION_SPLIT),
        vec![at(16, 32), at(20, 32), at(16, 36), at(20, 36)]
    );
}

#[test]
fn sizes_of_parts() {
    let b = BlockSize::BLOCK_16X16;
    assert_eq!(b.subsize(PartitionType::PARTITION_NONE), BlockSize::BLOCK_16X16);
    assert_eq!(b.subsize(PartitionType::PARTITION_HORZ), BlockSize::BLOCK_16X8);
    assert_eq!(b.subsize(PartitionType::PARTITION_VERT), BlockSize::BLOCK_8X16);
    assert_eq!(b.subsize(PartitionType::PARTITION_SPLIT), BlockSize::BLOCK_8X8);
}

#[test]
fn block_sizes() {
    assert_eq!(BlockSize::from_log2(6, 4), BlockSize::BLOCK_64X16);
    assert_eq!((BlockSize::BLOCK_64X16.width(), BlockSize::BLOCK_64X16.height()), (64, 16));
    assert_eq!((BlockSize::BLOCK_64X16.width_mi(), BlockSize::BLOCK_64X16.height_mi()), (16, 4));
    assert!(BlockSize::BLOCK_64X64.gt(BlockSize::BLOCK_32X32));
    assert!(!BlockSize::BLOCK_32X64.gt(BlockSize::BLOCK_64X32));
    assert!(BlockSize::BLOCK_8X8.le(BlockSize::BLOCK_8X8));
    assert!(BlockSize::BLOCK_8X8.is_sqr());
    assert!(!BlockSize::BLOCK_8X4.is_sqr());
    assert_eq!(BlockSize::BLOCK_128X128.tx_size(), TxSize::TX_64X64);
    assert_eq!(BlockSize::BLOCK_16X32.tx_size(), TxSize::TX_16X32);
    assert_eq!(TxSize::TX_64X64.coded(), TxSize::TX_32X32);
    assert_eq!(TxSize::TX_16X64.coded(), TxSize::TX_16X32);
    assert_eq!(TxSize::TX_16X64.sub_size(), TxSize::TX_16X32);
    assert_eq!(TxSize::TX_32X32.sub_size(), TxSize::TX_16X16);
    assert_eq!(TxSize::TX_16X32.sqr(), TxSize::TX_16X16);
    assert_eq!(TxSize::TX_16X32.sqr_up(), TxSize::TX_32X32);
    assert_eq!(TxSize::TX_8X32.block_size(), BlockSize::BLOCK_8X32);
    assert_eq!(RefType::LAST_FRAME.to_index(), 0);
    assert_eq!(RefType::ALTREF_FRAME.to_index(), 6);
}

#[test]
fn prediction_modes() {
    assert!(PredictionMode::NEWMV.is_inter());
    assert!(!PredictionMode::UV_CFL_PRED.is_inter());
    assert!(PredictionMode::NEAR_NEAR1MV.is_compound());
    assert!(!PredictionMode::GLOBALMV.is_compound());
    assert!(PredictionMode::NEAR1MV.has_nearmv());
    assert_eq!(PredictionMode::NEAR1MV.ref_mv_idx(), 2);
    assert_eq!(PredictionMode::NEAR0MV.ref_mv_idx(), 1);
    assert!(PredictionMode::D67_PRED.is_directional());
    assert!(!PredictionMode::DC_PRED.is_directional());
}

#[test]
fn sizes_on_subsampled_planes() {
    assert_eq!(BlockSize::BLOCK_8X32.subsampled_size(0, 0), Some(BlockSize::BLOCK_8X32));
    assert_eq!(BlockSize::BLOCK_8X32.subsampled_size(1, 1), Some(BlockSize::BLOCK_4X16));
    assert_eq!(BlockSize::BLOCK_16X16.subsampled_size(1, 0), Some(BlockSize::BLOCK_8X16));
    assert_eq!(BlockSize::BLOCK_4X4.subsampled_size(1, 1), Some(BlockSize::BLOCK_4X4));
    // A tall block has no counterpart on a plane that is halved in width alone.
    assert_eq!(BlockSize::BLOCK_8X32.subsampled_size(1, 0), None);
    assert_eq!(BlockSize::BLOCK_16X16.subsampled_size(0, 1), None);
    assert_eq!(BlockSize::BLOCK_4X4.index(), 0);
    assert_eq!(BlockSize::BLOCK_64X16.index(), 21);
}
