use notcraft::util::floor_div;
use notcraft::world::chunk::{
    block_to_index, index_to_block, index_to_pos, is_in_chunk_bounds, pos_to_index, ArrayChunk,
    ChunkData, ChunkSectionPos, CompactedChunkSection,
};
use notcraft::world::registry::BlockId;
use notcraft::world::{BlockPos, ChunkPos};

#[test]
fn floor_division_rounds_down() {
    assert_eq!(floor_div(31, 32), 0);
    assert_eq!(floor_div(32, 32), 1);
    assert_eq!(floor_div(-1, 32), -1);
    assert_eq!(floor_div(-32, 32), -1);
    assert_eq!(floor_div(-33, 32), -2);
    assert_eq!(floor_div(7, -2), -4);
    assert_eq!(floor_div(-7, -2), 3);
}

#[test]
fn block_to_section_and_offset() {
    let (section, offset) = BlockPos::new([33, -1, 64]).section_and_offset();
    assert_eq!(section, ChunkSectionPos { x: 1, y: -1, z: 2 });
    assert_eq!(offset, [1, 31, 0]);
    assert_eq!(ChunkSectionPos::from(BlockPos { x: -1, y: 0, z: 32 }), ChunkSectionPos { x: -1, y: 0, z: 1 });
    assert_eq!(ChunkPos::from(ChunkSectionPos { x: 1, y: 2, z: 3 }), ChunkPos { x: 1, z: 3 });
    assert_eq!(ChunkPos { x: 4, z: -5 }.section(6), ChunkSectionPos { x: 4, y: 6, z: -5 });
}

#[test]
fn section_origin_and_offsets() {
    let s = ChunkSectionPos::new([1, 2, -3]);
    assert_eq!(s.origin(), BlockPos { x: 32, y: 64, z: -96 });
    assert_eq!(s.offset([1, -1, 0]), ChunkSectionPos { x: 2, y: 1, z: -3 });
    assert_eq!(BlockPos::new([1, 2, 3]).offset([-1, -2, -3]), BlockPos { x: 0, y: 0, z: 0 });
    assert_eq!(s.column(), ChunkPos { x: 1, z: -3 });
}

#[test]
fn index_conversions() {
    assert_eq!(pos_to_index(-1), 31);
    assert_eq!(pos_to_index(32), 0);
    assert_eq!(index_to_pos(-1, 31), -1);
    assert_eq!(block_to_index(BlockPos { x: -33, y: 5, z: 64 }), [31, 5, 0]);
    assert_eq!(
        index_to_block(ChunkSectionPos { x: -2, y: 0, z: 2 }, [31, 5, 0]),
        BlockPos { x: -33, y: 5, z: 64 }
    );
    assert!(is_in_chunk_bounds(31, 0, 31));
    assert!(!is_in_chunk_bounds(32, 0, 0));
}

#[test]
fn homogeneous_chunk_becomes_an_array_when_it_changes() {
    let mut data = ChunkData::Homogeneous(BlockId(3));
    assert_eq!(data.get([4, 5, 6]), BlockId(3));
    data.set([4, 5, 6], BlockId(3));
    assert!(matches!(data, ChunkData::Homogeneous(BlockId(3))));
    data.set([4, 5, 6], BlockId(7));
    assert!(matches!(data, ChunkData::Array(_)));
    assert_eq!(data.get([4, 5, 6]), BlockId(7));
    assert_eq!(data.get([4, 5, 7]), BlockId(3));
}

#[test]
fn array_chunk_from_a_vector_of_the_wrong_size() {
    match ArrayChunk::try_from(vec![BlockId(0); 10]) {
        Err(e) => {
            assert_eq!(e.provided_size(), 10);
            assert_eq!(e.expected_size(), 32768);
        }
        Ok(_) => panic!("a vector of 10 is no chunk"),
    }
    let chunk = ArrayChunk::try_from(vec![BlockId(1); 32768]).ok().unwrap();
    assert_eq!(chunk.get([31, 31, 31]), BlockId(1));
    let mut h = ArrayChunk::homogeneous(BlockId(2));
    h.set([0, 0, 0], BlockId(9));
    assert_eq!(h.get([0, 0, 0]), BlockId(9));
    assert_eq!(h.get([0, 1, 0]), BlockId(2));
}

#[test]
fn compaction_roundtrip() {
    let mut data = ChunkData::Homogeneous(BlockId(0));
    data.set([1, 2, 3], BlockId(5));
    data.set([31, 0, 7], BlockId(6));
    let compacted = CompactedChunkSection::compact(&data);
    let back = compacted.decompact();
    assert_eq!(back.get([1, 2, 3]), BlockId(5));
    assert_eq!(back.get([31, 0, 7]), BlockId(6));
    assert_eq!(back.get([0, 0, 0]), BlockId(0));
    let uniform = CompactedChunkSection::compact(&ChunkData::Homogeneous(BlockId(4))).decompact();
    assert_eq!(uniform.get([9, 9, 9]), BlockId(4));
}
