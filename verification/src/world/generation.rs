use super::registry::BlockId;
use crate::codec::encode::{rle_list_encoding, Encode, Encoder};
use crate::codec::NodeKind;
use vstd::prelude::*;

verus! {

/// The surface height of each column of a chunk, with their least and
/// greatest values.
#[derive(Clone, Debug)]
pub struct SurfaceHeightmap {
    min: i32,
    max: i32,
    timestamp: u64,
    data: Vec<i32>,
}

/// A heightmap is written as a run-length list of its heights.
impl Encode for SurfaceHeightmap {
    open spec fn kind_spec() -> NodeKind {
        NodeKind::List
    }

    open spec fn encoding(&self) -> Seq<u8> {
        rle_list_encoding(self.heights())
    }

    fn kind() -> (k: NodeKind) {
        NodeKind::List
    }

    fn encode(&self, encoder: &mut Encoder) {
        encoder.encode_rle_list(self.data.as_slice())
    }
}

impl SurfaceHeightmap {
    pub closed spec fn heights(&self) -> Seq<i32> {
        self.data@
    }

    pub closed spec fn spec_min(&self) -> i32 {
        self.min
    }

    pub closed spec fn spec_max(&self) -> i32 {
        self.max
    }

    pub closed spec fn spec_timestamp(&self) -> u64 {
        self.timestamp
    }

    /// A heightmap of the given heights, stamped with `timestamp`; the bounds
    /// are computed from the heights.
    pub fn new(data: Vec<i32>, timestamp: u64) -> (r: Self)
        ensures
            r.heights() == data@,
            r.spec_timestamp() == timestamp,
            forall|i: int| 0 <= i < data@.len() ==> r.spec_min() <= #[trigger] data@[i] <= r.spec_max(),
            data@.len() > 0 ==> (exists|i: int| 0 <= i < data@.len() && #[trigger] data@[i] == r.spec_min()),
            data@.len() > 0 ==> (exists|i: int| 0 <= i < data@.len() && #[trigger] data@[i] == r.spec_max()),
            data@.len() == 0 ==> r.spec_min() == i32::MAX && r.spec_max() == i32::MIN,
    {
        let mut min = i32::MAX;
        let mut max = i32::MIN;
        let mut i: usize = 0;
        while i < data.len()
            invariant
                i <= data@.len(),
                forall|j: int| 0 <= j < i ==> min <= #[trigger] data@[j] <= max,
                i > 0 ==> (exists|j: int| 0 <= j < i && #[trigger] data@[j] == min),
                i > 0 ==> (exists|j: int| 0 <= j < i && #[trigger] data@[j] == max),
                i == 0 ==> min == i32::MAX && max == i32::MIN,
            decreases data@.len() - i,
        {
            let h = data[i];
            if h < min || i == 0 {
                min = h;
            }
            if h > max || i == 0 {
                max = h;
            }
            i += 1;
        }
        SurfaceHeightmap { min, max, timestamp, data }
    }

    pub fn data(&self) -> (r: &Vec<i32>)
        ensures
            r@ == self.heights(),
    {
        &self.data
    }

    pub fn min(&self) -> (r: i32)
        ensures
            r == self.spec_min(),
    {
        self.min
    }

    pub fn max(&self) -> (r: i32)
        ensures
            r == self.spec_max(),
    {
        self.max
    }
}

/// The blocks that terrain generation places.
#[derive(Debug)]
pub struct ChunkGenerator {
    pub stone_id: BlockId,
    pub dirt_id: BlockId,
    pub grass_id: BlockId,
    pub water_id: BlockId,
    pub sand_id: BlockId,
    pub detail_grass_id: BlockId,
}

} // verus!
