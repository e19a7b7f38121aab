use vstd::prelude::*;

verus! {

/// A rectangular grid of tile identifiers, row-major: `data[j][i]` is the tile
/// in row `j` and column `i`. `idx` records which layer of a level this grid is.
#[derive(Debug, Clone)]
pub struct Layer {
    pub w: usize,
    pub h: usize,
    pub idx: usize,
    pub data: Vec<Vec<i16>>,
}

impl Layer {
    /// The grid really is `h` rows of `w` tiles each, and is non-empty.
    pub open spec fn wf(self) -> bool {
        &&& self.w >= 1
        &&& self.h >= 1
        &&& self.data@.len() == self.h
        &&& forall|j: int| 0 <= j < self.h ==> (#[trigger] self.data@[j])@.len() == self.w
    }

    /// The tile at row `j`, column `i`.
    pub open spec fn tile(self, j: int, i: int) -> i16 {
        self.data@[j]@[i]
    }

    /// A `w` by `h` grid filled with tile `0`.
    pub fn new(w: usize, h: usize, idx: usize) -> (r: Layer)
        ensures
            r.w == w,
            r.h == h,
            r.idx == idx,
            r.data@.len() == h,
            forall|j: int| 0 <= j < h ==> (#[trigger] r.data@[j])@.len() == w,
            forall|j: int, i: int| 0 <= j < h && 0 <= i < w ==> r.tile(j, i) == 0i16,
            w >= 1 && h >= 1 ==> r.wf(),
    {
        let mut data: Vec<Vec<i16>> = Vec::new();
        let mut j: usize = 0;
        while j < h
            invariant
                j <= h,
                data@.len() == j,
                forall|j2: int| 0 <= j2 < j ==> (#[trigger] data@[j2])@.len() == w,
                forall|j2: int, i: int|
                    0 <= j2 < j && 0 <= i < w ==> #[trigger] data@[j2]@[i] == 0i16,
            decreases h - j,
        {
            let mut row: Vec<i16> = Vec::new();
            let mut i: usize = 0;
            while i < w
                invariant
                    i <= w,
                    row@.len() == i,
                    forall|i2: int| 0 <= i2 < i ==> row@[i2] == 0i16,
                decreases w - i,
            {
                row.push(0i16);
                i = i + 1;
            }
            proof {
                assert(forall|i2: int| 0 <= i2 < w ==> row@[i2] == 0i16);
            }
            data.push(row);
            proof {
                assert(data@[j as int] == row);
            }
            j = j + 1;
        }
        Layer { w, h, idx, data }
    }
}

} // verus!
