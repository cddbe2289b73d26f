use vstd::prelude::*;
use vstd::slice::slice_subrange;
use crate::consts::ADF_IMAGE_SIZE;
use crate::consts::ADF_NUM_TRACKS;
use crate::consts::ADF_SECTOR_SIZE;
use crate::consts::ADF_TRACK_SIZE;
use crate::err::AdfError;

verus! {

/// A raw floppy image addressed by track and sector, with no filesystem
/// interpretation.
pub struct ADF {
    pub data: Vec<u8>,
}

impl ADF {
    /// The image holds exactly 160 tracks of 11 sectors of 512 bytes.
    pub open spec fn wf(&self) -> bool {
        self.data@.len() == ADF_IMAGE_SIZE
    }

    /// The bytes of one sector.
    pub open spec fn spec_sector(&self, track: int, sector: int) -> Seq<u8> {
        self.data@.subrange(
            track * ADF_TRACK_SIZE + sector * ADF_SECTOR_SIZE,
            track * ADF_TRACK_SIZE + sector * ADF_SECTOR_SIZE + ADF_SECTOR_SIZE,
        )
    }

    /// A fresh zero-filled image.
    pub fn new() -> (r: ADF)
        ensures
            r.wf(),
            r.data@ =~= Seq::new(ADF_IMAGE_SIZE as nat, |i: int| 0u8),
    {
        let data: Vec<u8> = vec![0u8; ADF_IMAGE_SIZE];
        ADF { data }
    }

    /// The 512 bytes of sector `sector` of track `track`.
    pub fn read_sector(&self, track: usize, sector: usize) -> (r: &[u8])
        requires
            self.wf(),
            track < ADF_NUM_TRACKS,
            sector < 11,
        ensures
            r@ =~= self.spec_sector(track as int, sector as int),
    {
        let offset = track * ADF_TRACK_SIZE + sector * ADF_SECTOR_SIZE;
        slice_subrange(self.data.as_slice(), offset, offset + ADF_SECTOR_SIZE)
    }

    /// Replaces sector `sector` of track `track` with `data`, which must
    /// hold exactly 512 bytes; every other byte keeps its value.
    pub fn write_sector(&mut self, track: usize, sector: usize, data: &[u8]) -> (r: Result<
        (),
        AdfError,
    >)
        requires
            old(self).wf(),
            track < ADF_NUM_TRACKS,
            sector < 11,
        ensures
            final(self).wf(),
            r is Ok <==> data@.len() == ADF_SECTOR_SIZE,
            r is Err ==> r == Err::<(), AdfError>(AdfError::BadLength) && *final(self) == *old(self),
            r is Ok ==> final(self).spec_sector(track as int, sector as int) =~= data@,
            r is Ok ==> forall|i: int|
                0 <= i < ADF_IMAGE_SIZE && !(track * ADF_TRACK_SIZE + sector * ADF_SECTOR_SIZE <= i
                    < track * ADF_TRACK_SIZE + sector * ADF_SECTOR_SIZE + ADF_SECTOR_SIZE)
                    ==> final(self).data@[i] == old(self).data@[i],
    {
        if data.len() != ADF_SECTOR_SIZE {
            return Err(AdfError::BadLength);
        }
        let offset = track * ADF_TRACK_SIZE + sector * ADF_SECTOR_SIZE;
        proof {
            assert(track * ADF_TRACK_SIZE + sector * ADF_SECTOR_SIZE + ADF_SECTOR_SIZE
                <= ADF_IMAGE_SIZE) by (nonlinear_arith)
                requires
                    track < 160,
                    sector < 11,
            ;
        }
        let mut i: usize = 0;
        while i < ADF_SECTOR_SIZE
            invariant
                i <= ADF_SECTOR_SIZE,
                data@.len() == ADF_SECTOR_SIZE,
                offset == track * ADF_TRACK_SIZE + sector * ADF_SECTOR_SIZE,
                offset + ADF_SECTOR_SIZE <= ADF_IMAGE_SIZE,
                track < ADF_NUM_TRACKS,
                sector < 11,
                self.data@.len() == ADF_IMAGE_SIZE,
                forall|j: int| 0 <= j < i ==> self.data@[offset + j] == data@[j],
                forall|j: int|
                    0 <= j < ADF_IMAGE_SIZE && !(offset <= j < offset + i) ==> self.data@[j] == old(
                        self,
                    ).data@[j],
            decreases ADF_SECTOR_SIZE - i,
        {
            self.data[offset + i] = data[i];
            i += 1;
        }
        Ok(())
    }
}

} // verus!
