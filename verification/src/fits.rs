//! A FITS file in memory: its header/data units, scanned, parsed and
//! classified.

use vstd::prelude::*;
use crate::data::data::{data_from_header, Data};
use crate::error::FitsError;
use crate::hdu::{hdu_views, HduView};
use crate::header::parsed_header;
use crate::parser::{
    blocks_from, has_end_card, held_blocks, is_header_start, is_scan_of, scanned, Extent,
};

pub use crate::hdu::HDU;

verus! {

/// The unit that an extent of the buffer holds once its header is parsed
/// and its payload is described by the header, or why it holds none.
pub open spec fn loaded_hdu(buffer: Seq<u8>, e: Extent) -> Result<HduView, FitsError> {
    match parsed_header(blocks_from(buffer, e.start, e.header)) {
        Err(err) => Err(err),
        Ok(header) => match data_from_header(
            blocks_from(buffer, e.start + e.header, e.data),
            header,
        ) {
            Err(err) => Err(err),
            Ok(data) => Ok(HduView { header, data }),
        },
    }
}

/// The units of the first `n` extents, or the error of the first extent
/// that fails.
pub open spec fn loaded(buffer: Seq<u8>, extents: Seq<Extent>, n: nat) -> Result<
    Seq<HduView>,
    FitsError,
>
    decreases n,
{
    if n == 0 {
        Ok(Seq::empty())
    } else {
        match loaded(buffer, extents, (n - 1) as nat) {
            Err(e) => Err(e),
            Ok(front) => match loaded_hdu(buffer, extents[n - 1]) {
                Err(e) => Err(e),
                Ok(hdu) => Ok(front.push(hdu)),
            },
        }
    }
}

/// The units of a buffer, or the first reason why it is no readable file.
pub open spec fn fits_of(buffer: Seq<u8>) -> Result<Seq<HduView>, FitsError> {
    match scanned(buffer) {
        Err(e) => Err(e),
        Ok(extents) => loaded(buffer, extents, extents.len()),
    }
}

/// Once an extent fails, so does every longer run of extents.
pub proof fn lemma_loaded_error(buffer: Seq<u8>, extents: Seq<Extent>, i: nat, n: nat)
    requires
        i <= n,
        loaded(buffer, extents, i) is Err,
    ensures
        loaded(buffer, extents, n) == loaded(buffer, extents, i),
    decreases n,
{
    if i < n {
        lemma_loaded_error(buffer, extents, i, (n - 1) as nat);
    }
}

/// The units of a file, in the order in which they lie in it.
#[derive(Debug)]
pub struct FITS {
    pub hdus: Vec<HDU>,
}

impl FITS {
    /// Reads a file from a buffer: scans it into units, parses and
    /// classifies the header of each, and describes each payload by its
    /// header.
    pub fn new_from_buffer(buffer: &Vec<u8>) -> (r: Result<FITS, FitsError>)
        ensures
            match r {
                Ok(fits) => fits_of(buffer@) == Ok::<Seq<HduView>, FitsError>(
                    hdu_views(fits.hdus@),
                ),
                Err(e) => fits_of(buffer@) == Err::<Seq<HduView>, FitsError>(e),
            },
    {
        let mut raw = match FITS::bytes_to_hdu(buffer) {
            Ok(raw) => raw,
            Err(e) => {
                return Err(e);
            },
        };
        let ghost extents = scanned(buffer@)->Ok_0;
        let ghost all = hdu_views(raw@);
        let n = raw.len();
        let mut hdus: Vec<HDU> = Vec::new();
        let mut i: usize = 0;
        assert(hdu_views(hdus@) =~= Seq::<HduView>::empty());
        while i < n
            invariant
                i <= n,
                n == extents.len(),
                scanned(buffer@) == Ok::<Seq<Extent>, FitsError>(extents),
                all == crate::parser::raw_hdus(buffer@, extents),
                raw@.len() == n - i,
                hdu_views(raw@) == all.skip(i as int),
                loaded(buffer@, extents, i as nat) == Ok::<Seq<HduView>, FitsError>(
                    hdu_views(hdus@),
                ),
            decreases n - i,
        {
            let ghost before = hdu_views(raw@);
            let ghost units = raw@;
            let hdu = raw.remove(0);
            assert(hdu@ == before[0]);
            assert(hdu_views(raw@) =~= all.skip(i + 1)) by {
                assert forall|k: int| 0 <= k < raw@.len() implies hdu_views(raw@)[k] == all.skip(
                    i + 1,
                )[k] by {
                    assert(raw@[k] == units[k + 1]);
                    assert(before[k + 1] == units[k + 1]@);
                    assert(all.skip(i as int)[k + 1] == all[i + k + 1]);
                }
            }
            let mut header = hdu.header;
            match header.initialize_header() {
                Ok(()) => {},
                Err(e) => {
                    proof {
                        lemma_loaded_error(buffer@, extents, (i + 1) as nat, n as nat);
                    }
                    return Err(e);
                },
            }
            let data = match Data::from_header(hdu.data.get_fitsblocks(), &header) {
                Ok(data) => data,
                Err(e) => {
                    proof {
                        lemma_loaded_error(buffer@, extents, (i + 1) as nat, n as nat);
                    }
                    return Err(e);
                },
            };
            let ghost done = hdu_views(hdus@);
            let unit = HDU { header, data };
            let ghost view = unit@;
            hdus.push(unit);
            assert(hdu_views(hdus@) =~= done.push(view));
            i += 1;
        }
        Ok(FITS { hdus })
    }

    /// Tells whether the block begins a header.
    pub fn check_header_beginning(chunk: &[u8; 2880]) -> (r: bool)
        ensures
            r == is_header_start(chunk@),
    {
        crate::parser::check_header_beginning(chunk)
    }

    /// Tells whether one of the block's 36 cards is the `END` card.
    pub fn check_end(chunk: &[u8; 2880]) -> (r: bool)
        ensures
            r == has_end_card(chunk@),
    {
        crate::parser::check_end(chunk)
    }

    /// Cuts the buffer into blocks of 2880 bytes and groups them into units.
    pub fn bytes_to_hdu(buffer: &Vec<u8>) -> (r: Result<Vec<HDU>, FitsError>)
        ensures
            match r {
                Ok(hdus) => is_scan_of(buffer@, hdu_views(hdus@)) && held_blocks(hdu_views(hdus@))
                    == buffer@.len() / 2880,
                Err(e) => scanned(buffer@) == Err::<Seq<Extent>, FitsError>(e),
            },
    {
        crate::parser::bytes_to_hdu(buffer)
    }

    /// The name of each unit's kind, in order.
    pub fn list_headers(&self) -> (names: Vec<String>)
        requires
            forall|i: int| 0 <= i < self.hdus@.len() ==> (#[trigger] self.hdus@[i]).header@.initialized,
        ensures
            names@.len() == self.hdus@.len(),
            forall|i: int|
                0 <= i < names@.len() ==> (#[trigger] names@[i])@ == self.hdus@[i].header@.kind.name(),
    {
        let mut names: Vec<String> = Vec::new();
        let mut i: usize = 0;
        while i < self.hdus.len()
            invariant
                i <= self.hdus@.len(),
                forall|k: int|
                    0 <= k < self.hdus@.len() ==> (#[trigger] self.hdus@[k]).header@.initialized,
                names@.len() == i,
                forall|k: int|
                    0 <= k < i ==> (#[trigger] names@[k])@ == self.hdus@[k].header@.kind.name(),
            decreases self.hdus@.len() - i,
        {
            names.push(self.hdus[i].header.get_header_type().to_string());
            i += 1;
        }
        names
    }
}

} // verus!
