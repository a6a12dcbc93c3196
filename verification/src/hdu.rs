//! The header/data unit.

use vstd::prelude::*;
use crate::data::data::{Data, DataView};
use crate::header::{Header, HeaderView};

verus! {

/// What a unit holds.
pub struct HduView {
    pub header: HeaderView,
    pub data: DataView,
}

/// One header/data unit: a header and the payload that it describes.
#[derive(Debug)]
pub struct HDU {
    pub header: Header,
    pub data: Data,
}

impl View for HDU {
    type V = HduView;

    open spec fn view(&self) -> HduView {
        HduView { header: self.header@, data: self.data@ }
    }
}

/// What the units hold, in order.
pub open spec fn hdu_views(hdus: Seq<HDU>) -> Seq<HduView> {
    Seq::new(hdus.len(), |i: int| hdus[i]@)
}

} // verus!
