//! Positions of the car, which every brand of camera stores in its own way.

use crate::scan::naming::CameraKind;
use vstd::prelude::*;

pub mod seventy_mai;

verus! {

/// The version of the decoders. Stored tracks of earlier versions are out of
/// date.
pub const GPS_PARSER_VERSION: i32 = 2;

/// A file, and the camera that recorded it.
#[derive(Debug)]
pub struct GpsRequest {
    pub path: String,
    pub camera_kind: CameraKind,
}

/// The decoder for the positions that belong to a file.
#[derive(Debug, Clone, Copy, PartialEq, Eq, Structural)]
pub enum Decoder {
    /// The data track that Wolf Box cameras write into the video.
    Shenshu,
    /// The atom that Miltona cameras write into the video.
    Miltona,
    /// The log beside the videos of 70mai cameras.
    SeventyMai,
    /// There are no positions.
    Nothing,
}

/// The decoder for the positions of files of a camera.
pub fn extract_for_kind(kind: CameraKind) -> (r: Decoder)
    ensures
        r == match kind {
            CameraKind::WolfBox => Decoder::Shenshu,
            CameraKind::Miltona => Decoder::Miltona,
            CameraKind::SeventyMai => Decoder::SeventyMai,
            CameraKind::Thinkware => Decoder::Nothing,
            CameraKind::Generic => Decoder::Shenshu,
        },
{
    match kind {
        CameraKind::WolfBox => Decoder::Shenshu,
        CameraKind::Miltona => Decoder::Miltona,
        CameraKind::SeventyMai => Decoder::SeventyMai,
        CameraKind::Thinkware => Decoder::Nothing,
        CameraKind::Generic => Decoder::Shenshu,
    }
}

} // verus!
