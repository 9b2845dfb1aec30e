//! Integer core of a plate-tectonics terrain generator: world geometry,
//! map indexing with wrap-around, the seeded random generator, the division
//! of the map among plates and the bookkeeping of the simulation's steps,
//! the growth of a plate's box, continent segmentation, plate boundaries,
//! and the grid flood fills that classify terrain, with the checks on the
//! inputs of each stage.
pub mod geology;
pub mod geometry;
pub mod lithosphere;
pub mod matrix;
pub mod plate;
pub mod plate_functions;
pub mod random;
pub mod rectangle;
pub mod segment_data;
pub mod segments;
pub mod terrain_classification;
pub mod terrain_refinement;
pub mod text;

pub use crate::lithosphere::PlatecError;
pub use crate::random::SimpleRandom;

use vstd::prelude::*;
use crate::terrain_classification::ReliefKind;

verus! {

/// Version of the one-shot map generation interface.
pub const PLATEC_ABI_VERSION: u32 = 1;

/// A request for one map: interface version, seed and size.
#[derive(Debug, Clone, Copy, PartialEq, Eq, Structural)]
pub struct PlatecMapRequest {
    pub abi_version: u32,
    pub seed: u32,
    pub width: u32,
    pub height: u32,
}

/// Outcome of a one-shot map generation.
#[derive(Debug, Clone, Copy, PartialEq, Eq, Structural)]
pub enum PlatecMapStatus {
    Success,
    NullPointer,
    AbiMismatch,
    InvalidDimensions,
    InvalidOutputLength,
    GenerationFailed,
}

/// Checks a map request against the caller's output buffers of
/// `output_len` cells: the interface version must match, the area must fit
/// in 32 bits, both sides must be at least 5 and the buffers must hold
/// exactly one value per cell. Answers the map's area.
pub fn check_map_request(request: PlatecMapRequest, output_len: usize) -> (r: Result<
    usize,
    PlatecMapStatus,
>)
    ensures
        request.abi_version != PLATEC_ABI_VERSION ==> r == Err::<usize, PlatecMapStatus>(
            PlatecMapStatus::AbiMismatch,
        ),
        request.abi_version == PLATEC_ABI_VERSION && (request.width * request.height > u32::MAX
            || request.width < 5 || request.height < 5) ==> r == Err::<usize, PlatecMapStatus>(
            PlatecMapStatus::InvalidDimensions,
        ),
        request.abi_version == PLATEC_ABI_VERSION && request.width * request.height <= u32::MAX
            && request.width >= 5 && request.height >= 5 && output_len != request.width
            * request.height ==> r == Err::<usize, PlatecMapStatus>(
            PlatecMapStatus::InvalidOutputLength,
        ),
        request.abi_version == PLATEC_ABI_VERSION && request.width * request.height <= u32::MAX
            && request.width >= 5 && request.height >= 5 && output_len == request.width
            * request.height ==> r == Ok::<
            usize,
            PlatecMapStatus,
        >(output_len),
{
    if request.abi_version != PLATEC_ABI_VERSION {
        return Err(PlatecMapStatus::AbiMismatch);
    }
    let area = match request.width.checked_mul(request.height) {
        Some(area) => area as usize,
        None => {
            return Err(PlatecMapStatus::InvalidDimensions);
        },
    };
    if request.width < 5 || request.height < 5 {
        return Err(PlatecMapStatus::InvalidDimensions);
    }
    if output_len != area {
        return Err(PlatecMapStatus::InvalidOutputLength);
    }
    Ok(area)
}

/// The byte that stands for a relief kind in the generated map:
/// ocean 0, valley 1, plain 2, hill 3, mountain 4, high mountain 5.
pub fn relief_kind_code(kind: ReliefKind) -> (code: u8)
    ensures
        code == match kind {
            ReliefKind::Ocean => 0u8,
            ReliefKind::Valley => 1u8,
            ReliefKind::Plain => 2u8,
            ReliefKind::Hill => 3u8,
            ReliefKind::Mountain => 4u8,
            ReliefKind::HighMountain => 5u8,
        },
        code <= 5,
{
    match kind {
        ReliefKind::Ocean => 0,
        ReliefKind::Valley => 1,
        ReliefKind::Plain => 2,
        ReliefKind::Hill => 3,
        ReliefKind::Mountain => 4,
        ReliefKind::HighMountain => 5,
    }
}

} // verus!
