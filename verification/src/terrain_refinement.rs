use vstd::prelude::*;
use vstd::string::*;
use crate::text::{decimal, length_mismatch_message, length_mismatch_text, push_decimal};

verus! {

/// Why a terrain refinement was refused.
#[derive(Debug, Clone, PartialEq, Eq)]
pub struct TerrainRefinementError {
    message: String,
}

impl TerrainRefinementError {
    pub closed spec fn message_view(self) -> Seq<char> {
        self.message@
    }

    /// The error's message.
    pub fn to_string(&self) -> (s: String)
        ensures
            s@ == self.message_view(),
    {
        self.message.clone()
    }
}

/// The number of cells of a `width` by `height` terrain, refused when a
/// side is zero or the count does not fit in 32 bits.
pub fn checked_area(width: u32, height: u32) -> (r: Result<usize, TerrainRefinementError>)
    ensures
        match r {
            Ok(area) => width != 0 && height != 0 && width * height <= u32::MAX && area == width
                * height,
            Err(e) => {
                ||| (width == 0 || height == 0) && e.message_view()
                    == "terrain dimensions must be non-zero"@
                ||| (width != 0 && height != 0 && width * height > u32::MAX && e.message_view()
                    == "terrain area overflows u32"@)
            },
        },
{
    if width == 0 || height == 0 {
        return Err(
            TerrainRefinementError { message: String::from_str("terrain dimensions must be non-zero") },
        );
    }
    match width.checked_mul(height) {
        Some(area) => Ok(area as usize),
        None => Err(TerrainRefinementError { message: String::from_str("terrain area overflows u32") }),
    }
}

/// Refuses a layer called `name` whose length is not the map's area.
pub fn validate_len(name: &str, actual: usize, expected: usize) -> (r: Result<
    (),
    TerrainRefinementError,
>)
    ensures
        match r {
            Ok(()) => actual == expected,
            Err(e) => actual != expected && e.message_view() == length_mismatch_text(
                name@,
                actual as nat,
                expected as nat,
            ),
        },
{
    if actual == expected {
        Ok(())
    } else {
        Err(TerrainRefinementError { message: length_mismatch_message(name, actual, expected) })
    }
}

/// `"geology dimensions {gw}x{gh} do not match terrain dimensions {w}x{h}"`.
pub open spec fn dimension_mismatch_text(gw: nat, gh: nat, w: nat, h: nat) -> Seq<char> {
    "geology dimensions "@ + decimal(gw) + "x"@ + decimal(gh)
        + " do not match terrain dimensions "@ + decimal(w) + "x"@ + decimal(h)
}

/// Refuses a geology whose size differs from the terrain's.
pub fn check_geology_dimensions(
    geology_width: u32,
    geology_height: u32,
    width: u32,
    height: u32,
) -> (r: Result<(), TerrainRefinementError>)
    ensures
        match r {
            Ok(()) => geology_width == width && geology_height == height,
            Err(e) => (geology_width != width || geology_height != height) && e.message_view()
                == dimension_mismatch_text(
                geology_width as nat,
                geology_height as nat,
                width as nat,
                height as nat,
            ),
        },
{
    if geology_width != width || geology_height != height {
        let mut message = String::from_str("geology dimensions ");
        push_decimal(&mut message, geology_width as usize);
        message.append("x");
        push_decimal(&mut message, geology_height as usize);
        message.append(" do not match terrain dimensions ");
        push_decimal(&mut message, width as usize);
        message.append("x");
        push_decimal(&mut message, height as usize);
        return Err(TerrainRefinementError { message });
    }
    Ok(())
}

/// Row-major index of the cell `(x, y)` of a map `width` cells wide.
pub fn index_of(width: u32, x: u32, y: u32) -> (i: usize)
    requires
        y * width + x <= u32::MAX,
    ensures
        i == y * width + x,
{
    (y * width + x) as usize
}

} // verus!
