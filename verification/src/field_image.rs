use vstd::prelude::*;

verus! {

/// How field samples are turned into pixel colors.
#[derive(Copy, Clone, PartialEq, Eq, Structural, Debug)]
pub enum ColorMode {
    /// Inside the shape black, outside white.
    BlackAndWhite,
    /// Shades of blue inside and of red outside, by distance.
    Debug,
}

/// The `[r, g, b]` color of a sample. `inside` says whether the sample is
/// positive; `shade` is the sample scaled by the extreme value on its side
/// to `0..=255`.
pub fn pixel_color(mode: ColorMode, inside: bool, shade: u8) -> (r: [u8; 3])
    ensures
        r@ == match (mode, inside) {
            (ColorMode::BlackAndWhite, true) => seq![0u8, 0u8, 0u8],
            (ColorMode::BlackAndWhite, false) => seq![255u8, 255u8, 255u8],
            (ColorMode::Debug, true) => seq![0u8, 0u8, (255 - shade) as u8],
            (ColorMode::Debug, false) => seq![(255 - shade) as u8, 0u8, 0u8],
        },
{
    let r = match (mode, inside) {
        (ColorMode::BlackAndWhite, true) => [0, 0, 0],
        (ColorMode::BlackAndWhite, false) => [255, 255, 255],
        (ColorMode::Debug, true) => [0, 0, 255 - shade],
        (ColorMode::Debug, false) => [255 - shade, 0, 0],
    };
    assert(r@ =~= match (mode, inside) {
        (ColorMode::BlackAndWhite, true) => seq![0u8, 0u8, 0u8],
        (ColorMode::BlackAndWhite, false) => seq![255u8, 255u8, 255u8],
        (ColorMode::Debug, true) => seq![0u8, 0u8, (255 - shade) as u8],
        (ColorMode::Debug, false) => seq![(255 - shade) as u8, 0u8, 0u8],
    });
    r
}

} // verus!
