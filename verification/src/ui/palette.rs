//! The library's colors.

use vstd::prelude::*;
use crate::ui::style::Rgb;

verus! {

#[verifier::allow_in_spec]
pub fn accent() -> Rgb
    returns
        Rgb(0x7c, 0x83, 0xf7),
{
    Rgb(0x7c, 0x83, 0xf7)
}
#[verifier::allow_in_spec]
pub fn green() -> Rgb
    returns
        Rgb(0x1f, 0xbf, 0x8f),
{
    Rgb(0x1f, 0xbf, 0x8f)
}
#[verifier::allow_in_spec]
pub fn amber() -> Rgb
    returns
        Rgb(0xeb, 0x9a, 0x12),
{
    Rgb(0xeb, 0x9a, 0x12)
}
#[verifier::allow_in_spec]
pub fn red() -> Rgb
    returns
        Rgb(0xf2, 0x50, 0x6e),
{
    Rgb(0xf2, 0x50, 0x6e)
}
#[verifier::allow_in_spec]
pub fn purple() -> Rgb
    returns
        Rgb(0xa8, 0x71, 0xf7),
{
    Rgb(0xa8, 0x71, 0xf7)
}
#[verifier::allow_in_spec]
pub fn teal() -> Rgb
    returns
        Rgb(0x56, 0xb6, 0xc2),
{
    Rgb(0x56, 0xb6, 0xc2)
}
#[verifier::allow_in_spec]
pub fn faint() -> Rgb
    returns
        Rgb(0x6c, 0x6c, 0x6c),
{
    Rgb(0x6c, 0x6c, 0x6c)
}
/// Text on a colored badge
#[verifier::allow_in_spec]
pub fn ink() -> Rgb
    returns
        Rgb(0x11, 0x11, 0x11),
{
    Rgb(0x11, 0x11, 0x11)
}

} // verus!
