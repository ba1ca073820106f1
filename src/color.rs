//! Named colors.
use vstd::prelude::*;
use crate::{rgb, RGB};

verus! {

pub fn white() -> (c: RGB)
    ensures
        c@ == seq![255u8, 255u8, 255u8],
{
    rgb(255, 255, 255)
}

pub fn black() -> (c: RGB)
    ensures
        c@ == seq![0u8, 0u8, 0u8],
{
    rgb(0, 0, 0)
}

pub fn red() -> (c: RGB)
    ensures
        c@ == seq![255u8, 0u8, 0u8],
{
    rgb(255, 0, 0)
}

pub fn lime() -> (c: RGB)
    ensures
        c@ == seq![0u8, 255u8, 0u8],
{
    rgb(0, 255, 0)
}

pub fn blue() -> (c: RGB)
    ensures
        c@ == seq![0u8, 0u8, 255u8],
{
    rgb(0, 0, 255)
}

pub fn yellow() -> (c: RGB)
    ensures
        c@ == seq![255u8, 255u8, 0u8],
{
    rgb(255, 255, 0)
}

pub fn cyan() -> (c: RGB)
    ensures
        c@ == seq![0u8, 255u8, 255u8],
{
    rgb(0, 255, 255)
}

pub fn magenta() -> (c: RGB)
    ensures
        c@ == seq![255u8, 0u8, 255u8],
{
    rgb(255, 0, 255)
}

pub fn silver() -> (c: RGB)
    ensures
        c@ == seq![192u8, 192u8, 192u8],
{
    rgb(192, 192, 192)
}

pub fn gray() -> (c: RGB)
    ensures
        c@ == seq![128u8, 128u8, 128u8],
{
    rgb(128, 128, 128)
}

pub fn maroon() -> (c: RGB)
    ensures
        c@ == seq![218u8, 0u8, 0u8],
{
    rgb(218, 0, 0)
}

pub fn olive() -> (c: RGB)
    ensures
        c@ == seq![128u8, 128u8, 0u8],
{
    rgb(128, 128, 0)
}

pub fn green() -> (c: RGB)
    ensures
        c@ == seq![0u8, 128u8, 0u8],
{
    rgb(0, 128, 0)
}

pub fn purple() -> (c: RGB)
    ensures
        c@ == seq![128u8, 0u8, 128u8],
{
    rgb(128, 0, 128)
}

pub fn teal() -> (c: RGB)
    ensures
        c@ == seq![0u8, 128u8, 128u8],
{
    rgb(0, 128, 128)
}

pub fn navy() -> (c: RGB)
    ensures
        c@ == seq![0u8, 0u8, 128u8],
{
    rgb(0, 0, 128)
}

} // verus!
