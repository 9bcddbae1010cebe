use vstd::prelude::*;

verus! {

/// Entry `k` of the ten-entry blue-to-white color ramp used for the
/// order-parameter field, as `(red, green, blue, alpha)`.
pub open spec fn blue_to_white_spec(k: int) -> (u8, u8, u8, u8) {
    if k == 0 {
        (30u8, 65u8, 101u8, 255u8)
    } else if k == 1 {
        (52u8, 111u8, 171u8, 255u8)
    } else if k == 2 {
        (94u8, 141u8, 188u8, 255u8)
    } else if k == 3 {
        (126u8, 163u8, 201u8, 255u8)
    } else if k == 4 {
        (152u8, 182u8, 212u8, 255u8)
    } else if k == 5 {
        (175u8, 198u8, 222u8, 255u8)
    } else if k == 6 {
        (196u8, 213u8, 230u8, 255u8)
    } else if k == 7 {
        (214u8, 226u8, 238u8, 255u8)
    } else if k == 8 {
        (232u8, 238u8, 245u8, 255u8)
    } else {
        (247u8, 250u8, 252u8, 255u8)
    }
}

/// Entry `k` of the ten-entry cool-to-warm color ramp used for the
/// temperature field, as `(red, green, blue, alpha)`.
pub open spec fn cool_to_warm_spec(k: int) -> (u8, u8, u8, u8) {
    if k == 0 {
        (58u8, 76u8, 192u8, 255u8)
    } else if k == 1 {
        (88u8, 118u8, 226u8, 255u8)
    } else if k == 2 {
        (123u8, 158u8, 248u8, 255u8)
    } else if k == 3 {
        (157u8, 189u8, 254u8, 255u8)
    } else if k == 4 {
        (192u8, 211u8, 245u8, 255u8)
    } else if k == 5 {
        (221u8, 220u8, 219u8, 255u8)
    } else if k == 6 {
        (241u8, 202u8, 182u8, 255u8)
    } else if k == 7 {
        (246u8, 171u8, 141u8, 255u8)
    } else if k == 8 {
        (237u8, 132u8, 103u8, 255u8)
    } else {
        (214u8, 82u8, 67u8, 255u8)
    }
}

/// Entry `k` of either ramp: the cool-to-warm ramp when `warm` holds,
/// the blue-to-white ramp otherwise.
pub open spec fn ramp_entry(warm: bool, k: int) -> (u8, u8, u8, u8) {
    if warm {
        cool_to_warm_spec(k)
    } else {
        blue_to_white_spec(k)
    }
}

/// Entry `k` of the blue-to-white ramp.
pub fn blue_to_white(k: usize) -> (c: (u8, u8, u8, u8))
    requires
        k <= 9,
    ensures
        c == blue_to_white_spec(k as int),
{
    match k {
        0 => (30, 65, 101, 255),
        1 => (52, 111, 171, 255),
        2 => (94, 141, 188, 255),
        3 => (126, 163, 201, 255),
        4 => (152, 182, 212, 255),
        5 => (175, 198, 222, 255),
        6 => (196, 213, 230, 255),
        7 => (214, 226, 238, 255),
        8 => (232, 238, 245, 255),
        _ => (247, 250, 252, 255),
    }
}

/// Entry `k` of the cool-to-warm ramp.
pub fn cool_to_warm(k: usize) -> (c: (u8, u8, u8, u8))
    requires
        k <= 9,
    ensures
        c == cool_to_warm_spec(k as int),
{
    match k {
        0 => (58, 76, 192, 255),
        1 => (88, 118, 226, 255),
        2 => (123, 158, 248, 255),
        3 => (157, 189, 254, 255),
        4 => (192, 211, 245, 255),
        5 => (221, 220, 219, 255),
        6 => (241, 202, 182, 255),
        7 => (246, 171, 141, 255),
        8 => (237, 132, 103, 255),
        _ => (214, 82, 67, 255),
    }
}

/// Entry `k` of either ramp, matching `ramp_entry`.
pub fn ramp_color(warm: bool, k: usize) -> (c: (u8, u8, u8, u8))
    requires
        k <= 9,
    ensures
        c == ramp_entry(warm, k as int),
{
    if warm {
        cool_to_warm(k)
    } else {
        blue_to_white(k)
    }
}

} // verus!
