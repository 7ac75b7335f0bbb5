//! Which recordings have a webcam, and what shape it is drawn in.
use vstd::prelude::*;

use crate::text::{chars_of, eq_ignore_ascii_case, same_text, trim};

verus! {

/// Whether two paths name the same recording; letter case does not tell them apart.
pub fn same_source_path(a: &str, b: &str) -> (r: bool)
    ensures
        r == crate::text::same_ignoring_case(a@, b@),
{
    eq_ignore_ascii_case(chars_of(a).as_slice(), chars_of(b).as_slice())
}

/// A clip has a webcam of its own unless the path is blank or is the screen recording itself.
pub fn webcam_is_real(webcam_path: &str, screen_path: &str) -> (r: bool)
    ensures
        r == (crate::text::trimmed(webcam_path@).len() > 0 && !crate::text::same_ignoring_case(
            webcam_path@,
            screen_path@,
        )),
{
    let chars: Vec<char> = chars_of(webcam_path);
    let blank: bool = trim(chars.as_slice()).len() == 0;
    !blank && !same_source_path(webcam_path, screen_path)
}

pub open spec fn shape_code(shape: Seq<char>) -> u32 {
    if shape == "rectangle"@ {
        0
    } else if shape == "circle"@ {
        1
    } else if shape == "square"@ {
        2
    } else {
        3
    }
}

/// The code of a webcam shape; anything unknown is a rounded rectangle.
pub fn webcam_shape_code(shape: &str) -> (r: u32)
    ensures
        r == shape_code(shape@),
{
    if same_text(shape, "rectangle") {
        0
    } else if same_text(shape, "circle") {
        1
    } else if same_text(shape, "square") {
        2
    } else {
        3
    }
}

} // verus!
