//! Default palette used while no palette file has been loaded.

use vstd::prelude::*;

verus! {

/// Number of palette slots a loaded color file is expected to fill.
pub const PALETTE_SIZE: usize = 70;

/// Builds the fallback palette: every slot holds the same purple hex value,
/// which marks a color that was never loaded.
pub fn init_colors() -> (colors: Vec<String>)
    ensures
        colors@.len() == PALETTE_SIZE,
        forall|i: int| 0 <= i < colors@.len() ==> (#[trigger] colors@[i])@ == "800080"@,
{
    let mut colors: Vec<String> = Vec::new();
    let mut i: usize = 0;
    while i < PALETTE_SIZE
        invariant
            i <= PALETTE_SIZE,
            colors@.len() == i,
            forall|j: int| 0 <= j < i ==> (#[trigger] colors@[j])@ == "800080"@,
        decreases PALETTE_SIZE - i,
    {
        colors.push(String::from_str("800080"));
        i = i + 1;
    }
    colors
}

} // verus!
