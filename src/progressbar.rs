use vstd::prelude::*;

verus! {

/// The number of cells of a progress bar for `total_steps` steps, labelled with a
/// description of `desc_len` bytes, on a terminal `width` columns wide: all the steps when
/// they fit beside the 35 columns of fixed text, else whatever room is left.
pub fn bar_length(width: u16, desc_len: usize, total_steps: usize) -> (r: usize)
    requires
        width >= 35,
        desc_len + total_steps <= usize::MAX,
        width - 35 <= desc_len + total_steps ==> width >= 36 + desc_len,
    ensures
        width - 35 > desc_len + total_steps ==> r == total_steps,
        width - 35 <= desc_len + total_steps ==> r == width - 36 - desc_len,
{
    let room = (width - 35) as usize;
    if room > desc_len + total_steps {
        total_steps
    } else {
        (width as usize) - (36 + desc_len)
    }
}

} // verus!
