use vstd::prelude::*;

verus! {

/// The player palette, as packed 0xRRGGBB colors: red, green, blue, yellow,
/// orange, purple, cyan, magenta, pink.
pub open spec fn palette() -> Seq<u32> {
    seq![0xff1717u32, 0x17ff17, 0x1717ff, 0xffff17, 0xff7f17, 0x7f17ff, 0x17ffff, 0xff17ff, 0xff7f7f]
}

/// The player palette, as packed 0xRRGGBB colors.
pub fn get_palette() -> (r: Vec<u32>)
    ensures
        r@ == palette(),
{
    let r = vec![0xff1717u32, 0x17ff17, 0x1717ff, 0xffff17, 0xff7f17, 0x7f17ff, 0x17ffff, 0xff17ff, 0xff7f7f];
    proof {
        assert(r@ =~= palette());
    }
    r
}

} // verus!
