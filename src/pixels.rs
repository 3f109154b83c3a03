//! How a snapshot of the grid's cells is shown: one ARGB8888 pixel per cell.

use vstd::prelude::*;

verus! {

/// The four bytes, in memory order (blue, green, red, alpha), of the pixel
/// that shows a cell holding `v`: blue and red take the low byte of `v`,
/// green the low byte of a hundred times it, and alpha is opaque.
pub open spec fn pixel_bytes(v: isize) -> Seq<u8> {
    seq![v as u8, (v as u8).wrapping_mul(100), v as u8, 255u8]
}

/// The pixels of the cells `s`, in storage order.
pub open spec fn argb_of(s: Seq<isize>) -> Seq<u8>
    decreases s.len(),
{
    if s.len() == 0 {
        seq![]
    } else {
        argb_of(s.drop_last()) + pixel_bytes(s.last())
    }
}

proof fn lemma_argb_len(s: Seq<isize>)
    ensures
        argb_of(s).len() == 4 * s.len(),
    decreases s.len(),
{
    if s.len() > 0 {
        lemma_argb_len(s.drop_last());
    }
}

/// The ARGB8888 bytes that show the cells `data`, four per cell.
pub fn argb_pixels(data: &Vec<isize>) -> (r: Vec<u8>)
    requires
        data@.len() * 4 <= usize::MAX,
    ensures
        r@ == argb_of(data@),
        r@.len() == 4 * data@.len(),
{
    let n = data.len();
    let mut r: Vec<u8> = Vec::with_capacity(n * 4);
    let mut i: usize = 0;
    while i < n
        invariant
            n == data@.len(),
            i <= n,
            r@ == argb_of(data@.take(i as int)),
        decreases n - i,
    {
        let v = data[i];
        let low = v as u8;
        r.push(low);
        r.push(low.wrapping_mul(100));
        r.push(low);
        r.push(255u8);
        proof {
            let s = data@.take(i + 1);
            assert(s.drop_last() =~= data@.take(i as int));
            assert(r@ =~= argb_of(s));
        }
        i = i + 1;
    }
    proof {
        assert(data@.take(n as int) =~= data@);
        lemma_argb_len(data@);
    }
    r
}

} // verus!
