//! Settings of the binary phase shift keying modulation.
use vstd::prelude::*;

verus! {

/// The symbols of the synchronisation signal, given as bytes: `0` is the
/// first symbol, any other value the second one.
pub fn sync_symbol_indices(sync_symbols: &Vec<u8>) -> (res: Vec<usize>)
    ensures
        res@.len() == sync_symbols@.len(),
        forall|i: int| 0 <= i < res@.len() ==> #[trigger] res@[i] == if sync_symbols@[i] == 0 {
            0usize
        } else {
            1usize
        },
{
    let mut out: Vec<usize> = Vec::new();
    let mut i: usize = 0;
    while i < sync_symbols.len()
        invariant
            i <= sync_symbols@.len(),
            out@.len() == i,
            forall|k: int| 0 <= k < i ==> #[trigger] out@[k] == if sync_symbols@[k] == 0 {
                0usize
            } else {
                1usize
            },
        decreases sync_symbols@.len() - i,
    {
        out.push(if sync_symbols[i] == 0 {
            0
        } else {
            1
        });
        i += 1;
    }
    out
}

} // verus!
