use vstd::prelude::*;

verus! {

/// Number of cells on a fresh tape.
pub const TAPE_WIDTH: usize = 30000;

/// The machine state an interpreted program works on: a tape of byte cells
/// and the index of the cell under the head.
pub struct Context {
    pub idx: usize,
    pub tape: Vec<u8>,
}

impl Context {
    /// A fresh context: `TAPE_WIDTH` cells, all zero, with the head on the first one.
    pub fn new() -> (ctx: Context)
        ensures
            ctx.idx == 0,
            ctx.tape@ == Seq::new(TAPE_WIDTH as nat, |i: int| 0u8),
    {
        let tape: Vec<u8> = vec![0u8; TAPE_WIDTH];
        Context { idx: 0, tape }
    }
}

} // verus!
