use vstd::prelude::*;

verus! {

/// The number of blocks that a file of `byte_len` bytes spans, a partial
/// last block included.
pub fn block_count(byte_len: u64, block_size: usize) -> (r: u64)
    requires
        block_size > 0,
    ensures
        r as int == (byte_len as int + block_size as int - 1) / block_size as int,
{
    let bs = block_size as u64;
    let q = byte_len / bs;
    if byte_len % bs == 0 {
        proof {
            assert((byte_len as int + bs as int - 1) / bs as int == q) by (nonlinear_arith)
                requires
                    bs > 0,
                    q == byte_len as int / bs as int,
                    byte_len as int % bs as int == 0,
            ;
        }
        q
    } else {
        proof {
            assert((byte_len as int + bs as int - 1) / bs as int == q + 1) by (nonlinear_arith)
                requires
                    bs > 0,
                    q == byte_len as int / bs as int,
                    byte_len as int % bs as int > 0,
            ;
            assert(q < u64::MAX) by (nonlinear_arith)
                requires
                    bs > 1,
                    q == byte_len as int / bs as int,
                    byte_len <= u64::MAX,
            ;
        }
        q + 1
    }
}

/// The position in its file of the first byte of block `block_number`;
/// `None` where it does not fit in 64 bits.
pub fn block_offset(block_number: usize, block_size: usize) -> (r: Option<u64>)
    ensures
        block_number as int * block_size as int <= u64::MAX ==> r == Some(
            (block_number as int * block_size as int) as u64,
        ),
        block_number as int * block_size as int > u64::MAX ==> r is None,
{
    (block_number as u64).checked_mul(block_size as u64)
}

} // verus!
