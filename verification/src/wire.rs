//! Fixed-size reads from a file held in memory.
//!
//! A file is a sequence of bytes and a read names the offset at which it
//! starts. A read that would run past the end of the file fails with
//! [`DrsError::Io`] and yields nothing; it never yields a shortened value.
//! All multi-byte integers are little-endian.

use vstd::prelude::*;
use vstd::slice::slice_subrange;
use vstd::slice::slice_to_vec;
use crate::error::DrsError;
use crate::error::DrsErrorView;

verus! {

/// `n` bytes can be read from `file` at offset `pos`: they lie before the end
/// of the file. A read of no bytes succeeds wherever it starts.
pub open spec fn can_read(file: Seq<u8>, pos: int, n: int) -> bool {
    n == 0 || (0 <= pos && 0 < n && pos + n <= file.len())
}

/// The number whose little-endian encoding is the four bytes `b0 b1 b2 b3`.
pub open spec fn u32_from_le(b0: u8, b1: u8, b2: u8, b3: u8) -> u32 {
    (b0 + 0x100 * b1 + 0x1_0000 * b2 + 0x100_0000 * b3) as u32
}

/// The unsigned 32-bit number stored at offset `pos` of `file`.
pub open spec fn u32_at(file: Seq<u8>, pos: int) -> u32 {
    u32_from_le(file[pos], file[pos + 1], file[pos + 2], file[pos + 3])
}

/// The `n` bytes of `file` that start at offset `pos`.
pub open spec fn bytes_at(file: Seq<u8>, pos: int, n: int) -> Seq<u8> {
    Seq::new(n as nat, |i: int| file[pos + i])
}

/// Reads an unsigned 32-bit number at offset `pos`.
pub fn read_u32(file: &[u8], pos: usize) -> (r: Result<u32, DrsError>)
    ensures
        match r {
            Ok(v) => can_read(file@, pos as int, 4) && v == u32_at(file@, pos as int),
            Err(e) => !can_read(file@, pos as int, 4) && e@ == DrsErrorView::Io,
        },
{
    if pos > file.len() || file.len() - pos < 4 {
        return Err(DrsError::Io);
    }
    let b0: u32 = file[pos] as u32;
    let b1: u32 = file[pos + 1] as u32;
    let b2: u32 = file[pos + 2] as u32;
    let b3: u32 = file[pos + 3] as u32;
    Ok(b0 + 0x100 * b1 + 0x1_0000 * b2 + 0x100_0000 * b3)
}

/// Reads a block of exactly `N` bytes at offset `pos`.
pub fn read_block<const N: usize>(file: &[u8], pos: usize) -> (r: Result<[u8; N], DrsError>)
    ensures
        match r {
            Ok(block) => can_read(file@, pos as int, N as int) && block@ == bytes_at(
                file@,
                pos as int,
                N as int,
            ),
            Err(e) => !can_read(file@, pos as int, N as int) && e@ == DrsErrorView::Io,
        },
{
    let mut block = [0u8; N];
    if N == 0 {
        assert(block@ =~= bytes_at(file@, pos as int, N as int));
        return Ok(block);
    }
    if pos > file.len() || file.len() - pos < N {
        return Err(DrsError::Io);
    }
    let mut i: usize = 0;
    while i < N
        invariant
            i <= N,
            pos + N <= file.len(),
            forall|k: int| 0 <= k < i ==> block@[k] == file@[pos + k],
        decreases N - i,
    {
        block[i] = file[pos + i];
        i += 1;
    }
    assert(block@ =~= bytes_at(file@, pos as int, N as int));
    Ok(block)
}

/// Reads exactly `n` bytes at offset `pos` into a buffer of their own.
pub fn read_bytes(file: &[u8], pos: usize, n: usize) -> (r: Result<Vec<u8>, DrsError>)
    ensures
        match r {
            Ok(buffer) => can_read(file@, pos as int, n as int) && buffer@ == bytes_at(
                file@,
                pos as int,
                n as int,
            ),
            Err(e) => !can_read(file@, pos as int, n as int) && e@ == DrsErrorView::Io,
        },
{
    if n == 0 {
        let buffer: Vec<u8> = Vec::new();
        assert(buffer@ =~= bytes_at(file@, pos as int, n as int));
        return Ok(buffer);
    }
    if pos > file.len() || file.len() - pos < n {
        return Err(DrsError::Io);
    }
    let buffer = slice_to_vec(slice_subrange(file, pos, pos + n));
    assert(buffer@ =~= bytes_at(file@, pos as int, n as int));
    Ok(buffer)
}

} // verus!
