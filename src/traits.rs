//! Little-endian integer output on any byte sink.
use vstd::prelude::*;

use crate::io::{Result, Write};

verus! {

/// Writer extension to write little endian data
pub trait WriteBytesExt<T> {
    /// Writes `T` to a bytes stream. Least significant byte first.
    fn write_le(&mut self, n: T) -> Result<()>;
}

/// The bytes of `n`, least significant first.
pub open spec fn le_bytes(n: nat, count: nat) -> Seq<u8>
    decreases count,
{
    if count == 0 {
        seq![]
    } else {
        seq![(n % 256) as u8] + le_bytes(n / 256, (count - 1) as nat)
    }
}

/// Returns the `count` bytes of `n`, least significant first.
fn to_le(n: u64, count: usize) -> (r: Vec<u8>)
    requires
        count <= 8,
    ensures
        r@ == le_bytes(n as nat, count as nat),
{
    let mut out: Vec<u8> = Vec::new();
    let mut rest = n;
    let mut i: usize = 0;
    while i < count
        invariant
            i <= count <= 8,
            out@ + le_bytes(rest as nat, (count - i) as nat) == le_bytes(n as nat, count as nat),
        decreases count - i,
    {
        let ghost before = out@;
        let ghost k = (count - i) as nat;
        assert(le_bytes(rest as nat, k) == seq![(rest % 256) as u8] + le_bytes((rest / 256) as nat, (k - 1) as nat));
        out.push((rest % 256) as u8);
        rest = rest / 256;
        i = i + 1;
        assert(out@ + le_bytes(rest as nat, (count - i) as nat) =~= before + (seq![(out@.last())] + le_bytes(rest as nat, (k - 1) as nat)));
    }
    assert(le_bytes(rest as nat, 0) =~= seq![]);
    assert(out@ =~= out@ + le_bytes(rest as nat, 0));
    out
}

impl<W: Write + ?Sized> WriteBytesExt<u8> for W {
    fn write_le(&mut self, n: u8) -> Result<()> {
        let bytes: Vec<u8> = vec![n];
        self.write_all(bytes.as_slice())
    }
}

impl<W: Write + ?Sized> WriteBytesExt<u16> for W {
    fn write_le(&mut self, n: u16) -> Result<()> {
        let bytes = to_le(n as u64, 2);
        self.write_all(bytes.as_slice())
    }
}

impl<W: Write + ?Sized> WriteBytesExt<u32> for W {
    fn write_le(&mut self, n: u32) -> Result<()> {
        let bytes = to_le(n as u64, 4);
        self.write_all(bytes.as_slice())
    }
}

impl<W: Write + ?Sized> WriteBytesExt<u64> for W {
    fn write_le(&mut self, n: u64) -> Result<()> {
        let bytes = to_le(n, 8);
        self.write_all(bytes.as_slice())
    }
}

} // verus!
