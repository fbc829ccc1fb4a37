use vstd::prelude::*;

use vstd::arithmetic::div_mod::{lemma_fundamental_div_mod, lemma_mod_division_less_than_divisor};
use vstd::math::min;

verus! {

/// Number of blocks that a stream of `n` bytes splits into at block size
/// `b`: the ceiling of `n / b`.
pub open spec fn num_chunks(n: nat, b: nat) -> nat
    recommends
        b >= 1,
{
    if n == 0 {
        0
    } else {
        ((n - 1) / (b as int) + 1) as nat
    }
}

/// Length of block `i` of a stream of `n` bytes at block size `b`: `b` for
/// every block except possibly the last, which holds the remainder.
pub open spec fn chunk_len(n: nat, b: nat, i: nat) -> nat
    recommends
        b >= 1,
        i < num_chunks(n, b),
{
    if i * b + b <= n {
        b
    } else {
        (n - i * b) as nat
    }
}

/// The bytes of block `i`: the slice of `data` that starts at the block's
/// absolute offset `i * b`.
pub open spec fn chunk_at(data: Seq<u8>, b: nat, i: nat) -> Seq<u8>
    recommends
        b >= 1,
        i < num_chunks(data.len(), b),
{
    data.subrange((i * b) as int, (i * b + chunk_len(data.len(), b, i)) as int)
}

proof fn lemma_le_div_iff_mul_le(i: int, x: int, b: int)
    requires
        b >= 1,
        i >= 0,
        x >= 0,
    ensures
        (i <= x / b) <==> (i * b <= x),
{
    lemma_fundamental_div_mod(x, b);
    lemma_mod_division_less_than_divisor(x, b);
    let q = x / b;
    let r = x % b;
    assert(q >= 0) by (nonlinear_arith)
        requires
            x == q * b + r,
            0 <= r < b,
            b >= 1,
            x >= 0,
    ;
    assert((i <= q) <==> (i * b <= x)) by (nonlinear_arith)
        requires
            x == q * b + r,
            0 <= r < b,
            b >= 1,
            i >= 0,
            q >= 0,
    ;
}

/// A block index is valid exactly when its absolute byte offset lies
/// inside the stream.
pub proof fn lemma_chunk_index_bound(n: nat, b: nat, i: nat)
    requires
        b >= 1,
    ensures
        (i < num_chunks(n, b)) <==> (i * b < n),
{
    if n == 0 {
        assert(i * b >= 0) by (nonlinear_arith)
            requires
                i >= 0,
                b >= 0,
        ;
    } else {
        lemma_le_div_iff_mul_le(i as int, n - 1, b as int);
    }
}

/// A valid block starts inside the stream, holds between 1 and `b` bytes,
/// ends within the stream, and its length is the smaller of `b` and the
/// bytes that remain at its offset.
pub proof fn lemma_chunk_len_bounds(n: nat, b: nat, i: nat)
    requires
        b >= 1,
        i < num_chunks(n, b),
    ensures
        i * b < n,
        1 <= chunk_len(n, b, i) <= b,
        i * b + chunk_len(n, b, i) <= n,
        chunk_len(n, b, i) == min(b as int, n - i * b),
{
    lemma_chunk_index_bound(n, b, i);
}

/// A lazy, finite source of fixed-size blocks over a byte stream. Each call
/// to `next_block` hands out the next block and the count of bytes filled;
/// the sequence ends when the stream is exhausted, and is not restartable:
/// reading a block consumes it.
#[derive(Debug)]
pub struct BufReaderIterator {
    pub data: Vec<u8>,
    pub blocksize: usize,
    pub pos: usize,
}

impl BufReaderIterator {
    /// A block source over `data`, positioned at the start of the stream.
    pub fn new(data: Vec<u8>, blocksize: usize) -> (r: Self)
        ensures
            r.data == data,
            r.blocksize == blocksize,
            r.pos == 0,
    {
        Self { data, blocksize, pos: 0 }
    }

    /// The next `(buffer, length)` pair, or `None` once the stream is
    /// exhausted. The buffer always holds `blocksize` bytes: the first
    /// `length` come from the stream, the rest is zero filler, and
    /// `length` is short of `blocksize` only for the final block.
    pub fn next_block(&mut self) -> (r: Option<(Vec<u8>, usize)>)
        ensures
            final(self).data == old(self).data,
            final(self).blocksize == old(self).blocksize,
            (old(self).blocksize == 0 || old(self).pos >= old(self).data@.len()) ==> (r is None
                && final(self).pos == old(self).pos),
            (old(self).blocksize >= 1 && old(self).pos < old(self).data@.len()) ==> {
                &&& r is Some
                &&& r->Some_0.1 == min(
                    old(self).blocksize as int,
                    old(self).data@.len() - old(self).pos,
                )
                &&& final(self).pos == old(self).pos + r->Some_0.1
                &&& r->Some_0.0@.len() == old(self).blocksize
                &&& r->Some_0.0@.subrange(0, r->Some_0.1 as int) == old(self).data@.subrange(
                    old(self).pos as int,
                    old(self).pos + r->Some_0.1,
                )
                &&& forall|j: int|
                    r->Some_0.1 <= j < old(self).blocksize ==> r->Some_0.0@[j] == 0
            },
    {
        if self.blocksize == 0 || self.pos >= self.data.len() {
            return None;
        }
        let remaining = self.data.len() - self.pos;
        let n = if remaining < self.blocksize {
            remaining
        } else {
            self.blocksize
        };
        let mut buf: Vec<u8> = Vec::new();
        let mut j: usize = 0;
        while j < n
            invariant
                j <= n,
                n <= self.data@.len() - self.pos,
                self.pos + n <= usize::MAX,
                buf@.len() == j,
                forall|k: int| 0 <= k < j ==> buf@[k] == self.data@[self.pos + k],
            decreases n - j,
        {
            buf.push(self.data[self.pos + j]);
            j = j + 1;
        }
        while j < self.blocksize
            invariant
                n <= j <= self.blocksize,
                n <= self.data@.len() - self.pos,
                buf@.len() == j,
                forall|k: int| 0 <= k < n ==> buf@[k] == self.data@[self.pos + k],
                forall|k: int| n <= k < j ==> buf@[k] == 0,
            decreases self.blocksize - j,
        {
            buf.push(0u8);
            j = j + 1;
        }
        proof {
            assert(buf@.subrange(0, n as int) =~= self.data@.subrange(
                self.pos as int,
                self.pos + n,
            ));
        }
        self.pos = self.pos + n;
        Some((buf, n))
    }
}

} // verus!
