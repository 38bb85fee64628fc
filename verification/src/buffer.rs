//! A fixed-capacity byte store with a read cursor.
//!
//! Every read is checked against the capacity, and multi-byte reads are
//! big-endian. The contracts speak of a buffer through two spec functions:
//! the bytes it holds and the position of its cursor.

use vstd::prelude::*;
use vstd::slice::*;

verus! {

/// Number of bytes a buffer holds: the classic upper bound of a DNS message over UDP.
pub const BUFFER_SIZE: usize = 512;

/// Why a read from a buffer was refused.
#[derive(Debug, Clone, Copy, PartialEq, Eq, Structural)]
pub enum ErrorType {
    /// A position, or a position plus a length, lies at or beyond the capacity.
    OutOfBounds,
    /// A sequential read was attempted with the cursor at the capacity.
    EndOfFile,
    /// A name went through as many compression pointers as the limit allows.
    MaxJumpsReached,
}

/// The 16-bit value whose big-endian encoding starts at `pos`.
pub open spec fn u16_at(bytes: Seq<u8>, pos: int) -> u16 {
    (bytes[pos] as int * 0x100 + bytes[pos + 1] as int) as u16
}

/// The 32-bit value whose big-endian encoding starts at `pos`.
pub open spec fn u32_at(bytes: Seq<u8>, pos: int) -> u32 {
    (bytes[pos] as int * 0x100_0000 + bytes[pos + 1] as int * 0x1_0000 + bytes[pos + 2] as int
        * 0x100 + bytes[pos + 3] as int) as u32
}

/// What a buffer holds after `src` was loaded over `before`: the bytes of
/// `src` from the start, as far as they fit, and the earlier bytes behind them.
pub open spec fn loaded(before: Seq<u8>, src: Seq<u8>) -> Seq<u8> {
    Seq::new(before.len(), |i: int| if i < src.len() { src[i] } else { before[i] })
}

/// A byte store of `BUFFER_SIZE` bytes with a cursor in `0..=BUFFER_SIZE`.
#[derive(Debug)]
pub struct ByteBuffer {
    buf: [u8; BUFFER_SIZE],
    index: usize,
}

impl ByteBuffer {
    #[verifier::type_invariant]
    spec fn inv(&self) -> bool {
        self.index <= BUFFER_SIZE
    }

    /// The bytes held, always `BUFFER_SIZE` of them.
    pub closed spec fn bytes(&self) -> Seq<u8> {
        self.buf@
    }

    /// The position of the cursor.
    pub closed spec fn cursor(&self) -> nat {
        self.index as nat
    }

    /// A buffer holds exactly `BUFFER_SIZE` bytes.
    pub proof fn lemma_capacity(&self)
        ensures
            self.bytes().len() == BUFFER_SIZE,
    {
    }

    /// A buffer of zero bytes with the cursor at the start.
    pub fn new() -> (r: Self)
        ensures
            r.bytes() == Seq::new(BUFFER_SIZE as nat, |i: int| 0u8),
            r.cursor() == 0,
    {
        let r = ByteBuffer { buf: [0u8; BUFFER_SIZE], index: 0 };
        assert(r.buf@ =~= Seq::new(BUFFER_SIZE as nat, |i: int| 0u8));
        r
    }

    /// Copies `buf` into the store from position 0 and puts the cursor back
    /// to the start. Bytes of `buf` beyond the capacity are not copied, and
    /// the store keeps what it held behind the copied bytes.
    pub fn set_buffer(&mut self, buf: &Vec<u8>)
        ensures
            final(self).bytes() == loaded(old(self).bytes(), buf@),
            final(self).cursor() == 0,
    {
        proof {
            use_type_invariant(&*self);
        }
        let n: usize = if buf.len() < BUFFER_SIZE {
            buf.len()
        } else {
            BUFFER_SIZE
        };
        let mut i: usize = 0;
        while i < n
            invariant
                i <= n <= BUFFER_SIZE,
                n <= buf.len(),
                self.index == old(self).index,
                self.index <= BUFFER_SIZE,
                forall|k: int| 0 <= k < i ==> self.buf@[k] == buf@[k],
                forall|k: int| i <= k < BUFFER_SIZE ==> self.buf@[k] == old(self).buf@[k],
            decreases n - i,
        {
            self.buf[i] = buf[i];
            i += 1;
        }
        self.index = 0;
        assert(self.buf@ =~= loaded(old(self).buf@, buf@));
    }

    /// The cursor's position.
    pub fn get_index(&self) -> (r: usize)
        ensures
            r == self.cursor(),
            r <= BUFFER_SIZE,
    {
        proof {
            use_type_invariant(self);
        }
        self.index
    }

    /// Moves the cursor forward by `steps`. The move is refused, and the
    /// cursor stays, where it would reach or pass the capacity.
    pub fn step(&mut self, steps: usize) -> (r: Result<(), ErrorType>)
        ensures
            final(self).bytes() == old(self).bytes(),
            old(self).cursor() + steps < BUFFER_SIZE ==> r == Ok::<(), ErrorType>(())
                && final(self).cursor() == old(self).cursor() + steps,
            old(self).cursor() + steps >= BUFFER_SIZE ==> r == Err::<(), ErrorType>(
                ErrorType::OutOfBounds,
            ) && final(self).cursor() == old(self).cursor(),
    {
        proof {
            use_type_invariant(&*self);
        }
        if steps >= BUFFER_SIZE - self.index {
            return Err(ErrorType::OutOfBounds);
        }
        self.index += steps;
        Ok(())
    }

    /// Moves the cursor to `pos`. The move is refused, and the cursor stays,
    /// where `pos` is not below the capacity.
    pub fn seek(&mut self, pos: usize) -> (r: Result<(), ErrorType>)
        ensures
            final(self).bytes() == old(self).bytes(),
            pos < BUFFER_SIZE ==> r == Ok::<(), ErrorType>(()) && final(self).cursor() == pos,
            pos >= BUFFER_SIZE ==> r == Err::<(), ErrorType>(ErrorType::OutOfBounds)
                && final(self).cursor() == old(self).cursor(),
    {
        if pos >= BUFFER_SIZE {
            return Err(ErrorType::OutOfBounds);
        }
        self.index = pos;
        Ok(())
    }

    /// Reads the byte under the cursor and moves the cursor past it. With the
    /// cursor at the capacity nothing is read and nothing moves.
    pub fn read_mut(&mut self) -> (r: Result<u8, ErrorType>)
        ensures
            final(self).bytes() == old(self).bytes(),
            old(self).cursor() < BUFFER_SIZE ==> r == Ok::<u8, ErrorType>(
                old(self).bytes()[old(self).cursor() as int],
            ) && final(self).cursor() == old(self).cursor() + 1,
            old(self).cursor() >= BUFFER_SIZE ==> r == Err::<u8, ErrorType>(ErrorType::EndOfFile)
                && final(self).cursor() == old(self).cursor(),
    {
        proof {
            use_type_invariant(&*self);
        }
        if self.index == BUFFER_SIZE {
            return Err(ErrorType::EndOfFile);
        }
        let byte = self.buf[self.index];
        self.index += 1;
        Ok(byte)
    }

    /// Reads two bytes as a big-endian number and moves the cursor past them.
    /// Where fewer than two bytes are left, the read fails with the cursor at
    /// the capacity.
    pub fn read_mut_u16(&mut self) -> (r: Result<u16, ErrorType>)
        ensures
            final(self).bytes() == old(self).bytes(),
            old(self).cursor() + 2 <= BUFFER_SIZE ==> r == Ok::<u16, ErrorType>(
                u16_at(old(self).bytes(), old(self).cursor() as int),
            ) && final(self).cursor() == old(self).cursor() + 2,
            old(self).cursor() + 2 > BUFFER_SIZE ==> r == Err::<u16, ErrorType>(
                ErrorType::EndOfFile,
            ) && final(self).cursor() == BUFFER_SIZE,
    {
        proof {
            use_type_invariant(&*self);
        }
        let hi = self.read_mut()?;
        let lo = self.read_mut()?;
        let word: u16 = ((hi as u16) << 8) | (lo as u16);
        assert(((hi as u16) << 8) | (lo as u16) == (hi as u16) * 0x100 + (lo as u16))
            by (bit_vector);
        Ok(word)
    }

    /// Reads four bytes as a big-endian number and moves the cursor past
    /// them. Where fewer than four bytes are left, the read fails with the
    /// cursor at the capacity.
    pub fn read_mut_u32(&mut self) -> (r: Result<u32, ErrorType>)
        ensures
            final(self).bytes() == old(self).bytes(),
            old(self).cursor() + 4 <= BUFFER_SIZE ==> r == Ok::<u32, ErrorType>(
                u32_at(old(self).bytes(), old(self).cursor() as int),
            ) && final(self).cursor() == old(self).cursor() + 4,
            old(self).cursor() + 4 > BUFFER_SIZE ==> r == Err::<u32, ErrorType>(
                ErrorType::EndOfFile,
            ) && final(self).cursor() == BUFFER_SIZE,
    {
        proof {
            use_type_invariant(&*self);
        }
        let hi = self.read_mut_u16()?;
        let lo = self.read_mut_u16()?;
        let dword: u32 = ((hi as u32) << 16) | (lo as u32);
        assert(((hi as u32) << 16) | (lo as u32) == (hi as u32) * 0x1_0000 + (lo as u32))
            by (bit_vector);
        Ok(dword)
    }

    /// The byte under the cursor; the cursor stays.
    pub fn read(&self) -> (r: Result<u8, ErrorType>)
        ensures
            self.cursor() < BUFFER_SIZE ==> r == Ok::<u8, ErrorType>(
                self.bytes()[self.cursor() as int],
            ),
            self.cursor() >= BUFFER_SIZE ==> r == Err::<u8, ErrorType>(ErrorType::EndOfFile),
    {
        proof {
            use_type_invariant(self);
        }
        if self.index == BUFFER_SIZE {
            Err(ErrorType::EndOfFile)
        } else {
            Ok(self.buf[self.index])
        }
    }

    /// The byte at `index`, wherever the cursor is.
    pub fn get_at(&self, index: usize) -> (r: Result<u8, ErrorType>)
        ensures
            index < BUFFER_SIZE ==> r == Ok::<u8, ErrorType>(self.bytes()[index as int]),
            index >= BUFFER_SIZE ==> r == Err::<u8, ErrorType>(ErrorType::OutOfBounds),
    {
        if index >= BUFFER_SIZE {
            Err(ErrorType::OutOfBounds)
        } else {
            Ok(self.buf[index])
        }
    }

    /// The `len` bytes from `p_start` on. The slice is refused where its end,
    /// `p_start + len`, is not below the capacity: a slice that would hold
    /// the last byte of the store is refused too.
    pub fn get_slice(&self, p_start: usize, len: usize) -> (r: Result<&[u8], ErrorType>)
        ensures
            p_start + len < BUFFER_SIZE ==> r is Ok && r->Ok_0@ == self.bytes().subrange(
                p_start as int,
                p_start + len,
            ),
            p_start + len >= BUFFER_SIZE ==> r is Err && r->Err_0 == ErrorType::OutOfBounds,
    {
        if p_start >= BUFFER_SIZE || len >= BUFFER_SIZE - p_start {
            Err(ErrorType::OutOfBounds)
        } else {
            Ok(slice_subrange(self.buf.as_slice(), p_start, p_start + len))
        }
    }
}

} // verus!
