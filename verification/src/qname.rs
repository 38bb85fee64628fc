//! Domain names in the wire format: a run of length-prefixed labels closed
//! by a zero byte, in which a two-byte compression pointer may send the
//! reader to another place of the message.
//!
//! `name_walk` is the mathematical reading of a name; `ByteBuffer::read_qname`
//! computes it over a buffer.

use vstd::prelude::*;
use vstd::string::*;
use crate::buffer::{ByteBuffer, ErrorType, BUFFER_SIZE};

verus! {

/// The number of compression pointers at which reading a name is given up.
pub const MAX_JUMPS: usize = 5;

/// The text that `String::from_utf8_lossy` makes of a run of bytes.
pub uninterp spec fn utf8_lossy(bytes: Seq<u8>) -> Seq<char>;

/// The text that `str::to_lowercase` makes of a text.
pub uninterp spec fn lowercase(text: Seq<char>) -> Seq<char>;

/// Calls `String::from_utf8_lossy` and takes the text it gives as an owned
/// string. Nothing is proved of that text: the contract only gives it the
/// name `utf8_lossy`, as a function of the bytes handed in.
#[verifier::external_body]
fn lossy_text(bytes: &[u8]) -> (r: String)
    ensures
        r@ == utf8_lossy(bytes@),
{
    String::from_utf8_lossy(bytes).into_owned()
}

/// Calls `str::to_lowercase`. Nothing is proved of the text it gives: the
/// contract only gives it the name `lowercase`, as a function of the text
/// handed in.
#[verifier::external_body]
fn lowercased(text: &str) -> (r: String)
    ensures
        r@ == lowercase(text@),
{
    text.to_lowercase()
}

/// The text of one label: its bytes read as UTF-8, then in lower case.
pub open spec fn label_text(label: Seq<u8>) -> Seq<char> {
    lowercase(utf8_lossy(label))
}

/// Whether a length byte opens a compression pointer: its two top bits are set.
pub open spec fn is_pointer(byte: u8) -> bool {
    byte >= 0xC0
}

/// The offset a pointer names: the low six bits of its first byte, then its
/// second byte.
pub open spec fn pointer_target(byte: u8, low: u8) -> nat {
    ((byte - 0xC0) * 0x100 + low) as nat
}

/// What precedes a label in the text: nothing before the first, a dot before
/// every other.
pub open spec fn delimiter(first: bool) -> Seq<char> {
    if first {
        Seq::empty()
    } else {
        seq!['.']
    }
}

/// The outcome of following a name through the message.
pub struct NameWalk {
    /// The text gathered, up to the end of the name or to the failure.
    pub text: Seq<char>,
    /// Where the closing zero byte stands and how many pointers were
    /// followed in all, or why the walk was given up.
    pub stop: Result<(nat, nat), ErrorType>,
}

/// Follows the name that starts at `pos`, with `jumps` pointers followed so
/// far; `first` says that no label was read yet.
pub open spec fn name_walk(bytes: Seq<u8>, pos: nat, jumps: nat, first: bool) -> NameWalk
    decreases MAX_JUMPS - jumps, BUFFER_SIZE - pos,
{
    if jumps >= MAX_JUMPS {
        NameWalk { text: Seq::empty(), stop: Err(ErrorType::MaxJumpsReached) }
    } else if pos >= BUFFER_SIZE {
        NameWalk { text: Seq::empty(), stop: Err(ErrorType::OutOfBounds) }
    } else if is_pointer(bytes[pos as int]) {
        if pos + 1 >= BUFFER_SIZE {
            NameWalk { text: Seq::empty(), stop: Err(ErrorType::OutOfBounds) }
        } else {
            name_walk(
                bytes,
                pointer_target(bytes[pos as int], bytes[pos as int + 1]),
                jumps + 1,
                first,
            )
        }
    } else if bytes[pos as int] == 0 {
        NameWalk { text: Seq::empty(), stop: Ok((pos, jumps)) }
    } else {
        let next = pos as int + 1 + bytes[pos as int];
        if next >= BUFFER_SIZE {
            NameWalk { text: delimiter(first), stop: Err(ErrorType::OutOfBounds) }
        } else {
            let rest = name_walk(bytes, next as nat, jumps, false);
            NameWalk {
                text: delimiter(first) + label_text(bytes.subrange(pos as int + 1, next)) + rest.text,
                stop: rest.stop,
            }
        }
    }
}

/// The outcome of reading a name with the cursor at its start.
pub struct NameRead {
    /// The text appended to the caller's string, also where the read fails.
    pub text: Seq<char>,
    /// Where the cursor goes, or why the read fails.
    pub next: Result<nat, ErrorType>,
}

/// Reads the name at `start`. The cursor goes behind the closing zero byte
/// where no pointer was followed, and behind the two bytes of a pointer
/// otherwise; either place has to lie below the capacity.
pub open spec fn name_at(bytes: Seq<u8>, start: nat) -> NameRead {
    let walk = name_walk(bytes, start, 0, true);
    NameRead {
        text: walk.text,
        next: match walk.stop {
            Ok((end, jumps)) => {
                let next = if jumps == 0 {
                    end + 1
                } else {
                    start + 2
                };
                if next < BUFFER_SIZE {
                    Ok(next as nat)
                } else {
                    Err(ErrorType::OutOfBounds)
                }
            },
            Err(e) => Err(e),
        },
    }
}

impl ByteBuffer {
    /// Reads the domain name under the cursor and appends it to `outstr`,
    /// its labels in lower case and joined by dots. On success the cursor
    /// stands behind the name as it is written at the cursor; on failure the
    /// cursor stays, and `outstr` holds what was read up to the failure.
    pub fn read_qname(&mut self, outstr: &mut String) -> (r: Result<(), ErrorType>)
        ensures
            final(self).bytes() == old(self).bytes(),
            final(outstr)@ == old(outstr)@ + name_at(
                old(self).bytes(),
                old(self).cursor(),
            ).text,
            match name_at(old(self).bytes(), old(self).cursor()).next {
                Ok(next) => r == Ok::<(), ErrorType>(()) && final(self).cursor() == next,
                Err(e) => r == Err::<(), ErrorType>(e) && final(self).cursor() == old(
                    self,
                ).cursor(),
            },
    {
        let start = self.get_index();
        let mut index: usize = start;
        let mut curr_jumps: usize = 0;
        let mut first = true;
        let ghost bytes = self.bytes();
        proof {
            self.lemma_capacity();
        }
        let ghost whole = name_walk(bytes, start as nat, 0, true);
        let ghost mut seen: Seq<char> = Seq::empty();
        loop
            invariant
                bytes == old(self).bytes(),
                start == old(self).cursor(),
                whole == name_walk(bytes, start as nat, 0, true),
                bytes.len() == BUFFER_SIZE,
                self.bytes() == bytes,
                self.cursor() == start,
                start <= BUFFER_SIZE,
                curr_jumps <= MAX_JUMPS,
                index <= 0x3FFF,
                outstr@ == old(outstr)@ + seen,
                whole.text == seen + name_walk(bytes, index as nat, curr_jumps as nat, first).text,
                whole.stop == name_walk(bytes, index as nat, curr_jumps as nat, first).stop,
            ensures
                bytes == old(self).bytes(),
                start == old(self).cursor(),
                whole == name_walk(bytes, start as nat, 0, true),
                self.bytes() == bytes,
                self.cursor() == start,
                start <= BUFFER_SIZE,
                index < BUFFER_SIZE,
                outstr@ == old(outstr)@ + whole.text,
                whole.stop == Ok::<(nat, nat), ErrorType>((index as nat, curr_jumps as nat)),
            decreases MAX_JUMPS - curr_jumps, 0x4000 - index,
        {
            if curr_jumps >= MAX_JUMPS {
                return Err(ErrorType::MaxJumpsReached);
            }
            let len = self.get_at(index)?;
            assert((len & 0xC0) == 0xC0 <==> len >= 0xC0) by (bit_vector);
            if (len & 0xC0) == 0xC0 {
                let low = self.get_at(index + 1)?;
                let jump_offset: u16 = (((len as u16) ^ 0xC0) << 8) | (low as u16);
                assert((((len as u16) ^ 0xC0) << 8) | (low as u16) == (len - 0xC0) * 0x100 + low)
                    by (bit_vector)
                    requires
                        len >= 0xC0,
                ;
                index = jump_offset as usize;
                curr_jumps += 1;
                continue ;
            } else if len == 0 {
                break ;
            }
            index += 1;
            if !first {
                outstr.append(".");
                proof {
                    reveal_strlit(".");
                }
            }
            let label = lossy_text(self.get_slice(index, len as usize)?);
            let lower = lowercased(label.as_str());
            outstr.append(lower.as_str());
            index += len as usize;
            proof {
                // the text of this step: the delimiter, then the label
                seen = seen + delimiter(first) + lower@;
            }
            first = false;
        }
        if curr_jumps == 0 {
            self.seek(index + 1)
        } else {
            self.seek(start + 2)
        }
    }
}

} // verus!
