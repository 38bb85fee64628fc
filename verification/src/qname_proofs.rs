//! What holds of every name: how far a name without pointers moves the
//! cursor, what a pointer to another name reads, and where a chain of
//! pointers is given up.

use vstd::prelude::*;
use crate::buffer::{ErrorType, BUFFER_SIZE};
use crate::qname::{
    delimiter, is_pointer, label_text, name_at, name_walk, pointer_target, NameRead, NameWalk,
    MAX_JUMPS,
};

verus! {

/// Labels that can be written without a pointer: none is empty, and the
/// length of each fits a length byte whose two top bits are not both set.
pub open spec fn plain_labels(labels: Seq<Seq<u8>>) -> bool {
    forall|i: int| 0 <= i < labels.len() ==> 1 <= (#[trigger] labels[i]).len() < 0xC0
}

/// The wire form of a name without pointers: each label behind its length
/// byte, then the closing zero byte.
pub open spec fn wire_name(labels: Seq<Seq<u8>>) -> Seq<u8>
    decreases labels.len(),
{
    if labels.len() == 0 {
        seq![0u8]
    } else {
        seq![labels[0].len() as u8] + labels[0] + wire_name(labels.drop_first())
    }
}

/// The number of bytes in the labels themselves.
pub open spec fn content_len(labels: Seq<Seq<u8>>) -> nat
    decreases labels.len(),
{
    if labels.len() == 0 {
        0
    } else {
        labels[0].len() + content_len(labels.drop_first())
    }
}

/// The text of the labels, joined by dots; `first` says that no label
/// stands before them.
pub open spec fn dotted(labels: Seq<Seq<u8>>, first: bool) -> Seq<char>
    decreases labels.len(),
{
    if labels.len() == 0 {
        Seq::empty()
    } else {
        delimiter(first) + label_text(labels[0]) + dotted(labels.drop_first(), false)
    }
}

/// Whether `n` pointers stand in a row from `pos` on, each at the place the
/// one before it names.
pub open spec fn pointer_chain(bytes: Seq<u8>, pos: nat, n: nat) -> bool
    decreases n,
{
    n == 0 || (pos + 1 < BUFFER_SIZE && is_pointer(bytes[pos as int]) && pointer_chain(
        bytes,
        pointer_target(bytes[pos as int], bytes[pos as int + 1]),
        (n - 1) as nat,
    ))
}

/// The place that the last of `n` pointers in a row from `pos` names.
pub open spec fn chain_end(bytes: Seq<u8>, pos: nat, n: nat) -> nat
    decreases n,
{
    if n == 0 {
        pos
    } else {
        chain_end(
            bytes,
            pointer_target(bytes[pos as int], bytes[pos as int + 1]),
            (n - 1) as nat,
        )
    }
}

/// The wire form holds one length byte for each label, the labels, and the
/// closing byte.
pub proof fn lemma_wire_len(labels: Seq<Seq<u8>>)
    ensures
        wire_name(labels).len() == content_len(labels) + labels.len() + 1,
    decreases labels.len(),
{
    if labels.len() > 0 {
        lemma_wire_len(labels.drop_first());
    }
}

/// A walk over the wire form of plain labels gathers their text and stops at
/// the closing byte, with no pointer followed.
proof fn lemma_walk_plain(
    bytes: Seq<u8>,
    pos: nat,
    jumps: nat,
    first: bool,
    labels: Seq<Seq<u8>>,
)
    requires
        plain_labels(labels),
        jumps < MAX_JUMPS,
        pos + wire_name(labels).len() <= BUFFER_SIZE,
        bytes.len() == BUFFER_SIZE,
        bytes.subrange(pos as int, pos as int + wire_name(labels).len()) == wire_name(labels),
    ensures
        name_walk(bytes, pos, jumps, first) == (NameWalk {
            text: dotted(labels, first),
            stop: Ok(((pos + wire_name(labels).len() - 1) as nat, jumps)),
        }),
    decreases labels.len(),
{
    let wire = wire_name(labels);
    let window = bytes.subrange(pos as int, pos as int + wire.len());
    lemma_wire_len(labels);
    if labels.len() == 0 {
        assert(bytes[pos as int] == window[0]);
    } else {
        let label = labels[0];
        let rest = labels.drop_first();
        let next = pos + 1 + label.len();
        lemma_wire_len(rest);
        assert(plain_labels(rest)) by {
            assert forall|i: int| 0 <= i < rest.len() implies 1 <= (#[trigger] rest[i]).len()
                < 0xC0 by {
                assert(rest[i] == labels[i + 1]);
            }
        }
        assert(bytes[pos as int] == window[0]);
        assert(window[0] == label.len() as u8);
        assert(bytes.subrange(pos as int + 1, next as int) =~= label) by {
            assert forall|i: int| 0 <= i < label.len() implies bytes[pos + 1 + i] == label[i] by {
                assert(bytes[pos + 1 + i] == window[1 + i]);
            }
        }
        assert(bytes.subrange(next as int, next as int + wire_name(rest).len()) =~= wire_name(rest)) by {
            assert forall|i: int| 0 <= i < wire_name(rest).len() implies bytes[next + i]
                == wire_name(rest)[i] by {
                assert(bytes[next + i] == window[1 + label.len() + i]);
            }
        }
        lemma_walk_plain(bytes, next, jumps, false, rest);
    }
}

/// A name of plain labels, written without a pointer, reads as the labels'
/// text joined by dots, and moves the cursor by the bytes of the labels, one
/// length byte for each of them and the closing byte.
pub proof fn lemma_plain_name_moves_cursor_by_wire_len(
    bytes: Seq<u8>,
    start: nat,
    labels: Seq<Seq<u8>>,
)
    requires
        bytes.len() == BUFFER_SIZE,
        plain_labels(labels),
        start + wire_name(labels).len() < BUFFER_SIZE,
        bytes.subrange(start as int, start as int + wire_name(labels).len()) == wire_name(labels),
    ensures
        name_at(bytes, start) == (NameRead {
            text: dotted(labels, true),
            next: Ok(start + content_len(labels) + labels.len() + 1),
        }),
{
    lemma_wire_len(labels);
    lemma_walk_plain(bytes, start, 0, true, labels);
}

/// A walk that comes to its end still does so when it starts with `extra`
/// more pointers counted, as long as the count stays below the limit; it
/// gathers the same text and stops at the same place.
proof fn lemma_walk_with_more_jumps(
    bytes: Seq<u8>,
    pos: nat,
    jumps: nat,
    first: bool,
    extra: nat,
)
    requires
        name_walk(bytes, pos, jumps, first).stop is Ok,
        name_walk(bytes, pos, jumps, first).stop->Ok_0.1 + extra < MAX_JUMPS,
    ensures
        name_walk(bytes, pos, jumps, first).stop->Ok_0.1 >= jumps,
        name_walk(bytes, pos, jumps + extra, first) == (NameWalk {
            text: name_walk(bytes, pos, jumps, first).text,
            stop: Ok(
                (
                    name_walk(bytes, pos, jumps, first).stop->Ok_0.0,
                    name_walk(bytes, pos, jumps, first).stop->Ok_0.1 + extra,
                ),
            ),
        }),
    decreases MAX_JUMPS - jumps, BUFFER_SIZE - pos,
{
    let byte = bytes[pos as int];
    if is_pointer(byte) {
        lemma_walk_with_more_jumps(
            bytes,
            pointer_target(byte, bytes[pos as int + 1]),
            jumps + 1,
            first,
            extra,
        );
    } else if byte != 0 {
        lemma_walk_with_more_jumps(bytes, (pos + 1 + byte) as nat, jumps, false, extra);
    }
}

/// A walk that starts on a chain of pointers goes on behind the chain, with
/// each pointer of the chain counted.
proof fn lemma_walk_through_chain(bytes: Seq<u8>, pos: nat, jumps: nat, first: bool, n: nat)
    requires
        pointer_chain(bytes, pos, n),
        jumps + n <= MAX_JUMPS,
    ensures
        name_walk(bytes, pos, jumps, first) == name_walk(
            bytes,
            chain_end(bytes, pos, n),
            jumps + n,
            first,
        ),
    decreases n,
{
    if n > 0 {
        lemma_walk_through_chain(
            bytes,
            pointer_target(bytes[pos as int], bytes[pos as int + 1]),
            jumps + 1,
            first,
            (n - 1) as nat,
        );
    }
}

/// A pointer at the cursor reads as the name it points to, whatever the
/// length of that name, and moves the cursor by its own two bytes. The name
/// pointed to may hold pointers of its own, as long as their number with
/// this one stays below the limit.
pub proof fn lemma_pointer_reads_target_and_moves_cursor_by_two(bytes: Seq<u8>, start: nat)
    requires
        start + 2 < BUFFER_SIZE,
        is_pointer(bytes[start as int]),
        name_walk(
            bytes,
            pointer_target(bytes[start as int], bytes[start as int + 1]),
            0,
            true,
        ).stop is Ok,
        name_walk(
            bytes,
            pointer_target(bytes[start as int], bytes[start as int + 1]),
            0,
            true,
        ).stop->Ok_0.1 + 1 < MAX_JUMPS,
    ensures
        name_at(bytes, start) == (NameRead {
            text: name_walk(
                bytes,
                pointer_target(bytes[start as int], bytes[start as int + 1]),
                0,
                true,
            ).text,
            next: Ok((start + 2) as nat),
        }),
{
    let target = pointer_target(bytes[start as int], bytes[start as int + 1]);
    lemma_walk_with_more_jumps(bytes, target, 0, true, 1);
}

/// A chain of as many pointers as the limit is given up, whatever stands
/// behind it; nothing is read and the cursor stays.
pub proof fn lemma_chain_at_limit_fails(bytes: Seq<u8>, start: nat)
    requires
        pointer_chain(bytes, start, MAX_JUMPS as nat),
    ensures
        name_at(bytes, start) == (NameRead {
            text: Seq::empty(),
            next: Err(ErrorType::MaxJumpsReached),
        }),
{
    lemma_walk_through_chain(bytes, start, 0, true, MAX_JUMPS as nat);
}

/// A chain of fewer pointers than the limit, at least one, reads as the
/// name it leads to, and moves the cursor by the two bytes of its first
/// pointer. The name it leads to may hold pointers of its own, as long as
/// their number with those of the chain stays below the limit.
pub proof fn lemma_chain_below_limit_reads_target(bytes: Seq<u8>, start: nat, n: nat)
    requires
        1 <= n < MAX_JUMPS,
        start + 2 < BUFFER_SIZE,
        pointer_chain(bytes, start, n),
        name_walk(bytes, chain_end(bytes, start, n), 0, true).stop is Ok,
        name_walk(bytes, chain_end(bytes, start, n), 0, true).stop->Ok_0.1 + n < MAX_JUMPS,
    ensures
        name_at(bytes, start) == (NameRead {
            text: name_walk(bytes, chain_end(bytes, start, n), 0, true).text,
            next: Ok((start + 2) as nat),
        }),
{
    lemma_walk_through_chain(bytes, start, 0, true, n);
    lemma_walk_with_more_jumps(bytes, chain_end(bytes, start, n), 0, true, n);
}

} // verus!
