//! A decoder for DNS messages in their wire format, and a trie of keywords.
//!
//! A message is decoded out of a [`buffer::ByteBuffer`]: a store of 512
//! bytes with a cursor, whose reads are all checked against the capacity.
//! [`qname`] reads domain names, following compression pointers up to a
//! limit; [`qname_proofs`] states what holds of every name; and
//! [`dns_packet`] decodes the header, the questions and the records of a
//! message. Every decoder comes with a spec function that says what it
//! returns and where it leaves the cursor.
//!
//! [`trie`] is a set of words kept character by character.

pub mod buffer;
pub mod dns_packet;
pub mod qname;
pub mod qname_proofs;
pub mod trie;
