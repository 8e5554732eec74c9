//! Keys as streams of bytes.
//!
//! The tables are built from keys that are never held in memory as a whole:
//! a key is read byte by byte, and read again from the start by copying the
//! iterator.

use vstd::prelude::*;

verus! {

/// A restartable stream of bytes: one key. A copy of the iterator gives the
/// same bytes once more.
pub trait ByteIterator: Copy {
    /// The iterator's own invariant. An implementation in plain Rust leaves
    /// this open.
    open spec fn wf(&self) -> bool {
        arbitrary()
    }

    /// The bytes that are still to come. An implementation in plain Rust
    /// leaves this open.
    open spec fn remaining(&self) -> Seq<u8> {
        arbitrary()
    }

    /// Hands out the next byte, if there is one.
    fn next(&mut self) -> (byte: Option<u8>)
        requires
            old(self).wf(),
        ensures
            final(self).wf(),
            old(self).remaining().len() == 0 ==> byte is None && final(self).remaining().len() == 0,
            old(self).remaining().len() > 0 ==> byte == Some(old(self).remaining()[0])
                && final(self).remaining() == old(self).remaining().skip(1),
    ;
}

/// A restartable stream of keys. A copy of the iterator gives the same keys
/// once more.
pub trait KeyIterator: Copy {
    type Key: ByteIterator;

    /// The iterator's own invariant. An implementation in plain Rust leaves
    /// this open.
    open spec fn wf(&self) -> bool {
        arbitrary()
    }

    /// The keys that are still to come. An implementation in plain Rust
    /// leaves this open.
    open spec fn remaining(&self) -> Seq<Seq<u8>> {
        arbitrary()
    }

    /// Hands out the next key, if there is one.
    fn next(&mut self) -> (key: Option<Self::Key>)
        requires
            old(self).wf(),
        ensures
            final(self).wf(),
            old(self).remaining().len() == 0 ==> key is None && final(self).remaining().len() == 0,
            old(self).remaining().len() > 0 ==> key is Some && key->0.wf() && key->0.remaining()
                == old(self).remaining()[0] && final(self).remaining() == old(
                self,
            ).remaining().skip(1),
    ;
}

/// The bytes of a slice, from a position on.
#[derive(Clone, Copy)]
pub struct SliceBytes<'a> {
    data: &'a [u8],
    position: usize,
}

impl<'a> SliceBytes<'a> {
    /// The bytes of `data`, from its start on.
    pub fn new(data: &'a [u8]) -> (bytes: SliceBytes<'a>)
        ensures
            bytes.wf(),
            bytes.remaining() == data@,
    {
        let bytes = SliceBytes { data, position: 0 };
        bytes
    }
}

impl<'a> ByteIterator for SliceBytes<'a> {
    closed spec fn wf(&self) -> bool {
        self.position <= self.data@.len()
    }

    closed spec fn remaining(&self) -> Seq<u8> {
        self.data@.skip(self.position as int)
    }

    fn next(&mut self) -> (byte: Option<u8>) {
        if self.position < self.data.len() {
            let byte = self.data[self.position];
            self.position += 1;
            Some(byte)
        } else {
            None
        }
    }
}

/// Whether `data` holds exactly the bytes that `iterator` has still to give.
pub fn compare_with_iterator<K: ByteIterator>(data: &[u8], iterator: K) -> (equal: bool)
    requires
        iterator.wf(),
    ensures
        equal == (data@ == iterator.remaining()),
{
    let mut rest = iterator;
    let mut index: usize = 0;
    while index < data.len()
        invariant
            rest.wf(),
            index <= data@.len(),
            data@.subrange(0, index as int) + rest.remaining() == iterator.remaining(),
        decreases data@.len() - index,
    {
        match rest.next() {
            None => {
                return false;
            },
            Some(byte) => {
                if byte != data[index] {
                    return false;
                }
                index += 1;
            },
        }
    }
    assert(data@.subrange(0, index as int) =~= data@);
    match rest.next() {
        None => {
            true
        },
        Some(_) => false,
    }
}

/// The number of bytes that `iterator` has still to give, if it is at most
/// `limit`.
pub fn count_up_to<K: ByteIterator>(iterator: K, limit: usize) -> (count: Option<usize>)
    requires
        iterator.wf(),
    ensures
        iterator.remaining().len() <= limit ==> count == Some(iterator.remaining().len() as usize),
        iterator.remaining().len() > limit ==> count is None,
{
    let mut rest = iterator;
    let mut count: usize = 0;
    loop
        invariant
            rest.wf(),
            count <= limit,
            count + rest.remaining().len() == iterator.remaining().len(),
        decreases rest.remaining().len(),
    {
        match rest.next() {
            None => {
                return Some(count);
            },
            Some(_) => {
                if count == limit {
                    return None;
                }
                count += 1;
            },
        }
    }
}

} // verus!
