//! The memory of an image: a buffer of machine words and a buffer of bytes,
//! which the host allocates once and never grows.

use vstd::prelude::*;

verus! {

/// The memory that the host provides for one image.
///
/// The host implements this trait. What is proved of loading and querying
/// holds for containers that keep the promises made here: the buffers have the
/// lengths asked for, and hold what was last written to them.
pub trait DataStructuresContainer: Sized {
    /// The words that the container holds. An implementation in plain Rust
    /// leaves this open.
    open spec fn usize_view(&self) -> Seq<usize> {
        arbitrary()
    }

    /// The bytes that the container holds. An implementation in plain Rust
    /// leaves this open.
    open spec fn u8_view(&self) -> Seq<u8> {
        arbitrary()
    }

    /// A container with buffers of the lengths given.
    fn allocate(len_usize_buffer: usize, len_u8_buffer: usize) -> (container: Self)
        ensures
            container.usize_view().len() == len_usize_buffer,
            container.u8_view().len() == len_u8_buffer,
    ;

    /// The words, to be read.
    fn get_usize_buffer(&self) -> (buffer: &[usize])
        ensures
            buffer@ == self.usize_view(),
    ;

    /// The words, to be written.
    fn get_usize_buffer_mut(&mut self) -> (buffer: &mut [usize])
        ensures
            buffer@ == old(self).usize_view(),
            final(self).usize_view() == final(buffer)@,
            final(self).u8_view() == old(self).u8_view(),
    ;

    /// The bytes, to be read.
    fn get_u8_buffer(&self) -> (buffer: &[u8])
        ensures
            buffer@ == self.u8_view(),
    ;

    /// The bytes, to be written.
    fn get_u8_buffer_mut(&mut self) -> (buffer: &mut [u8])
        ensures
            buffer@ == old(self).u8_view(),
            final(self).u8_view() == final(buffer)@,
            final(self).usize_view() == old(self).usize_view(),
    ;

    /// Both buffers at once, each to be written on its own.
    fn get_both_buffers_mut(&mut self) -> (buffers: (&mut [usize], &mut [u8]))
        ensures
            buffers.0@ == old(self).usize_view(),
            buffers.1@ == old(self).u8_view(),
            final(self).usize_view() == final(buffers.0)@,
            final(self).u8_view() == final(buffers.1)@,
    ;
}

/// A container on the heap.
pub struct VecContainer {
    pub usize_buffer: Vec<usize>,
    pub u8_buffer: Vec<u8>,
}

/// A vector of `length` copies of `value`.
fn filled<T: Copy>(length: usize, value: T) -> (buffer: Vec<T>)
    ensures
        buffer@.len() == length,
        forall|index: int| 0 <= index < length ==> buffer@[index] == value,
{
    let mut buffer: Vec<T> = Vec::with_capacity(length);
    let mut index: usize = 0;
    while index < length
        invariant
            index <= length,
            buffer@.len() == index,
            forall|i: int| 0 <= i < index ==> buffer@[i] == value,
        decreases length - index,
    {
        buffer.push(value);
        index += 1;
    }
    buffer
}

impl DataStructuresContainer for VecContainer {
    open spec fn usize_view(&self) -> Seq<usize> {
        self.usize_buffer@
    }

    open spec fn u8_view(&self) -> Seq<u8> {
        self.u8_buffer@
    }

    fn allocate(len_usize_buffer: usize, len_u8_buffer: usize) -> (container: VecContainer) {
        VecContainer {
            usize_buffer: filled(len_usize_buffer, 0usize),
            u8_buffer: filled(len_u8_buffer, 0u8),
        }
    }

    fn get_usize_buffer(&self) -> (buffer: &[usize]) {
        self.usize_buffer.as_slice()
    }

    fn get_usize_buffer_mut(&mut self) -> (buffer: &mut [usize]) {
        self.usize_buffer.as_mut_slice()
    }

    fn get_u8_buffer(&self) -> (buffer: &[u8]) {
        self.u8_buffer.as_slice()
    }

    fn get_u8_buffer_mut(&mut self) -> (buffer: &mut [u8]) {
        self.u8_buffer.as_mut_slice()
    }

    fn get_both_buffers_mut(&mut self) -> (buffers: (&mut [usize], &mut [u8])) {
        (self.usize_buffer.as_mut_slice(), self.u8_buffer.as_mut_slice())
    }
}

} // verus!
