//! Files held in memory.
//!
//! The structures of a layer are read from and written to files.  A file in
//! memory stands for one where nothing is to outlive the process: it is a
//! run of bytes that grows as writers write behind or beyond its end.

use vstd::prelude::*;

verus! {

/// What a file holding `file` holds once `buf` is written at `pos`: the
/// bytes before `pos` stay, filled up with zeros where the file was
/// shorter; `buf` follows; the bytes of the file behind it stay.
pub open spec fn written(file: Seq<u8>, pos: nat, buf: Seq<u8>) -> Seq<u8> {
    Seq::new(
        if file.len() > pos + buf.len() {
            file.len()
        } else {
            pos + buf.len()
        },
        |i: int|
            if pos <= i < pos + buf.len() {
                buf[i - pos]
            } else if i < file.len() {
                file[i]
            } else {
                0u8
            },
    )
}

/// How many bytes a reader at `pos` gets from a file of `len` bytes into a
/// buffer of `room` bytes.
pub open spec fn readable(len: nat, pos: nat, room: nat) -> nat {
    if pos >= len {
        0
    } else if len - pos >= room {
        room
    } else {
        (len - pos) as nat
    }
}

/// A file in memory.
pub struct MemoryBackedStore {
    vec: Vec<u8>,
}

impl View for MemoryBackedStore {
    type V = Seq<u8>;

    /// The bytes of the file.
    closed spec fn view(&self) -> Seq<u8> {
        self.vec@
    }
}

/// Writes to a file in memory, each write behind the last.
pub struct MemoryBackedStoreWriter {
    pos: usize,
}

/// Reads from a file in memory, each read behind the last.
pub struct MemoryBackedStoreReader {
    pos: usize,
}

impl MemoryBackedStore {
    /// An empty file.
    pub fn new() -> (store: MemoryBackedStore)
        ensures
            store@ == Seq::<u8>::empty(),
    {
        MemoryBackedStore { vec: Vec::new() }
    }

    /// The number of bytes in the file.
    pub fn size(&self) -> (size: usize)
        ensures
            size == self@.len(),
    {
        self.vec.len()
    }

    /// A copy of the bytes of the file.
    pub fn map(&self) -> (bytes: Vec<u8>)
        ensures
            bytes@ == self@,
    {
        self.vec.clone()
    }

    /// A writer that starts at the beginning of the file.
    pub fn open_write(&self) -> (writer: MemoryBackedStoreWriter)
        ensures
            writer.position() == 0,
    {
        self.open_write_from(0)
    }

    /// A writer that starts at `offset`.
    pub fn open_write_from(&self, offset: usize) -> (writer: MemoryBackedStoreWriter)
        ensures
            writer.position() == offset,
    {
        MemoryBackedStoreWriter { pos: offset }
    }

    /// A reader that starts at the beginning of the file.
    pub fn open_read(&self) -> (reader: MemoryBackedStoreReader)
        ensures
            reader.position() == 0,
    {
        self.open_read_from(0)
    }

    /// A reader that starts at `offset`.
    pub fn open_read_from(&self, offset: usize) -> (reader: MemoryBackedStoreReader)
        ensures
            reader.position() == offset,
    {
        MemoryBackedStoreReader { pos: offset }
    }
}

impl MemoryBackedStoreWriter {
    /// Where the next write goes.
    pub closed spec fn position(&self) -> nat {
        self.pos as nat
    }

    /// Writes `buf` to `store` where the writer stands, and moves the writer
    /// behind it.  All of `buf` is written.
    pub fn write(&mut self, store: &mut MemoryBackedStore, buf: &[u8]) -> (count: usize)
        requires
            old(self).position() + buf@.len() <= usize::MAX,
        ensures
            count == buf@.len(),
            final(self).position() == old(self).position() + buf@.len(),
            final(store)@ == written(old(store)@, old(self).position(), buf@),
    {
        let ghost before = store.vec@;
        let pos = self.pos;
        let end = pos + buf.len();
        while store.vec.len() < end
            invariant
                before.len() <= store.vec@.len(),
                store.vec@.len() <= end || store.vec@.len() == before.len(),
                forall|i: int| 0 <= i < before.len() ==> store.vec@[i] == before[i],
                forall|i: int| before.len() <= i < store.vec@.len() ==> store.vec@[i] == 0,
            decreases end - store.vec@.len(),
        {
            store.vec.push(0);
        }
        let ghost filled = store.vec@;
        proof {
            assert(filled.len() == (if before.len() > end {
                before.len()
            } else {
                end as nat
            }));
            assert(forall|k: int| 0 <= k < before.len() ==> filled[k] == before[k]);
            assert(forall|k: int| before.len() <= k < filled.len() ==> filled[k] == 0);
        }
        let mut i: usize = 0;
        while i < buf.len()
            invariant
                i <= buf@.len(),
                end == pos + buf@.len(),
                store.vec@.len() == filled.len(),
                filled.len() >= end,
                forall|k: int| 0 <= k < i ==> store.vec@[pos + k] == buf@[k],
                forall|k: int|
                    0 <= k < filled.len() && !(pos <= k < pos + i) ==> store.vec@[k] == filled[k],
            decreases buf@.len() - i,
        {
            store.vec.set(pos + i, buf[i]);
            i += 1;
        }
        self.pos = end;
        proof {
            let target = written(before, pos as nat, buf@);
            assert(store.vec@.len() == target.len());
            assert forall|k: int| 0 <= k < target.len() implies store.vec@[k] == target[k] by {
                if pos <= k < pos + buf@.len() {
                    assert(store.vec@[pos + (k - pos)] == buf@[k - pos]);
                } else {
                    assert(store.vec@[k] == filled[k]);
                }
            }
            assert(store.vec@ =~= target);
        }
        buf.len()
    }

    /// Makes sure that what was written is in the file: it always is.
    pub fn flush(&mut self)
        ensures
            *final(self) == *old(self),
    {
    }
}

impl MemoryBackedStoreReader {
    /// Where the next read starts.
    pub closed spec fn position(&self) -> nat {
        self.pos as nat
    }

    /// Reads from `store` where the reader stands, as many bytes as are
    /// left and `buf` has room for, and moves the reader behind them.
    pub fn read(&mut self, store: &MemoryBackedStore, buf: &mut Vec<u8>) -> (count: usize)
        ensures
            count == readable(store@.len(), old(self).position(), old(buf)@.len()),
            final(self).position() == old(self).position() + count,
            final(buf)@.len() == old(buf)@.len(),
            forall|k: int| 0 <= k < count ==> final(buf)@[k] == store@[old(self).position() + k],
            forall|k: int| count <= k < old(buf)@.len() ==> final(buf)@[k] == old(buf)@[k],
    {
        let len = store.vec.len();
        if self.pos >= len {
            return 0;
        }
        let left = len - self.pos;
        let count = if left >= buf.len() {
            buf.len()
        } else {
            left
        };
        let start = self.pos;
        let mut i: usize = 0;
        while i < count
            invariant
                i <= count,
                count <= buf@.len(),
                buf@.len() == old(buf)@.len(),
                start + count <= store.vec@.len(),
                len == store.vec@.len(),
                forall|k: int| 0 <= k < i ==> buf@[k] == store.vec@[start + k],
                forall|k: int| i <= k < buf@.len() ==> buf@[k] == old(buf)@[k],
            decreases count - i,
        {
            buf.set(i, store.vec[start + i]);
            i += 1;
        }
        self.pos = start + count;
        count
    }
}

} // verus!
