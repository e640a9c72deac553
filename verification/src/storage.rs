//! The persistent memory: a fixed number of bytes, read and written one at a time.

use vstd::prelude::*;

verus! {

/// Number of directory slots.
pub const MAX_FILES: usize = 8;

/// Width of the name field of a record, in bytes.
pub const MAX_NAME: usize = 8;

/// Bytes taken by one record: address (2), length (1), name.
pub const REC_SIZE: u16 = 11;

/// Offset of the directory table.
pub const TABLE_START: u16 = 0;

/// Offset of the data region; the table ends here.
pub const DATA_START: u16 = 88;

/// Size of the whole memory in bytes.
pub const EEPROM_SIZE: u16 = 1024;

/// Address that marks a slot as unused.
pub const EMPTY_ADDR: u16 = 0xFFFF;

/// An image of the persistent memory.
pub struct Storage {
    bytes: Vec<u8>,
}

impl View for Storage {
    type V = Seq<u8>;

    closed spec fn view(&self) -> Seq<u8> {
        self.bytes@
    }
}

impl Storage {
    /// A memory in the erased state: every byte is `0xFF`, so every slot is unused.
    pub fn new() -> (s: Storage)
        ensures
            s@.len() == EEPROM_SIZE,
            forall|i: int| 0 <= i < EEPROM_SIZE ==> s@[i] == 0xFF,
    {
        let mut bytes: Vec<u8> = Vec::new();
        let mut i: u16 = 0;
        while i < EEPROM_SIZE
            invariant
                i <= EEPROM_SIZE,
                bytes@.len() == i,
                forall|k: int| 0 <= k < i ==> bytes@[k] == 0xFF,
            decreases EEPROM_SIZE - i,
        {
            bytes.push(0xFF);
            i += 1;
        }
        Storage { bytes }
    }

    /// Takes an image over, provided it has the size of the memory.
    pub fn from_bytes(bytes: Vec<u8>) -> (r: Option<Storage>)
        ensures
            r is Some <==> bytes@.len() == EEPROM_SIZE,
            r matches Some(s) ==> s@ == bytes@,
    {
        if bytes.len() == EEPROM_SIZE as usize {
            Some(Storage { bytes })
        } else {
            None
        }
    }

    /// A copy of the image as it is now.
    pub fn snapshot(&self) -> (s: Storage)
        ensures
            s@ == self@,
    {
        let mut bytes: Vec<u8> = Vec::new();
        let mut i: usize = 0;
        while i < self.bytes.len()
            invariant
                i <= self.bytes@.len(),
                bytes@.len() == i,
                forall|k: int| 0 <= k < i ==> bytes@[k] == self.bytes@[k],
            decreases self.bytes@.len() - i,
        {
            bytes.push(self.bytes[i]);
            i += 1;
        }
        assert(bytes@ =~= self.bytes@);
        Storage { bytes }
    }

    /// The whole image.
    pub fn as_bytes(&self) -> (r: &[u8])
        ensures
            r@ == self@,
    {
        self.bytes.as_slice()
    }

    /// The byte at `offset`.
    pub fn read_byte(&self, offset: u16) -> (b: u8)
        requires
            offset < self@.len(),
        ensures
            b == self@[offset as int],
    {
        self.bytes[offset as usize]
    }

    /// Replaces the byte at `offset`; every other byte stays.
    pub fn write_byte(&mut self, offset: u16, value: u8)
        requires
            offset < old(self)@.len(),
        ensures
            final(self)@ == old(self)@.update(offset as int, value),
    {
        self.bytes.set(offset as usize, value);
    }
}

} // verus!
