//! Directory records and their layout in the table.

use vstd::prelude::*;
use crate::storage::{Storage, EEPROM_SIZE, EMPTY_ADDR, MAX_FILES, MAX_NAME, REC_SIZE, TABLE_START};

verus! {

/// One entry of the directory table.
#[derive(Clone, Copy, Debug)]
pub struct FileRec {
    /// Offset of the payload, or `EMPTY_ADDR` for an unused slot.
    pub addr: u16,
    /// Number of payload bytes.
    pub len: u8,
    /// Name, padded with zero bytes.
    pub name: [u8; 8],
}

/// Offset of slot `i` in the image.
pub open spec fn slot_base(i: int) -> int {
    TABLE_START + REC_SIZE * i
}

/// Address field of slot `i`: two bytes, low byte first.
pub open spec fn slot_addr(img: Seq<u8>, i: int) -> int {
    img[slot_base(i)] + 256 * img[slot_base(i) + 1]
}

/// Length field of slot `i`.
pub open spec fn slot_len(img: Seq<u8>, i: int) -> int {
    img[slot_base(i) + 2] as int
}

/// Name field of slot `i`.
pub open spec fn slot_name(img: Seq<u8>, i: int) -> Seq<u8> {
    img.subrange(slot_base(i) + 3, slot_base(i) + REC_SIZE)
}

/// Whether slot `i` holds a file.
pub open spec fn slot_live(img: Seq<u8>, i: int) -> bool {
    slot_addr(img, i) != EMPTY_ADDR
}

/// The eleven bytes that stand for a record with these fields.
pub open spec fn rec_bytes(addr: int, len: int, name: Seq<u8>) -> Seq<u8> {
    seq![(addr % 256) as u8, (addr / 256) as u8, len as u8] + name
}

/// `img` with the bytes from `at` on replaced by `part`.
pub open spec fn splice(img: Seq<u8>, at: int, part: Seq<u8>) -> Seq<u8> {
    Seq::new(
        img.len(),
        |k: int|
            if at <= k < at + part.len() {
                part[k - at]
            } else {
                img[k]
            },
    )
}

impl FileRec {
    /// The bytes of this record as the table holds them.
    pub open spec fn bytes(&self) -> Seq<u8> {
        rec_bytes(self.addr as int, self.len as int, self.name@)
    }

    /// Whether the record is the content of slot `i` of `img`.
    pub open spec fn is_slot(&self, img: Seq<u8>, i: int) -> bool {
        &&& self.addr == slot_addr(img, i)
        &&& self.len == slot_len(img, i)
        &&& self.name@ == slot_name(img, i)
    }

    /// The record's bytes in the layout of the table: the address in two
    /// bytes, low byte first; the length in one byte; the eight bytes of the name.
    pub fn encode(&self) -> (raw: [u8; 11])
        ensures
            raw@ == self.bytes(),
    {
        let addr: u16 = self.addr;
        let lo: u8 = (addr & 0xFF) as u8;
        let hi: u8 = (addr >> 8) as u8;
        assert(lo == addr % 256 && hi == addr / 256) by (bit_vector)
            requires
                lo == (addr & 0xFF) as u8,
                hi == (addr >> 8) as u8,
        ;
        let mut raw: [u8; 11] = [0u8; 11];
        raw[0] = lo;
        raw[1] = hi;
        raw[2] = self.len;
        let mut j: usize = 0;
        while j < MAX_NAME
            invariant
                j <= MAX_NAME,
                raw@[0] == lo,
                raw@[1] == hi,
                raw@[2] == self.len,
                forall|k: int| 0 <= k < j ==> raw@[3 + k] == self.name@[k],
            decreases MAX_NAME - j,
        {
            raw[3 + j] = self.name[j];
            j += 1;
        }
        assert(raw@ =~= self.bytes());
        raw
    }

    /// The record that eleven bytes of the table stand for.
    pub fn decode(raw: &[u8; 11]) -> (r: FileRec)
        ensures
            r.bytes() == raw@,
            r.addr == raw@[0] + 256 * raw@[1],
            r.len == raw@[2],
            r.name@ == raw@.subrange(3, 11),
    {
        let lo: u16 = raw[0] as u16;
        let hi: u16 = raw[1] as u16;
        let addr: u16 = (hi << 8) | lo;
        assert(addr == lo + 256 * hi) by (bit_vector)
            requires
                addr == (hi << 8) | lo,
                lo < 256,
                hi < 256,
        ;
        let mut name: [u8; 8] = [0u8; 8];
        let mut j: usize = 0;
        while j < MAX_NAME
            invariant
                j <= MAX_NAME,
                forall|k: int| 0 <= k < j ==> name@[k] == raw@[3 + k],
            decreases MAX_NAME - j,
        {
            name[j] = raw[3 + j];
            j += 1;
        }
        let r = FileRec { addr, len: raw[2], name };
        assert(r.name@ =~= raw@.subrange(3, 11));
        assert(r.bytes() =~= raw@);
        r
    }

    /// Reads the record in slot `i`.
    pub fn load(eep: &Storage, i: usize) -> (r: FileRec)
        requires
            eep@.len() == EEPROM_SIZE,
            i < MAX_FILES,
        ensures
            r.is_slot(eep@, i as int),
    {
        let base: u16 = TABLE_START + REC_SIZE * (i as u16);
        let mut raw: [u8; 11] = [0u8; 11];
        let mut j: u16 = 0;
        while j < REC_SIZE
            invariant
                j <= REC_SIZE,
                eep@.len() == EEPROM_SIZE,
                base == slot_base(i as int),
                i < MAX_FILES,
                forall|k: int| 0 <= k < j ==> raw@[k] == eep@[base + k],
            decreases REC_SIZE - j,
        {
            raw[j as usize] = eep.read_byte(base + j);
            j += 1;
        }
        let r = FileRec::decode(&raw);
        assert(r.name@ =~= slot_name(eep@, i as int));
        r
    }

    /// Writes the record into slot `i`; the bytes outside the slot stay.
    pub fn store(&self, eep: &mut Storage, i: usize)
        requires
            old(eep)@.len() == EEPROM_SIZE,
            i < MAX_FILES,
        ensures
            final(eep)@ == splice(old(eep)@, slot_base(i as int), self.bytes()),
            final(eep)@.len() == EEPROM_SIZE,
            self.is_slot(final(eep)@, i as int),
    {
        let base: u16 = TABLE_START + REC_SIZE * (i as u16);
        let raw = self.encode();
        let mut j: u16 = 0;
        while j < REC_SIZE
            invariant
                j <= REC_SIZE,
                i < MAX_FILES,
                base == slot_base(i as int),
                raw@ == self.bytes(),
                eep@.len() == EEPROM_SIZE,
                old(eep)@.len() == EEPROM_SIZE,
                forall|k: int| 0 <= k < base || base + j <= k < EEPROM_SIZE ==> eep@[k] == old(eep)@[k],
                forall|k: int| base <= k < base + j ==> eep@[k] == raw@[k - base],
            decreases REC_SIZE - j,
        {
            eep.write_byte(base + j, raw[j as usize]);
            j += 1;
        }
        assert(eep@ =~= splice(old(eep)@, slot_base(i as int), self.bytes()));
        assert(self.name@ =~= slot_name(eep@, i as int));
    }
}

} // verus!
