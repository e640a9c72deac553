//! The directory table: which slots are live, what they are called, where their
//! payloads lie, and the invariant that keeps payloads apart.

use vstd::prelude::*;
use crate::record::{rec_bytes, slot_addr, slot_base, slot_len, slot_live, slot_name, FileRec};
use crate::search::{first_index, lemma_first_index_is, lemma_first_index_none};
use crate::storage::{Storage, DATA_START, EEPROM_SIZE, EMPTY_ADDR, MAX_FILES, MAX_NAME, REC_SIZE};

verus! {

/// One past the last payload byte of slot `i`.
pub open spec fn span_end(img: Seq<u8>, i: int) -> int {
    slot_addr(img, i) + slot_len(img, i)
}

/// The payloads of slots `i` and `j` do not overlap: one ends where or before
/// the other starts.
pub open spec fn apart(img: Seq<u8>, i: int, j: int) -> bool {
    span_end(img, i) <= slot_addr(img, j) || span_end(img, j) <= slot_addr(img, i)
}

/// The payload of slot `i` lies inside the data region.
pub open spec fn in_region(img: Seq<u8>, i: int) -> bool {
    DATA_START <= slot_addr(img, i) && span_end(img, i) <= EEPROM_SIZE
}

/// The invariant of the store: the image has the size of the memory, every live
/// payload lies in the data region, and no two live payloads overlap.
pub open spec fn well_formed(img: Seq<u8>) -> bool {
    &&& img.len() == EEPROM_SIZE
    &&& forall|i: int| 0 <= i < MAX_FILES && #[trigger] slot_live(img, i) ==> in_region(img, i)
    &&& forall|i: int, j: int|
        0 <= i < MAX_FILES && 0 <= j < MAX_FILES && i != j && #[trigger] slot_live(img, i)
            && #[trigger] slot_live(img, j) ==> apart(img, i, j)
}

/// Number of leading bytes of a name field before its first zero byte.
pub open spec fn name_len(field: Seq<u8>) -> int
    decreases field.len(),
{
    if field.len() == 0 || field[0] == 0 {
        0
    } else {
        1 + name_len(field.skip(1))
    }
}

/// The name a field stands for: its bytes up to the first zero byte, or all of
/// them where none is zero.
pub open spec fn logical_name(field: Seq<u8>) -> Seq<u8> {
    field.take(name_len(field))
}

/// `k` is where the name in `field` ends: no zero byte before it, and a zero
/// byte or the end of the field at it.
pub open spec fn name_ends_at(field: Seq<u8>, k: int) -> bool {
    &&& 0 <= k <= field.len()
    &&& forall|j: int| 0 <= j < k ==> field[j] != 0
    &&& k == field.len() || field[k] == 0
}

/// The name ends at exactly one place, which `name_len` gives.
pub proof fn lemma_name_len(field: Seq<u8>, k: int)
    requires
        name_ends_at(field, k),
    ensures
        name_len(field) == k,
    decreases field.len(),
{
    if field.len() == 0 || field[0] == 0 {
    } else {
        let rest = field.skip(1);
        assert forall|j: int| 0 <= j < k - 1 implies rest[j] != 0 by {
            assert(rest[j] == field[j + 1]);
        }
        lemma_name_len(rest, k - 1);
    }
}

/// Slot `i` is live and called `name`.
pub open spec fn named(img: Seq<u8>, i: int, name: Seq<u8>) -> bool {
    slot_live(img, i) && logical_name(slot_name(img, i)) == name
}

/// The first slot, in index order, that is live and called `name`.
pub open spec fn find_name(img: Seq<u8>, name: Seq<u8>) -> Option<int> {
    first_index(|i: int| named(img, i, name), 0, MAX_FILES as int)
}

/// The first slot, in index order, that holds no file.
pub open spec fn free_slot(img: Seq<u8>) -> Option<int> {
    first_index(|i: int| !slot_live(img, i), 0, MAX_FILES as int)
}

/// The name field of an unused record: all zero bytes.
pub open spec fn blank_name() -> Seq<u8> {
    Seq::new(MAX_NAME as nat, |k: int| 0u8)
}

/// The bytes of an unused record: the free sentinel, length zero, a blank name.
pub open spec fn empty_rec() -> Seq<u8> {
    rec_bytes(EMPTY_ADDR as int, 0, blank_name())
}

/// The image after formatting: every slot holds the unused record, in slot
/// order; the data region is as before.
pub open spec fn formatted(img: Seq<u8>) -> Seq<u8> {
    Seq::new(
        img.len(),
        |k: int|
            if 0 <= k < DATA_START {
                empty_rec()[k % (REC_SIZE as int)]
            } else {
                img[k]
            },
    )
}

/// Whether the name in `field` is exactly `name`.
pub fn name_is(field: &[u8; 8], name: &[u8]) -> (r: bool)
    ensures
        r == (logical_name(field@) == name@),
{
    let mut pos: usize = 0;
    while pos < MAX_NAME && field[pos] != 0
        invariant
            pos <= MAX_NAME,
            forall|j: int| 0 <= j < pos ==> field@[j] != 0,
        decreases MAX_NAME - pos,
    {
        pos += 1;
    }
    proof {
        lemma_name_len(field@, pos as int);
    }
    if pos != name.len() {
        return false;
    }
    let mut j: usize = 0;
    while j < pos
        invariant
            j <= pos,
            pos == name@.len(),
            pos <= MAX_NAME,
            pos == name_len(field@),
            forall|k: int| 0 <= k < j ==> field@[k] == name@[k],
        decreases pos - j,
    {
        if field[j] != name[j] {
            assert(logical_name(field@)[j as int] != name@[j as int]);
            return false;
        }
        j += 1;
    }
    assert(logical_name(field@) =~= name@);
    true
}

/// Marks every slot unused, in slot order. The data region is not touched.
pub fn cmd_format(eep: &mut Storage)
    requires
        old(eep)@.len() == EEPROM_SIZE,
    ensures
        final(eep)@ == formatted(old(eep)@),
        well_formed(final(eep)@),
        forall|i: int| 0 <= i < MAX_FILES ==> !slot_live(final(eep)@, i),
{
    let empty = FileRec { addr: EMPTY_ADDR, len: 0, name: [0u8; 8] };
    assert(empty.name@ =~= blank_name());
    let mut i: usize = 0;
    while i < MAX_FILES
        invariant
            i <= MAX_FILES,
            eep@.len() == EEPROM_SIZE,
            old(eep)@.len() == EEPROM_SIZE,
            empty.bytes() == empty_rec(),
            empty.addr == EMPTY_ADDR,
            forall|k: int| 0 <= k < REC_SIZE * i ==> eep@[k] == empty_rec()[k % (REC_SIZE as int)],
            forall|k: int| REC_SIZE * i <= k < EEPROM_SIZE ==> eep@[k] == old(eep)@[k],
            forall|s: int| 0 <= s < i ==> !slot_live(eep@, s),
        decreases MAX_FILES - i,
    {
        let ghost before = eep@;
        empty.store(eep, i);
        proof {
            assert forall|s: int| 0 <= s < i + 1 implies !slot_live(eep@, s) by {
                if s < i {
                    assert(!slot_live(before, s));
                    assert(eep@[slot_base(s)] == before[slot_base(s)]);
                    assert(eep@[slot_base(s) + 1] == before[slot_base(s) + 1]);
                }
            }
        }
        i += 1;
    }
    assert(eep@ =~= formatted(old(eep)@));
}

/// Looks a file up by name: the first slot, in index order, that is live and
/// whose name is exactly `name`.
pub fn find_by_name(eep: &Storage, name: &[u8]) -> (r: Option<usize>)
    requires
        eep@.len() == EEPROM_SIZE,
    ensures
        match r {
            Some(i) => find_name(eep@, name@) == Some(i as int) && i < MAX_FILES,
            None => find_name(eep@, name@) is None,
        },
{
    let ghost pred = |i: int| named(eep@, i, name@);
    let mut i: usize = 0;
    while i < MAX_FILES
        invariant
            i <= MAX_FILES,
            eep@.len() == EEPROM_SIZE,
            pred == (|i: int| named(eep@, i, name@)),
            forall|q: int| 0 <= q < i ==> !#[trigger] pred(q),
        decreases MAX_FILES - i,
    {
        let r = FileRec::load(eep, i);
        if r.addr != EMPTY_ADDR {
            if name_is(&r.name, name) {
                proof {
                    assert(pred(i as int));
                    lemma_first_index_is(pred, 0, MAX_FILES as int, i as int);
                }
                return Some(i);
            }
        }
        assert(!pred(i as int));
        i += 1;
    }
    proof {
        lemma_first_index_none(pred, 0, MAX_FILES as int);
    }
    None
}

/// The first slot, in index order, that holds no file; `None` where the table is full.
pub fn find_free_slot(eep: &Storage) -> (r: Option<usize>)
    requires
        eep@.len() == EEPROM_SIZE,
    ensures
        match r {
            Some(i) => free_slot(eep@) == Some(i as int) && i < MAX_FILES,
            None => free_slot(eep@) is None,
        },
{
    let ghost pred = |i: int| !slot_live(eep@, i);
    let mut i: usize = 0;
    while i < MAX_FILES
        invariant
            i <= MAX_FILES,
            eep@.len() == EEPROM_SIZE,
            pred == (|i: int| !slot_live(eep@, i)),
            forall|q: int| 0 <= q < i ==> !#[trigger] pred(q),
        decreases MAX_FILES - i,
    {
        if FileRec::load(eep, i).addr == EMPTY_ADDR {
            proof {
                assert(pred(i as int));
                lemma_first_index_is(pred, 0, MAX_FILES as int, i as int);
            }
            return Some(i);
        }
        assert(!pred(i as int));
        i += 1;
    }
    proof {
        lemma_first_index_none(pred, 0, MAX_FILES as int);
    }
    None
}

/// Checks the invariant of the store on an image of the right size.
pub fn is_well_formed(eep: &Storage) -> (r: bool)
    requires
        eep@.len() == EEPROM_SIZE,
    ensures
        r == well_formed(eep@),
{
    let mut i: usize = 0;
    while i < MAX_FILES
        invariant
            i <= MAX_FILES,
            eep@.len() == EEPROM_SIZE,
            forall|a: int| 0 <= a < i && #[trigger] slot_live(eep@, a) ==> in_region(eep@, a),
            forall|a: int, b: int|
                0 <= a < i && 0 <= b < MAX_FILES && a != b && #[trigger] slot_live(eep@, a)
                    && #[trigger] slot_live(eep@, b) ==> apart(eep@, a, b),
        decreases MAX_FILES - i,
    {
        let r = FileRec::load(eep, i);
        if r.addr != EMPTY_ADDR {
            if r.addr < DATA_START || r.addr as u32 + r.len as u32 > EEPROM_SIZE as u32 {
                assert(slot_live(eep@, i as int) && !in_region(eep@, i as int));
                return false;
            }
            let mut j: usize = 0;
            while j < MAX_FILES
                invariant
                    j <= MAX_FILES,
                    i < MAX_FILES,
                    eep@.len() == EEPROM_SIZE,
                    r.is_slot(eep@, i as int),
                    slot_live(eep@, i as int),
                    in_region(eep@, i as int),
                    forall|b: int|
                        0 <= b < j && b != i && #[trigger] slot_live(eep@, b) ==> apart(
                            eep@,
                            i as int,
                            b,
                        ),
                decreases MAX_FILES - j,
            {
                if j != i {
                    let o = FileRec::load(eep, j);
                    if o.addr != EMPTY_ADDR {
                        let r_end: u32 = r.addr as u32 + r.len as u32;
                        let o_end: u32 = o.addr as u32 + o.len as u32;
                        if !(r_end <= o.addr as u32 || o_end <= r.addr as u32) {
                            assert(slot_live(eep@, j as int) && !apart(eep@, i as int, j as int));
                            return false;
                        }
                    }
                }
                j += 1;
            }
        }
        i += 1;
    }
    true
}

} // verus!
