//! The operations on files: create, read, size, remove, list.

use vstd::prelude::*;
use crate::placement::{find_data_place, first_fit, fits, lemma_first_fit};
use crate::record::{rec_bytes, slot_addr, slot_base, slot_len, slot_live, slot_name, splice, FileRec};
use crate::search::lemma_first_index;
use crate::storage::{Storage, DATA_START, EEPROM_SIZE, EMPTY_ADDR, MAX_FILES, MAX_NAME, REC_SIZE};
use crate::table::{
    apart, empty_rec, find_by_name, find_free_slot, find_name, free_slot, in_region, named,
    span_end, well_formed,
};

verus! {

/// Why a command was not carried out.
#[derive(Clone, Copy, Debug, PartialEq, Eq, Structural)]
pub enum FsError {
    /// A required argument is missing.
    Syntax,
    /// The first field names no command.
    UnknownCmd,
    /// The declared length is not a decimal number.
    BadLen,
    /// The payload does not have the declared length.
    DataShort,
    /// A live file already has the name.
    NameExists,
    /// Every directory slot is taken.
    NoSlot,
    /// No gap of the data region is large enough.
    NoDataSpace,
    /// No live file has the name.
    NoSuchFile,
}

/// The classes into which the reasons fall.
#[derive(Clone, Copy, Debug, PartialEq, Eq, Structural)]
pub enum ErrorKind {
    /// The command line is malformed or incomplete.
    Syntax,
    /// The name is absent.
    NotFound,
    /// The name is already in use.
    Conflict,
    /// The directory is full, or no gap of the data region is large enough.
    Capacity,
    /// The payload does not have the declared length.
    DataLength,
}

impl FsError {
    /// The class of this reason.
    pub open spec fn kind_of(self) -> ErrorKind {
        match self {
            FsError::Syntax | FsError::UnknownCmd | FsError::BadLen => ErrorKind::Syntax,
            FsError::DataShort => ErrorKind::DataLength,
            FsError::NameExists => ErrorKind::Conflict,
            FsError::NoSlot | FsError::NoDataSpace => ErrorKind::Capacity,
            FsError::NoSuchFile => ErrorKind::NotFound,
        }
    }

    /// The class of this reason.
    pub fn kind(self) -> (k: ErrorKind)
        ensures
            k == self.kind_of(),
    {
        match self {
            FsError::Syntax | FsError::UnknownCmd | FsError::BadLen => ErrorKind::Syntax,
            FsError::DataShort => ErrorKind::DataLength,
            FsError::NameExists => ErrorKind::Conflict,
            FsError::NoSlot | FsError::NoDataSpace => ErrorKind::Capacity,
            FsError::NoSuchFile => ErrorKind::NotFound,
        }
    }
}

/// The payload bytes of slot `i`.
pub open spec fn payload(img: Seq<u8>, i: int) -> Seq<u8> {
    img.subrange(slot_addr(img, i), span_end(img, i))
}

/// The content of the file called `name`, if there is one.
pub open spec fn file_data(img: Seq<u8>, name: Seq<u8>) -> Option<Seq<u8>> {
    match find_name(img, name) {
        Some(i) => Some(payload(img, i)),
        None => None,
    }
}

/// The length of the file called `name`, if there is one.
pub open spec fn file_size(img: Seq<u8>, name: Seq<u8>) -> Option<int> {
    match find_name(img, name) {
        Some(i) => Some(slot_len(img, i)),
        None => None,
    }
}

/// The image with slot `i` reset to the unused record. Payload bytes stay.
pub open spec fn removed(img: Seq<u8>, i: int) -> Seq<u8> {
    splice(img, slot_base(i), empty_rec())
}

/// The image after removing the file called `name`, if there is one.
pub open spec fn remove_result(img: Seq<u8>, name: Seq<u8>) -> Option<Seq<u8>> {
    match find_name(img, name) {
        Some(i) => Some(removed(img, i)),
        None => None,
    }
}

/// A name as its field holds it: cut after eight bytes, filled up with zero bytes.
pub open spec fn padded_name(name: Seq<u8>) -> Seq<u8> {
    Seq::new(
        MAX_NAME as nat,
        |k: int|
            if k < name.len() {
                name[k]
            } else {
                0u8
            },
    )
}

/// The image with `data` written at `place` and a record for it in `slot`.
pub open spec fn created(img: Seq<u8>, slot: int, place: int, name: Seq<u8>, data: Seq<u8>) -> Seq<
    u8,
> {
    splice(
        splice(img, place, data),
        slot_base(slot),
        rec_bytes(place, data.len() as int, padded_name(name)),
    )
}

/// What creating a file does: the new image, or the reason for refusing. The
/// reasons are tried in this order: payload length, name, slot, space.
pub open spec fn create_result(img: Seq<u8>, name: Seq<u8>, length: int, data: Seq<u8>) -> Result<
    Seq<u8>,
    FsError,
> {
    if data.len() != length {
        Err(FsError::DataShort)
    } else if find_name(img, name) is Some {
        Err(FsError::NameExists)
    } else {
        match free_slot(img) {
            None => Err(FsError::NoSlot),
            Some(slot) => match first_fit(img, length) {
                None => Err(FsError::NoDataSpace),
                Some(place) => Ok(created(img, slot, place, name, data)),
            },
        }
    }
}

/// The live slots below `n`, in slot order.
pub open spec fn live_below(img: Seq<u8>, n: int) -> Seq<int>
    decreases n,
{
    if n <= 0 {
        Seq::empty()
    } else if slot_live(img, n - 1) {
        live_below(img, n - 1).push(n - 1)
    } else {
        live_below(img, n - 1)
    }
}

/// The live slots, in slot order.
pub open spec fn live_slots(img: Seq<u8>) -> Seq<int> {
    live_below(img, MAX_FILES as int)
}

/// Writing a record into a slot leaves every other slot's fields as they were,
/// provided nothing else of the table is touched.
pub proof fn lemma_other_slots_kept(before: Seq<u8>, after: Seq<u8>, slot: int)
    requires
        before.len() == EEPROM_SIZE,
        after.len() == EEPROM_SIZE,
        0 <= slot < MAX_FILES,
        forall|k: int|
            0 <= k < DATA_START && !(slot_base(slot) <= k < slot_base(slot) + REC_SIZE)
                ==> after[k] == before[k],
    ensures
        forall|j: int|
            0 <= j < MAX_FILES && j != slot ==> {
                &&& slot_addr(after, j) == slot_addr(before, j)
                &&& slot_len(after, j) == slot_len(before, j)
                &&& slot_name(after, j) == slot_name(before, j)
                &&& #[trigger] slot_live(after, j) == slot_live(before, j)
            },
{
    assert forall|j: int| 0 <= j < MAX_FILES && j != slot implies {
        &&& slot_addr(after, j) == slot_addr(before, j)
        &&& slot_len(after, j) == slot_len(before, j)
        &&& slot_name(after, j) == slot_name(before, j)
        &&& #[trigger] slot_live(after, j) == slot_live(before, j)
    } by {
        assert(slot_name(after, j) =~= slot_name(before, j));
    }
}

/// Removing a file keeps the invariant of the store.
pub proof fn lemma_removed_well_formed(img: Seq<u8>, i: int)
    requires
        well_formed(img),
        0 <= i < MAX_FILES,
    ensures
        well_formed(removed(img, i)),
        !slot_live(removed(img, i), i),
        forall|j: int|
            0 <= j < MAX_FILES && j != i ==> {
                &&& slot_addr(removed(img, i), j) == slot_addr(img, j)
                &&& slot_len(removed(img, i), j) == slot_len(img, j)
                &&& slot_name(removed(img, i), j) == slot_name(img, j)
                &&& #[trigger] slot_live(removed(img, i), j) == slot_live(img, j)
            },
        forall|k: int| DATA_START <= k < EEPROM_SIZE ==> removed(img, i)[k] == img[k],
{
    let after = removed(img, i);
    lemma_other_slots_kept(img, after, i);
    assert(slot_addr(after, i) == EMPTY_ADDR);
    assert forall|a: int, b: int|
        0 <= a < MAX_FILES && 0 <= b < MAX_FILES && a != b && #[trigger] slot_live(after, a)
            && #[trigger] slot_live(after, b) implies apart(after, a, b) by {
        assert(slot_live(img, a) && slot_live(img, b));
        assert(apart(img, a, b));
    }
    assert forall|a: int| 0 <= a < MAX_FILES && #[trigger] slot_live(after, a) implies in_region(
        after,
        a,
    ) by {
        assert(slot_live(img, a));
        assert(in_region(img, a));
    }
}

/// A file created in a free slot at an offset that fits keeps the invariant of
/// the store, holds the payload it was given, and leaves the other files alone.
pub proof fn lemma_created_well_formed(
    img: Seq<u8>,
    slot: int,
    place: int,
    name: Seq<u8>,
    data: Seq<u8>,
)
    requires
        well_formed(img),
        0 <= slot < MAX_FILES,
        !slot_live(img, slot),
        data.len() <= 255,
        fits(img, data.len() as int, place),
    ensures
        well_formed(created(img, slot, place, name, data)),
        slot_live(created(img, slot, place, name, data), slot),
        slot_addr(created(img, slot, place, name, data), slot) == place,
        slot_len(created(img, slot, place, name, data), slot) == data.len(),
        slot_name(created(img, slot, place, name, data), slot) == padded_name(name),
        payload(created(img, slot, place, name, data), slot) == data,
        forall|j: int|
            0 <= j < MAX_FILES && j != slot ==> {
                &&& slot_addr(created(img, slot, place, name, data), j) == slot_addr(img, j)
                &&& slot_len(created(img, slot, place, name, data), j) == slot_len(img, j)
                &&& slot_name(created(img, slot, place, name, data), j) == slot_name(img, j)
                &&& #[trigger] slot_live(created(img, slot, place, name, data), j) == slot_live(
                    img,
                    j,
                )
            },
        forall|j: int|
            0 <= j < MAX_FILES && j != slot && #[trigger] slot_live(img, j) ==> payload(
                created(img, slot, place, name, data),
                j,
            ) == payload(img, j),
{
    let after = created(img, slot, place, name, data);
    let rec = rec_bytes(place, data.len() as int, padded_name(name));
    lemma_other_slots_kept(img, after, slot);
    assert(after[slot_base(slot)] == rec[0]);
    assert(after[slot_base(slot) + 1] == rec[1]);
    assert(after[slot_base(slot) + 2] == rec[2]);
    assert(slot_addr(after, slot) == place);
    assert(slot_name(after, slot) =~= padded_name(name));
    assert(payload(after, slot) =~= data);
    assert forall|j: int|
        0 <= j < MAX_FILES && j != slot && #[trigger] slot_live(img, j) implies payload(after, j)
            == payload(img, j) by {
        assert(in_region(img, j));
        assert(payload(after, j) =~= payload(img, j));
    }
    assert forall|a: int, b: int|
        0 <= a < MAX_FILES && 0 <= b < MAX_FILES && a != b && #[trigger] slot_live(after, a)
            && #[trigger] slot_live(after, b) implies apart(after, a, b) by {
        if a == slot {
            assert(slot_live(img, b));
        } else if b == slot {
            assert(slot_live(img, a));
        } else {
            assert(slot_live(img, a) && slot_live(img, b));
            assert(apart(img, a, b));
        }
    }
    assert forall|a: int| 0 <= a < MAX_FILES && #[trigger] slot_live(after, a) implies in_region(
        after,
        a,
    ) by {
        if a != slot {
            assert(slot_live(img, a));
            assert(in_region(img, a));
        }
    }
}

/// Creates a file called `name` with the payload `data`, declared to be
/// `length` bytes long. The payload goes to the offset that first fit chooses,
/// the record to the first free slot. A name longer than eight bytes is cut.
/// On refusal nothing is written.
pub fn cmd_create(eep: &mut Storage, name: &[u8], length: u8, data: &[u8]) -> (r: Result<
    (),
    FsError,
>)
    requires
        well_formed(old(eep)@),
    ensures
        match create_result(old(eep)@, name@, length as int, data@) {
            Ok(img) => r is Ok && final(eep)@ == img,
            Err(e) => r == Err::<(), FsError>(e) && final(eep)@ == old(eep)@,
        },
        well_formed(final(eep)@),
{
    if data.len() != length as usize {
        return Err(FsError::DataShort);
    }
    if find_by_name(eep, name).is_some() {
        return Err(FsError::NameExists);
    }
    let slot = match find_free_slot(eep) {
        Some(slot) => slot,
        None => {
            return Err(FsError::NoSlot);
        },
    };
    let place = match find_data_place(eep, length) {
        Some(place) => place,
        None => {
            return Err(FsError::NoDataSpace);
        },
    };
    proof {
        lemma_first_fit(eep@, length as int);
        lemma_first_index(|i: int| !slot_live(eep@, i), 0, MAX_FILES as int);
        lemma_created_well_formed(old(eep)@, slot as int, place as int, name@, data@);
    }
    let mut i: usize = 0;
    while i < data.len()
        invariant
            i <= data@.len(),
            data@.len() == length,
            DATA_START <= place,
            place + length <= EEPROM_SIZE,
            eep@.len() == EEPROM_SIZE,
            old(eep)@.len() == EEPROM_SIZE,
            forall|k: int| place <= k < place + i ==> eep@[k] == data@[k - place],
            forall|k: int|
                0 <= k < EEPROM_SIZE && !(place <= k < place + i) ==> eep@[k] == old(eep)@[k],
        decreases data@.len() - i,
    {
        eep.write_byte(place + i as u16, data[i]);
        i += 1;
    }
    assert(eep@ =~= splice(old(eep)@, place as int, data@));
    let mut rec = FileRec { addr: place, len: length, name: [0u8; 8] };
    let m: usize = if name.len() < MAX_NAME {
        name.len()
    } else {
        MAX_NAME
    };
    let mut k: usize = 0;
    while k < m
        invariant
            k <= m,
            m <= MAX_NAME,
            m <= name@.len(),
            rec.addr == place,
            rec.len == length,
            forall|j: int| 0 <= j < k ==> rec.name@[j] == name@[j],
            forall|j: int| k <= j < MAX_NAME ==> rec.name@[j] == 0,
        decreases m - k,
    {
        rec.name[k] = name[k];
        k += 1;
    }
    assert(rec.name@ =~= padded_name(name@));
    rec.store(eep, slot);
    Ok(())
}

/// Removes the file called `name`: its slot is reset to the unused record. The
/// payload bytes are left as they are.
pub fn cmd_remove(eep: &mut Storage, name: &[u8]) -> (r: Result<(), FsError>)
    requires
        old(eep)@.len() == EEPROM_SIZE,
    ensures
        match remove_result(old(eep)@, name@) {
            Some(img) => r is Ok && final(eep)@ == img,
            None => r == Err::<(), FsError>(FsError::NoSuchFile) && final(eep)@ == old(eep)@,
        },
        well_formed(old(eep)@) ==> well_formed(final(eep)@),
{
    match find_by_name(eep, name) {
        Some(idx) => {
            let mut r = FileRec::load(eep, idx);
            r.addr = EMPTY_ADDR;
            r.len = 0;
            r.name = [0u8; 8];
            assert(r.bytes() =~= empty_rec());
            r.store(eep, idx);
            proof {
                if well_formed(old(eep)@) {
                    lemma_removed_well_formed(old(eep)@, idx as int);
                }
            }
            Ok(())
        },
        None => Err(FsError::NoSuchFile),
    }
}

/// The payload of the file called `name`, in address order.
pub fn cmd_read(eep: &Storage, name: &[u8]) -> (r: Result<Vec<u8>, FsError>)
    requires
        well_formed(eep@),
    ensures
        match file_data(eep@, name@) {
            Some(d) => r matches Ok(v) && v@ == d,
            None => r matches Err(e) && e == FsError::NoSuchFile,
        },
{
    match find_by_name(eep, name) {
        Some(idx) => {
            let r = FileRec::load(eep, idx);
            proof {
                lemma_first_index(|i: int| named(eep@, i, name@), 0, MAX_FILES as int);
                assert(slot_live(eep@, idx as int));
                assert(in_region(eep@, idx as int));
            }
            let mut out: Vec<u8> = Vec::new();
            let mut off: u8 = 0;
            while off < r.len
                invariant
                    off <= r.len,
                    eep@.len() == EEPROM_SIZE,
                    r.addr + r.len <= EEPROM_SIZE,
                    out@.len() == off,
                    forall|k: int| 0 <= k < off ==> out@[k] == eep@[r.addr + k],
                decreases r.len - off,
            {
                let b = eep.read_byte(r.addr + off as u16);
                out.push(b);
                off += 1;
            }
            assert(out@ =~= payload(eep@, idx as int));
            Ok(out)
        },
        None => Err(FsError::NoSuchFile),
    }
}

/// The length of the file called `name`.
pub fn cmd_size(eep: &Storage, name: &[u8]) -> (r: Result<u8, FsError>)
    requires
        eep@.len() == EEPROM_SIZE,
    ensures
        match file_size(eep@, name@) {
            Some(n) => r matches Ok(v) && v == n,
            None => r matches Err(e) && e == FsError::NoSuchFile,
        },
{
    match find_by_name(eep, name) {
        Some(idx) => {
            let r = FileRec::load(eep, idx);
            Ok(r.len)
        },
        None => Err(FsError::NoSuchFile),
    }
}

/// The records of the live slots, in slot order.
pub fn cmd_list(eep: &Storage) -> (r: Vec<FileRec>)
    requires
        eep@.len() == EEPROM_SIZE,
    ensures
        r@.len() == live_slots(eep@).len(),
        forall|k: int| 0 <= k < r@.len() ==> (#[trigger] r@[k]).is_slot(eep@, live_slots(eep@)[k]),
{
    let mut out: Vec<FileRec> = Vec::new();
    let mut i: usize = 0;
    while i < MAX_FILES
        invariant
            i <= MAX_FILES,
            eep@.len() == EEPROM_SIZE,
            out@.len() == live_below(eep@, i as int).len(),
            forall|k: int|
                0 <= k < out@.len() ==> (#[trigger] out@[k]).is_slot(
                    eep@,
                    live_below(eep@, i as int)[k],
                ),
        decreases MAX_FILES - i,
    {
        let r = FileRec::load(eep, i);
        if r.addr != EMPTY_ADDR {
            out.push(r);
        }
        i += 1;
    }
    out
}

} // verus!
