//! What holds of the store as a whole: laws that relate several operations.

use vstd::prelude::*;
use crate::command::{
    error_text, next_field, one_line, outcome, parse, run, without_spaces, Request, LINE_MAX,
    SPACE,
};
use crate::defrag::{defragmented, lemma_defrag_idempotent, lemma_defragmented, lemma_live_below};
use crate::files::{
    create_result, file_data, file_size, lemma_created_well_formed, lemma_other_slots_kept,
    lemma_removed_well_formed, live_slots, padded_name, remove_result, FsError,
};
use crate::placement::{first_fit, lemma_first_fit};
use crate::record::{slot_addr, slot_base, slot_live, FileRec};
use crate::search::{lemma_first_index, lemma_first_index_is, lemma_first_index_none};
use crate::storage::{EEPROM_SIZE, EMPTY_ADDR, MAX_FILES, MAX_NAME, REC_SIZE};
use crate::text::ascii;
use crate::table::{
    empty_rec, find_name, formatted, free_slot, lemma_name_len, logical_name, name_ends_at,
    name_len, named, well_formed,
};

verus! {

/// A name that comes back as it was given: at most eight bytes, none of them zero.
pub open spec fn plain_name(name: Seq<u8>) -> bool {
    &&& name.len() <= MAX_NAME
    &&& forall|k: int| 0 <= k < name.len() ==> name[k] != 0
}

/// The image after a run of input lines, each carried out in turn.
pub open spec fn replay(img: Seq<u8>, lines: Seq<Seq<u8>>) -> Seq<u8>
    decreases lines.len(),
{
    if lines.len() == 0 {
        img
    } else {
        outcome(replay(img, lines.drop_last()), lines.last()).0
    }
}

/// An erased memory, every byte `0xFF`, is a well-formed store without files.
pub proof fn law_erased_is_empty(img: Seq<u8>)
    requires
        img.len() == EEPROM_SIZE,
        forall|k: int| 0 <= k < EEPROM_SIZE ==> img[k] == 0xFF,
    ensures
        well_formed(img),
        forall|i: int| 0 <= i < MAX_FILES ==> !#[trigger] slot_live(img, i),
{
    assert forall|i: int| 0 <= i < MAX_FILES implies !#[trigger] slot_live(img, i) by {
        assert(img[slot_base(i)] == 0xFF && img[slot_base(i) + 1] == 0xFF);
    }
}

/// A formatted table is well formed and holds no file, whatever it held before.
pub proof fn law_formatted_is_empty(img: Seq<u8>, name: Seq<u8>)
    requires
        img.len() == EEPROM_SIZE,
    ensures
        well_formed(formatted(img)),
        forall|i: int| 0 <= i < MAX_FILES ==> !#[trigger] slot_live(formatted(img), i),
        find_name(formatted(img), name) is None,
        free_slot(formatted(img)) == Some(0int),
{
    let out = formatted(img);
    assert forall|i: int| 0 <= i < MAX_FILES implies !#[trigger] slot_live(out, i) by {
        assert(slot_base(i) % (REC_SIZE as int) == 0);
        assert((slot_base(i) + 1) % (REC_SIZE as int) == 1);
        assert(empty_rec()[0] == 255u8 && empty_rec()[1] == 255u8);
    }
    let is_named = |i: int| named(out, i, name);
    assert forall|i: int| 0 <= i < MAX_FILES implies !#[trigger] is_named(i) by {
        assert(!slot_live(out, i));
    }
    lemma_first_index_none(is_named, 0, MAX_FILES as int);
    let is_free = |i: int| !slot_live(out, i);
    assert(is_free(0)) by {
        assert(!slot_live(out, 0));
    }
    lemma_first_index_is(is_free, 0, MAX_FILES as int, 0);
}

/// A payload never overlaps another: every command leaves a well-formed store
/// well formed.
pub proof fn law_commands_keep_well_formed(img: Seq<u8>, line: Seq<u8>)
    requires
        well_formed(img),
        line.len() <= LINE_MAX,
    ensures
        well_formed(outcome(img, line).0),
{
    match parse(line) {
        Ok(req) => match req {
            Request::Format => {
                law_formatted_is_empty(img, Seq::empty());
            },
            Request::List => {},
            Request::Defrag => {
                lemma_defragmented(img);
            },
            Request::Remove { name } => {
                lemma_first_index(|i: int| named(img, i, name), 0, MAX_FILES as int);
                if let Some(i) = find_name(img, name) {
                    lemma_removed_well_formed(img, i);
                }
            },
            Request::Read { name } => {},
            Request::Size { name } => {},
            Request::Create { name, length, data } => {
                if create_result(img, name, length as int, data) is Ok {
                    lemma_gathered_is_short(line);
                    law_create_keeps_well_formed(img, name, length as int, data);
                }
            },
        },
        Err(e) => {},
    }
}

/// Creating a file leaves a well-formed store well formed.
pub proof fn law_create_keeps_well_formed(img: Seq<u8>, name: Seq<u8>, length: int, data: Seq<u8>)
    requires
        well_formed(img),
        length <= u8::MAX,
    ensures
        create_result(img, name, length, data) matches Ok(after) ==> well_formed(after),
{
    if let Ok(after) = create_result(img, name, length, data) {
        let slot = free_slot(img)->Some_0;
        let place = first_fit(img, length)->Some_0;
        lemma_first_index(|i: int| !slot_live(img, i), 0, MAX_FILES as int);
        lemma_first_fit(img, length);
        lemma_created_well_formed(img, slot, place, name, data);
    }
}

/// Leaving the spaces out makes a run of bytes no longer.
proof fn lemma_without_spaces_len(s: Seq<u8>)
    ensures
        without_spaces(s).len() <= s.len(),
    decreases s.len(),
{
    if s.len() > 0 {
        lemma_without_spaces_len(s.drop_last());
    }
}

/// The payload that a `create` line carries is shorter than the line.
proof fn lemma_gathered_is_short(line: Seq<u8>)
    ensures
        parse(line) matches Ok(Request::Create { data, .. }) ==> data.len() <= line.len(),
{
    if parse(line) is Ok && parse(line)->Ok_0 is Create {
        let name_at = next_field(line, 0)->Some_0;
        let len_at = next_field(line, name_at)->Some_0;
        lemma_first_index(|k: int| line[k] == SPACE, 0, line.len() as int);
        lemma_first_index(|k: int| line[k] == SPACE, name_at, line.len() as int);
        lemma_first_index(|k: int| line[k] == SPACE, len_at, line.len() as int);
        if let Some(start) = next_field(line, len_at) {
            lemma_without_spaces_len(line.subrange(start, line.len() as int));
        }
    }
}

/// After any run of commands on a well-formed store, no two live payloads
/// overlap and each lies inside the data region. Each line is one that the
/// line buffer can hold.
pub proof fn law_never_overlap(img: Seq<u8>, lines: Seq<Seq<u8>>)
    requires
        well_formed(img),
        forall|k: int| 0 <= k < lines.len() ==> (#[trigger] lines[k]).len() <= LINE_MAX,
    ensures
        well_formed(replay(img, lines)),
    decreases lines.len(),
{
    if lines.len() > 0 {
        law_never_overlap(img, lines.drop_last());
        law_commands_keep_well_formed(replay(img, lines.drop_last()), lines.last());
    }
}

/// The field that holds a plain name stands for that name.
pub proof fn law_plain_name_round_trip(name: Seq<u8>)
    requires
        plain_name(name),
    ensures
        logical_name(padded_name(name)) == name,
{
    let field = padded_name(name);
    lemma_name_len(field, name.len() as int);
    assert(logical_name(field) =~= name);
}

/// A file that was just created reads back exactly the bytes it was given,
/// provided its name is plain. Commands that only look at the store, such as
/// `list` and `size`, leave it as it is, so they may come in between.
pub proof fn law_read_after_create(
    img: Seq<u8>,
    name: Seq<u8>,
    length: int,
    data: Seq<u8>,
    after: Seq<u8>,
)
    requires
        well_formed(img),
        plain_name(name),
        length <= u8::MAX,
        create_result(img, name, length, data) == Ok::<Seq<u8>, FsError>(after),
    ensures
        file_data(after, name) == Some(data),
        file_size(after, name) == Some(length),
        run(after, Request::Read { name }) == (after, one_line(data)),
        run(after, Request::List).0 == after,
        forall|other: Seq<u8>| (#[trigger] run(after, Request::Size { name: other })).0 == after,
        forall|other: Seq<u8>| (#[trigger] run(after, Request::Read { name: other })).0 == after,
{
    let slot = free_slot(img)->Some_0;
    let place = first_fit(img, length)->Some_0;
    lemma_first_index(|i: int| !slot_live(img, i), 0, MAX_FILES as int);
    lemma_first_index(|i: int| named(img, i, name), 0, MAX_FILES as int);
    lemma_first_fit(img, length);
    lemma_created_well_formed(img, slot, place, name, data);
    law_plain_name_round_trip(name);
    let was_named = |i: int| named(img, i, name);
    let is_named = |i: int| named(after, i, name);
    assert forall|q: int| 0 <= q < slot implies !#[trigger] is_named(q) by {
        assert(!was_named(q));
        assert(slot_live(after, q) == slot_live(img, q));
    }
    assert(is_named(slot));
    lemma_first_index_is(is_named, 0, MAX_FILES as int, slot);
}

/// After a file is removed its name is no longer found, provided no other live
/// file had the same name; and the slot it had is free again, so that the
/// first free slot is that one or a lower one and the next file to be created
/// can take it.
pub proof fn law_find_after_remove(img: Seq<u8>, name: Seq<u8>, slot: int, after: Seq<u8>)
    requires
        img.len() == EEPROM_SIZE,
        find_name(img, name) == Some(slot),
        remove_result(img, name) == Some(after),
        forall|j: int| 0 <= j < MAX_FILES && j != slot ==> !#[trigger] named(img, j, name),
    ensures
        find_name(after, name) is None,
        run(after, Request::Read { name }) == (after, one_line(error_text(FsError::NoSuchFile))),
        !slot_live(after, slot),
        free_slot(after) matches Some(k) && k <= slot,
{
    lemma_first_index(|i: int| named(img, i, name), 0, MAX_FILES as int);
    lemma_other_slots_kept(img, after, slot);
    assert(slot_addr(after, slot) == EMPTY_ADDR);
    let is_named = |j: int| named(after, j, name);
    assert forall|j: int| 0 <= j < MAX_FILES implies !#[trigger] is_named(j) by {
        if j != slot {
            assert(!named(img, j, name));
            assert(slot_live(after, j) == slot_live(img, j));
        }
    }
    lemma_first_index_none(is_named, 0, MAX_FILES as int);
    let is_free = |j: int| !slot_live(after, j);
    assert(is_free(slot));
    lemma_first_index(is_free, 0, MAX_FILES as int);
}

/// With every slot taken, creating a file whose payload has the declared
/// length and whose name is not in use is refused for want of a slot, and the
/// store stays as it is.
pub proof fn law_full_table_refuses(img: Seq<u8>, name: Seq<u8>, length: nat, data: Seq<u8>)
    requires
        forall|i: int| 0 <= i < MAX_FILES ==> #[trigger] slot_live(img, i),
        data.len() == length,
        find_name(img, name) is None,
    ensures
        create_result(img, name, length as int, data) == Err::<Seq<u8>, FsError>(FsError::NoSlot),
        run(img, Request::Create { name, length, data }) == (
            img,
            one_line(error_text(FsError::NoSlot)),
        ),
{
    let is_free = |i: int| !slot_live(img, i);
    assert forall|i: int| 0 <= i < MAX_FILES implies !#[trigger] is_free(i) by {
        assert(slot_live(img, i));
    }
    lemma_first_index_none(is_free, 0, MAX_FILES as int);
}

/// A name that no live file has is reported as missing by `read`, `size` and
/// `remove` alike, and none of them changes the store.
pub proof fn law_absent_name(img: Seq<u8>, name: Seq<u8>)
    requires
        forall|i: int| 0 <= i < MAX_FILES ==> !#[trigger] named(img, i, name),
    ensures
        find_name(img, name) is None,
        run(img, Request::Read { name }) == (img, one_line(error_text(FsError::NoSuchFile))),
        run(img, Request::Size { name }) == (img, one_line(error_text(FsError::NoSuchFile))),
        run(img, Request::Remove { name }) == (img, one_line(error_text(FsError::NoSuchFile))),
{
    let is_named = |i: int| named(img, i, name);
    assert forall|i: int| 0 <= i < MAX_FILES implies !#[trigger] is_named(i) by {
        assert(!named(img, i, name));
    }
    lemma_first_index_none(is_named, 0, MAX_FILES as int);
}

/// A command that is answered with an error leaves the store as it was.
pub proof fn law_errors_change_nothing(img: Seq<u8>, line: Seq<u8>, e: FsError)
    requires
        outcome(img, line).1 == one_line(error_text(e)),
    ensures
        outcome(img, line).0 == img,
{
    reveal_strlit("ERR syntax");
    reveal_strlit("ERR unknown cmd");
    reveal_strlit("ERR bad len");
    reveal_strlit("ERR data short");
    reveal_strlit("ERR name exists");
    reveal_strlit("ERR no slot");
    reveal_strlit("ERR no data space");
    reveal_strlit("ERR no such file");
    reveal_strlit("OK format");
    reveal_strlit("OK defrag");
    reveal_strlit("OK remove");
    reveal_strlit("OK create");
    let said = one_line(error_text(e));
    assert(said[0] == 69u8);
    assert(one_line(ascii("OK format"@))[0] == 79u8);
    assert(one_line(ascii("OK defrag"@))[0] == 79u8);
    assert(one_line(ascii("OK remove"@))[0] == 79u8);
    assert(one_line(ascii("OK create"@))[0] == 79u8);
}

/// Compaction keeps every file: each name reads back the same payload and the
/// same length as before.
pub proof fn law_defrag_keeps_files(img: Seq<u8>, name: Seq<u8>)
    requires
        well_formed(img),
    ensures
        file_data(defragmented(img), name) == file_data(img, name),
        file_size(defragmented(img), name) == file_size(img, name),
{
    let out = defragmented(img);
    let live = live_slots(img);
    let m = live.len() as int;
    lemma_defragmented(img);
    lemma_live_below(img, MAX_FILES as int);
    let was_named = |i: int| named(img, i, name);
    let is_named = |i: int| named(out, i, name);
    lemma_first_index(was_named, 0, MAX_FILES as int);
    assert forall|j: int| 0 <= j < m implies is_named(j) == was_named(live[j]) by {
        assert(slot_live(out, j));
        assert(slot_live(img, live[j]));
    }
    match find_name(img, name) {
        Some(i) => {
            assert(was_named(i));
            assert(slot_live(img, i));
            assert(live.contains(i));
            let k = choose|k: int| 0 <= k < m && live[k] == i;
            assert forall|q: int| 0 <= q < k implies !#[trigger] is_named(q) by {
                assert(live[q] < live[k]);
                assert(!was_named(live[q]));
                assert(is_named(q) == was_named(live[q]));
            }
            assert(is_named(k) == was_named(live[k]));
            lemma_first_index_is(is_named, 0, MAX_FILES as int, k);
            assert(slot_live(out, k));
        },
        None => {
            assert forall|q: int| 0 <= q < MAX_FILES implies !#[trigger] is_named(q) by {
                if q < m {
                    assert(!was_named(live[q]));
                    assert(is_named(q) == was_named(live[q]));
                } else {
                    assert(!slot_live(out, q));
                }
            }
            lemma_first_index_none(is_named, 0, MAX_FILES as int);
        },
    }
}

/// Running compaction twice in a row gives the image that running it once gives.
pub proof fn law_defrag_idempotent(img: Seq<u8>)
    requires
        well_formed(img),
    ensures
        defragmented(defragmented(img)) == defragmented(img),
        run(run(img, Request::Defrag).0, Request::Defrag).0 == run(img, Request::Defrag).0,
{
    lemma_defrag_idempotent(img);
}

/// The name that a field stands for ends at the field's first zero byte, or at
/// the end of the field where it has none.
pub proof fn law_name_ends_at_first_zero(field: Seq<u8>)
    ensures
        name_ends_at(field, name_len(field)),
    decreases field.len(),
{
    if field.len() == 0 || field[0] == 0 {
    } else {
        let rest = field.skip(1);
        law_name_ends_at_first_zero(rest);
        let k = name_len(rest);
        assert forall|j: int| 0 <= j < k + 1 implies field[j] != 0 by {
            if j > 0 {
                assert(rest[j - 1] == field[j]);
            }
        }
        if k < rest.len() {
            assert(rest[k] == field[k + 1]);
        }
    }
}

/// The bytes of a record tell all of it: records with the same bytes have the
/// same address, length and name.
pub proof fn law_bytes_tell_the_record(a: FileRec, b: FileRec)
    requires
        a.bytes() == b.bytes(),
    ensures
        a == b,
{
    let head_a = seq![(a.addr as int % 256) as u8, (a.addr as int / 256) as u8, a.len];
    let head_b = seq![(b.addr as int % 256) as u8, (b.addr as int / 256) as u8, b.len];
    assert(a.bytes() =~= head_a + a.name@);
    assert(b.bytes() =~= head_b + b.name@);
    assert(a.bytes()[0] == head_a[0] && b.bytes()[0] == head_b[0]);
    assert(a.bytes()[1] == head_a[1] && b.bytes()[1] == head_b[1]);
    assert(a.bytes()[2] == head_a[2] && b.bytes()[2] == head_b[2]);
    assert(a.addr % 256 == b.addr % 256 && a.addr / 256 == b.addr / 256);
    assert forall|k: int| 0 <= k < MAX_NAME implies a.name@[k] == b.name@[k] by {
        assert(a.bytes()[3 + k] == a.name@[k]);
        assert(b.bytes()[3 + k] == b.name@[k]);
    }
    assert(a.name =~= b.name);
}

} // verus!
