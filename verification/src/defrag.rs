//! Compaction: the live payloads are moved together at the start of the data
//! region, in slot order, and their records move to the lowest slots.

use vstd::prelude::*;
use crate::bounded::{rec_items, recs_new, recs_push, recs_slice};
use crate::files::{live_below, live_slots, payload};
use crate::record::{rec_bytes, slot_addr, slot_base, slot_len, slot_live, slot_name, splice, FileRec};
use crate::storage::{Storage, DATA_START, EEPROM_SIZE, EMPTY_ADDR, MAX_FILES, MAX_NAME, REC_SIZE};
use crate::table::{apart, cmd_format, empty_rec, formatted, in_region, span_end, well_formed};

verus! {

/// Total payload length of the first `k` slots that `slots` lists.
pub open spec fn listed_len(img: Seq<u8>, slots: Seq<int>, k: int) -> int
    decreases k,
{
    if k <= 0 {
        0
    } else {
        listed_len(img, slots, k - 1) + slot_len(img, slots[k - 1])
    }
}

/// Offset at which the `k`-th live file lies after compaction: the start of the
/// data region plus the lengths of the live files in lower slots.
pub open spec fn packed_addr(img: Seq<u8>, k: int) -> int {
    DATA_START + listed_len(img, live_slots(img), k)
}

/// `out` with the `k`-th live file of `src` put in its place after compaction:
/// payload at `packed_addr`, record in slot `k`, name and length as before.
pub open spec fn place_file(out: Seq<u8>, src: Seq<u8>, k: int) -> Seq<u8> {
    let from = live_slots(src)[k];
    splice(
        splice(out, packed_addr(src, k), payload(src, from)),
        slot_base(k),
        rec_bytes(packed_addr(src, k), slot_len(src, from), slot_name(src, from)),
    )
}

/// The formatted image with the first `k` live files of `src` put in place.
pub open spec fn packed(src: Seq<u8>, k: int) -> Seq<u8>
    decreases k,
{
    if k <= 0 {
        formatted(src)
    } else {
        place_file(packed(src, k - 1), src, k - 1)
    }
}

/// The image after compaction.
pub open spec fn defragmented(src: Seq<u8>) -> Seq<u8> {
    packed(src, live_slots(src).len() as int)
}

/// The slots that `live_below` lists are live, lie below `n`, and rise.
pub proof fn lemma_live_below(img: Seq<u8>, n: int)
    requires
        0 <= n,
    ensures
        live_below(img, n).len() <= n,
        forall|k: int|
            0 <= k < live_below(img, n).len() ==> 0 <= #[trigger] live_below(img, n)[k] < n
                && slot_live(img, live_below(img, n)[k]),
        forall|a: int, b: int|
            0 <= a < b < live_below(img, n).len() ==> #[trigger] live_below(img, n)[a]
                < #[trigger] live_below(img, n)[b],
        forall|i: int|
            0 <= i < n && #[trigger] slot_live(img, i) ==> live_below(img, n).contains(i),
    decreases n,
{
    if n > 0 {
        lemma_live_below(img, n - 1);
        let prev = live_below(img, n - 1);
        let cur = live_below(img, n);
        assert forall|i: int| 0 <= i < n && #[trigger] slot_live(img, i) implies cur.contains(
            i,
        ) by {
            if i < n - 1 {
                assert(prev.contains(i));
                let t = choose|t: int| 0 <= t < prev.len() && prev[t] == i;
                assert(cur[t] == i);
            } else {
                assert(cur[cur.len() - 1] == i);
            }
        }
    }
}

/// Part of the payload of slot `i` that lies below offset `x`, in bytes.
spec fn clip(img: Seq<u8>, i: int, x: int) -> int {
    if !slot_live(img, i) || x <= slot_addr(img, i) {
        0
    } else if x >= span_end(img, i) {
        slot_len(img, i)
    } else {
        x - slot_addr(img, i)
    }
}

/// Payload bytes of the slots below `n` that lie below offset `x`.
spec fn covered(img: Seq<u8>, n: int, x: int) -> int
    decreases n,
{
    if n <= 0 {
        0
    } else {
        covered(img, n - 1, x) + clip(img, n - 1, x)
    }
}

/// Total payload length of the live slots below `n`.
spec fn used_below(img: Seq<u8>, n: int) -> int
    decreases n,
{
    if n <= 0 {
        0
    } else if slot_live(img, n - 1) {
        used_below(img, n - 1) + slot_len(img, n - 1)
    } else {
        used_below(img, n - 1)
    }
}

spec fn holds(img: Seq<u8>, i: int, x: int) -> bool {
    slot_live(img, i) && slot_addr(img, i) <= x < span_end(img, i)
}

proof fn lemma_covered_step(img: Seq<u8>, n: int, x: int)
    requires
        well_formed(img),
        0 <= n <= MAX_FILES,
    ensures
        covered(img, n, x + 1) - covered(img, n, x) == 0 || covered(img, n, x + 1) - covered(
            img,
            n,
            x,
        ) == 1,
        covered(img, n, x + 1) - covered(img, n, x) == 1 ==> exists|i: int|
            0 <= i < n && holds(img, i, x),
    decreases n,
{
    if n > 0 {
        lemma_covered_step(img, n - 1, x);
        if holds(img, n - 1, x) {
            if covered(img, n - 1, x + 1) - covered(img, n - 1, x) == 1 {
                let i = choose|i: int| 0 <= i < n - 1 && holds(img, i, x);
                assert(slot_live(img, i) && slot_live(img, n - 1));
                assert(apart(img, i, n - 1));
            }
            assert(holds(img, n - 1, x));
        } else {
            if covered(img, n - 1, x + 1) - covered(img, n - 1, x) == 1 {
                let i = choose|i: int| 0 <= i < n - 1 && holds(img, i, x);
                assert(holds(img, i, x));
            }
        }
    }
}

proof fn lemma_covered_bound(img: Seq<u8>, n: int, x: int)
    requires
        well_formed(img),
        0 <= n <= MAX_FILES,
        DATA_START <= x,
    ensures
        covered(img, n, x) <= x - DATA_START,
    decreases x - DATA_START, n,
{
    if x == DATA_START {
        if n > 0 {
            lemma_covered_bound(img, n - 1, x);
            if slot_live(img, n - 1) {
                assert(in_region(img, n - 1));
            }
        }
    } else {
        lemma_covered_bound(img, n, x - 1);
        lemma_covered_step(img, n, x - 1);
    }
}

proof fn lemma_covered_total(img: Seq<u8>, n: int)
    requires
        well_formed(img),
        0 <= n <= MAX_FILES,
    ensures
        covered(img, n, EEPROM_SIZE as int) == used_below(img, n),
    decreases n,
{
    if n > 0 {
        lemma_covered_total(img, n - 1);
        if slot_live(img, n - 1) {
            assert(in_region(img, n - 1));
        }
    }
}

proof fn lemma_listed_len_prefix(img: Seq<u8>, a: Seq<int>, b: Seq<int>, k: int)
    requires
        0 <= k <= a.len() <= b.len(),
        forall|t: int| 0 <= t < a.len() ==> a[t] == b[t],
    ensures
        listed_len(img, a, k) == listed_len(img, b, k),
    decreases k,
{
    if k > 0 {
        lemma_listed_len_prefix(img, a, b, k - 1);
    }
}

proof fn lemma_listed_len_is_used(img: Seq<u8>, n: int)
    requires
        0 <= n,
    ensures
        listed_len(img, live_below(img, n), live_below(img, n).len() as int) == used_below(img, n),
    decreases n,
{
    if n > 0 {
        lemma_listed_len_is_used(img, n - 1);
        let prev = live_below(img, n - 1);
        let cur = live_below(img, n);
        if slot_live(img, n - 1) {
            lemma_listed_len_prefix(img, prev, cur, prev.len() as int);
        }
    }
}

proof fn lemma_listed_len_rises(img: Seq<u8>, slots: Seq<int>, a: int, b: int)
    requires
        0 <= a <= b,
    ensures
        0 <= listed_len(img, slots, a) <= listed_len(img, slots, b),
    decreases b,
{
    if a < b {
        lemma_listed_len_rises(img, slots, a, b - 1);
    } else if a > 0 {
        lemma_listed_len_rises(img, slots, a - 1, a - 1);
    }
}

/// The live payloads together are no longer than the data region, so after
/// compaction every file still lies inside it.
pub proof fn lemma_packed_in_region(img: Seq<u8>, k: int)
    requires
        well_formed(img),
        0 <= k <= live_slots(img).len(),
    ensures
        DATA_START <= packed_addr(img, k) <= EEPROM_SIZE,
        k > 0 ==> packed_addr(img, k) == packed_addr(img, k - 1) + slot_len(
            img,
            live_slots(img)[k - 1],
        ),
{
    let n = MAX_FILES as int;
    lemma_covered_bound(img, n, EEPROM_SIZE as int);
    lemma_covered_total(img, n);
    lemma_listed_len_is_used(img, n);
    lemma_listed_len_rises(img, live_slots(img), k, live_slots(img).len() as int);
}

/// The bytes of slot `j` in the table.
spec fn slot_bytes(img: Seq<u8>, j: int) -> Seq<u8> {
    img.subrange(slot_base(j), slot_base(j) + REC_SIZE)
}

/// The bytes that lie where the `j`-th live file of `src` goes on compaction.
spec fn packed_payload(src: Seq<u8>, img: Seq<u8>, j: int) -> Seq<u8> {
    img.subrange(packed_addr(src, j), packed_addr(src, j) + slot_len(src, live_slots(src)[j]))
}

/// `img` holds the first `k` live files of `src` in compacted form: slot `j`
/// below `k` holds the record of the `j`-th live file with its new address, the
/// slots from `k` on are unused, the payloads of those files lie back to back
/// from the start of the data region, and the bytes behind them are those of `src`.
spec fn compacted(src: Seq<u8>, img: Seq<u8>, k: int) -> bool {
    &&& img.len() == EEPROM_SIZE
    &&& forall|j: int|
        0 <= j < k ==> #[trigger] slot_bytes(img, j) == rec_bytes(
            packed_addr(src, j),
            slot_len(src, live_slots(src)[j]),
            slot_name(src, live_slots(src)[j]),
        )
    &&& forall|j: int| k <= j < MAX_FILES ==> #[trigger] slot_bytes(img, j) == empty_rec()
    &&& forall|j: int|
        0 <= j < k ==> #[trigger] packed_payload(src, img, j) == payload(src, live_slots(src)[j])
    &&& forall|p: int| packed_addr(src, k) <= p < EEPROM_SIZE ==> img[p] == src[p]
}

proof fn lemma_packed_addr_rises(img: Seq<u8>, a: int, b: int)
    requires
        0 <= a <= b,
    ensures
        packed_addr(img, a) <= packed_addr(img, b),
{
    lemma_listed_len_rises(img, live_slots(img), a, b);
}

/// Putting the first `k` live files in place gives the compacted form of those files.
proof fn lemma_packed_is_compacted(src: Seq<u8>, k: int)
    requires
        well_formed(src),
        0 <= k <= live_slots(src).len(),
    ensures
        compacted(src, packed(src, k), k),
    decreases k,
{
    let live = live_slots(src);
    lemma_live_below(src, MAX_FILES as int);
    if k == 0 {
        let img = formatted(src);
        assert forall|j: int| 0 <= j < MAX_FILES implies #[trigger] slot_bytes(img, j)
            == empty_rec() by {
            assert(empty_rec().len() == REC_SIZE);
            assert forall|off: int| 0 <= off < REC_SIZE implies slot_bytes(img, j)[off]
                == empty_rec()[off] by {
                assert((slot_base(j) + off) % (REC_SIZE as int) == off);
            }
            assert(slot_bytes(img, j) =~= empty_rec());
        }
    } else {
        lemma_packed_is_compacted(src, k - 1);
        let before = packed(src, k - 1);
        let after = packed(src, k);
        let from = live[k - 1];
        let at = packed_addr(src, k - 1);
        let rec = rec_bytes(at, slot_len(src, from), slot_name(src, from));
        lemma_packed_in_region(src, k);
        lemma_packed_in_region(src, k - 1);
        assert(slot_live(src, from));
        assert(in_region(src, from));
        assert(payload(src, from).len() == slot_len(src, from));
        assert(rec.len() == REC_SIZE);
        assert forall|j: int| 0 <= j < k implies #[trigger] slot_bytes(after, j) == rec_bytes(
            packed_addr(src, j),
            slot_len(src, live[j]),
            slot_name(src, live[j]),
        ) by {
            if j < k - 1 {
                assert(slot_bytes(after, j) =~= slot_bytes(before, j));
            } else {
                assert(slot_bytes(after, j) =~= rec);
            }
        }
        assert forall|j: int| k <= j < MAX_FILES implies #[trigger] slot_bytes(after, j)
            == empty_rec() by {
            assert(slot_bytes(after, j) =~= slot_bytes(before, j));
        }
        assert forall|j: int| 0 <= j < k implies #[trigger] packed_payload(src, after, j)
            == payload(src, live[j]) by {
            if j < k - 1 {
                lemma_packed_in_region(src, j);
                lemma_packed_in_region(src, j + 1);
                lemma_packed_addr_rises(src, j + 1, k - 1);
                assert(packed_payload(src, before, j) == payload(src, live[j]));
                assert(packed_payload(src, after, j) =~= packed_payload(src, before, j));
            } else {
                assert(packed_payload(src, after, j) =~= payload(src, from));
            }
        }
    }
}

/// Every offset of the compacted part of the data region belongs to one file.
proof fn lemma_packed_cover(src: Seq<u8>, k: int, p: int) -> (j: int)
    requires
        0 <= k,
        DATA_START <= p < packed_addr(src, k),
    ensures
        0 <= j < k,
        packed_addr(src, j) <= p < packed_addr(src, j) + slot_len(src, live_slots(src)[j]),
    decreases k,
{
    if k == 0 {
        0
    } else if p >= packed_addr(src, k - 1) {
        k - 1
    } else {
        lemma_packed_cover(src, k - 1, p)
    }
}

/// A table whose first `m` slots are live and whose other slots are not lists
/// its live slots as `0, 1, ..`.
proof fn lemma_live_prefix(img: Seq<u8>, m: int, n: int)
    requires
        0 <= m <= MAX_FILES,
        0 <= n <= MAX_FILES,
        forall|j: int| 0 <= j < m ==> #[trigger] slot_live(img, j),
        forall|j: int| m <= j < MAX_FILES ==> !#[trigger] slot_live(img, j),
    ensures
        live_below(img, n) == Seq::new(
            (if n < m {
                n
            } else {
                m
            }) as nat,
            |t: int| t,
        ),
    decreases n,
{
    if n > 0 {
        lemma_live_prefix(img, m, n - 1);
        if n - 1 < m {
            assert(slot_live(img, n - 1));
        } else {
            assert(!slot_live(img, n - 1));
        }
        assert(live_below(img, n) =~= Seq::new(
            (if n < m {
                n
            } else {
                m
            }) as nat,
            |t: int| t,
        ));
    } else {
        assert(live_below(img, n) =~= Seq::new(0nat, |t: int| t));
    }
}

/// The fields of a slot follow from its bytes.
proof fn lemma_slot_fields(img: Seq<u8>, j: int, addr: int, len: int, name: Seq<u8>)
    requires
        img.len() == EEPROM_SIZE,
        0 <= j < MAX_FILES,
        0 <= addr <= 0xFFFF,
        0 <= len <= 255,
        name.len() == MAX_NAME,
        slot_bytes(img, j) == rec_bytes(addr, len, name),
    ensures
        slot_addr(img, j) == addr,
        slot_len(img, j) == len,
        slot_name(img, j) == name,
{
    let b = slot_bytes(img, j);
    let r = rec_bytes(addr, len, name);
    assert(b[0] == img[slot_base(j)]);
    assert(b[1] == img[slot_base(j) + 1]);
    assert(b[2] == img[slot_base(j) + 2]);
    assert(r[0] == (addr % 256) as u8);
    assert(r[1] == (addr / 256) as u8);
    assert(r[2] == len as u8);
    assert forall|t: int| 0 <= t < MAX_NAME implies slot_name(img, j)[t] == name[t] by {
        assert(b[t + 3] == img[slot_base(j) + 3 + t]);
        assert(r[t + 3] == name[t]);
    }
    assert(slot_name(img, j) =~= name);
}

/// What compaction gives: the live files of `src` sit in the lowest slots, in
/// their former slot order, each with its name, length and payload, at
/// addresses that follow one another from the start of the data region; the
/// other slots are unused; and the invariant of the store holds.
pub proof fn lemma_defragmented(src: Seq<u8>)
    requires
        well_formed(src),
    ensures
        well_formed(defragmented(src)),
        forall|j: int|
            0 <= j < live_slots(src).len() ==> {
                &&& #[trigger] slot_live(defragmented(src), j)
                &&& slot_addr(defragmented(src), j) == packed_addr(src, j)
                &&& slot_len(defragmented(src), j) == slot_len(src, live_slots(src)[j])
                &&& slot_name(defragmented(src), j) == slot_name(src, live_slots(src)[j])
                &&& payload(defragmented(src), j) == payload(src, live_slots(src)[j])
            },
        forall|j: int|
            live_slots(src).len() <= j < MAX_FILES ==> !#[trigger] slot_live(defragmented(src), j),
        live_slots(defragmented(src)) == Seq::new(live_slots(src).len(), |t: int| t),
{
    let live = live_slots(src);
    let m = live.len() as int;
    let out = defragmented(src);
    lemma_live_below(src, MAX_FILES as int);
    lemma_packed_is_compacted(src, m);
    assert forall|j: int| 0 <= j < m implies {
        &&& #[trigger] slot_live(out, j)
        &&& slot_addr(out, j) == packed_addr(src, j)
        &&& slot_len(out, j) == slot_len(src, live[j])
        &&& slot_name(out, j) == slot_name(src, live[j])
        &&& payload(out, j) == payload(src, live[j])
        &&& in_region(out, j)
        &&& span_end(out, j) == packed_addr(src, j + 1)
    } by {
        lemma_packed_in_region(src, j);
        lemma_packed_in_region(src, j + 1);
        assert(slot_live(src, live[j]));
        assert(slot_bytes(out, j) == rec_bytes(
            packed_addr(src, j),
            slot_len(src, live[j]),
            slot_name(src, live[j]),
        ));
        lemma_slot_fields(
            out,
            j,
            packed_addr(src, j),
            slot_len(src, live[j]),
            slot_name(src, live[j]),
        );
        assert(packed_payload(src, out, j) == payload(src, live[j]));
        assert(payload(out, j) =~= packed_payload(src, out, j));
    }
    assert forall|j: int| m <= j < MAX_FILES implies !#[trigger] slot_live(out, j) by {
        assert(slot_bytes(out, j) == empty_rec());
        assert(empty_rec()[0] == 255u8 && empty_rec()[1] == 255u8);
        assert(slot_bytes(out, j)[0] == out[slot_base(j)]);
        assert(slot_bytes(out, j)[1] == out[slot_base(j) + 1]);
    }
    assert forall|a: int, b: int|
        0 <= a < MAX_FILES && 0 <= b < MAX_FILES && a != b && #[trigger] slot_live(out, a)
            && #[trigger] slot_live(out, b) implies apart(out, a, b) by {
        assert(slot_live(out, a) ==> a < m);
        assert(slot_live(out, b) ==> b < m);
        if a < b {
            lemma_packed_addr_rises(src, a + 1, b);
        } else {
            lemma_packed_addr_rises(src, b + 1, a);
        }
    }
    assert forall|a: int| 0 <= a < MAX_FILES && #[trigger] slot_live(out, a) implies in_region(
        out,
        a,
    ) by {
        assert(slot_live(out, a) ==> a < m);
    }
    lemma_live_prefix(out, m, MAX_FILES as int);
}

proof fn lemma_same_lengths(src: Seq<u8>, out: Seq<u8>, k: int)
    requires
        0 <= k <= live_slots(src).len(),
        live_slots(out) == Seq::new(live_slots(src).len(), |t: int| t),
        forall|j: int|
            0 <= j < live_slots(src).len() ==> #[trigger] slot_len(out, j) == slot_len(
                src,
                live_slots(src)[j],
            ),
    ensures
        packed_addr(out, k) == packed_addr(src, k),
    decreases k,
{
    if k > 0 {
        lemma_same_lengths(src, out, k - 1);
        assert(live_slots(out)[k - 1] == k - 1);
        assert(slot_len(out, k - 1) == slot_len(src, live_slots(src)[k - 1]));
    }
}

/// What ties a compacted image to compacting it once more: the same live
/// slots, the same lengths, and so the same addresses.
proof fn lemma_again_same_places(src: Seq<u8>, k: int)
    requires
        well_formed(src),
        0 <= k <= live_slots(src).len(),
    ensures
        well_formed(defragmented(src)),
        live_slots(defragmented(src)).len() == live_slots(src).len(),
        packed_addr(defragmented(src), k) == packed_addr(src, k),
        k < live_slots(src).len() ==> {
            &&& live_slots(defragmented(src))[k] == k
            &&& slot_live(defragmented(src), k)
            &&& slot_addr(defragmented(src), k) == packed_addr(src, k)
            &&& slot_len(defragmented(src), k) == slot_len(src, live_slots(src)[k])
            &&& slot_name(defragmented(src), k) == slot_name(src, live_slots(src)[k])
        },
{
    let once = defragmented(src);
    lemma_defragmented(src);
    assert forall|j: int| 0 <= j < live_slots(src).len() implies #[trigger] slot_len(once, j)
        == slot_len(src, live_slots(src)[j]) by {
        assert(slot_live(once, j));
    }
    lemma_same_lengths(src, once, k);
    if k < live_slots(src).len() {
        assert(slot_live(once, k));
    }
}

proof fn lemma_again_same_slot(src: Seq<u8>, j: int)
    requires
        well_formed(src),
        0 <= j < MAX_FILES,
    ensures
        slot_bytes(defragmented(defragmented(src)), j) == slot_bytes(defragmented(src), j),
{
    let m = live_slots(src).len() as int;
    let once = defragmented(src);
    lemma_again_same_places(src, 0);
    lemma_packed_is_compacted(src, m);
    lemma_packed_is_compacted(once, m);
    if j < m {
        lemma_again_same_places(src, j);
    }
}

proof fn lemma_again_same_byte(src: Seq<u8>, p: int)
    requires
        well_formed(src),
        DATA_START <= p < EEPROM_SIZE,
    ensures
        defragmented(defragmented(src))[p] == defragmented(src)[p],
{
    let m = live_slots(src).len() as int;
    let once = defragmented(src);
    let twice = defragmented(once);
    lemma_again_same_places(src, m);
    lemma_packed_is_compacted(once, m);
    if p < packed_addr(once, m) {
        let j = lemma_packed_cover(once, m, p);
        lemma_again_same_places(src, j);
        let off = p - packed_addr(once, j);
        lemma_packed_in_region(once, j);
        lemma_packed_in_region(once, j + 1);
        assert(in_region(once, j));
        assert(packed_payload(once, twice, j) == payload(once, j));
        assert(packed_payload(once, twice, j)[off] == twice[p]);
        assert(payload(once, j)[off] == once[slot_addr(once, j) + off]);
    }
}

/// Compaction changes nothing in a store that is already compacted: running it
/// twice gives the image that running it once gives.
pub proof fn lemma_defrag_idempotent(src: Seq<u8>)
    requires
        well_formed(src),
    ensures
        defragmented(defragmented(src)) == defragmented(src),
{
    let once = defragmented(src);
    let twice = defragmented(once);
    lemma_again_same_places(src, 0);
    lemma_packed_is_compacted(once, live_slots(once).len() as int);
    assert forall|p: int| 0 <= p < EEPROM_SIZE implies twice[p] == once[p] by {
        if p < DATA_START {
            let j = p / (REC_SIZE as int);
            let off = p % (REC_SIZE as int);
            lemma_again_same_slot(src, j);
            assert(slot_bytes(twice, j)[off] == twice[p]);
            assert(slot_bytes(once, j)[off] == once[p]);
        } else {
            lemma_again_same_byte(src, p);
        }
    }
    assert(twice =~= once);
}

/// Moves the live payloads together at the start of the data region, in slot
/// order, and their records to the lowest slots. Names, lengths and payloads
/// stay; only the addresses change.
///
/// The live records are listed, the table is reset, and each listed file is
/// then written at a cursor that starts at the data region and advances by the
/// file's length. The payloads are read from a copy of the image taken before
/// anything is written, so a file that lands on the old place of a later file
/// does it no harm.
pub fn cmd_defrag(eep: &mut Storage)
    requires
        well_formed(old(eep)@),
    ensures
        final(eep)@ == defragmented(old(eep)@),
        well_formed(final(eep)@),
{
    let ghost src = eep@;
    proof {
        lemma_defragmented(src);
    }
    let mut tbl = recs_new();
    let mut i: usize = 0;
    while i < MAX_FILES
        invariant
            i <= MAX_FILES,
            eep@ == src,
            src.len() == EEPROM_SIZE,
            rec_items(tbl).len() == live_below(src, i as int).len(),
            rec_items(tbl).len() <= i,
            forall|k: int|
                0 <= k < rec_items(tbl).len() ==> (#[trigger] rec_items(tbl)[k]).is_slot(
                    src,
                    live_below(src, i as int)[k],
                ),
        decreases MAX_FILES - i,
    {
        let r = FileRec::load(eep, i);
        if r.addr != EMPTY_ADDR {
            let pushed = recs_push(&mut tbl, r);
            assert(pushed is Ok);
        }
        i += 1;
    }
    let saved = eep.snapshot();
    cmd_format(eep);
    let s = recs_slice(&tbl);
    let n: usize = s.len();
    let ghost live = live_slots(src);
    proof {
        lemma_live_below(src, MAX_FILES as int);
    }
    let mut dp: u16 = DATA_START;
    let mut t: usize = 0;
    while t < n
        invariant
            t <= n,
            n == live.len(),
            n <= MAX_FILES,
            live == live_slots(src),
            well_formed(src),
            saved@ == src,
            s@.len() == n,
            forall|k: int| 0 <= k < n ==> (#[trigger] s@[k]).is_slot(src, live[k]),
            forall|k: int| 0 <= k < n ==> 0 <= #[trigger] live[k] < MAX_FILES && slot_live(src, live[k]),
            eep@.len() == EEPROM_SIZE,
            eep@ == packed(src, t as int),
            dp == packed_addr(src, t as int),
        decreases n - t,
    {
        let mut r = s[t];
        let ghost from = live[t as int];
        let ghost base_img = eep@;
        proof {
            lemma_packed_in_region(src, t as int + 1);
            lemma_packed_in_region(src, t as int);
            assert(s@[t as int].is_slot(src, from));
            assert(slot_live(src, from));
            assert(in_region(src, from));
        }
        let mut off: u8 = 0;
        while off < r.len
            invariant
                off <= r.len,
                r.is_slot(src, from),
                in_region(src, from),
                saved@ == src,
                src.len() == EEPROM_SIZE,
                eep@.len() == EEPROM_SIZE,
                base_img.len() == EEPROM_SIZE,
                DATA_START <= dp,
                dp + r.len <= EEPROM_SIZE,
                forall|k: int| dp <= k < dp + off ==> eep@[k] == src[r.addr + (k - dp)],
                forall|k: int| 0 <= k < EEPROM_SIZE && !(dp <= k < dp + off) ==> eep@[k] == base_img[k],
            decreases r.len - off,
        {
            let b = saved.read_byte(r.addr + off as u16);
            eep.write_byte(dp + off as u16, b);
            off += 1;
        }
        assert(eep@ =~= splice(base_img, dp as int, payload(src, from)));
        r.addr = dp;
        r.store(eep, t);
        dp += r.len as u16;
        t += 1;
    }
}

} // verus!
