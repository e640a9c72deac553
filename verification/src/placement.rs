//! Placement of new payloads: first fit over the gaps between live payloads.

use vstd::prelude::*;
use crate::bounded::{span_items, spans_new, spans_push, spans_set, spans_slice};
use crate::record::{slot_addr, slot_live, FileRec};
use crate::search::{first_index, lemma_first_index, lemma_first_index_is, lemma_first_index_none};
use crate::storage::{Storage, DATA_START, EEPROM_SIZE, EMPTY_ADDR, MAX_FILES};
use crate::table::{apart, in_region, span_end, well_formed};

verus! {

/// A payload of `len` bytes can lie at offset `p`: it stays inside the data
/// region and clear of every live payload.
pub open spec fn fits(img: Seq<u8>, len: int, p: int) -> bool {
    &&& DATA_START <= p
    &&& p + len <= EEPROM_SIZE
    &&& forall|i: int|
        0 <= i < MAX_FILES && #[trigger] slot_live(img, i) ==> p + len <= slot_addr(img, i)
            || span_end(img, i) <= p
}

/// The offset that first fit chooses for `len` bytes: the lowest one that fits.
pub open spec fn first_fit(img: Seq<u8>, len: int) -> Option<int> {
    first_index(|p: int| fits(img, len, p), DATA_START as int, EEPROM_SIZE + 1)
}

/// First fit returns an offset that fits and skips none that does; it returns
/// nothing only where no offset fits.
pub proof fn lemma_first_fit(img: Seq<u8>, len: int)
    requires
        0 <= len,
    ensures
        match first_fit(img, len) {
            Some(p) => fits(img, len, p) && forall|q: int| q < p ==> !fits(img, len, q),
            None => forall|q: int| !fits(img, len, q),
        },
{
    let pred = |p: int| fits(img, len, p);
    lemma_first_index(pred, DATA_START as int, EEPROM_SIZE + 1);
    match first_fit(img, len) {
        Some(p) => {
            assert forall|q: int| q < p implies !fits(img, len, q) by {
                if DATA_START <= q {
                    assert(!pred(q));
                }
            }
        },
        None => {
            assert forall|q: int| !fits(img, len, q) by {
                if DATA_START <= q < EEPROM_SIZE + 1 {
                    assert(!pred(q));
                }
            }
        },
    }
}

/// An offset that fits, with none below it that does, is the one first fit chooses.
pub proof fn lemma_first_fit_is(img: Seq<u8>, len: int, p: int)
    requires
        0 <= len,
        fits(img, len, p),
        forall|q: int| DATA_START <= q < p ==> !fits(img, len, q),
    ensures
        first_fit(img, len) == Some(p),
{
    lemma_first_index_is(|p: int| fits(img, len, p), DATA_START as int, EEPROM_SIZE + 1, p);
}

/// Where nothing fits, first fit chooses nothing.
pub proof fn lemma_first_fit_none(img: Seq<u8>, len: int)
    requires
        0 <= len,
        forall|q: int| DATA_START <= q ==> !fits(img, len, q),
    ensures
        first_fit(img, len) is None,
{
    lemma_first_index_none(|p: int| fits(img, len, p), DATA_START as int, EEPROM_SIZE + 1);
}

/// Order of spans: by start, and among equal starts by end.
spec fn span_le(x: (u16, u16), y: (u16, u16)) -> bool {
    x.0 < y.0 || (x.0 == y.0 && x.1 <= y.1)
}

/// Each listed span is the payload of the live slot that `who` names for it,
/// and no slot is named twice.
spec fn tracks(img: Seq<u8>, items: Seq<(u16, u16)>, who: Seq<int>) -> bool {
    &&& items.len() == who.len()
    &&& forall|t: int|
        0 <= t < who.len() ==> {
            &&& 0 <= #[trigger] who[t] < MAX_FILES
            &&& slot_live(img, who[t])
            &&& items[t].0 == slot_addr(img, who[t])
            &&& items[t].1 == span_end(img, who[t])
        }
    &&& forall|t: int, u: int| 0 <= t < u < who.len() ==> #[trigger] who[t] != #[trigger] who[u]
}

/// Every live slot below `upto` is named in `who`.
spec fn covers(img: Seq<u8>, who: Seq<int>, upto: int) -> bool {
    forall|s: int| 0 <= s < upto && #[trigger] slot_live(img, s) ==> who.contains(s)
}

/// Each span ends where or before every later one starts.
spec fn chained(items: Seq<(u16, u16)>) -> bool {
    &&& forall|a: int, b: int|
        0 <= a < b < items.len() ==> (#[trigger] items[a]).1 <= (#[trigger] items[b]).0
    &&& forall|a: int|
        0 <= a < items.len() ==> DATA_START <= (#[trigger] items[a]).0 <= items[a].1
            <= EEPROM_SIZE
}

/// Start of the `j`-th gap: the data region's start, or the end of the span before it.
spec fn gap_start(items: Seq<(u16, u16)>, j: int) -> int {
    if j == 0 {
        DATA_START as int
    } else {
        items[j - 1].1 as int
    }
}

/// End of the `j`-th gap: the start of the span after it, or the end of the memory.
spec fn gap_end(items: Seq<(u16, u16)>, j: int) -> int {
    if j == items.len() {
        EEPROM_SIZE as int
    } else {
        items[j].0 as int
    }
}

proof fn lemma_sorted_spans_chain(img: Seq<u8>, items: Seq<(u16, u16)>, who: Seq<int>)
    requires
        well_formed(img),
        tracks(img, items, who),
        forall|a: int, b: int|
            0 <= a < b < items.len() ==> span_le(#[trigger] items[a], #[trigger] items[b]),
    ensures
        chained(items),
{
    assert forall|a: int, b: int| 0 <= a < b < items.len() implies (#[trigger] items[a]).1 <= (
    #[trigger] items[b]).0 by {
        assert(span_le(items[a], items[b]));
        assert(who[a] != who[b]);
        assert(slot_live(img, who[a]) && slot_live(img, who[b]));
        assert(apart(img, who[a], who[b]));
        assert(in_region(img, who[b]));
    }
    assert forall|a: int| 0 <= a < items.len() implies DATA_START <= (#[trigger] items[a]).0
        <= items[a].1 <= EEPROM_SIZE by {
        assert(slot_live(img, who[a]));
        assert(in_region(img, who[a]));
    }
}

proof fn lemma_gap_fits(img: Seq<u8>, items: Seq<(u16, u16)>, who: Seq<int>, len: int, j: int)
    requires
        well_formed(img),
        tracks(img, items, who),
        covers(img, who, MAX_FILES as int),
        chained(items),
        0 <= len,
        0 <= j <= items.len(),
        gap_start(items, j) + len <= gap_end(items, j),
    ensures
        fits(img, len, gap_start(items, j)),
{
    let p = gap_start(items, j);
    assert forall|i: int| 0 <= i < MAX_FILES && #[trigger] slot_live(img, i) implies p + len
        <= slot_addr(img, i) || span_end(img, i) <= p by {
        assert(who.contains(i));
        let t = choose|t: int| 0 <= t < who.len() && who[t] == i;
        if t < j {
            if t < j - 1 {
                assert(items[t].1 <= items[j - 1].0);
            }
            assert(items[j - 1].0 <= items[j - 1].1);
        } else {
            if t > j {
                assert(items[j].1 <= items[t].0);
            }
            assert(items[j].0 <= items[j].1);
        }
    }
    if j > 0 {
        assert(DATA_START <= items[j - 1].0);
    }
    if j < items.len() {
        assert(items[j].1 <= EEPROM_SIZE);
    }
}

proof fn lemma_gap_too_small(img: Seq<u8>, items: Seq<(u16, u16)>, who: Seq<int>, len: int, j: int)
    requires
        tracks(img, items, who),
        0 <= j < items.len(),
        gap_start(items, j) + len > gap_end(items, j),
    ensures
        forall|q: int| gap_start(items, j) <= q < items[j].1 ==> !fits(img, len, q),
{
    assert(slot_live(img, who[j]));
}

/// Chooses where a new payload of `len` bytes goes: the lowest offset of the data
/// region at which it lies clear of every live payload, or `None` where no
/// offset does. Nothing is moved or written.
///
/// The live spans are sorted by start and, among equal starts, by end, so that
/// an empty payload comes before one that starts at the same offset. The gaps
/// are then tried in rising order: before the first span, between neighbours,
/// behind the last span.
pub fn find_data_place(eep: &Storage, len: u8) -> (r: Option<u16>)
    requires
        well_formed(eep@),
    ensures
        match r {
            Some(p) => first_fit(eep@, len as int) == Some(p as int),
            None => first_fit(eep@, len as int) is None,
        },
{
    let ghost img = eep@;
    let mut used = spans_new();
    let ghost mut who: Seq<int> = Seq::empty();
    let mut i: usize = 0;
    while i < MAX_FILES
        invariant
            i <= MAX_FILES,
            img == eep@,
            well_formed(img),
            tracks(img, span_items(used), who),
            covers(img, who, i as int),
            who.len() <= i,
            forall|t: int| 0 <= t < who.len() ==> #[trigger] who[t] < i,
        decreases MAX_FILES - i,
    {
        let r = FileRec::load(eep, i);
        if r.addr != EMPTY_ADDR {
            assert(slot_live(img, i as int));
            assert(in_region(img, i as int));
            let ghost before = who;
            let pushed = spans_push(&mut used, (r.addr, r.addr + r.len as u16));
            assert(pushed is Ok);
            proof {
                who = who.push(i as int);
                assert(who[before.len() as int] == i);
                assert forall|s: int| 0 <= s < i + 1 && #[trigger] slot_live(img, s) implies who.contains(
                    s,
                ) by {
                    if s < i {
                        assert(before.contains(s));
                        let t = choose|t: int| 0 <= t < before.len() && before[t] == s;
                        assert(who[t] == s);
                    }
                }
            }
        }
        i += 1;
    }
    let n: usize = spans_slice(&used).len();
    let mut i: usize = 0;
    while i < n
        invariant
            i <= n,
            n == span_items(used).len(),
            n <= MAX_FILES,
            tracks(img, span_items(used), who),
            covers(img, who, MAX_FILES as int),
            forall|a: int, b: int|
                0 <= a < i && a < b < n ==> span_le(
                    #[trigger] span_items(used)[a],
                    #[trigger] span_items(used)[b],
                ),
        decreases n - i,
    {
        let mut min_idx: usize = i;
        let mut j: usize = i + 1;
        while j < n
            invariant
                i < n,
                i + 1 <= j <= n,
                i <= min_idx < j,
                n == span_items(used).len(),
                forall|k: int| i <= k < j ==> span_le(span_items(used)[min_idx as int], #[trigger] span_items(used)[k]),
            decreases n - j,
        {
            let s = spans_slice(&used);
            let a = s[j];
            let m = s[min_idx];
            if a.0 < m.0 || (a.0 == m.0 && a.1 < m.1) {
                min_idx = j;
            }
            j += 1;
        }
        if i != min_idx {
            let s = spans_slice(&used);
            let temp = s[i];
            let least = s[min_idx];
            let ghost items0 = span_items(used);
            let ghost who0 = who;
            spans_set(&mut used, i, least);
            spans_set(&mut used, min_idx, temp);
            proof {
                who = who0.update(i as int, who0[min_idx as int]).update(min_idx as int, who0[i as int]);
                let items1 = span_items(used);
                assert forall|s: int| 0 <= s < MAX_FILES && #[trigger] slot_live(img, s) implies who.contains(
                    s,
                ) by {
                    assert(who0.contains(s));
                    let t = choose|t: int| 0 <= t < who0.len() && who0[t] == s;
                    if t == i {
                        assert(who[min_idx as int] == s);
                    } else if t == min_idx {
                        assert(who[i as int] == s);
                    } else {
                        assert(who[t] == s);
                    }
                }
                assert forall|a: int, b: int| 0 <= a < i + 1 && a < b < n implies span_le(
                    #[trigger] items1[a],
                    #[trigger] items1[b],
                ) by {
                    if a < i {
                        let b0 = if b == i { min_idx as int } else if b == min_idx { i as int } else { b };
                        assert(span_le(items0[a], items0[b0]));
                    } else {
                        let b0 = if b == min_idx { i as int } else { b };
                        assert(span_le(items0[min_idx as int], items0[b0]));
                    }
                }
                assert forall|t: int, u: int| 0 <= t < u < who.len() implies #[trigger] who[t] != #[trigger] who[u] by {
                    let t0 = if t == i { min_idx as int } else if t == min_idx { i as int } else { t };
                    let u0 = if u == i { min_idx as int } else if u == min_idx { i as int } else { u };
                    if t0 < u0 {
                        assert(who0[t0] != who0[u0]);
                    } else {
                        assert(who0[u0] != who0[t0]);
                    }
                }
                assert forall|t: int| 0 <= t < who.len() implies {
                    &&& 0 <= #[trigger] who[t] < MAX_FILES
                    &&& slot_live(img, who[t])
                    &&& items1[t].0 == slot_addr(img, who[t])
                    &&& items1[t].1 == span_end(img, who[t])
                } by {
                    let t0 = if t == i { min_idx as int } else if t == min_idx { i as int } else { t };
                    assert(0 <= who0[t0] < MAX_FILES);
                }
            }
        }
        i += 1;
    }
    let s = spans_slice(&used);
    let ghost items = span_items(used);
    proof {
        lemma_sorted_spans_chain(img, items, who);
    }
    if n == 0 {
        proof {
            lemma_gap_fits(img, items, who, len as int, 0);
            lemma_first_fit_is(img, len as int, DATA_START as int);
        }
        return Some(DATA_START);
    }
    if s[0].0 - DATA_START >= len as u16 {
        proof {
            lemma_gap_fits(img, items, who, len as int, 0);
            lemma_first_fit_is(img, len as int, DATA_START as int);
        }
        return Some(DATA_START);
    }
    proof {
        lemma_gap_too_small(img, items, who, len as int, 0);
    }
    let mut w: usize = 0;
    while w + 1 < n
        invariant
            w < n,
            img == eep@,
            n == items.len(),
            s@ == items,
            n <= MAX_FILES,
            well_formed(img),
            tracks(img, items, who),
            covers(img, who, MAX_FILES as int),
            chained(items),
            forall|q: int| DATA_START <= q < items[w as int].1 ==> !fits(img, len as int, q),
        decreases n - w,
    {
        let end0 = s[w].1;
        let start1 = s[w + 1].0;
        assert(items[w as int].1 <= items[w + 1].0);
        if start1 - end0 >= len as u16 {
            proof {
                lemma_gap_fits(img, items, who, len as int, w + 1);
                lemma_first_fit_is(img, len as int, end0 as int);
            }
            return Some(end0);
        }
        proof {
            lemma_gap_too_small(img, items, who, len as int, w + 1);
        }
        w += 1;
    }
    let last_end = s[n - 1].1;
    if last_end + len as u16 <= EEPROM_SIZE {
        proof {
            lemma_gap_fits(img, items, who, len as int, n as int);
            lemma_first_fit_is(img, len as int, last_end as int);
        }
        return Some(last_end);
    }
    proof {
        lemma_first_fit_none(img, len as int);
    }
    None
}

} // verus!
