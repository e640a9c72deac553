//! Fixed-capacity lists from `heapless`, with the contracts the file store relies on.
//!
//! Verus does not look into these lists. Each function below calls one method of
//! `heapless::Vec` and states what that method does to the items held.

use vstd::prelude::*;
use crate::record::FileRec;

verus! {

/// `heapless::Vec`, made known so that it can stand in signatures. What a list
/// holds is spoken of through `span_items`, `rec_items` and `byte_items`.
#[verifier::external_type_specification]
#[verifier::external_body]
#[verifier::reject_recursive_types(T)]
pub struct ExHeaplessVec<T, const N: usize>(heapless::Vec<T, N>);

/// The byte spans held by a span list, in insertion order.
pub uninterp spec fn span_items(v: heapless::Vec<(u16, u16), 8>) -> Seq<(u16, u16)>;

/// `heapless::Vec::new`: the new list holds nothing.
#[verifier::external_body]
pub(crate) fn spans_new() -> (v: heapless::Vec<(u16, u16), 8>)
    ensures
        span_items(v) == Seq::<(u16, u16)>::empty(),
{
    heapless::Vec::new()
}

/// `heapless::Vec::push`: appends at the back while fewer than eight items are
/// held; a full list hands the item back and stays as it was.
#[verifier::external_body]
pub(crate) fn spans_push(v: &mut heapless::Vec<(u16, u16), 8>, item: (u16, u16)) -> (r: Result<
    (),
    (u16, u16),
>)
    ensures
        r is Ok <==> span_items(*old(v)).len() < 8,
        r is Ok ==> span_items(*final(v)) == span_items(*old(v)).push(item),
        r is Err ==> r->Err_0 == item && span_items(*final(v)) == span_items(*old(v)),
{
    v.push(item)
}

/// `heapless::Vec::as_slice`: the slice holds exactly the list's items, in order.
#[verifier::external_body]
pub(crate) fn spans_slice(v: &heapless::Vec<(u16, u16), 8>) -> (s: &[(u16, u16)])
    ensures
        s@ == span_items(*v),
{
    v.as_slice()
}

/// Assignment through `heapless::Vec`'s `DerefMut`: the item at `i` is replaced,
/// the others and the length stay. The index must be below the length, or the
/// assignment panics.
#[verifier::external_body]
pub(crate) fn spans_set(v: &mut heapless::Vec<(u16, u16), 8>, i: usize, item: (u16, u16))
    requires
        i < span_items(*old(v)).len(),
    ensures
        span_items(*final(v)) == span_items(*old(v)).update(i as int, item),
{
    v[i] = item;
}

/// The records held by a record list, in insertion order.
pub uninterp spec fn rec_items(v: heapless::Vec<FileRec, 8>) -> Seq<FileRec>;

/// `heapless::Vec::new`: the new list holds nothing.
#[verifier::external_body]
pub(crate) fn recs_new() -> (v: heapless::Vec<FileRec, 8>)
    ensures
        rec_items(v) == Seq::<FileRec>::empty(),
{
    heapless::Vec::new()
}

/// `heapless::Vec::push`: appends at the back while fewer than eight items are
/// held; a full list hands the item back and stays as it was.
#[verifier::external_body]
pub(crate) fn recs_push(v: &mut heapless::Vec<FileRec, 8>, item: FileRec) -> (r: Result<
    (),
    FileRec,
>)
    ensures
        r is Ok <==> rec_items(*old(v)).len() < 8,
        r is Ok ==> rec_items(*final(v)) == rec_items(*old(v)).push(item),
        r is Err ==> r->Err_0 == item && rec_items(*final(v)) == rec_items(*old(v)),
{
    v.push(item)
}

/// `heapless::Vec::as_slice`: the slice holds exactly the list's items, in order.
#[verifier::external_body]
pub(crate) fn recs_slice(v: &heapless::Vec<FileRec, 8>) -> (s: &[FileRec])
    ensures
        s@ == rec_items(*v),
{
    v.as_slice()
}

/// The bytes held by a payload buffer, in insertion order.
pub uninterp spec fn byte_items(v: heapless::Vec<u8, 64>) -> Seq<u8>;

/// `heapless::Vec::new`: the new buffer holds nothing.
#[verifier::external_body]
pub(crate) fn bytes_new() -> (v: heapless::Vec<u8, 64>)
    ensures
        byte_items(v) == Seq::<u8>::empty(),
{
    heapless::Vec::new()
}

/// `heapless::Vec::push`: appends at the back while fewer than 64 bytes are
/// held; a full buffer hands the byte back and stays as it was.
#[verifier::external_body]
pub(crate) fn bytes_push(v: &mut heapless::Vec<u8, 64>, item: u8) -> (r: Result<(), u8>)
    ensures
        r is Ok <==> byte_items(*old(v)).len() < 64,
        r is Ok ==> byte_items(*final(v)) == byte_items(*old(v)).push(item),
        r is Err ==> r->Err_0 == item && byte_items(*final(v)) == byte_items(*old(v)),
{
    v.push(item)
}

/// `heapless::Vec::as_slice`: the slice holds exactly the buffer's bytes, in order.
#[verifier::external_body]
pub(crate) fn bytes_slice(v: &heapless::Vec<u8, 64>) -> (s: &[u8])
    ensures
        s@ == byte_items(*v),
{
    v.as_slice()
}

} // verus!
