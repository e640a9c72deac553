//! Bytes of text: fixed words, decimal numbers, and how both are compared,
//! read and written.

use vstd::prelude::*;
use vstd::slice::slice_subrange;

verus! {

/// The bytes of a text whose characters are all ASCII.
pub open spec fn ascii(s: Seq<char>) -> Seq<u8> {
    Seq::new(s.len(), |i: int| s[i] as u8)
}

/// The decimal digits of `n`, most significant first, without leading zeros.
pub open spec fn decimal(n: nat) -> Seq<u8>
    decreases n,
{
    if n < 10 {
        seq![(48 + n) as u8]
    } else {
        decimal(n / 10).push((48 + n % 10) as u8)
    }
}

/// Whether `b` is one of the digits `0` to `9`.
pub open spec fn is_digit(b: u8) -> bool {
    48 <= b <= 57
}

/// The number that a run of decimal digits stands for.
pub open spec fn digits_value(s: Seq<u8>) -> nat
    decreases s.len(),
{
    if s.len() == 0 {
        0
    } else {
        (10 * digits_value(s.drop_last()) + (s.last() - 48)) as nat
    }
}

/// A length field without its optional leading `+`.
pub open spec fn unsigned_part(field: Seq<u8>) -> Seq<u8> {
    if field.len() > 0 && field[0] == 43 {
        field.skip(1)
    } else {
        field
    }
}

/// The number a length field stands for: an optional `+`, then one or more
/// decimal digits and nothing else, with a value that fits the machine word.
pub open spec fn number_of(field: Seq<u8>) -> Option<nat> {
    let body = unsigned_part(field);
    if body.len() > 0 && (forall|i: int| 0 <= i < body.len() ==> is_digit(#[trigger] body[i]))
        && digits_value(body) <= usize::MAX {
        Some(digits_value(body))
    } else {
        None
    }
}

/// The value of a run of digits is at least the value of each of its prefixes.
pub proof fn lemma_digits_value_grows(s: Seq<u8>, k: int)
    requires
        0 <= k <= s.len(),
        forall|i: int| 0 <= i < s.len() ==> is_digit(#[trigger] s[i]),
    ensures
        digits_value(s.take(k)) <= digits_value(s),
    decreases s.len() - k,
{
    if k == s.len() {
        assert(s.take(k) =~= s);
    } else {
        lemma_digits_value_grows(s, k + 1);
        assert(s.take(k + 1).drop_last() =~= s.take(k));
        assert(is_digit(s[k]));
        assert(s.take(k + 1).last() == s[k]);
    }
}

/// Appends `part` to `out`.
pub fn push_all(out: &mut Vec<u8>, part: &[u8])
    ensures
        final(out)@ == old(out)@ + part@,
{
    let mut i: usize = 0;
    while i < part.len()
        invariant
            i <= part@.len(),
            out@ == old(out)@ + part@.take(i as int),
        decreases part@.len() - i,
    {
        out.push(part[i]);
        assert(part@.take(i + 1) =~= part@.take(i as int).push(part@[i as int]));
        i += 1;
    }
    assert(part@.take(i as int) =~= part@);
}

/// Appends the bytes of an ASCII text to `out`.
pub fn push_text(out: &mut Vec<u8>, word: &str)
    requires
        word.is_ascii(),
    ensures
        final(out)@ == old(out)@ + ascii(word@),
{
    let b = word.as_bytes();
    assert(b@ =~= ascii(word@));
    push_all(out, b);
}

/// Appends the decimal digits of `n` to `out`.
pub fn push_decimal(out: &mut Vec<u8>, n: u16)
    ensures
        final(out)@ == old(out)@ + decimal(n as nat),
    decreases n,
{
    if n >= 10 {
        push_decimal(out, n / 10);
    }
    out.push(48 + (n % 10) as u8);
    proof {
        if n >= 10 {
            assert(out@ =~= old(out)@ + decimal(n as nat));
        } else {
            assert(out@ =~= old(out)@ + decimal(n as nat));
        }
    }
}

/// Whether two runs of bytes are the same.
pub fn same_bytes(a: &[u8], b: &[u8]) -> (r: bool)
    ensures
        r == (a@ == b@),
{
    if a.len() != b.len() {
        return false;
    }
    let mut i: usize = 0;
    while i < a.len()
        invariant
            i <= a@.len(),
            a@.len() == b@.len(),
            forall|k: int| 0 <= k < i ==> a@[k] == b@[k],
        decreases a@.len() - i,
    {
        if a[i] != b[i] {
            return false;
        }
        i += 1;
    }
    assert(a@ =~= b@);
    true
}

/// Whether `field` spells the ASCII text `word`.
pub fn is_word(field: &[u8], word: &str) -> (r: bool)
    requires
        word.is_ascii(),
    ensures
        r == (field@ == ascii(word@)),
{
    let b = word.as_bytes();
    assert(b@ =~= ascii(word@));
    same_bytes(field, b)
}

/// Reads a length field: an optional `+` and decimal digits. `None` where the
/// field is anything else or its value does not fit the machine word.
pub fn parse_len(field: &[u8]) -> (r: Option<usize>)
    ensures
        match number_of(field@) {
            Some(n) => r == Some(n as usize),
            None => r is None,
        },
{
    let start: usize = if field.len() > 0 && field[0] == 43 {
        1
    } else {
        0
    };
    let body = slice_subrange(field, start, field.len());
    assert(body@ =~= unsigned_part(field@));
    if body.len() == 0 {
        return None;
    }
    let mut value: usize = 0;
    let mut i: usize = 0;
    while i < body.len()
        invariant
            i <= body@.len(),
            forall|k: int| 0 <= k < i ==> is_digit(#[trigger] body@[k]),
            value == digits_value(body@.take(i as int)),
            body@ == unsigned_part(field@),
            body@.len() > 0,
        decreases body@.len() - i,
    {
        let d = body[i];
        if d < 48 || d > 57 {
            assert(!is_digit(body@[i as int]));
            return None;
        }
        let ghost prev = body@.take(i as int);
        let ghost next = body@.take(i + 1);
        assert(next.drop_last() =~= prev);
        assert(next.last() == d);
        let grown = match value.checked_mul(10) {
            Some(tens) => tens.checked_add((d - 48) as usize),
            None => None,
        };
        match grown {
            Some(v) => {
                value = v;
            },
            None => {
                proof {
                    assert(digits_value(next) > usize::MAX);
                    if forall|k: int| 0 <= k < body@.len() ==> is_digit(#[trigger] body@[k]) {
                        lemma_digits_value_grows(body@, i + 1);
                    }
                }
                return None;
            },
        }
        i += 1;
    }
    assert(body@.take(i as int) =~= body@);
    Some(value)
}

} // verus!
