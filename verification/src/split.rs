//! Splitting byte strings on a separator byte: snapshot text splits into
//! lines on newline, and each line splits into fields on NUL.

use vstd::prelude::*;

verus! {

/// Index of the first occurrence of `b` in `s`, or -1 when absent.
pub open spec fn find_byte(s: Seq<u8>, b: u8) -> int
    decreases s.len(),
{
    if s.len() == 0 {
        -1
    } else if s[0] == b {
        0
    } else {
        let r = find_byte(s.skip(1), b);
        if r < 0 {
            -1
        } else {
            r + 1
        }
    }
}

pub proof fn lemma_find_byte_none(s: Seq<u8>, b: u8)
    requires
        forall|j: int| 0 <= j < s.len() ==> s[j] != b,
    ensures
        find_byte(s, b) == -1,
    decreases s.len(),
{
    if s.len() > 0 {
        assert forall|j: int| 0 <= j < s.skip(1).len() implies s.skip(1)[j] != b by {
            assert(s.skip(1)[j] == s[j + 1]);
        }
        lemma_find_byte_none(s.skip(1), b);
    }
}

pub proof fn lemma_find_byte_at(s: Seq<u8>, b: u8, k: int)
    requires
        0 <= k < s.len(),
        s[k] == b,
        forall|j: int| 0 <= j < k ==> s[j] != b,
    ensures
        find_byte(s, b) == k,
    decreases s.len(),
{
    if k > 0 {
        assert(s[0] != b);
        assert(s.skip(1)[k - 1] == s[k]);
        assert forall|j: int| 0 <= j < k - 1 implies s.skip(1)[j] != b by {
            assert(s.skip(1)[j] == s[j + 1]);
        }
        lemma_find_byte_at(s.skip(1), b, k - 1);
    }
}

/// Fields of `s` separated by `b`. A string without the separator is one
/// field; each separator ends a field, so `n` separators give `n + 1` fields.
pub open spec fn split_on(s: Seq<u8>, b: u8) -> Seq<Seq<u8>>
    decreases s.len(),
{
    let k = find_byte(s, b);
    if k < 0 {
        seq![s]
    } else if k >= s.len() {
        seq![s]  // unreachable: the index of an occurrence is below the length
    } else {
        seq![s.take(k)] + split_on(s.skip(k + 1), b)
    }
}

/// A string without the separator is a single field.
pub proof fn lemma_split_whole(s: Seq<u8>, b: u8)
    requires
        forall|j: int| 0 <= j < s.len() ==> s[j] != b,
    ensures
        split_on(s, b) == seq![s],
{
    lemma_find_byte_none(s, b);
}

/// Splitting `field + [b] + rest` peels off `field` when it is free of `b`.
pub proof fn lemma_split_prepend(field: Seq<u8>, rest: Seq<u8>, b: u8)
    requires
        forall|j: int| 0 <= j < field.len() ==> field[j] != b,
    ensures
        split_on(field + seq![b] + rest, b) == seq![field] + split_on(rest, b),
{
    let s = field + seq![b] + rest;
    assert(s[field.len() as int] == b);
    assert forall|j: int| 0 <= j < field.len() implies s[j] != b by {
        assert(s[j] == field[j]);
    }
    lemma_find_byte_at(s, b, field.len() as int);
    assert(s.take(field.len() as int) =~= field);
    assert(s.skip(field.len() as int + 1) =~= rest);
    assert(split_on(s, b) =~= seq![field] + split_on(rest, b));
}

/// Splitting at the first occurrence of the separator peels off the prefix.
pub proof fn lemma_split_first(s: Seq<u8>, b: u8, k: int)
    requires
        0 <= k < s.len(),
        s[k] == b,
        forall|j: int| 0 <= j < k ==> s[j] != b,
    ensures
        split_on(s, b) == seq![s.take(k)] + split_on(s.skip(k + 1), b),
{
    assert(s =~= s.take(k) + seq![b] + s.skip(k + 1));
    assert forall|j: int| 0 <= j < s.take(k).len() implies s.take(k)[j] != b by {
        assert(s.take(k)[j] == s[j]);
    }
    lemma_split_prepend(s.take(k), s.skip(k + 1), b);
}

/// Find the first occurrence of `b` in `s` at or after `from`.
pub fn find_byte_from(s: &[u8], b: u8, from: usize) -> (r: Option<usize>)
    requires
        from <= s@.len(),
    ensures
        r matches Some(k) ==> from <= k < s@.len() && s@[k as int] == b && (forall|j: int|
            from <= j < k ==> s@[j] != b),
        r is None ==> forall|j: int| from <= j < s@.len() ==> s@[j] != b,
{
    let mut i: usize = from;
    while i < s.len()
        invariant
            from <= i <= s@.len(),
            forall|j: int| from <= j < i ==> s@[j] != b,
        decreases s@.len() - i,
    {
        if s[i] == b {
            return Some(i);
        }
        i = i + 1;
    }
    None
}

} // verus!
