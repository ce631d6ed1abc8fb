//! Sequences of key-value entries: first-match lookup, the sorted form that
//! the in-memory table and the merge keep, and its byte count.
use vstd::prelude::*;
use crate::bytes::{bytes_less, lex_less, lemma_lex_irreflexive, lemma_lex_total,
    lemma_lex_transitive};
use crate::{Key, Value};

verus! {

/// The value of the first entry of `s` whose key is `k`, if there is one.
pub open spec fn lookup(s: Seq<(Seq<u8>, Seq<u8>)>, k: Seq<u8>) -> Option<Seq<u8>>
    decreases s.len(),
{
    if s.len() == 0 {
        None
    } else if s[0].0 == k {
        Some(s[0].1)
    } else {
        lookup(s.skip(1), k)
    }
}

/// The mapping that a sequence of entries stands for: each key that occurs
/// is mapped to the value of its first occurrence.
pub open spec fn as_map(s: Seq<(Seq<u8>, Seq<u8>)>) -> Map<Seq<u8>, Seq<u8>> {
    Map::new(|k: Seq<u8>| lookup(s, k) is Some, |k: Seq<u8>| lookup(s, k)->0)
}

/// The keys of `s` are strictly ascending in the lexicographic order.
pub open spec fn sorted(s: Seq<(Seq<u8>, Seq<u8>)>) -> bool {
    forall|i: int, j: int| 0 <= i < j < s.len() ==> lex_less(#[trigger] s[i].0, #[trigger] s[j].0)
}

/// The bytes that the entries of `s` hold: the sum of the lengths of all
/// keys and values.
pub open spec fn total_bytes(s: Seq<(Seq<u8>, Seq<u8>)>) -> nat
    decreases s.len(),
{
    if s.len() == 0 {
        0
    } else {
        total_bytes(s.drop_last()) + s.last().0.len() + s.last().1.len()
    }
}

/// The bytes that the entry for `k` holds in `s`, and zero if `s` has none.
pub open spec fn bytes_of_key(s: Seq<(Seq<u8>, Seq<u8>)>, k: Seq<u8>) -> nat {
    match lookup(s, k) {
        Some(v) => k.len() + v.len(),
        None => 0,
    }
}

/// If no entry of `s` has the key `k`, the lookup finds nothing.
pub proof fn lemma_lookup_absent(s: Seq<(Seq<u8>, Seq<u8>)>, k: Seq<u8>)
    requires
        forall|j: int| 0 <= j < s.len() ==> (#[trigger] s[j]).0 != k,
    ensures
        lookup(s, k) is None,
    decreases s.len(),
{
    if s.len() > 0 {
        assert(s[0].0 != k);
        assert forall|j: int| 0 <= j < s.skip(1).len() implies (#[trigger] s.skip(1)[j]).0 != k by {
            assert(s.skip(1)[j] == s[j + 1]);
        }
        lemma_lookup_absent(s.skip(1), k);
    }
}

/// The lookup returns the value at `i` if `i` is the first position whose
/// key is `k`.
pub proof fn lemma_lookup_first(s: Seq<(Seq<u8>, Seq<u8>)>, k: Seq<u8>, i: int)
    requires
        0 <= i < s.len(),
        s[i].0 == k,
        forall|j: int| 0 <= j < i ==> (#[trigger] s[j]).0 != k,
    ensures
        lookup(s, k) == Some(s[i].1),
    decreases i,
{
    if i > 0 {
        assert(s[0].0 != k);
        assert forall|j: int| 0 <= j < i - 1 implies (#[trigger] s.skip(1)[j]).0 != k by {
            assert(s.skip(1)[j] == s[j + 1]);
        }
        assert(s.skip(1)[i - 1] == s[i]);
        lemma_lookup_first(s.skip(1), k, i - 1);
    }
}

/// The position of the first entry of `s` with key `k`, or the length of
/// `s` if there is none.
pub open spec fn first_index(s: Seq<(Seq<u8>, Seq<u8>)>, k: Seq<u8>) -> int
    decreases s.len(),
{
    if s.len() == 0 {
        0
    } else if s[0].0 == k {
        0
    } else {
        1 + first_index(s.skip(1), k)
    }
}

/// What the lookup finds is the value at the first position with the key.
pub proof fn lemma_lookup_index(s: Seq<(Seq<u8>, Seq<u8>)>, k: Seq<u8>)
    ensures
        0 <= first_index(s, k) <= s.len(),
        forall|j: int| 0 <= j < first_index(s, k) ==> (#[trigger] s[j]).0 != k,
        lookup(s, k) is Some <==> first_index(s, k) < s.len(),
        lookup(s, k) is Some ==> s[first_index(s, k)] == (k, lookup(s, k)->0),
    decreases s.len(),
{
    if s.len() > 0 && s[0].0 != k {
        let t = s.skip(1);
        lemma_lookup_index(t, k);
        assert forall|j: int| 0 <= j < first_index(s, k) implies (#[trigger] s[j]).0 != k by {
            if j > 0 {
                assert(t[j - 1] == s[j]);
            }
        }
        if lookup(s, k) is Some {
            assert(t[first_index(t, k)] == s[first_index(s, k)]);
        }
    }
}

/// In a sorted sequence each key occurs once, so the lookup of the key at
/// `i` finds the value at `i`.
pub proof fn lemma_sorted_lookup(s: Seq<(Seq<u8>, Seq<u8>)>, i: int)
    requires
        sorted(s),
        0 <= i < s.len(),
    ensures
        lookup(s, s[i].0) == Some(s[i].1),
{
    assert forall|j: int| 0 <= j < i implies (#[trigger] s[j]).0 != s[i].0 by {
        lemma_lex_irreflexive(s[i].0);
    }
    lemma_lookup_first(s, s[i].0, i);
}

/// Two sorted sequences that stand for the same mapping are equal.
pub proof fn lemma_sorted_unique(a: Seq<(Seq<u8>, Seq<u8>)>, b: Seq<(Seq<u8>, Seq<u8>)>)
    requires
        sorted(a),
        sorted(b),
        forall|k: Seq<u8>| lookup(a, k) == lookup(b, k),
    ensures
        a == b,
    decreases a.len() + b.len(),
{
    if a.len() == 0 {
        if b.len() > 0 {
            lemma_sorted_lookup(b, 0);
            assert(lookup(a, b[0].0) is None);
        }
        assert(a =~= b);
    } else if b.len() == 0 {
        lemma_sorted_lookup(a, 0);
        assert(lookup(b, a[0].0) is None);
    } else {
        let la = a.len() - 1;
        let lb = b.len() - 1;
        // The greatest keys agree: each occurs in the other sequence, and
        // nothing there is greater than its last key.
        lemma_sorted_lookup(a, la);
        lemma_sorted_lookup(b, lb);
        lemma_lookup_index(b, a[la].0);
        lemma_lookup_index(a, b[lb].0);
        let ib = first_index(b, a[la].0);
        let ia = first_index(a, b[lb].0);
        assert(b[ib].0 == a[la].0);
        assert(a[ia].0 == b[lb].0);
        lemma_lex_total(a[la].0, b[lb].0);
        if lex_less(a[la].0, b[lb].0) {
            if ia < la {
                lemma_lex_transitive(a[ia].0, a[la].0, b[lb].0);
            }
            lemma_lex_irreflexive(b[lb].0);
            assert(false);
        }
        if lex_less(b[lb].0, a[la].0) {
            if ib < lb {
                lemma_lex_transitive(b[ib].0, b[lb].0, a[la].0);
            }
            lemma_lex_irreflexive(a[la].0);
            assert(false);
        }
        assert(a[la].0 == b[lb].0);
        assert(a[la] == b[lb]);
        let a1 = a.drop_last();
        let b1 = b.drop_last();
        assert(sorted(a1)) by {
            assert forall|i: int, j: int| 0 <= i < j < a1.len() implies lex_less(
                #[trigger] a1[i].0,
                #[trigger] a1[j].0,
            ) by {
                assert(a1[i] == a[i] && a1[j] == a[j]);
            }
        }
        assert(sorted(b1)) by {
            assert forall|i: int, j: int| 0 <= i < j < b1.len() implies lex_less(
                #[trigger] b1[i].0,
                #[trigger] b1[j].0,
            ) by {
                assert(b1[i] == b[i] && b1[j] == b[j]);
            }
        }
        assert forall|k: Seq<u8>| lookup(a1, k) == lookup(b1, k) by {
            lemma_drop_last_lookup(a, k);
            lemma_drop_last_lookup(b, k);
        }
        lemma_sorted_unique(a1, b1);
        assert(a =~= a1.push(a[la]));
        assert(b =~= b1.push(b[lb]));
    }
}

/// Dropping the last entry of a sorted sequence removes its key from the
/// mapping and leaves every other key as it was.
pub proof fn lemma_drop_last_lookup(s: Seq<(Seq<u8>, Seq<u8>)>, k: Seq<u8>)
    requires
        sorted(s),
        s.len() > 0,
    ensures
        lookup(s.drop_last(), k) == if k == s.last().0 {
            None
        } else {
            lookup(s, k)
        },
{
    let t = s.drop_last();
    let n = s.len() - 1;
    if k == s[n].0 {
        assert forall|j: int| 0 <= j < t.len() implies (#[trigger] t[j]).0 != k by {
            assert(t[j] == s[j]);
            lemma_lex_irreflexive(k);
        }
        lemma_lookup_absent(t, k);
    } else {
        lemma_lookup_index(s, k);
        lemma_lookup_index(t, k);
        let i = first_index(s, k);
        if i < s.len() {
            assert(i < n);
            assert(t[i] == s[i]);
            assert forall|j: int| 0 <= j < i implies (#[trigger] t[j]).0 != k by {
                assert(t[j] == s[j]);
            }
            lemma_lookup_first(t, k, i);
        } else {
            assert forall|j: int| 0 <= j < t.len() implies (#[trigger] t[j]).0 != k by {
                assert(t[j] == s[j]);
            }
            lemma_lookup_absent(t, k);
        }
    }
}

/// The byte count of a concatenation is the sum of the byte counts.
pub proof fn lemma_total_bytes_concat(a: Seq<(Seq<u8>, Seq<u8>)>, b: Seq<(Seq<u8>, Seq<u8>)>)
    ensures
        total_bytes(a + b) == total_bytes(a) + total_bytes(b),
    decreases b.len(),
{
    if b.len() == 0 {
        assert(a + b =~= a);
    } else {
        assert((a + b).drop_last() =~= a + b.drop_last());
        assert((a + b).last() == b.last());
        lemma_total_bytes_concat(a, b.drop_last());
    }
}

/// The byte count of a single entry.
pub proof fn lemma_total_bytes_single(e: (Seq<u8>, Seq<u8>))
    ensures
        total_bytes(seq![e]) == e.0.len() + e.1.len(),
{
    assert(seq![e].drop_last() =~= Seq::<(Seq<u8>, Seq<u8>)>::empty());
    assert(total_bytes(seq![e].drop_last()) == 0);
}

/// The byte count of a sequence is that of the sequence without the entry
/// at `i`, and the bytes of that entry.
pub proof fn lemma_total_bytes_bounds_key(s: Seq<(Seq<u8>, Seq<u8>)>, i: int)
    requires
        0 <= i < s.len(),
    ensures
        total_bytes(s) >= s[i].0.len() + s[i].1.len(),
        total_bytes(s) == total_bytes(s.remove(i)) + s[i].0.len() + s[i].1.len(),
{
    let a = s.subrange(0, i);
    let b = s.subrange(i + 1, s.len() as int);
    assert(s =~= a + seq![s[i]] + b);
    assert(s.remove(i) =~= a + b);
    lemma_total_bytes_concat(a + seq![s[i]], b);
    lemma_total_bytes_concat(a, seq![s[i]]);
    lemma_total_bytes_single(s[i]);
    lemma_total_bytes_concat(a, b);
}

/// Where `key` stands, or would stand, in the sorted vector `data`: the
/// position of its entry and `true`, or the position at which an entry for
/// it would keep the order and `false`.
pub fn find_key(data: &Vec<(Key, Value)>, key: &[u8]) -> (place: (usize, bool))
    requires
        sorted(data.deep_view()),
    ensures
        place.0 <= data.len(),
        forall|j: int| 0 <= j < place.0 ==> lex_less(#[trigger] data.deep_view()[j].0, key@),
        forall|j: int|
            (if place.1 {
                place.0 + 1
            } else {
                place.0 as int
            }) <= j < data.len() ==> lex_less(key@, #[trigger] data.deep_view()[j].0),
        place.1 ==> place.0 < data.len() && data.deep_view()[place.0 as int].0 == key@,
        place.1 <==> lookup(data.deep_view(), key@) is Some,
{
    let ghost s = data.deep_view();
    let mut low: usize = 0;
    let mut high: usize = data.len();
    while low < high
        invariant
            s == data.deep_view(),
            sorted(s),
            low <= high <= data.len(),
            forall|j: int| 0 <= j < low ==> lex_less(#[trigger] s[j].0, key@),
            forall|j: int| high <= j < data.len() ==> lex_less(key@, #[trigger] s[j].0),
        decreases high - low,
    {
        let mid: usize = low + (high - low) / 2;
        let probe: &(Key, Value) = &data[mid];
        assert(s[mid as int].0 == probe.0@);
        if bytes_less(probe.0.as_slice(), key) {
            assert forall|j: int| 0 <= j < mid + 1 implies lex_less(#[trigger] s[j].0, key@) by {
                if j < mid {
                    lemma_lex_transitive(s[j].0, s[mid as int].0, key@);
                }
            }
            low = mid + 1;
        } else if bytes_less(key, probe.0.as_slice()) {
            assert forall|j: int| mid <= j < data.len() implies lex_less(
                key@,
                #[trigger] s[j].0,
            ) by {
                if j > mid {
                    lemma_lex_transitive(key@, s[mid as int].0, s[j].0);
                }
            }
            high = mid;
        } else {
            proof {
                lemma_lex_total(s[mid as int].0, key@);
                assert forall|j: int| 0 <= j < mid implies lex_less(#[trigger] s[j].0, key@) by {}
                assert forall|j: int| mid + 1 <= j < data.len() implies lex_less(
                    key@,
                    #[trigger] s[j].0,
                ) by {}
                lemma_sorted_lookup(s, mid as int);
            }
            return (mid, true);
        }
    }
    proof {
        assert forall|j: int| 0 <= j < s.len() implies (#[trigger] s[j]).0 != key@ by {
            lemma_lex_irreflexive(key@);
        }
        lemma_lookup_absent(s, key@);
    }
    (low, false)
}

/// Puts the entry `(key, value)` into the sorted vector `data`, in place of
/// an entry with the same key if there is one, and returns the value that
/// was replaced.
pub fn put_entry(data: &mut Vec<(Key, Value)>, key: Key, value: Value) -> (previous: Option<Value>)
    requires
        sorted(old(data).deep_view()),
    ensures
        sorted(final(data).deep_view()),
        forall|k: Seq<u8>|
            lookup(final(data).deep_view(), k) == if k == key@ {
                Some(value@)
            } else {
                lookup(old(data).deep_view(), k)
            },
        previous.deep_view() == lookup(old(data).deep_view(), key@),
        total_bytes(final(data).deep_view()) + bytes_of_key(old(data).deep_view(), key@)
            == total_bytes(old(data).deep_view()) + key@.len() + value@.len(),
{
    let ghost s0 = data.deep_view();
    let ghost e = (key@, value@);
    let (pos, found) = find_key(data, key.as_slice());
    let previous = if found {
        let old_entry = data.remove(pos);
        proof {
            lemma_sorted_lookup(s0, pos as int);
            lemma_total_bytes_bounds_key(s0, pos as int);
            assert(data.deep_view() =~= s0.remove(pos as int));
        }
        Some(old_entry.1)
    } else {
        None
    };
    let ghost s1 = data.deep_view();
    let ghost v1 = data@;
    let ghost item = (key, value);
    data.insert(pos, (key, value));
    proof {
        let s2 = data.deep_view();
        assert(data@ == v1.insert(pos as int, item));
        assert forall|i: int| 0 <= i < s2.len() implies s2[i] == s1.insert(pos as int, e)[i] by {
            if i < pos {
                assert(data@[i] == v1[i]);
            } else if i > pos {
                assert(data@[i] == v1[i - 1]);
            }
        }
        assert(s2 =~= s1.insert(pos as int, e));
        assert(s2.remove(pos as int) =~= s1);
        lemma_total_bytes_bounds_key(s2, pos as int);
        assert forall|i: int, j: int| 0 <= i < j < s2.len() implies lex_less(
            #[trigger] s2[i].0,
            #[trigger] s2[j].0,
        ) by {
            let oi = if i < pos { i } else if found { i } else { i - 1 };
            let oj = if j < pos { j } else if found { j } else { j - 1 };
            if i != pos {
                assert(s2[i] == s0[oi]);
            }
            if j != pos {
                assert(s2[j] == s0[oj]);
            }
        }
        assert forall|k: Seq<u8>|
            lookup(s2, k) == if k == key@ {
                Some(value@)
            } else {
                lookup(s0, k)
            } by {
            if k == key@ {
                lemma_sorted_lookup(s2, pos as int);
            } else {
                lemma_lookup_index(s0, k);
                lemma_lookup_index(s2, k);
                let i0 = first_index(s0, k);
                let i2 = first_index(s2, k);
                if i0 < s0.len() {
                    let t = if i0 < pos { i0 } else if found { i0 } else { i0 + 1 };
                    assert(s2[t] == s0[i0]);
                    lemma_sorted_lookup(s2, t);
                    lemma_sorted_lookup(s0, i0);
                } else if i2 < s2.len() {
                    let t = if i2 < pos { i2 } else if found { i2 } else { i2 - 1 };
                    assert(s0[t] == s2[i2]);
                    assert(false);
                }
            }
        }
    }
    previous
}

/// Takes the entry for `key` out of the sorted vector `data` and returns
/// its value; leaves `data` as it is if it has no such entry.
pub fn take_entry(data: &mut Vec<(Key, Value)>, key: &[u8]) -> (removed: Option<Value>)
    requires
        sorted(old(data).deep_view()),
    ensures
        sorted(final(data).deep_view()),
        forall|k: Seq<u8>|
            lookup(final(data).deep_view(), k) == if k == key@ {
                None
            } else {
                lookup(old(data).deep_view(), k)
            },
        removed.deep_view() == lookup(old(data).deep_view(), key@),
        total_bytes(final(data).deep_view()) + bytes_of_key(old(data).deep_view(), key@)
            == total_bytes(old(data).deep_view()),
{
    let ghost s0 = data.deep_view();
    let (pos, found) = find_key(data, key);
    if !found {
        proof {
            assert forall|k: Seq<u8>|
                lookup(s0, k) == if k == key@ {
                    None
                } else {
                    lookup(s0, k)
                } by {}
        }
        return None;
    }
    let old_entry = data.remove(pos);
    proof {
        let s1 = data.deep_view();
        lemma_sorted_lookup(s0, pos as int);
        lemma_total_bytes_bounds_key(s0, pos as int);
        assert(s1 =~= s0.remove(pos as int));
        assert forall|i: int, j: int| 0 <= i < j < s1.len() implies lex_less(
            #[trigger] s1[i].0,
            #[trigger] s1[j].0,
        ) by {
            let oi = if i < pos { i } else { i + 1 };
            let oj = if j < pos { j } else { j + 1 };
            assert(s1[i] == s0[oi]);
            assert(s1[j] == s0[oj]);
        }
        assert forall|k: Seq<u8>|
            lookup(s1, k) == if k == key@ {
                None
            } else {
                lookup(s0, k)
            } by {
            lemma_lookup_index(s0, k);
            lemma_lookup_index(s1, k);
            let i0 = first_index(s0, k);
            let i1 = first_index(s1, k);
            if k == key@ {
                if i1 < s1.len() {
                    let t = if i1 < pos { i1 } else { i1 + 1 };
                    assert(s0[t] == s1[i1]);
                    lemma_lex_irreflexive(k);
                    assert(s0[pos as int].0 == k && s0[t].0 == k);
                    if t < pos {
                        assert(lex_less(s0[t].0, s0[pos as int].0));
                    } else {
                        assert(lex_less(s0[pos as int].0, s0[t].0));
                    }
                    assert(false);
                }
            } else if i0 < s0.len() {
                let t = if i0 < pos { i0 } else { i0 - 1 };
                assert(s1[t] == s0[i0]);
                lemma_sorted_lookup(s1, t);
                lemma_sorted_lookup(s0, i0);
            } else if i1 < s1.len() {
                let t = if i1 < pos { i1 } else { i1 + 1 };
                assert(s0[t] == s1[i1]);
                assert(false);
            }
        }
    }
    Some(old_entry.1)
}

/// The bytes of one key never exceed the byte count of the whole sequence.
pub proof fn lemma_bytes_of_key_bounded(s: Seq<(Seq<u8>, Seq<u8>)>, k: Seq<u8>)
    ensures
        bytes_of_key(s, k) <= total_bytes(s),
{
    lemma_lookup_index(s, k);
    if lookup(s, k) is Some {
        lemma_total_bytes_bounds_key(s, first_index(s, k));
    }
}

/// A sorted sequence has as many entries as its mapping has keys.
pub proof fn lemma_as_map_len(s: Seq<(Seq<u8>, Seq<u8>)>)
    requires
        sorted(s),
    ensures
        as_map(s).dom().finite(),
        as_map(s).dom().len() == s.len(),
    decreases s.len(),
{
    if s.len() == 0 {
        assert(as_map(s).dom() =~= Set::<Seq<u8>>::empty());
    } else {
        let t = s.drop_last();
        assert(sorted(t)) by {
            assert forall|i: int, j: int| 0 <= i < j < t.len() implies lex_less(
                #[trigger] t[i].0,
                #[trigger] t[j].0,
            ) by {
                assert(t[i] == s[i] && t[j] == s[j]);
            }
        }
        lemma_as_map_len(t);
        lemma_sorted_lookup(s, s.len() - 1);
        assert forall|k: Seq<u8>| as_map(s).dom().contains(k) == as_map(t).dom().insert(
            s.last().0,
        ).contains(k) by {
            lemma_drop_last_lookup(s, k);
        }
        assert(as_map(s).dom() =~= as_map(t).dom().insert(s.last().0));
        lemma_drop_last_lookup(s, s.last().0);
        assert(!as_map(t).dom().contains(s.last().0));
    }
}

/// A copy of the entries of `data`, in the same order.
pub fn clone_entries(data: &Vec<(Key, Value)>) -> (copy: Vec<(Key, Value)>)
    ensures
        copy.deep_view() == data.deep_view(),
{
    let mut copy: Vec<(Key, Value)> = Vec::new();
    let mut i: usize = 0;
    while i < data.len()
        invariant
            i <= data.len(),
            copy.len() == i,
            forall|j: int| 0 <= j < i ==> #[trigger] copy.deep_view()[j] == data.deep_view()[j],
        decreases data.len() - i,
    {
        let entry: &(Key, Value) = &data[i];
        let key = crate::bytes::copy_range(entry.0.as_slice(), 0, entry.0.len());
        let value = crate::bytes::copy_range(entry.1.as_slice(), 0, entry.1.len());
        assert(key@ =~= entry.0@ && value@ =~= entry.1@);
        let ghost before = copy.deep_view();
        copy.push((key, value));
        assert forall|j: int| 0 <= j < i + 1 implies #[trigger] copy.deep_view()[j]
            == data.deep_view()[j] by {
            if j < i {
                assert(copy.deep_view()[j] == before[j]);
            }
        }
        i += 1;
    }
    assert(copy.deep_view() =~= data.deep_view());
    copy
}

/// The sorted sequence of entries that stands for the mapping `m`.
pub open spec fn entries_of(m: Map<Seq<u8>, Seq<u8>>) -> Seq<(Seq<u8>, Seq<u8>)> {
    choose|s: Seq<(Seq<u8>, Seq<u8>)>| sorted(s) && as_map(s) == m
}

/// A sorted sequence is the one that stands for its mapping.
pub proof fn lemma_entries_of(s: Seq<(Seq<u8>, Seq<u8>)>)
    requires
        sorted(s),
    ensures
        entries_of(as_map(s)) == s,
{
    let t = entries_of(as_map(s));
    assert(sorted(t) && as_map(t) == as_map(s));
    assert forall|k: Seq<u8>| lookup(t, k) == lookup(s, k) by {
        assert(as_map(t).contains_key(k) == as_map(s).contains_key(k));
        if lookup(s, k) is Some {
            assert(as_map(t)[k] == as_map(s)[k]);
        }
    }
    lemma_sorted_unique(t, s);
}

} // verus!
