//! The level map: the tables of each level, oldest first, and the order
//! that the sequence numbers in their names give them after a restart.
use vstd::prelude::*;
use crate::bytes::copy_range;
use crate::naming::{parse_table_name, read_table_name};
use crate::sstable::SSTable;
use std::collections::HashMap;

verus! {

/// The tables that the level map `levels` holds at `level`, oldest first.
pub open spec fn tables_in(levels: Map<usize, Vec<SSTable>>, level: nat) -> Seq<SSTable> {
    if level <= usize::MAX && levels.contains_key(level as usize) {
        levels[level as usize]@
    } else {
        Seq::empty()
    }
}

/// The paths of `tables`, in order.
pub open spec fn paths_of(tables: Seq<SSTable>) -> Seq<Seq<u8>> {
    Seq::new(tables.len(), |i: int| tables[i].path())
}

/// The sequence number in the name of `table`, and zero if its path is no
/// table name.
pub open spec fn sequence_of(table: SSTable) -> nat {
    match parse_table_name(table.path()) {
        Some((_, seq)) => seq,
        None => 0,
    }
}

/// Where a table with sequence number `seq` goes among the first `below`
/// of `tables`: behind the last of them whose sequence number is not
/// greater.
pub open spec fn place_below(tables: Seq<SSTable>, seq: nat, below: int) -> int
    decreases below,
{
    if below <= 0 {
        0
    } else if sequence_of(tables[below - 1]) <= seq {
        below
    } else {
        place_below(tables, seq, below - 1)
    }
}

/// The list `tables` with `table` put in by its sequence number.
pub open spec fn with_table(tables: Seq<SSTable>, table: SSTable) -> Seq<SSTable> {
    tables.insert(place_below(tables, sequence_of(table), tables.len() as int), table)
}

/// The tables among `tables` whose names place them at `level`, in the
/// order of their sequence numbers, and in the order in which they come
/// where these are equal.
pub open spec fn tables_named(tables: Seq<SSTable>, level: nat) -> Seq<SSTable>
    decreases tables.len(),
{
    if tables.len() == 0 {
        Seq::empty()
    } else {
        let before = tables_named(tables.drop_last(), level);
        match parse_table_name(tables.last().path()) {
            Some((l, _)) => if l == level {
                with_table(before, tables.last())
            } else {
                before
            },
            None => before,
        }
    }
}

/// The sequence numbers of `tables` do not fall from one to the next.
pub open spec fn ordered(tables: Seq<SSTable>) -> bool {
    forall|i: int, j: int|
        0 <= i < j < tables.len() ==> sequence_of(#[trigger] tables[i]) <= sequence_of(
            #[trigger] tables[j],
        )
}

/// The highest level for which one of `tables` is named, and zero if none
/// of them has a table name.
pub open spec fn highest_level(tables: Seq<SSTable>) -> nat
    decreases tables.len(),
{
    if tables.len() == 0 {
        0
    } else {
        let before = highest_level(tables.drop_last());
        match parse_table_name(tables.last().path()) {
            Some((level, _)) => if level > before {
                level
            } else {
                before
            },
            None => before,
        }
    }
}

/// The sequence number after the greatest among the names of `tables`,
/// and no more than `u64` holds; zero if none of them has a table name.
pub open spec fn sequence_after(tables: Seq<SSTable>) -> nat
    decreases tables.len(),
{
    if tables.len() == 0 {
        0
    } else {
        let before = sequence_after(tables.drop_last());
        match parse_table_name(tables.last().path()) {
            Some((_, seq)) => if seq + 1 > u64::MAX {
                u64::MAX as nat
            } else if seq + 1 > before {
                seq + 1
            } else {
                before
            },
            None => before,
        }
    }
}

/// Every table handle in the level map is well formed.
pub open spec fn handles_wf(levels: Map<usize, Vec<SSTable>>) -> bool {
    forall|level: usize, i: int|
        levels.contains_key(level) && 0 <= i < levels[level]@.len() ==> (
        #[trigger] levels[level]@[i]).wf()
}

/// Adds `table` at the end of the list of `level`.
pub(crate) fn append_table(levels: &mut HashMap<usize, Vec<SSTable>>, level: usize, table: SSTable)
    requires
        handles_wf(old(levels)@),
        table.wf(),
    ensures
        handles_wf(final(levels)@),
        tables_in(final(levels)@, level as nat) == tables_in(old(levels)@, level as nat).push(
            table,
        ),
        forall|other: nat|
            other != level ==> tables_in(final(levels)@, other) == tables_in(old(levels)@, other),
        final(levels)@.dom() == old(levels)@.dom().insert(level),
{
    let mut list: Vec<SSTable> = match levels.remove(&level) {
        Some(list) => list,
        None => Vec::new(),
    };
    assert(list@ =~= tables_in(old(levels)@, level as nat));
    list.push(table);
    levels.insert(level, list);
    assert(levels@.dom() =~= old(levels)@.dom().insert(level));
    assert forall|l: usize, i: int|
        levels@.contains_key(l) && 0 <= i < levels@[l]@.len() implies (
    #[trigger] levels@[l]@[i]).wf() by {
        if l == level {
            if i < list@.len() - 1 {
                assert(old(levels)@[l]@[i].wf());
            }
        } else {
            assert(old(levels)@[l]@[i].wf());
        }
    }
}

/// Puts `table`, whose name has the sequence number `seq`, into the list of
/// `level` by that number.
pub(crate) fn insert_table(levels: &mut HashMap<usize, Vec<SSTable>>, level: usize, table: SSTable, seq: u64)
    requires
        handles_wf(old(levels)@),
        table.wf(),
        sequence_of(table) == seq,
    ensures
        handles_wf(final(levels)@),
        tables_in(final(levels)@, level as nat) == with_table(
            tables_in(old(levels)@, level as nat),
            table,
        ),
        forall|other: nat|
            other != level ==> tables_in(final(levels)@, other) == tables_in(old(levels)@, other),
        final(levels)@.dom() == old(levels)@.dom().insert(level),
{
    let mut list: Vec<SSTable> = match levels.remove(&level) {
        Some(list) => list,
        None => Vec::new(),
    };
    assert(list@ =~= tables_in(old(levels)@, level as nat));
    let ghost before = list@;
    let mut at: usize = list.len();
    let mut searching = true;
    while searching && at > 0
        invariant
            at <= list.len(),
            list@ == before,
            place_below(before, seq as nat, before.len() as int) == place_below(
                before,
                seq as nat,
                at as int,
            ),
            !searching ==> at > 0 && sequence_of(before[at - 1]) <= seq,
        decreases at + (if searching { 1int } else { 0int }),
    {
        let other: u64 = match read_table_name(list[at - 1].get_path().as_slice()) {
            Some((_, number)) => number,
            None => 0,
        };
        assert(other == sequence_of(before[at - 1]));
        if other <= seq {
            searching = false;
        } else {
            at -= 1;
        }
    }
    assert(at == place_below(before, seq as nat, before.len() as int));
    list.insert(at, table);
    assert(list@ =~= with_table(before, table));
    levels.insert(level, list);
    assert(levels@.dom() =~= old(levels)@.dom().insert(level));
    assert forall|l: usize, i: int|
        levels@.contains_key(l) && 0 <= i < levels@[l]@.len() implies (
    #[trigger] levels@[l]@[i]).wf() by {
        if l == level {
            if i < at {
                assert(levels@[l]@[i] == before[i]);
                assert(old(levels)@[l]@[i].wf());
            } else if i > at {
                assert(levels@[l]@[i] == before[i - 1]);
                assert(old(levels)@[l]@[i - 1].wf());
            }
        } else {
            assert(old(levels)@[l]@[i].wf());
        }
    }
}

/// Empties the list of `level`.
pub(crate) fn clear_level(levels: &mut HashMap<usize, Vec<SSTable>>, level: usize)
    requires
        handles_wf(old(levels)@),
    ensures
        handles_wf(final(levels)@),
        tables_in(final(levels)@, level as nat) == Seq::<SSTable>::empty(),
        forall|other: nat|
            other != level ==> tables_in(final(levels)@, other) == tables_in(old(levels)@, other),
        final(levels)@.dom() == old(levels)@.dom().insert(level),
{
    levels.insert(level, Vec::new());
    assert(levels@.dom() =~= old(levels)@.dom().insert(level));
    assert(tables_in(levels@, level as nat) =~= Seq::<SSTable>::empty());
    assert forall|l: usize, i: int|
        levels@.contains_key(l) && 0 <= i < levels@[l]@.len() implies (
    #[trigger] levels@[l]@[i]).wf() by {
        if l != level {
            assert(old(levels)@[l]@[i].wf());
        }
    }
}

/// The paths of `tables`, in order.
pub(crate) fn copy_paths(tables: &Vec<SSTable>) -> (paths: Vec<Vec<u8>>)
    ensures
        paths.deep_view() == paths_of(tables@),
{
    let mut paths: Vec<Vec<u8>> = Vec::new();
    let mut i: usize = 0;
    while i < tables.len()
        invariant
            i <= tables.len(),
            paths.len() == i,
            forall|j: int| 0 <= j < i ==> #[trigger] paths.deep_view()[j] == tables@[j].path(),
        decreases tables.len() - i,
    {
        let path = tables[i].get_path();
        let copy = copy_range(path.as_slice(), 0, path.len());
        assert(copy@ =~= path@);
        assert(copy.deep_view() =~= copy@);
        let ghost before = paths.deep_view();
        paths.push(copy);
        assert forall|j: int| 0 <= j < i + 1 implies #[trigger] paths.deep_view()[j]
            == tables@[j].path() by {
            if j < i {
                assert(paths.deep_view()[j] == before[j]);
            }
        }
        i += 1;
    }
    assert(paths.deep_view() =~= paths_of(tables@));
    paths
}

/// The place of a table lies within the tables searched.
pub proof fn lemma_place_index(tables: Seq<SSTable>, seq: nat, below: int)
    requires
        0 <= below <= tables.len(),
    ensures
        0 <= place_below(tables, seq, below) <= below,
    decreases below,
{
    if below > 0 && sequence_of(tables[below - 1]) > seq {
        lemma_place_index(tables, seq, below - 1);
    }
}

/// The place of a table by its sequence number lies behind every table
/// with a smaller or equal number and before every table with a greater
/// one, in a list in which the numbers do not fall.
pub proof fn lemma_place_below(tables: Seq<SSTable>, seq: nat, below: int)
    requires
        ordered(tables),
        0 <= below <= tables.len(),
    ensures
        0 <= place_below(tables, seq, below) <= below,
        forall|i: int|
            0 <= i < place_below(tables, seq, below) ==> sequence_of(#[trigger] tables[i]) <= seq,
        forall|i: int|
            place_below(tables, seq, below) <= i < below ==> sequence_of(#[trigger] tables[i])
                > seq,
    decreases below,
{
    if below > 0 {
        if sequence_of(tables[below - 1]) <= seq {
            assert forall|i: int| 0 <= i < below implies sequence_of(#[trigger] tables[i])
                <= seq by {
                if i < below - 1 {
                    assert(sequence_of(tables[i]) <= sequence_of(tables[below - 1]));
                }
            }
        } else {
            lemma_place_below(tables, seq, below - 1);
        }
    }
}

/// Putting a table in by its sequence number keeps the numbers from
/// falling; a table whose number is not smaller than any in the list comes
/// last.
pub proof fn lemma_with_table(tables: Seq<SSTable>, table: SSTable)
    requires
        ordered(tables),
    ensures
        ordered(with_table(tables, table)),
        with_table(tables, table).len() == tables.len() + 1,
        (forall|i: int| 0 <= i < tables.len() ==> sequence_of(#[trigger] tables[i]) <= sequence_of(
            table,
        )) ==> with_table(tables, table) == tables.push(table),
{
    let seq = sequence_of(table);
    let at = place_below(tables, seq, tables.len() as int);
    let after = with_table(tables, table);
    lemma_place_below(tables, seq, tables.len() as int);
    assert forall|i: int, j: int| 0 <= i < j < after.len() implies sequence_of(
        #[trigger] after[i],
    ) <= sequence_of(#[trigger] after[j]) by {
        if i < at {
            assert(after[i] == tables[i]);
        } else if i > at {
            assert(after[i] == tables[i - 1]);
        }
        if j < at {
            assert(after[j] == tables[j]);
        } else if j > at {
            assert(after[j] == tables[j - 1]);
        }
    }
    if forall|i: int| 0 <= i < tables.len() ==> sequence_of(#[trigger] tables[i]) <= seq {
        if at < tables.len() {
            assert(sequence_of(tables[at]) > seq);
        }
        assert(after =~= tables.push(table));
    }
}

/// The tables of a level after a restart are in the order of their
/// sequence numbers.
pub proof fn lemma_tables_named_ordered(tables: Seq<SSTable>, level: nat)
    ensures
        ordered(tables_named(tables, level)),
    decreases tables.len(),
{
    if tables.len() > 0 {
        lemma_tables_named_ordered(tables.drop_last(), level);
        lemma_with_table(tables_named(tables.drop_last(), level), tables.last());
    }
}

/// Where every handle named for `level` has a sequence number below
/// `bound`, so has every table of the level after a restart.
pub proof fn lemma_sequences_below(tables: Seq<SSTable>, level: nat, bound: nat)
    requires
        forall|i: int|
            0 <= i < tables.len() ==> (parse_table_name(
                (#[trigger] tables[i]).path(),
            ) matches Some((l, seq)) ==> l != level || seq < bound),
    ensures
        forall|i: int|
            0 <= i < tables_named(tables, level).len() ==> sequence_of(
                #[trigger] tables_named(tables, level)[i],
            ) < bound,
    decreases tables.len(),
{
    if tables.len() > 0 {
        let rest = tables.drop_last();
        let before = tables_named(rest, level);
        let last = tables.last();
        assert forall|i: int| 0 <= i < rest.len() implies (parse_table_name(
            (#[trigger] rest[i]).path(),
        ) matches Some((l, seq)) ==> l != level || seq < bound) by {
            assert(rest[i] == tables[i]);
        }
        lemma_sequences_below(rest, level, bound);
        match parse_table_name(last.path()) {
            Some((l, seq)) => {
                if l == level {
                    let at = place_below(before, seq, before.len() as int);
                    lemma_place_index(before, seq, before.len() as int);
                    let after = with_table(before, last);
                    assert(tables[tables.len() - 1] == last);
                    assert forall|i: int| 0 <= i < after.len() implies sequence_of(
                        #[trigger] after[i],
                    ) < bound by {
                        if i < at {
                            assert(after[i] == before[i]);
                        } else if i > at {
                            assert(after[i] == before[i - 1]);
                        }
                    }
                }
            },
            None => {},
        }
    }
}

/// After a restart the table with the greatest sequence number of a level
/// is the newest of the level, wherever it stood among the handles: if the
/// handle at `j` is named for `level` and every other handle named for
/// `level` has a smaller sequence number, it is the last of the level.
pub proof fn lemma_greatest_sequence_is_newest(tables: Seq<SSTable>, level: nat, j: int)
    requires
        0 <= j < tables.len(),
        parse_table_name(tables[j].path()) matches Some((l, _)) && l == level,
        forall|i: int|
            0 <= i < tables.len() && i != j ==> (parse_table_name(
                (#[trigger] tables[i]).path(),
            ) matches Some((l, seq)) ==> l != level || seq < sequence_of(tables[j])),
    ensures
        tables_named(tables, level).len() > 0,
        tables_named(tables, level).last() == tables[j],
        forall|i: int|
            0 <= i < tables_named(tables, level).len() - 1 ==> sequence_of(
                #[trigger] tables_named(tables, level)[i],
            ) < sequence_of(tables[j]),
    decreases tables.len(),
{
    let n = sequence_of(tables[j]);
    let rest = tables.drop_last();
    let before = tables_named(rest, level);
    let last = tables.last();
    if j == tables.len() - 1 {
        lemma_sequences_below(rest, level, n);
        lemma_tables_named_ordered(rest, level);
        lemma_with_table(before, last);
        assert(with_table(before, last) == before.push(last));
    } else {
        assert(rest[j] == tables[j]);
        assert forall|i: int| 0 <= i < rest.len() && i != j implies (parse_table_name(
            (#[trigger] rest[i]).path(),
        ) matches Some((l, seq)) ==> l != level || seq < sequence_of(rest[j])) by {
            assert(rest[i] == tables[i]);
        }
        lemma_greatest_sequence_is_newest(rest, level, j);
        match parse_table_name(last.path()) {
            Some((l, seq)) => {
                if l == level {
                    let at = place_below(before, seq, before.len() as int);
                    assert(seq < n) by {
                        assert(tables[tables.len() - 1] == last);
                    }
                    assert(before[before.len() - 1] == tables[j]);
                    lemma_place_index(before, seq, before.len() - 1);
                    assert(at <= before.len() - 1);
                    let after = with_table(before, last);
                    assert(after.last() == before.last());
                    assert forall|i: int| 0 <= i < after.len() - 1 implies sequence_of(
                        #[trigger] after[i],
                    ) < n by {
                        if i < at {
                            assert(after[i] == before[i]);
                        } else if i > at {
                            assert(after[i] == before[i - 1]);
                        }
                    }
                }
            },
            None => {},
        }
    }
}

/// No sequence number among the handles reaches the sequence number that
/// comes after them, where that has not run out.
pub proof fn lemma_sequence_after(tables: Seq<SSTable>, i: int)
    requires
        0 <= i < tables.len(),
        sequence_after(tables) < u64::MAX,
    ensures
        parse_table_name(tables[i].path()) matches Some((_, seq)) ==> seq < sequence_after(tables),
    decreases tables.len(),
{
    if i < tables.len() - 1 {
        assert(tables.drop_last()[i] == tables[i]);
        lemma_sequence_after(tables.drop_last(), i);
    }
}

} // verus!
