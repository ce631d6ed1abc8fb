//! Compaction: when a level is due to be merged into the next one, and the
//! merge of the tables of a level into one sorted run.
use vstd::prelude::*;
use crate::bytes::copy_range;
use crate::entries::{find_key, lookup, put_entry, sorted, lemma_sorted_unique};
use crate::sstable::SSTable;
use crate::{Key, Value};

verus! {

/// The number of files from which level 0 is due for compaction.
pub const LEVEL_ZERO_FILE_LIMIT: usize = 4;

/// `base` to the power of `exponent`.
pub open spec fn power(base: nat, exponent: nat) -> nat
    decreases exponent,
{
    if exponent == 0 {
        1
    } else {
        base * power(base, (exponent - 1) as nat)
    }
}

/// The sum of the cached sizes of `tables`.
pub open spec fn total_size(tables: Seq<SSTable>) -> nat
    decreases tables.len(),
{
    if tables.len() == 0 {
        0
    } else {
        total_size(tables.drop_last()) + tables.last().cached_size()
    }
}

/// The size from which a level other than level 0 is due for compaction:
/// the size threshold times the multiplier to the power of the level.
pub open spec fn level_threshold(size_threshold: nat, multiplier: nat, level: nat) -> nat {
    size_threshold * power(multiplier, level)
}

/// Whether a level is due for compaction: level 0 when it holds four files
/// or more, whatever their size; another level when the sizes of its
/// files add up to its threshold or more.
pub open spec fn compaction_due(
    size_threshold: nat,
    multiplier: nat,
    level: nat,
    tables: Seq<SSTable>,
) -> bool {
    if level == 0 {
        tables.len() >= LEVEL_ZERO_FILE_LIMIT
    } else {
        total_size(tables) >= level_threshold(size_threshold, multiplier, level)
    }
}

/// The value that the merge of `tables` gives to `key`: that of the last
/// table in which the key occurs and, within that table, of its first
/// occurrence. The tables come oldest first.
pub open spec fn newest_value(tables: Seq<Seq<(Seq<u8>, Seq<u8>)>>, key: Seq<u8>) -> Option<
    Seq<u8>,
>
    decreases tables.len(),
{
    if tables.len() == 0 {
        None
    } else {
        match newest_value(tables.skip(1), key) {
            Some(value) => Some(value),
            None => lookup(tables[0], key),
        }
    }
}

/// The merge of `tables`: the entries in ascending key order in which each
/// key that occurs in a table has its newest value.
pub open spec fn merge_of(tables: Seq<Seq<(Seq<u8>, Seq<u8>)>>) -> Seq<(Seq<u8>, Seq<u8>)> {
    choose|s: Seq<(Seq<u8>, Seq<u8>)>|
        sorted(s) && forall|key: Seq<u8>| lookup(s, key) == newest_value(tables, key)
}

/// A sorted sequence that gives each key its newest value is the merge.
pub proof fn lemma_merge_of(tables: Seq<Seq<(Seq<u8>, Seq<u8>)>>, s: Seq<(Seq<u8>, Seq<u8>)>)
    requires
        sorted(s),
        forall|key: Seq<u8>| lookup(s, key) == newest_value(tables, key),
    ensures
        merge_of(tables) == s,
{
    let t = merge_of(tables);
    assert(sorted(t) && forall|key: Seq<u8>| lookup(t, key) == newest_value(tables, key));
    lemma_sorted_unique(t, s);
}

/// What `first` finds, and what `second` finds where `first` finds nothing.
pub open spec fn or_else(first: Option<Seq<u8>>, second: Option<Seq<u8>>) -> Option<Seq<u8>> {
    match first {
        Some(value) => Some(value),
        None => second,
    }
}

/// Powers of a base of at least one are at least one and do not fall as
/// the exponent grows.
pub proof fn lemma_power_grows(base: nat, low: nat, high: nat)
    requires
        base >= 1,
        low <= high,
    ensures
        1 <= power(base, low) <= power(base, high),
    decreases high,
{
    if low == 0 {
        if high > 0 {
            lemma_power_grows(base, 0, (high - 1) as nat);
            assert(power(base, high) >= power(base, (high - 1) as nat)) by (nonlinear_arith)
                requires
                    power(base, high) == base * power(base, (high - 1) as nat),
                    base >= 1,
            ;
        }
    } else {
        lemma_power_grows(base, (low - 1) as nat, (high - 1) as nat);
        assert(base * power(base, (low - 1) as nat) <= base * power(base, (high - 1) as nat))
            by (nonlinear_arith)
            requires
                power(base, (low - 1) as nat) <= power(base, (high - 1) as nat),
                base >= 1,
        ;
        assert(base * power(base, (low - 1) as nat) >= 1) by (nonlinear_arith)
            requires
                power(base, (low - 1) as nat) >= 1,
                base >= 1,
        ;
    }
}

/// A lookup in a sequence with one more entry at its end finds what it
/// found before, and the new entry where it found nothing.
pub proof fn lemma_lookup_push(
    entries: Seq<(Seq<u8>, Seq<u8>)>,
    entry: (Seq<u8>, Seq<u8>),
    key: Seq<u8>,
)
    ensures
        lookup(entries.push(entry), key) == or_else(
            lookup(entries, key),
            if entry.0 == key {
                Some(entry.1)
            } else {
                None
            },
        ),
    decreases entries.len(),
{
    let all = entries.push(entry);
    if entries.len() == 0 {
        assert(all.skip(1) =~= Seq::empty());
        assert(all[0] == entry);
        assert(lookup(all.skip(1), key) is None);
        assert(lookup(entries, key) is None);
    } else {
        assert(all[0] == entries[0]);
        assert(all.skip(1) =~= entries.skip(1).push(entry));
        lemma_lookup_push(entries.skip(1), entry, key);
    }
}

/// The policy and the mechanism of compaction.
pub struct CompactionManager {
    level_multiplier: u32,
    size_threshold: usize,
}

impl CompactionManager {
    /// The factor by which the threshold grows from one level to the next.
    pub closed spec fn multiplier(&self) -> nat {
        self.level_multiplier as nat
    }

    /// The size in bytes from which level 1 would be due, were the
    /// multiplier one.
    pub closed spec fn threshold(&self) -> nat {
        self.size_threshold as nat
    }

    /// Whether the level `level`, which holds `tables`, is due for
    /// compaction.
    pub open spec fn due(&self, level: nat, tables: Seq<SSTable>) -> bool {
        compaction_due(self.threshold(), self.multiplier(), level, tables)
    }

    /// A manager with the given multiplier and size threshold.
    pub fn new(level_multiplier: u32, size_threshold: usize) -> (manager: Self)
        ensures
            manager.multiplier() == level_multiplier,
            manager.threshold() == size_threshold,
    {
        CompactionManager { level_multiplier, size_threshold }
    }

    /// Whether the level `level`, which holds `tables`, is due for
    /// compaction.
    pub fn should_compact(&self, level: usize, tables: &[SSTable]) -> (due: bool)
        ensures
            due == self.due(level as nat, tables@),
    {
        if level == 0 {
            return tables.len() >= LEVEL_ZERO_FILE_LIMIT;
        }
        let total: u128 = Self::level_size(tables);
        let ghost goal = level_threshold(self.threshold(), self.multiplier(), level as nat);
        if self.size_threshold == 0 {
            assert(goal == 0) by (nonlinear_arith)
                requires
                    goal == 0 * power(self.multiplier(), level as nat),
            ;
            return true;
        }
        if self.level_multiplier == 0 {
            assert(goal == 0) by (nonlinear_arith)
                requires
                    goal == self.threshold() * (0 * power(0, (level - 1) as nat)),
            ;
            return true;
        }
        let factor: u128 = self.level_multiplier as u128;
        let mut reached: u128 = self.size_threshold as u128;
        let mut i: usize = 0;
        assert(reached == self.threshold() * power(self.multiplier(), 0)) by (nonlinear_arith)
            requires
                reached == self.threshold(),
                power(self.multiplier(), 0) == 1,
        ;
        while i < level
            invariant
                i <= level,
                level > 0,
                total == total_size(tables@),
                factor == self.multiplier(),
                factor >= 1,
                self.threshold() >= 1,
                goal == level_threshold(self.threshold(), self.multiplier(), level as nat),
                reached == self.threshold() * power(self.multiplier(), i as nat),
            decreases level - i,
        {
            proof {
                lemma_power_grows(self.multiplier(), i as nat, level as nat);
                assert(reached <= goal) by (nonlinear_arith)
                    requires
                        reached == self.threshold() * power(self.multiplier(), i as nat),
                        goal == self.threshold() * power(self.multiplier(), level as nat),
                        power(self.multiplier(), i as nat) <= power(
                            self.multiplier(),
                            level as nat,
                        ),
                ;
            }
            if reached > total {
                return false;
            }
            let ghost next = self.threshold() * power(self.multiplier(), (i + 1) as nat);
            proof {
                lemma_power_grows(self.multiplier(), (i + 1) as nat, level as nat);
                assert(next == reached * factor) by (nonlinear_arith)
                    requires
                        next == self.threshold() * (self.multiplier() * power(
                            self.multiplier(),
                            i as nat,
                        )),
                        reached == self.threshold() * power(self.multiplier(), i as nat),
                        factor == self.multiplier(),
                ;
                assert(next <= goal) by (nonlinear_arith)
                    requires
                        next == self.threshold() * power(self.multiplier(), (i + 1) as nat),
                        goal == self.threshold() * power(self.multiplier(), level as nat),
                        power(self.multiplier(), (i + 1) as nat) <= power(
                            self.multiplier(),
                            level as nat,
                        ),
                ;
            }
            match reached.checked_mul(factor) {
                Some(product) => {
                    reached = product;
                },
                None => {
                    return false;
                },
            }
            i += 1;
        }
        total >= reached
    }

    /// The sum of the cached sizes of `tables`.
    fn level_size(tables: &[SSTable]) -> (total: u128)
        ensures
            total == total_size(tables@),
    {
        let mut total: u128 = 0;
        let mut i: usize = 0;
        assert(tables@.subrange(0, 0) =~= Seq::empty());
        while i < tables.len()
            invariant
                i <= tables@.len(),
                total == total_size(tables@.subrange(0, i as int)),
                total <= i * usize::MAX,
            decreases tables@.len() - i,
        {
            let size = tables[i].size();
            assert((i + 1) * usize::MAX <= u128::MAX) by (nonlinear_arith)
                requires
                    i < usize::MAX,
                    usize::MAX <= u64::MAX,
            ;
            assert(i * usize::MAX + usize::MAX == (i + 1) * usize::MAX) by (nonlinear_arith);
            proof {
                let next = tables@.subrange(0, i + 1);
                assert(next.drop_last() =~= tables@.subrange(0, i as int));
                assert(next.last() == tables@[i as int]);
            }
            total = total + size as u128;
            i += 1;
        }
        assert(tables@.subrange(0, i as int) =~= tables@);
        total
    }

    /// Merges the entries of the tables of a level into one run in
    /// ascending key order. The tables come oldest first; each key keeps
    /// the value of the newest table in which it occurs.
    pub fn compact(&self, tables: &[Vec<(Key, Value)>]) -> (merged: Vec<(Key, Value)>)
        ensures
            sorted(merged.deep_view()),
            forall|key: Seq<u8>|
                lookup(merged.deep_view(), key) == newest_value(tables.deep_view(), key),
            merged.deep_view() == merge_of(tables.deep_view()),
    {
        let ghost all = tables.deep_view();
        let mut merged: Vec<(Key, Value)> = Vec::new();
        let mut t: usize = tables.len();
        assert(all.skip(t as int) =~= Seq::empty());
        assert(merged.deep_view() =~= Seq::empty());
        while t > 0
            invariant
                t <= tables@.len(),
                all == tables.deep_view(),
                sorted(merged.deep_view()),
                forall|key: Seq<u8>|
                    lookup(merged.deep_view(), key) == newest_value(all.skip(t as int), key),
            decreases t,
        {
            t -= 1;
            let table: &Vec<(Key, Value)> = &tables[t];
            let ghost newer = merged.deep_view();
            let ghost entries = table.deep_view();
            assert(all[t as int] == entries);
            assert(all.skip(t as int).skip(1) =~= all.skip(t + 1));
            assert(all.skip(t as int)[0] == entries);
            let mut j: usize = 0;
            assert(entries.subrange(0, 0) =~= Seq::empty());
            while j < table.len()
                invariant
                    j <= table.len(),
                    entries == table.deep_view(),
                    sorted(merged.deep_view()),
                    forall|key: Seq<u8>|
                        lookup(merged.deep_view(), key) == or_else(
                            lookup(newer, key),
                            lookup(entries.subrange(0, j as int), key),
                        ),
                decreases table.len() - j,
            {
                let entry: &(Key, Value) = &table[j];
                let ghost item = entries[j as int];
                assert(item == (entry.0@, entry.1@));
                let (_, present) = find_key(&merged, entry.0.as_slice());
                if !present {
                    let key = copy_range(entry.0.as_slice(), 0, entry.0.len());
                    let value = copy_range(entry.1.as_slice(), 0, entry.1.len());
                    assert(key@ =~= entry.0@ && value@ =~= entry.1@);
                    put_entry(&mut merged, key, value);
                }
                proof {
                    assert(entries.subrange(0, j + 1) =~= entries.subrange(0, j as int).push(item));
                    assert forall|key: Seq<u8>|
                        lookup(merged.deep_view(), key) == or_else(
                            lookup(newer, key),
                            lookup(entries.subrange(0, j + 1), key),
                        ) by {
                        lemma_lookup_push(entries.subrange(0, j as int), item, key);
                    }
                }
                j += 1;
            }
            assert(entries.subrange(0, j as int) =~= entries);
        }
        assert(all.skip(0) =~= all);
        proof {
            lemma_merge_of(all, merged.deep_view());
        }
        merged
    }
}

} // verus!
