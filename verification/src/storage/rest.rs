//! The engine at rest: when no level is due for compaction, and that a
//! flush followed by the compactions it makes due ends there.
use vstd::prelude::*;
use crate::sstable::compaction::{level_threshold, power, total_size, lemma_power_grows};
use crate::storage::{COMPACTION_SIZE_THRESHOLD, Compaction, LEVEL_MULTIPLIER, Storage, TableFile};

verus! {

impl Storage {
    /// The engine is at rest: no level is due for compaction.
    pub open spec fn at_rest(&self) -> bool {
        forall|level: nat| !self.compaction_due(level)
    }

    /// No level but `level` is due for compaction.
    pub open spec fn settled_except(&self, level: nat) -> bool {
        forall|other: nat| other != level ==> !self.compaction_due(other)
    }

    /// At rest, level 0 holds fewer than four tables, and the sizes of the
    /// tables of every higher level add up to less than the threshold of
    /// the level: 1 MiB times 4 to the power of the level.
    pub proof fn lemma_at_rest(&self, level: nat)
        requires
            self.wf(),
            self.at_rest(),
            level < usize::MAX,
        ensures
            level == 0 ==> self.tables(0).len() < 4,
            level > 0 ==> total_size(self.tables(level)) < level_threshold(
                COMPACTION_SIZE_THRESHOLD as nat,
                LEVEL_MULTIPLIER as nat,
                level,
            ),
    {
        assert(!self.compaction_due(level));
    }

    /// After a flush from rest, no level but level 0 is due for compaction.
    pub proof fn lemma_flush_settles(
        &self,
        before: &Self,
        entries: Seq<(Seq<u8>, Seq<u8>)>,
        file: TableFile,
    )
        requires
            self.wf(),
            before.wf(),
            before.at_rest(),
            self.flushed_from(before, entries, file),
        ensures
            self.settled_except(0),
            self.tables(0).len() <= 4,
    {
        assert forall|other: nat| other != 0 implies !self.compaction_due(other) by {
            assert(!before.compaction_due(other));
        }
        assert(!before.compaction_due(0));
    }

    /// After the compaction of the one level that was due, no level but
    /// the next one is due for compaction.
    pub proof fn lemma_compaction_settles(
        &self,
        before: &Self,
        level: nat,
        inputs: Seq<Seq<(Seq<u8>, Seq<u8>)>>,
        outcome: Compaction,
    )
        requires
            self.wf(),
            before.wf(),
            before.settled_except(level),
            self.compacted_from(before, level, inputs, outcome),
        ensures
            self.settled_except(level + 1),
            self.tables(level).len() == 0,
    {
        assert forall|other: nat| other != level + 1 implies !self.compaction_due(other) by {
            if other == level {
                if level > 0 {
                    lemma_power_grows(LEVEL_MULTIPLIER as nat, 0, level);
                    assert(level_threshold(
                        COMPACTION_SIZE_THRESHOLD as nat,
                        LEVEL_MULTIPLIER as nat,
                        level,
                    ) >= 1) by (nonlinear_arith)
                        requires
                            level_threshold(
                                COMPACTION_SIZE_THRESHOLD as nat,
                                LEVEL_MULTIPLIER as nat,
                                level,
                            ) == COMPACTION_SIZE_THRESHOLD as nat * power(
                                LEVEL_MULTIPLIER as nat,
                                level,
                            ),
                            COMPACTION_SIZE_THRESHOLD as nat >= 1,
                            power(LEVEL_MULTIPLIER as nat, level) >= 1,
                    ;
                }
            } else {
                assert(!before.compaction_due(other));
            }
        }
    }

    /// Where the one level that could be due is not, the engine is at
    /// rest.
    pub proof fn lemma_settled_at_rest(&self, level: nat)
        requires
            self.settled_except(level),
            !self.compaction_due(level),
        ensures
            self.at_rest(),
    {
    }
}

} // verus!
