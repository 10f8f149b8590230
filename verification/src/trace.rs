//! A trace of the operation sequences that streams explore.

use crate::settings::{contents, is_enabled, parse_number, setting_number, switched_on};
use std::collections::HashSet;
use vstd::prelude::*;

verus! {

/// What was explored so far.
///
/// A sequence of operations is known by the hash of its relative form. A
/// healthy stream stops exploring new sequences after a while.
#[derive(Debug)]
pub struct ExploreTrace {
    /// Whether explorations are traced.
    pub enabled: bool,
    /// How many explorations of a single operation are written out in full.
    pub dump_limit: u64,
    /// The hashes of the sequences explored so far.
    pub seen: HashSet<u64>,
    /// The number of explorations.
    pub total: u64,
    /// The number of explorations of a single operation.
    pub dumped: u64,
}

/// What is to be told of one exploration.
#[derive(Debug)]
pub struct ExploreRecord {
    /// The hash of the sequence.
    pub hash: u64,
    /// The number of its operations.
    pub num_operations: usize,
    /// Whether the sequence was explored for the first time.
    pub is_new: bool,
    /// The number of different sequences explored so far.
    pub distinct: usize,
    /// The number of explorations so far.
    pub total: u64,
    /// The number under which the sequence is to be written out in full, if it
    /// is to be.
    pub dump: Option<u64>,
}

impl ExploreTrace {
    /// An empty trace, by the values of the settings
    /// `BURN_FUSION_EXPLORE_TRACE` and `BURN_FUSION_EXPLORE_DUMP`.
    pub fn from_settings(trace: Option<&str>, dump: Option<&str>) -> (result: Self)
        ensures
            result.enabled == switched_on(contents(trace)),
            result.dump_limit == match setting_number(contents(dump), u64::MAX as int) {
                Some(n) => n,
                None => 0,
            },
            result.seen@ == Set::<u64>::empty(),
            result.total == 0,
            result.dumped == 0,
    {
        let dump_limit: u64 = match dump {
            Some(text) => match parse_number(text, u64::MAX) {
                Some(n) => n,
                None => 0,
            },
            None => 0,
        };
        ExploreTrace {
            enabled: is_enabled(trace),
            dump_limit,
            seen: HashSet::new(),
            total: 0,
            dumped: 0,
        }
    }

    /// Takes note of one exploration.
    pub fn explore_trace(&mut self, hash: u64, num_operations: usize) -> (record: Option<
        ExploreRecord,
    >)
        requires
            old(self).total < u64::MAX,
            old(self).dumped <= old(self).total,
        ensures
            final(self).enabled == old(self).enabled,
            final(self).dump_limit == old(self).dump_limit,
            final(self).dumped <= final(self).total,
            match record {
                None => !old(self).enabled && *final(self) == *old(self),
                Some(record) => {
                    &&& old(self).enabled
                    &&& final(self).seen@ == old(self).seen@.insert(hash)
                    &&& final(self).total == old(self).total + 1
                    &&& record.hash == hash
                    &&& record.num_operations == num_operations
                    &&& record.is_new == !old(self).seen@.contains(hash)
                    &&& record.distinct == final(self).seen@.len()
                    &&& record.total == final(self).total
                    &&& if old(self).dump_limit > 0 && num_operations == 1 {
                        &&& final(self).dumped == old(self).dumped + 1
                        &&& record.dump == if final(self).dumped <= old(self).dump_limit {
                            Some(final(self).dumped)
                        } else {
                            None
                        }
                    } else {
                        final(self).dumped == old(self).dumped && record.dump is None
                    }
                },
            },
    {
        broadcast use vstd::std_specs::hash::group_hash_axioms;

        if !self.enabled {
            return None;
        }
        let is_new = self.seen.insert(hash);
        self.total = self.total + 1;
        let mut dump: Option<u64> = None;
        if self.dump_limit > 0 && num_operations == 1 {
            self.dumped = self.dumped + 1;
            if self.dumped <= self.dump_limit {
                dump = Some(self.dumped);
            }
        }
        Some(
            ExploreRecord {
                hash,
                num_operations,
                is_new,
                distinct: self.seen.len(),
                total: self.total,
                dump,
            },
        )
    }
}

} // verus!
