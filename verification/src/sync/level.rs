//! Multi-level, time-based compaction configuration.
//!
//! Level 0 holds the raw LTX files written straight from the WAL. Higher levels
//! merge the previous level's files into coarser windows, each on its own
//! interval. Level 9 ([`SNAPSHOT_LEVEL`]) holds full database snapshots and is
//! fed by a separate path, not by the level-to-level cascade.

use crate::sync::error::{LevelFault, SyncError};
use crate::time::{Span, Time, boundary, lemma_boundary};
use vstd::prelude::*;

pub use crate::time::interval_boundary;

verus! {

/// The level at which full database snapshots are stored.
pub const SNAPSHOT_LEVEL: u32 = 9;

/// One tier of the compaction cascade.
#[derive(Clone, Copy, Debug, PartialEq, Eq, Structural)]
pub struct CompactionLevel {
    /// The numeric level; equals its index in [`CompactionLevels`].
    pub level: u32,
    /// How often this level is compacted from the previous level. Zero only for
    /// level 0.
    pub interval: Span,
}

impl CompactionLevel {
    /// The most recent interval-aligned instant at or before `now`. Returns
    /// `now` unchanged for a zero interval.
    pub fn prev_compaction_at(&self, now: Time) -> (t: Time)
        requires
            boundary(now.nanos as int, self.interval.nanos as nat) >= i128::MIN,
        ensures
            t.nanos == boundary(now.nanos as int, self.interval.nanos as nat),
            self.interval.nanos == 0 ==> t == now,
            self.interval.nanos > 0 ==> t.nanos <= now.nanos < t.nanos + self.interval.nanos
                && t.nanos as int % (self.interval.nanos as int) == 0,
    {
        interval_boundary(now, self.interval)
    }

    /// The next interval-aligned instant after [`Self::prev_compaction_at`].
    pub fn next_compaction_at(&self, now: Time) -> (t: Time)
        requires
            boundary(now.nanos as int, self.interval.nanos as nat) >= i128::MIN,
            boundary(now.nanos as int, self.interval.nanos as nat) + self.interval.nanos
                <= i128::MAX,
        ensures
            t.nanos == boundary(now.nanos as int, self.interval.nanos as nat)
                + self.interval.nanos,
    {
        let prev = self.prev_compaction_at(now);
        if self.interval.nanos > i128::MAX as u128 {
            let past: u128 = self.interval.nanos - i128::MAX as u128;
            return Time { nanos: prev.nanos + i128::MAX + (past - 1) as i128 + 1 };
        }
        Time { nanos: prev.nanos + self.interval.nanos as i128 }
    }

    /// The next compaction lies strictly after `now`, and the previous one at or
    /// before it.
    pub proof fn lemma_compaction_instants(self, now: Time)
        requires
            self.interval.nanos > 0,
        ensures
            boundary(now.nanos as int, self.interval.nanos as nat) <= now.nanos,
            now.nanos < boundary(now.nanos as int, self.interval.nanos as nat)
                + self.interval.nanos,
    {
        lemma_boundary(now.nanos as int, self.interval.nanos as nat);
    }
}

/// The first fault of the level `l` at index `i`.
pub open spec fn level_fault(l: CompactionLevel, i: int) -> Option<LevelFault> {
    if l.level != i {
        Some(LevelFault::OutOfOrder { level: l.level, expected: i as usize })
    } else if l.level > SNAPSHOT_LEVEL - 1 {
        Some(LevelFault::TooHigh)
    } else if l.level == 0 && l.interval.nanos != 0 {
        Some(LevelFault::IntervalOnLevelZero)
    } else if l.level != 0 && l.interval.nanos == 0 {
        Some(LevelFault::IntervalRequired { level: l.level })
    } else {
        None
    }
}

/// The first fault of the first `n` levels.
pub open spec fn first_fault(levels: Seq<CompactionLevel>, n: nat) -> Option<LevelFault>
    decreases n,
{
    if n == 0 {
        None
    } else {
        match first_fault(levels, (n - 1) as nat) {
            Some(f) => Some(f),
            None => level_fault(levels[n - 1], n - 1),
        }
    }
}

/// What validating a list of levels gives.
pub open spec fn levels_validity(levels: Seq<CompactionLevel>) -> Result<(), SyncError> {
    if levels.len() == 0 {
        Err(SyncError::InvalidCompactionLevels(LevelFault::Empty))
    } else {
        match first_fault(levels, levels.len()) {
            Some(f) => Err(SyncError::InvalidCompactionLevels(f)),
            None => Ok(()),
        }
    }
}

proof fn lemma_fault_stays(levels: Seq<CompactionLevel>, i: nat, n: nat)
    requires
        i <= n,
        first_fault(levels, i) is Some,
    ensures
        first_fault(levels, n) == first_fault(levels, i),
    decreases n - i,
{
    if i < n {
        lemma_fault_stays(levels, i, (n - 1) as nat);
    }
}

/// Valid levels stand at their own index, stay below the snapshot level, and
/// have an interval unless they are level zero.
pub proof fn lemma_valid_levels(levels: Seq<CompactionLevel>, i: int)
    requires
        levels_validity(levels) is Ok,
        0 <= i < levels.len(),
    ensures
        levels[i].level == i,
        levels.len() <= SNAPSHOT_LEVEL,
        (levels[i].interval.nanos == 0) == (i == 0),
{
    let last = levels.len() - 1;
    lemma_no_fault(levels, levels.len(), i);
    lemma_no_fault(levels, levels.len(), last);
}

proof fn lemma_no_fault(levels: Seq<CompactionLevel>, n: nat, i: int)
    requires
        n <= levels.len(),
        first_fault(levels, n) is None,
        0 <= i < n,
    ensures
        level_fault(levels[i], i) is None,
    decreases n,
{
    if i < n - 1 {
        lemma_no_fault(levels, (n - 1) as nat, i);
    }
}

/// A validated, level-ordered list of non-snapshot compaction levels (index 0 is
/// L0, and so on). The snapshot level is implicit.
#[derive(Debug)]
pub struct CompactionLevels(Vec<CompactionLevel>);

impl View for CompactionLevels {
    type V = Seq<CompactionLevel>;

    closed spec fn view(&self) -> Seq<CompactionLevel> {
        self.0@
    }
}

impl Default for CompactionLevels {
    fn default() -> (l: CompactionLevels)
        ensures
            l@ == default_list(),
    {
        CompactionLevels::default_levels()
    }
}

/// L1 every 30 seconds, L2 every 5 minutes, L3 every hour.
pub open spec fn default_list() -> Seq<CompactionLevel> {
    seq![
        CompactionLevel { level: 0, interval: Span { nanos: 0 } },
        CompactionLevel { level: 1, interval: Span { nanos: 30_000_000_000 } },
        CompactionLevel { level: 2, interval: Span { nanos: 300_000_000_000 } },
        CompactionLevel { level: 3, interval: Span { nanos: 3_600_000_000_000 } },
    ]
}

impl CompactionLevels {
    #[verifier::type_invariant]
    spec fn valid(self) -> bool {
        levels_validity(self.0@) is Ok
    }

    /// A list of levels is always valid.
    pub fn validate(&self) -> (r: Result<(), SyncError>)
        ensures
            r == levels_validity(self@),
            r is Ok,
    {
        proof {
            use_type_invariant(self);
        }
        check_levels(&self.0)
    }

    /// Builds and validates a level list. Levels must be dense and in order
    /// (`levels[i].level == i`), only L0 may have a zero interval, and the
    /// highest level must not reach the snapshot level.
    pub fn new(levels: Vec<CompactionLevel>) -> (r: Result<CompactionLevels, SyncError>)
        ensures
            match (r, levels_validity(levels@)) {
                (Ok(l), Ok(())) => l@ == levels@,
                (Err(e), Err(se)) => e == se,
                _ => false,
            },
    {
        match check_levels(&levels) {
            Ok(()) => Ok(CompactionLevels(levels)),
            Err(e) => Err(e),
        }
    }

    /// The canonical defaults: L1@30s, L2@5m, L3@1h.
    pub fn default_levels() -> (l: CompactionLevels)
        ensures
            l@ == default_list(),
    {
        let mut v: Vec<CompactionLevel> = Vec::new();
        v.push(CompactionLevel { level: 0, interval: Span::zero() });
        v.push(CompactionLevel { level: 1, interval: Span::from_secs(30) });
        v.push(CompactionLevel { level: 2, interval: Span::from_secs(300) });
        v.push(CompactionLevel { level: 3, interval: Span::from_secs(3600) });
        assert(v@ =~= default_list());
        proof {
            reveal_with_fuel(first_fault, 5);
        }
        CompactionLevels(v)
    }

    /// The configured non-snapshot levels, lowest first.
    pub fn as_slice(&self) -> (s: &[CompactionLevel])
        ensures
            s@ == self@,
            levels_validity(s@) is Ok,
    {
        proof {
            use_type_invariant(self);
        }
        self.0.as_slice()
    }

    /// The level with this number, if configured (snapshot level excluded).
    pub fn get(&self, level: u32) -> (r: Option<CompactionLevel>)
        ensures
            r == (if level < self@.len() {
                Some(self@[level as int])
            } else {
                None
            }),
            r matches Some(l) ==> l.level == level,
    {
        proof {
            use_type_invariant(self);
        }
        if (level as usize) < self.0.len() {
            proof {
                lemma_valid_levels(self.0@, level as int);
            }
            Some(self.0[level as usize])
        } else {
            None
        }
    }

    /// The highest configured non-snapshot level.
    pub fn max_level(&self) -> (r: u32)
        ensures
            r == self@.len() - 1,
            r < SNAPSHOT_LEVEL,
    {
        proof {
            use_type_invariant(self);
            lemma_valid_levels(self.0@, 0);
        }
        self.0.len() as u32 - 1
    }

    /// The source level a compaction into `level` reads from. The snapshot
    /// level's source is the highest non-snapshot level. `None` for L0.
    pub fn prev_level(&self, level: u32) -> (r: Option<u32>)
        ensures
            r == prev_of(self@, level),
    {
        if level == SNAPSHOT_LEVEL {
            return Some(self.max_level());
        }
        if level == 0 {
            return None;
        }
        Some(level - 1)
    }

    /// The destination level a compaction of `level` writes to. The highest
    /// non-snapshot level's next is the snapshot level. `None` for the snapshot
    /// level.
    pub fn next_level(&self, level: u32) -> (r: Option<u32>)
        requires
            level < u32::MAX,
        ensures
            r == next_of(self@, level),
    {
        if level == SNAPSHOT_LEVEL {
            return None;
        }
        if level == self.max_level() {
            return Some(SNAPSHOT_LEVEL);
        }
        Some(level + 1)
    }

    /// True if `level` is a valid level number (a configured level or the
    /// snapshot level).
    pub fn is_valid_level(&self, level: u32) -> (r: bool)
        ensures
            r == (level == SNAPSHOT_LEVEL || level < self@.len()),
    {
        level == SNAPSHOT_LEVEL || (level as usize) < self.0.len()
    }

    /// [`CompactionLevel::prev_compaction_at`] for a configured level.
    pub fn prev_compaction_at(&self, level: u32, now: Time) -> (r: Option<Time>)
        requires
            level < self@.len() ==> boundary(
                now.nanos as int,
                self@[level as int].interval.nanos as nat,
            ) >= i128::MIN,
        ensures
            match r {
                None => level >= self@.len(),
                Some(t) => level < self@.len() && t.nanos == boundary(
                    now.nanos as int,
                    self@[level as int].interval.nanos as nat,
                ),
            },
    {
        match self.get(level) {
            None => None,
            Some(l) => Some(l.prev_compaction_at(now)),
        }
    }

    /// [`CompactionLevel::next_compaction_at`] for a configured level.
    pub fn next_compaction_at(&self, level: u32, now: Time) -> (r: Option<Time>)
        requires
            level < self@.len() ==> boundary(
                now.nanos as int,
                self@[level as int].interval.nanos as nat,
            ) >= i128::MIN,
            level < self@.len() ==> boundary(
                now.nanos as int,
                self@[level as int].interval.nanos as nat,
            ) + self@[level as int].interval.nanos <= i128::MAX,
        ensures
            match r {
                None => level >= self@.len(),
                Some(t) => level < self@.len() && t.nanos == boundary(
                    now.nanos as int,
                    self@[level as int].interval.nanos as nat,
                ) + self@[level as int].interval.nanos,
            },
    {
        match self.get(level) {
            None => None,
            Some(l) => Some(l.next_compaction_at(now)),
        }
    }

    /// Going up the cascade from a configured level and down again leads back.
    pub proof fn lemma_cascade_walk(levels: Seq<CompactionLevel>, level: u32)
        requires
            levels_validity(levels) is Ok,
            level < levels.len(),
        ensures
            next_of(levels, level) matches Some(up) && prev_of(levels, up) == Some(level),
    {
        lemma_valid_levels(levels, 0);
    }
}

/// The level after `level` in the cascade.
pub open spec fn next_of(levels: Seq<CompactionLevel>, level: u32) -> Option<u32> {
    if level == SNAPSHOT_LEVEL {
        None
    } else if level == levels.len() - 1 {
        Some(SNAPSHOT_LEVEL)
    } else {
        Some((level + 1) as u32)
    }
}

/// The level before `level` in the cascade.
pub open spec fn prev_of(levels: Seq<CompactionLevel>, level: u32) -> Option<u32> {
    if level == SNAPSHOT_LEVEL {
        Some((levels.len() - 1) as u32)
    } else if level == 0 {
        None
    } else {
        Some((level - 1) as u32)
    }
}

fn check_levels(levels: &Vec<CompactionLevel>) -> (r: Result<(), SyncError>)
    ensures
        r == levels_validity(levels@),
{
    if levels.len() == 0 {
        return Err(SyncError::InvalidCompactionLevels(LevelFault::Empty));
    }
    let mut i: usize = 0;
    while i < levels.len()
        invariant
            i <= levels@.len(),
            first_fault(levels@, i as nat) is None,
        decreases levels@.len() - i,
    {
        let l = levels[i];
        let fault: Option<LevelFault> = if l.level as usize != i {
            Some(LevelFault::OutOfOrder { level: l.level, expected: i })
        } else if l.level > SNAPSHOT_LEVEL - 1 {
            Some(LevelFault::TooHigh)
        } else if l.level == 0 && !l.interval.is_zero() {
            Some(LevelFault::IntervalOnLevelZero)
        } else if l.level != 0 && l.interval.is_zero() {
            Some(LevelFault::IntervalRequired { level: l.level })
        } else {
            None
        };
        match fault {
            Some(f) => {
                proof {
                    lemma_fault_stays(levels@, (i + 1) as nat, levels@.len());
                }
                return Err(SyncError::InvalidCompactionLevels(f));
            },
            None => {},
        }
        i += 1;
    }
    Ok(())
}

/// A level that may stand at index `i`: it has that number, there is room for it below the
/// snapshot level, and it has an interval unless it is level 0.
pub open spec fn fits_at(l: CompactionLevel, i: int) -> bool {
    l.level == i && i <= 8 && (l.interval.nanos == 0 <==> i == 0)
}

/// A list of levels is accepted exactly where it is not empty and each level fits where it
/// stands; otherwise the first that does not is named.
pub proof fn lemma_levels_are_accepted(
    levels: Vec<CompactionLevel>,
    r: Result<CompactionLevels, SyncError>,
)
    requires
        call_ensures(CompactionLevels::new, (levels,), r),
    ensures
        r is Ok <==> levels@.len() > 0 && forall|i: int|
            0 <= i < levels@.len() ==> fits_at(#[trigger] levels@[i], i),
        r matches Ok(l) ==> l@ == levels@,
        levels@.len() == 0 ==> r == Err::<CompactionLevels, SyncError>(
            SyncError::InvalidCompactionLevels(LevelFault::Empty),
        ),
        forall|i: int|
            0 <= i < levels@.len() && !fits_at(#[trigger] levels@[i], i) && (forall|k: int|
                0 <= k < i ==> fits_at(#[trigger] levels@[k], k)) ==> r == Err::<
                CompactionLevels,
                SyncError,
            >(
                SyncError::InvalidCompactionLevels(
                    if levels@[i].level != i {
                        LevelFault::OutOfOrder { level: levels@[i].level, expected: i as usize }
                    } else if i > 8 {
                        LevelFault::TooHigh
                    } else if i == 0 {
                        LevelFault::IntervalOnLevelZero
                    } else {
                        LevelFault::IntervalRequired { level: i as u32 }
                    },
                ),
            ),
{
    let ls = levels@;
    if levels_validity(ls) is Ok {
        assert forall|i: int| 0 <= i < ls.len() implies fits_at(#[trigger] ls[i], i) by {
            lemma_no_fault(ls, ls.len(), i);
        }
    }
    if ls.len() > 0 && forall|i: int| 0 <= i < ls.len() ==> fits_at(#[trigger] ls[i], i) {
        lemma_fitting_levels(ls, ls.len());
    }
    assert forall|i: int|
        0 <= i < ls.len() && !fits_at(#[trigger] ls[i], i) && (forall|k: int|
            0 <= k < i ==> fits_at(#[trigger] ls[k], k)) implies first_fault(ls, ls.len()) == Some(
        if ls[i].level != i {
            LevelFault::OutOfOrder { level: ls[i].level, expected: i as usize }
        } else if i > 8 {
            LevelFault::TooHigh
        } else if i == 0 {
            LevelFault::IntervalOnLevelZero
        } else {
            LevelFault::IntervalRequired { level: i as u32 }
        },
    ) by {
        lemma_fitting_levels(ls, i as nat);
        lemma_fault_stays(ls, (i + 1) as nat, ls.len());
    }
}

proof fn lemma_fitting_levels(levels: Seq<CompactionLevel>, n: nat)
    requires
        n <= levels.len(),
        forall|i: int| 0 <= i < n ==> fits_at(#[trigger] levels[i], i),
    ensures
        first_fault(levels, n) is None,
    decreases n,
{
    if n > 0 {
        lemma_fitting_levels(levels, (n - 1) as nat);
        assert(fits_at(levels[n - 1], n - 1));
    }
}

/// By default level 1 is compacted every 30 seconds, level 2 every 5 minutes and level 3
/// every hour.
pub proof fn lemma_default_levels(l: CompactionLevels)
    requires
        call_ensures(CompactionLevels::default_levels, (), l),
    ensures
        l@.len() == 4,
        l@[0].interval.nanos == 0,
        l@[1].interval.nanos == 30 * 1_000_000_000,
        l@[2].interval.nanos == 5 * 60 * 1_000_000_000,
        l@[3].interval.nanos == 60 * 60 * 1_000_000_000,
        forall|i: int| 0 <= i < 4 ==> (#[trigger] l@[i]).level == i,
{
}

/// The cascade: each configured level is followed by the next, the last by the snapshot
/// level, which nothing follows; and each is compacted from the one before.
pub proof fn lemma_cascade(
    l: CompactionLevels,
    level: u32,
    next: Option<u32>,
    prev: Option<u32>,
    top: u32,
    valid: bool,
    got: Option<CompactionLevel>,
)
    requires
        level < u32::MAX,
        levels_validity(l@) is Ok,
        call_ensures(CompactionLevels::next_level, (&l, level), next),
        call_ensures(CompactionLevels::prev_level, (&l, level), prev),
        call_ensures(CompactionLevels::max_level, (&l,), top),
        call_ensures(CompactionLevels::is_valid_level, (&l, level), valid),
        call_ensures(CompactionLevels::get, (&l, level), got),
    ensures
        top + 1 == l@.len(),
        level < top ==> next == Some((level + 1) as u32),
        level == top ==> next == Some(9u32),
        level == 9 ==> next is None && prev == Some(top),
        level > top && level != 9 ==> next == Some((level + 1) as u32) && prev == Some(
            (level - 1) as u32,
        ),
        level == 0 ==> prev is None,
        0 < level <= top ==> prev == Some((level - 1) as u32),
        valid <==> level <= top || level == 9,
        level <= top ==> got == Some(l@[level as int]),
        level > top ==> got is None,
{
    lemma_valid_levels(l@, 0);
}

/// A level is compacted at the multiples of its interval: last at the latest that is not
/// after `now`, and next one interval later.
pub proof fn lemma_compactions_are_aligned(l: CompactionLevel, now: Time, prev: Time, next: Time)
    requires
        l.interval.nanos > 0,
        boundary(now.nanos as int, l.interval.nanos as nat) >= i128::MIN,
        boundary(now.nanos as int, l.interval.nanos as nat) + l.interval.nanos <= i128::MAX,
        call_ensures(CompactionLevel::prev_compaction_at, (&l, now), prev),
        call_ensures(CompactionLevel::next_compaction_at, (&l, now), next),
    ensures
        prev.nanos <= now.nanos < next.nanos,
        next.nanos == prev.nanos + l.interval.nanos,
        prev.nanos as int % (l.interval.nanos as int) == 0,
{
    lemma_boundary(now.nanos as int, l.interval.nanos as nat);
}

/// The compactions of a configured level are those of the level with its number; there are
/// none of any other.
pub proof fn lemma_compactions_of_a_level(
    l: CompactionLevels,
    level: u32,
    now: Time,
    got: Option<CompactionLevel>,
    of_level: (Time, Time),
    prev: Option<Time>,
    next: Option<Time>,
)
    requires
        level < l@.len() ==> boundary(now.nanos as int, l@[level as int].interval.nanos as nat)
            >= i128::MIN,
        level < l@.len() ==> boundary(now.nanos as int, l@[level as int].interval.nanos as nat)
            + l@[level as int].interval.nanos <= i128::MAX,
        call_ensures(CompactionLevels::get, (&l, level), got),
        got matches Some(c) ==> call_ensures(
            CompactionLevel::prev_compaction_at,
            (&c, now),
            of_level.0,
        ),
        got matches Some(c) ==> call_ensures(
            CompactionLevel::next_compaction_at,
            (&c, now),
            of_level.1,
        ),
        call_ensures(CompactionLevels::prev_compaction_at, (&l, level, now), prev),
        call_ensures(CompactionLevels::next_compaction_at, (&l, level, now), next),
    ensures
        got is None ==> prev is None && next is None,
        got is Some ==> prev == Some(of_level.0) && next == Some(of_level.1),
{
}

/// Levels that were accepted are shown as they were given, and pass the check again.
pub proof fn lemma_levels_are_kept(
    levels: Vec<CompactionLevel>,
    l: CompactionLevels,
    s: &[CompactionLevel],
    r: Result<(), SyncError>,
)
    requires
        call_ensures(CompactionLevels::new, (levels,), Ok::<CompactionLevels, SyncError>(l)),
        call_ensures(CompactionLevels::as_slice, (&l,), s),
        call_ensures(CompactionLevels::validate, (&l,), r),
    ensures
        s@ == levels@,
        r is Ok,
{
}

} // verus!
