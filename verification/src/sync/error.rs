//! Errors of the sync engine.

use crate::ltx::error::LtxError;
use crate::text::{decimal, push_decimal, says_one};
use crate::wal::error::WalError;
use vstd::prelude::*;

verus! {

/// What is wrong with a list of compaction levels, or a level asked for.
#[derive(Clone, Copy, Debug, PartialEq, Eq)]
pub enum LevelFault {
    /// The list is empty.
    Empty,
    /// A level does not stand at its own index.
    OutOfOrder { level: u32, expected: usize },
    /// A level reaches the snapshot level.
    TooHigh,
    /// Level zero has an interval.
    IntervalOnLevelZero,
    /// A level above zero has no interval.
    IntervalRequired { level: u32 },
    /// The level is not one that another level is compacted into.
    NotACascadeLevel { level: u32 },
}

impl LevelFault {
    /// The text of the fault.
    pub open spec fn text(self) -> Seq<char> {
        match self {
            LevelFault::Empty => "at least one compaction level is required"@,
            LevelFault::OutOfOrder { level, expected } => "compaction level out of order: "@
                + decimal(level as nat) + ", expected "@ + decimal(expected as nat),
            LevelFault::TooHigh => "compaction level cannot exceed 8"@,
            LevelFault::IntervalOnLevelZero => "cannot set interval on compaction level zero"@,
            LevelFault::IntervalRequired { level } => "interval required for level "@ + decimal(
                level as nat,
            ),
            LevelFault::NotACascadeLevel { level } => "cannot compact into level "@ + decimal(
                level as nat,
            ) + "; use snapshot() for the snapshot level"@,
        }
    }

    /// The text of the fault, for people.
    pub fn message(&self) -> (s: String)
        ensures
            s@ == self.text(),
    {
        let mut s = String::new();
        match *self {
            LevelFault::Empty => s.push_str("at least one compaction level is required"),
            LevelFault::OutOfOrder { level, expected } => {
                s.push_str("compaction level out of order: ");
                push_decimal(&mut s, level as u64);
                s.push_str(", expected ");
                push_decimal(&mut s, expected as u64);
            },
            LevelFault::TooHigh => s.push_str("compaction level cannot exceed 8"),
            LevelFault::IntervalOnLevelZero => s.push_str(
                "cannot set interval on compaction level zero",
            ),
            LevelFault::IntervalRequired { level } => {
                s.push_str("interval required for level ");
                push_decimal(&mut s, level as u64);
            },
            LevelFault::NotACascadeLevel { level } => {
                s.push_str("cannot compact into level ");
                push_decimal(&mut s, level as u64);
                s.push_str("; use snapshot() for the snapshot level");
            },
        }
        assert(s@ =~= self.text());
        s
    }
}

/// Errors from the sync engine's own decisions.
#[derive(Clone, Copy, Debug, PartialEq, Eq)]
pub enum SyncError {
    Ltx(LtxError),
    Wal(WalError),
    /// The replica has no snapshot to restore from.
    NoSnapshot,
    /// Another writer produced a different LTX at this TXID (split-brain).
    Equivocation { txid: u64 },
    /// A point-in-time target lies before the oldest restorable point.
    TxidTooOld { requested: u64 },
    /// No contiguous run of files leads from this TXID to the newest one.
    ChainGap { from: u64 },
    /// A list of compaction levels, or a level asked for, is not valid.
    InvalidCompactionLevels(LevelFault),
}

impl SyncError {
    /// The text of the error.
    pub open spec fn text(self) -> Seq<char> {
        match self {
            SyncError::Ltx(e) => "ltx: "@ + e.text(),
            SyncError::Wal(e) => "wal: "@ + e.text(),
            SyncError::NoSnapshot => "no snapshot available to restore"@,
            SyncError::Equivocation { txid } =>
                "equivocation: another writer wrote a different LTX at txid "@ + decimal(
                txid as nat,
            ),
            SyncError::TxidTooOld { requested } => "txid "@ + decimal(requested as nat)
                + " is older than the oldest restorable point"@,
            SyncError::ChainGap { from } => "no contiguous chain from txid "@ + decimal(
                from as nat,
            ),
            SyncError::InvalidCompactionLevels(f) => "invalid compaction levels: "@ + f.text(),
        }
    }

    /// The text of the error, for people.
    pub fn message(&self) -> (s: String)
        ensures
            s@ == self.text(),
    {
        let mut s = String::new();
        match *self {
            SyncError::Ltx(e) => {
                s.push_str("ltx: ");
                s.push_str(e.message().as_str());
            },
            SyncError::Wal(e) => {
                s.push_str("wal: ");
                s.push_str(e.message().as_str());
            },
            SyncError::NoSnapshot => s.push_str("no snapshot available to restore"),
            SyncError::Equivocation { txid } => {
                s.push_str("equivocation: another writer wrote a different LTX at txid ");
                push_decimal(&mut s, txid);
            },
            SyncError::TxidTooOld { requested } => {
                s.push_str("txid ");
                push_decimal(&mut s, requested);
                s.push_str(" is older than the oldest restorable point");
            },
            SyncError::ChainGap { from } => {
                s.push_str("no contiguous chain from txid ");
                push_decimal(&mut s, from);
            },
            SyncError::InvalidCompactionLevels(f) => {
                s.push_str("invalid compaction levels: ");
                s.push_str(f.message().as_str());
            },
        }
        assert(s@ =~= self.text());
        s
    }
}

impl From<LtxError> for SyncError {
    fn from(e: LtxError) -> (r: Self) {
        SyncError::Ltx(e)
    }
}

impl vstd::std_specs::convert::FromSpecImpl<LtxError> for SyncError {
    open spec fn obeys_from_spec() -> bool {
        true
    }

    open spec fn from_spec(e: LtxError) -> Self {
        SyncError::Ltx(e)
    }
}

impl From<WalError> for SyncError {
    fn from(e: WalError) -> (r: Self) {
        SyncError::Wal(e)
    }
}

impl vstd::std_specs::convert::FromSpecImpl<WalError> for SyncError {
    open spec fn obeys_from_spec() -> bool {
        true
    }

    open spec fn from_spec(e: WalError) -> Self {
        SyncError::Wal(e)
    }
}

/// The message of an error of a file or of a WAL ends with what that error says; and the
/// message of a TXID says the TXID, among words that do not depend on it.
pub proof fn lemma_messages_say_what_went_wrong(
    ltx: LtxError,
    wal: WalError,
    fault: LevelFault,
    n: u64,
    m: u64,
    of_ltx: String,
    of_wal: String,
    of_fault: String,
    s: (String, String, String),
    by: (String, String, String),
    other: (String, String, String),
)
    requires
        call_ensures(LtxError::message, (&ltx,), of_ltx),
        call_ensures(WalError::message, (&wal,), of_wal),
        call_ensures(LevelFault::message, (&fault,), of_fault),
        call_ensures(SyncError::message, (&SyncError::Ltx(ltx),), s.0),
        call_ensures(SyncError::message, (&SyncError::Wal(wal),), s.1),
        call_ensures(SyncError::message, (&SyncError::InvalidCompactionLevels(fault),), s.2),
        call_ensures(SyncError::message, (&SyncError::Equivocation { txid: n },), by.0),
        call_ensures(SyncError::message, (&SyncError::TxidTooOld { requested: n },), by.1),
        call_ensures(SyncError::message, (&SyncError::ChainGap { from: n },), by.2),
        call_ensures(SyncError::message, (&SyncError::Equivocation { txid: m },), other.0),
        call_ensures(SyncError::message, (&SyncError::TxidTooOld { requested: m },), other.1),
        call_ensures(SyncError::message, (&SyncError::ChainGap { from: m },), other.2),
    ensures
        s.0@ == seq!['l', 't', 'x', ':', ' '] + of_ltx@,
        s.1@ == seq!['w', 'a', 'l', ':', ' '] + of_wal@,
        s.2@.len() > of_fault@.len() && s.2@.skip(s.2@.len() - of_fault@.len()) == of_fault@,
        exists|a: Seq<char>, b: Seq<char>|
            #[trigger] says_one(by.0@, a, n as nat, b) && says_one(other.0@, a, m as nat, b),
        exists|a: Seq<char>, b: Seq<char>|
            #[trigger] says_one(by.1@, a, n as nat, b) && says_one(other.1@, a, m as nat, b),
        exists|a: Seq<char>, b: Seq<char>|
            #[trigger] says_one(by.2@, a, n as nat, b) && says_one(other.2@, a, m as nat, b),
{
    reveal_strlit("ltx: ");
    reveal_strlit("wal: ");
    reveal_strlit("invalid compaction levels: ");
    let none = Seq::<char>::empty();
    assert("ltx: "@ =~= seq!['l', 't', 'x', ':', ' ']);
    assert("wal: "@ =~= seq!['w', 'a', 'l', ':', ' ']);
    assert(s.2@.skip(s.2@.len() - of_fault@.len()) =~= of_fault@);
    let a = "equivocation: another writer wrote a different LTX at txid "@;
    assert(says_one(by.0@, a, n as nat, none));
    assert(says_one(other.0@, a, m as nat, none));
    let b = " is older than the oldest restorable point"@;
    assert(says_one(by.1@, "txid "@, n as nat, b));
    assert(says_one(other.1@, "txid "@, m as nat, b));
    let c = "no contiguous chain from txid "@;
    assert(says_one(by.2@, c, n as nat, none));
    assert(says_one(other.2@, c, m as nat, none));
}

} // verus!
