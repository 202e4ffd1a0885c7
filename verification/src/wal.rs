//! The operation log: operations in the order in which they were accepted,
//! each under its sequence number.

use vstd::prelude::*;
use vstd::string::*;
use crate::segment::types::SeqNumberType;

verus! {

/// Failure of the operation log.
#[derive(Debug, Clone, PartialEq, Eq)]
pub enum WalError {
    /// The log could not be opened or put together.
    InitWalError(String),
    /// The log could not take an entry.
    WriteWalError(String),
}

impl WalError {
    /// The human-readable message of this error.
    pub open spec fn message_spec(self) -> Seq<char> {
        match self {
            WalError::InitWalError(reason) => "Can't init WAL: "@ + reason@,
            WalError::WriteWalError(reason) => "Can't write WAL: "@ + reason@,
        }
    }

    /// Renders the message of this error.
    pub fn message(&self) -> (s: String)
        ensures
            s@ == self.message_spec(),
    {
        match self {
            WalError::InitWalError(reason) => {
                let mut s = String::from_str("Can't init WAL: ");
                s.append(reason.as_str());
                s
            },
            WalError::WriteWalError(reason) => {
                let mut s = String::from_str("Can't write WAL: ");
                s.append(reason.as_str());
                s
            },
        }
    }
}

/// The log as a mathematical value.
pub struct WalView<T> {
    /// Sequence number of the oldest entry that the log still holds.
    pub first_index: nat,
    /// The entries, oldest first; entry `i` has the number `first_index + i`.
    pub entries: Seq<T>,
    /// Every entry numbered below this is persisted.
    pub durable_until: nat,
    /// Why the storage under the log was reported unwritable, if it was.
    pub failure: Option<Seq<char>>,
}

impl<T> WalView<T> {
    /// The sequence number that the next appended entry gets.
    pub open spec fn next_index(self) -> nat {
        self.first_index + self.entries.len()
    }

    /// Whether the log holds an entry numbered `seq`.
    pub open spec fn holds(self, seq: nat) -> bool {
        self.first_index <= seq < self.next_index()
    }

    /// The entry numbered `seq`.
    pub open spec fn entry(self, seq: nat) -> T
        recommends
            self.holds(seq),
    {
        self.entries[seq - self.first_index]
    }

    /// The number of the first entry that the log holds among those numbered
    /// `seq` or above; the next index if it holds none.
    pub open spec fn start_from(self, seq: nat) -> nat {
        if seq < self.first_index {
            self.first_index
        } else if seq < self.next_index() {
            seq
        } else {
            self.next_index()
        }
    }

    /// Whether the log takes another entry: its storage is writable and a
    /// sequence number is left.
    pub open spec fn writable(self) -> bool {
        self.failure is None && self.next_index() < u64::MAX
    }

    /// Why the log takes no entry, where it takes none: the failure that was
    /// reported of its storage, or else that the sequence numbers have run
    /// out.
    pub open spec fn refusal_reason(self) -> Seq<char> {
        match self.failure {
            Some(why) => why,
            None => "sequence numbers exhausted"@,
        }
    }

    /// The log after `op` is appended.
    pub open spec fn appended(self, op: T) -> WalView<T> {
        WalView { entries: self.entries.push(op), ..self }
    }

    /// The log after everything appended is persisted.
    pub open spec fn flushed(self) -> WalView<T> {
        WalView { durable_until: self.next_index(), ..self }
    }

    /// The first sequence number that stays after entries up to `seq` are
    /// given up.
    pub open spec fn first_after_ack(self, seq: nat) -> nat {
        if seq < self.first_index {
            self.first_index
        } else if seq + 1 < self.next_index() {
            seq + 1
        } else {
            self.next_index()
        }
    }

    /// The log after the entries numbered `seq` or below are given up.
    pub open spec fn acked(self, seq: nat) -> WalView<T> {
        let first = self.first_after_ack(seq);
        WalView {
            first_index: first,
            entries: self.entries.skip(first - self.first_index),
            durable_until: if self.durable_until < first {
                first
            } else {
                self.durable_until
            },
            failure: self.failure,
        }
    }

    /// The log after its storage is reported unwritable. The first report stays.
    pub open spec fn failed(self, reason: Seq<char>) -> WalView<T> {
        WalView {
            failure: if self.failure is Some {
                self.failure
            } else {
                Some(reason)
            },
            ..self
        }
    }
}

/// Whether the records are numbered upwards from the first, each one above
/// the one before it.
pub open spec fn in_sequence<T>(records: Seq<(SeqNumberType, T)>) -> bool {
    forall|i: int| 0 <= i < records.len() ==> (#[trigger] records[i]).0 == records[0].0 + i
}

/// Whether the records are in sequence and leave a sequence number for the
/// entry after them.
pub open spec fn consecutive<T>(records: Seq<(SeqNumberType, T)>) -> bool {
    &&& in_sequence(records)
    &&& records.len() > 0 ==> records[0].0 + records.len() <= u64::MAX
}

/// What is wrong with records that are not consecutive.
pub open spec fn fault_of<T>(records: Seq<(SeqNumberType, T)>) -> Seq<char> {
    if in_sequence(records) {
        "sequence numbers exhausted"@
    } else {
        "entries out of sequence"@
    }
}

/// The operation log.
pub struct Wal<T> {
    first_index: SeqNumberType,
    durable_until: SeqNumberType,
    failure: Option<String>,
    entries: Vec<T>,
}

impl<T> View for Wal<T> {
    type V = WalView<T>;

    closed spec fn view(&self) -> WalView<T> {
        WalView {
            first_index: self.first_index as nat,
            entries: self.entries@,
            durable_until: self.durable_until as nat,
            failure: match self.failure {
                Some(reason) => Some(reason@),
                None => None,
            },
        }
    }
}

impl<T> Wal<T> {
    /// The invariant of the log: its sequence numbers fit, and what is
    /// persisted is a prefix of what is held or was given up.
    pub open spec fn wf(&self) -> bool {
        &&& self@.next_index() <= u64::MAX
        &&& self@.first_index <= self@.durable_until <= self@.next_index()
    }

    /// An empty log whose first entry will get the number 0.
    pub fn new() -> (wal: Wal<T>)
        ensures
            wal.wf(),
            wal@ == (WalView::<T> {
                first_index: 0,
                entries: Seq::empty(),
                durable_until: 0,
                failure: None,
            }),
    {
        Wal { first_index: 0, durable_until: 0, failure: None, entries: Vec::new() }
    }

    /// Puts a log together from persisted records. Records that are not
    /// numbered consecutively are corrupt: no log is made of them.
    pub fn restore(records: Vec<(SeqNumberType, T)>) -> (r: Result<Wal<T>, WalError>)
        ensures
            match r {
                Ok(wal) => {
                    &&& consecutive(records@)
                    &&& wal.wf()
                    &&& wal@.first_index == (if records@.len() == 0 {
                        0
                    } else {
                        records@[0].0
                    })
                    &&& wal@.entries == records@.map_values(|record: (SeqNumberType, T)| record.1)
                    &&& wal@.durable_until == wal@.next_index()
                    &&& wal@.failure is None
                },
                Err(e) => {
                    &&& !consecutive(records@)
                    &&& e matches WalError::InitWalError(reason)
                    &&& reason@ == fault_of(records@)
                },
            },
    {
        let ghost all = records@;
        let mut rest = records;
        let mut reversed: Vec<(SeqNumberType, T)> = Vec::new();
        while rest.len() > 0
            invariant
                rest@.len() + reversed@.len() == all.len(),
                rest@ == all.take(rest@.len() as int),
                forall|k: int|
                    0 <= k < reversed@.len() ==> reversed@[k] == all[all.len() - 1 - k],
            decreases rest@.len(),
        {
            let record = rest.pop().unwrap();
            reversed.push(record);
            assert(rest@ =~= all.take(rest@.len() as int));
        }
        let mut entries: Vec<T> = Vec::new();
        let mut first: SeqNumberType = 0;
        let mut next: SeqNumberType = 0;
        while reversed.len() > 0
            invariant
                all == records@,
                entries@.len() + reversed@.len() == all.len(),
                forall|k: int|
                    0 <= k < reversed@.len() ==> reversed@[k] == all[all.len() - 1 - k],
                forall|k: int| 0 <= k < entries@.len() ==> entries@[k] == all[k].1,
                forall|k: int|
                    0 <= k < entries@.len() ==> (#[trigger] all[k]).0 == all[0].0 + k,
                entries@.len() == 0 ==> first == 0 && next == 0,
                entries@.len() > 0 ==> first == all[0].0 && next == first + entries@.len() - 1,
            decreases reversed@.len(),
        {
            let ghost k = entries@.len() as int;
            let (seq, op) = reversed.pop().unwrap();
            assert(seq == all[k].0 && op == all[k].1);
            if entries.len() == 0 {
                first = seq;
            } else if next == u64::MAX || seq != next + 1 {
                assert(!in_sequence(all)) by {
                    if in_sequence(all) {
                        assert(all[k].0 == all[0].0 + k);
                    }
                }
                return Err(WalError::InitWalError(String::from_str("entries out of sequence")));
            }
            next = seq;
            entries.push(op);
        }
        assert(entries@ =~= all.map_values(|record: (SeqNumberType, T)| record.1));
        assert(in_sequence(all));
        if entries.len() > 0 && next == u64::MAX {
            return Err(WalError::InitWalError(String::from_str("sequence numbers exhausted")));
        }
        assert(consecutive(all));
        let after: SeqNumberType = if entries.len() == 0 {
            0
        } else {
            next + 1
        };
        Ok(Wal { first_index: first, durable_until: after, failure: None, entries })
    }

    /// The sequence number of the oldest entry that the log still holds.
    pub fn first_index(&self) -> (seq: SeqNumberType)
        ensures
            seq == self@.first_index,
    {
        self.first_index
    }

    /// The sequence number that the next appended entry gets.
    pub fn next_index(&self) -> (seq: SeqNumberType)
        requires
            self.wf(),
        ensures
            seq == self@.next_index(),
    {
        self.first_index + (self.entries.len() as u64)
    }

    /// The number of entries that the log holds.
    pub fn len(&self) -> (n: usize)
        ensures
            n == self@.entries.len(),
    {
        self.entries.len()
    }

    /// Every entry numbered below this is persisted.
    pub fn durable_until(&self) -> (seq: SeqNumberType)
        ensures
            seq == self@.durable_until,
    {
        self.durable_until
    }

    /// Whether the storage under the log was reported unwritable.
    pub fn has_failed(&self) -> (b: bool)
        ensures
            b == (self@.failure is Some),
    {
        self.failure.is_some()
    }

    /// Whether the log takes another entry.
    pub fn is_writable(&self) -> (b: bool)
        requires
            self.wf(),
        ensures
            b == self@.writable(),
    {
        self.failure.is_none() && self.next_index() < u64::MAX
    }

    /// Appends `op` and hands out its sequence number: the one after the last
    /// that was handed out. A log that is not writable refuses and stays as it
    /// is.
    pub fn append(&mut self, op: T) -> (r: Result<SeqNumberType, WalError>)
        requires
            old(self).wf(),
        ensures
            final(self).wf(),
            match r {
                Ok(seq) => {
                    &&& old(self)@.writable()
                    &&& seq == old(self)@.next_index()
                    &&& final(self)@ == old(self)@.appended(op)
                },
                Err(e) => {
                    &&& !old(self)@.writable()
                    &&& final(self)@ == old(self)@
                    &&& e matches WalError::WriteWalError(reason)
                    &&& reason@ == old(self)@.refusal_reason()
                },
            },
    {
        match &self.failure {
            Some(reason) => {
                return Err(WalError::WriteWalError(reason.clone()));
            },
            None => {},
        }
        let seq = self.next_index();
        if seq == u64::MAX {
            return Err(WalError::WriteWalError(String::from_str("sequence numbers exhausted")));
        }
        self.entries.push(op);
        Ok(seq)
    }

    /// The entry numbered `seq`, if the log holds it.
    pub fn get(&self, seq: SeqNumberType) -> (r: Option<&T>)
        requires
            self.wf(),
        ensures
            match r {
                Some(op) => self@.holds(seq as nat) && *op == self@.entry(seq as nat),
                None => !self@.holds(seq as nat),
            },
    {
        if seq < self.first_index {
            return None;
        }
        let offset = seq - self.first_index;
        if offset < self.entries.len() as u64 {
            Some(&self.entries[offset as usize])
        } else {
            None
        }
    }

    /// The entries numbered `seq` or above, oldest first, each with its number.
    pub fn read_from(&self, seq: SeqNumberType) -> (r: Vec<(SeqNumberType, &T)>)
        requires
            self.wf(),
        ensures
            r@.len() == self@.next_index() - self@.start_from(seq as nat),
            forall|i: int|
                0 <= i < r@.len() ==> {
                    &&& (#[trigger] r@[i]).0 == self@.start_from(seq as nat) + i
                    &&& *r@[i].1 == self@.entry((self@.start_from(seq as nat) + i) as nat)
                },
    {
        let mut out: Vec<(SeqNumberType, &T)> = Vec::new();
        let start: usize = if seq <= self.first_index {
            0
        } else if seq - self.first_index < self.entries.len() as u64 {
            (seq - self.first_index) as usize
        } else {
            self.entries.len()
        };
        let mut i: usize = start;
        while i < self.entries.len()
            invariant
                self.wf(),
                start <= i <= self.entries@.len(),
                out@.len() == i - start,
                forall|k: int|
                    0 <= k < out@.len() ==> {
                        &&& (#[trigger] out@[k]).0 == self.first_index + start + k
                        &&& *out@[k].1 == self.entries@[start + k]
                    },
            decreases self.entries@.len() - i,
        {
            out.push((self.first_index + (i as u64), &self.entries[i]));
            i += 1;
        }
        out
    }

    /// Records that everything appended so far is persisted.
    pub fn flush(&mut self)
        requires
            old(self).wf(),
        ensures
            final(self).wf(),
            final(self)@ == old(self)@.flushed(),
    {
        self.durable_until = self.next_index();
    }

    /// Gives up the entries numbered `seq` or below: nothing needs them any
    /// more. The numbering of the entries that stay does not change.
    pub fn ack(&mut self, seq: SeqNumberType)
        requires
            old(self).wf(),
        ensures
            final(self).wf(),
            final(self)@ == old(self)@.acked(seq as nat),
    {
        if seq < self.first_index {
            assert(self@.entries.skip(0) =~= self@.entries);
            return ;
        }
        let next = self.next_index();
        let first: SeqNumberType = if seq < next {
            seq + 1
        } else {
            next
        };
        let ghost before = self@;
        let held: usize = self.entries.len();
        assert(first - self.first_index <= held);
        let count: usize = (first - self.first_index) as usize;
        let kept = self.entries.split_off(count);
        assert(kept@ =~= before.entries.skip(count as int));
        self.entries = kept;
        self.first_index = first;
        if self.durable_until < first {
            self.durable_until = first;
        }
    }

    /// Records that the storage under the log was found unwritable. From then
    /// on the log refuses every entry.
    pub fn mark_failed(&mut self, reason: String)
        requires
            old(self).wf(),
        ensures
            final(self).wf(),
            final(self)@ == old(self)@.failed(reason@),
    {
        if self.failure.is_none() {
            self.failure = Some(reason);
        }
    }
}

/// Appends hand out consecutive sequence numbers: the entry appended right
/// after the entry numbered `n` gets the number `n + 1`, and each entry is
/// found again under its number.
pub proof fn lemma_sequence_numbers_gap_free<T>(log: WalView<T>, first: T, second: T)
    ensures
        log.appended(first).next_index() == log.next_index() + 1,
        log.appended(first).appended(second).entry(log.next_index()) == first,
        log.appended(first).appended(second).entry(log.next_index() + 1) == second,
        forall|n: nat| log.holds(n) ==> log.appended(first).holds(n) && log.appended(first).entry(n) == log.entry(n),
{
}

/// The sequence numbers that a log holds are exactly the numbers from its
/// first index up to the next index: none is missing and none occurs twice.
pub proof fn lemma_sequence_numbers_increase<T>(log: WalView<T>, i: int, j: int)
    requires
        0 <= i < j < log.entries.len(),
    ensures
        log.first_index + i < log.first_index + j < log.next_index(),
        log.holds((log.first_index + i) as nat),
        log.entry((log.first_index + i) as nat) == log.entries[i],
{
}

} // verus!
