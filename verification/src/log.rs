//! The replicated log.
use vstd::prelude::*;

use crate::state::Term;

verus! {

/// One entry of the replicated log. `command` is opaque at this layer.
#[derive(Debug)]
pub struct LogEntry {
    /// The term in which a leader created this entry.
    pub term: Term,
    /// Position in the log, counted from one.
    pub index: u64,
    pub command: Vec<u8>,
}

/// The mathematical content of a [`LogEntry`].
pub struct Entry {
    pub term: Term,
    pub index: u64,
    pub command: Seq<u8>,
}

impl View for LogEntry {
    type V = Entry;

    open spec fn view(&self) -> Entry {
        Entry { term: self.term, index: self.index, command: self.command@ }
    }
}

impl Clone for LogEntry {
    fn clone(&self) -> (r: Self)
        ensures
            r@ == self@,
    {
        let command = self.command.clone();
        assert(command@ =~= self.command@);
        LogEntry { term: self.term, index: self.index, command }
    }
}

/// The contents of a list of entries.
pub open spec fn contents(entries: Seq<LogEntry>) -> Seq<Entry> {
    Seq::new(entries.len(), |i: int| entries[i]@)
}

/// Index of the last entry, 0 for an empty log.
pub open spec fn last_index(log: Seq<Entry>) -> u64 {
    if log.len() == 0 {
        0
    } else {
        log.last().index
    }
}

/// Term of the last entry, 0 for an empty log.
pub open spec fn last_term(log: Seq<Entry>) -> Term {
    if log.len() == 0 {
        0
    } else {
        log.last().term
    }
}

/// The entry at position `index`, counted from one.
pub open spec fn entry_at(log: Seq<Entry>, index: u64) -> Option<Entry> {
    if 1 <= index <= log.len() {
        Some(log[index - 1])
    } else {
        None
    }
}

/// The term of the entry at position `index`, counted from one.
pub open spec fn term_at(log: Seq<Entry>, index: u64) -> Option<Term> {
    if 1 <= index <= log.len() {
        Some(log[index - 1].term)
    } else {
        None
    }
}

/// The log holds an entry of term `prev_term` at `prev_index`; position 0,
/// before the log starts, always agrees.
pub open spec fn agrees(log: Seq<Entry>, prev_index: u64, prev_term: Term) -> bool {
    prev_index == 0 || term_at(log, prev_index) == Some(prev_term)
}

/// The first `keep` entries, or all of them if there are fewer.
pub open spec fn prefix(log: Seq<Entry>, keep: int) -> Seq<Entry> {
    if keep < log.len() {
        log.take(keep)
    } else {
        log
    }
}

/// `log` begins with `prefix`.
pub open spec fn begins(log: Seq<Entry>, prefix: Seq<Entry>) -> bool {
    prefix.len() <= log.len() && log.take(prefix.len() as int) == prefix
}

/// The entries whose index is greater than `after_index`, in log order.
pub open spec fn entries_after(log: Seq<Entry>, after_index: u64) -> Seq<Entry> {
    log.filter(|e: Entry| e.index > after_index)
}

/// The log when everything from position `from_index` on, counted from one, has
/// given way to other entries.
pub open spec fn replaced(log: Seq<Entry>, from_index: u64, new: Seq<Entry>) -> Seq<Entry> {
    prefix(log, if from_index == 0 { 0 } else { from_index - 1 }) + new
}

/// Every entry's index is its position counted from one. Logs built with
/// [`Log::append`] alone are numbered.
pub open spec fn numbered(log: Seq<Entry>) -> bool {
    forall|i: int| 0 <= i < log.len() ==> (#[trigger] log[i]).index == i + 1
}

/// Copies a list of entries.
pub fn copy_entries(entries: &Vec<LogEntry>) -> (r: Vec<LogEntry>)
    ensures
        contents(r@) == contents(entries@),
{
    let mut copy: Vec<LogEntry> = Vec::new();
    for i in 0..entries.len()
        invariant
            copy.len() == i,
            forall|j: int| 0 <= j < i ==> (#[trigger] copy@[j])@ == entries@[j]@,
    {
        copy.push(entries[i].clone());
    }
    assert(contents(copy@) =~= contents(entries@));
    copy
}

/// Whether two entries are the same.
fn same_entry(a: &LogEntry, b: &LogEntry) -> (r: bool)
    ensures
        r == (a@ == b@),
{
    if a.term != b.term || a.index != b.index || a.command.len() != b.command.len() {
        return false;
    }
    for i in 0..a.command.len()
        invariant
            a.command.len() == b.command.len(),
            forall|j: int| 0 <= j < i ==> a.command@[j] == b.command@[j],
    {
        if a.command[i] != b.command[i] {
            assert(a.command@[i as int] != b.command@[i as int]);
            return false;
        }
    }
    assert(a.command@ =~= b.command@);
    true
}

/// The in-memory log that election and replication reason about.
#[derive(Debug)]
pub struct Log {
    entries: Vec<LogEntry>,
}

impl View for Log {
    type V = Seq<Entry>;

    closed spec fn view(&self) -> Seq<Entry> {
        contents(self.entries@)
    }
}

impl Default for Log {
    fn default() -> (r: Self)
        ensures
            r@ == Seq::<Entry>::empty(),
    {
        Log::new()
    }
}

impl Log {
    pub fn new() -> (r: Self)
        ensures
            r@ == Seq::<Entry>::empty(),
    {
        let log = Log { entries: Vec::new() };
        assert(log@ =~= Seq::<Entry>::empty());
        log
    }

    /// Takes over a list of entries recovered at startup as it stands.
    pub fn from_entries(entries: Vec<LogEntry>) -> (r: Self)
        ensures
            r@ == contents(entries@),
    {
        Log { entries }
    }

    pub fn last_index(&self) -> (r: u64)
        ensures
            r == last_index(self@),
    {
        let n = self.entries.len();
        if n == 0 {
            0
        } else {
            self.entries[n - 1].index
        }
    }

    pub fn last_term(&self) -> (r: Term)
        ensures
            r == last_term(self@),
    {
        let n = self.entries.len();
        if n == 0 {
            0
        } else {
            self.entries[n - 1].term
        }
    }

    pub fn get(&self, index: u64) -> (r: Option<&LogEntry>)
        ensures
            match r {
                Some(e) => entry_at(self@, index) == Some(e@),
                None => entry_at(self@, index) is None,
            },
    {
        if index == 0 || index - 1 >= self.entries.len() as u64 {
            None
        } else {
            Some(&self.entries[(index - 1) as usize])
        }
    }

    pub fn term_at(&self, index: u64) -> (r: Option<Term>)
        ensures
            r == term_at(self@, index),
    {
        match self.get(index) {
            Some(e) => Some(e.term),
            None => None,
        }
    }

    /// Appends an entry created by this node as leader and returns its index.
    pub fn append(&mut self, term: Term, command: Vec<u8>) -> (index: u64)
        requires
            last_index(old(self)@) < u64::MAX,
        ensures
            index == last_index(old(self)@) + 1,
            final(self)@ == old(self)@.push(Entry { term, index, command: command@ }),
    {
        let index: u64 = self.last_index() + 1;
        self.entries.push(LogEntry { term, index, command });
        assert(self@ =~= old(self)@.push(Entry { term, index, command: command@ }));
        index
    }

    /// Replaces everything from position `from_index` on with `new_entries`.
    /// Committed entries must stay: callers see to it that `from_index` lies
    /// beyond the commit index.
    pub fn truncate_and_append(&mut self, from_index: u64, new_entries: Vec<LogEntry>)
        ensures
            final(self)@ == replaced(old(self)@, from_index, contents(new_entries@)),
            final(self)@ == prefix(old(self)@, if from_index == 0 { 0 } else { from_index - 1 })
                + contents(new_entries@),
    {
        self.keep_and_append(from_index.saturating_sub(1), new_entries);
    }

    /// Keeps the first `keep` entries and appends `new_entries` to them.
    pub(crate) fn keep_and_append(&mut self, keep: u64, new_entries: Vec<LogEntry>)
        ensures
            final(self)@ == prefix(old(self)@, keep as int) + contents(new_entries@),
    {
        if keep < self.entries.len() as u64 {
            self.entries.truncate(keep as usize);
        }
        let ghost kept = self@;
        assert(kept =~= prefix(old(self)@, keep as int));
        let ghost added = contents(new_entries@);
        let mut rest = new_entries;
        self.entries.append(&mut rest);
        assert(self@ =~= kept + added);
    }

    /// The entries strictly after `after_index`.
    pub fn entries_after(&self, after_index: u64) -> (r: Vec<LogEntry>)
        ensures
            contents(r@) == entries_after(self@, after_index),
    {
        let mut found: Vec<LogEntry> = Vec::new();
        let ghost newer = |e: Entry| e.index > after_index;
        assert(contents(found@) =~= self@.take(0).filter(newer)) by {
            reveal(Seq::filter);
        }
        for i in 0..self.entries.len()
            invariant
                newer == (|e: Entry| e.index > after_index),
                contents(found@) == self@.take(i as int).filter(newer),
        {
            let ghost before = found@;
            let ghost step = self@.take(i + 1);
            proof {
                reveal(Seq::filter);
                assert(step.drop_last() =~= self@.take(i as int));
                assert(step.last() == self.entries@[i as int]@);
            }
            if self.entries[i].index > after_index {
                found.push(self.entries[i].clone());
                assert(contents(found@) =~= contents(before).push(step.last()));
            }
        }
        assert(self@.take(self@.len() as int) =~= self@);
        found
    }

    /// How many entries there are.
    pub(crate) fn size(&self) -> (r: u64)
        ensures
            r == self@.len(),
    {
        self.entries.len() as u64
    }

    /// The entries past the first `count`.
    pub(crate) fn from_position(&self, count: u64) -> (r: Vec<LogEntry>)
        requires
            count <= self@.len(),
        ensures
            contents(r@) == self@.skip(count as int),
    {
        let mut found: Vec<LogEntry> = Vec::new();
        let start = count as usize;
        for i in start..self.entries.len()
            invariant
                found.len() == i - start,
                forall|j: int|
                    0 <= j < i - start ==> (#[trigger] found@[j])@ == self.entries@[start + j]@,
        {
            found.push(self.entries[i].clone());
        }
        assert(contents(found@) =~= self@.skip(count as int));
        found
    }

    /// Whether there are entries past the position `more` behind `index`.
    pub(crate) fn extends_past_by(&self, index: u64, more: usize) -> (r: bool)
        ensures
            r == (index + more < self@.len()),
            r ==> index + more < u64::MAX,
    {
        let len = self.entries.len() as u64;
        index < len && (more as u64) < len - index
    }

    /// Whether the entry at position `index` is `entry`.
    pub(crate) fn holds(&self, index: u64, entry: &LogEntry) -> (r: bool)
        ensures
            r == (entry_at(self@, index) == Some(entry@)),
    {
        match self.get(index) {
            Some(e) => same_entry(e, entry),
            None => false,
        }
    }

    pub fn matches(&self, prev_index: u64, prev_term: Term) -> (r: bool)
        ensures
            r == agrees(self@, prev_index, prev_term),
    {
        if prev_index == 0 {
            return true;
        }
        match self.term_at(prev_index) {
            Some(term) => term == prev_term,
            None => false,
        }
    }
}

/// In a numbered log the entries after index `n` are the ones past the first
/// `n` positions.
pub proof fn entries_after_is_the_tail(log: Seq<Entry>, n: u64)
    requires
        numbered(log),
        n <= log.len(),
    ensures
        entries_after(log, n) == log.skip(n as int),
    decreases log.len(),
{
    reveal(Seq::filter);
    let newer = |e: Entry| e.index > n;
    if log.len() == n {
        nothing_after_the_end(log, n);
        assert(log.skip(n as int) =~= Seq::<Entry>::empty());
    } else {
        entries_after_is_the_tail(log.drop_last(), n);
        assert(log.skip(n as int) =~= log.drop_last().skip(n as int).push(log.last()));
    }
}

/// A numbered log has no entries after its end.
pub proof fn nothing_after_the_end(log: Seq<Entry>, n: u64)
    requires
        numbered(log),
        log.len() <= n,
    ensures
        entries_after(log, n) == Seq::<Entry>::empty(),
    decreases log.len(),
{
    reveal(Seq::filter);
    if log.len() > 0 {
        nothing_after_the_end(log.drop_last(), n);
    }
}

/// A log that starts empty and only grows by [`Log::append`] stays numbered.
pub proof fn append_keeps_numbering(log: Seq<Entry>, term: Term, command: Seq<u8>)
    requires
        numbered(log),
        log.len() < u64::MAX,
    ensures
        numbered(log.push(Entry { term, index: (last_index(log) + 1) as u64, command })),
        last_index(log) == log.len(),
{
}

/// The index and the term of a log are those of the entry that was added last;
/// a log without entries has 0 for both.
pub proof fn the_last_entry_counts(log: Seq<Entry>, e: Entry)
    ensures
        last_index(log.push(e)) == e.index,
        last_term(log.push(e)) == e.term,
        last_index(Seq::empty()) == 0,
        last_term(Seq::empty()) == 0,
{
}

/// Positions are counted from one: every entry is found at its position, and
/// there is nothing at 0 or past the end.
pub proof fn entries_are_found_at_their_position(log: Seq<Entry>, i: int, past: u64)
    requires
        0 <= i < log.len(),
        i < u64::MAX,
        past == 0 || past > log.len(),
    ensures
        entry_at(log, (i + 1) as u64) == Some(log[i]),
        term_at(log, (i + 1) as u64) == Some(log[i].term),
        entry_at(log, past) is None,
        term_at(log, past) is None,
{
}

/// A log agrees with whatever comes before its start, with the term of each
/// entry at that entry's position and with no other term there, and with
/// nothing past its end.
pub proof fn logs_agree_with_their_own_terms(log: Seq<Entry>, i: int, term: Term, past: u64)
    requires
        0 <= i < log.len(),
        i < u64::MAX,
        past > log.len(),
    ensures
        agrees(log, 0, term),
        agrees(log, (i + 1) as u64, log[i].term),
        term != log[i].term ==> !agrees(log, (i + 1) as u64, term),
        !agrees(log, past, term),
{
}

/// A log begins with everything that was in it before more came behind, and
/// with nothing that differs from it anywhere.
pub proof fn logs_begin_with_their_past(log: Seq<Entry>, more: Seq<Entry>, other: Seq<Entry>, i: int)
    requires
        0 <= i < other.len(),
        i >= log.len() || log[i] != other[i],
    ensures
        begins(log + more, log),
        !begins(log, other),
        prefix(log + more, log.len() as int) == log,
        prefix(log, (log.len() + more.len()) as int) == log,
{
    assert((log + more).take(log.len() as int) =~= log);
    if begins(log, other) {
        assert(log.take(other.len() as int)[i] == other[i]);
    }
    if more.len() == 0 {
        assert(log + more =~= log);
    }
}

/// What comes after an index is picked entry by entry, in log order: an entry
/// that joins the log joins the pick if its index is greater, and changes
/// nothing of the pick otherwise.
pub proof fn newer_entries_are_picked_in_order(log: Seq<Entry>, e: Entry, after_index: u64)
    ensures
        entries_after(Seq::empty(), after_index) == Seq::<Entry>::empty(),
        e.index > after_index ==> entries_after(log.push(e), after_index) == entries_after(
            log,
            after_index,
        ).push(e),
        e.index <= after_index ==> entries_after(log.push(e), after_index) == entries_after(
            log,
            after_index,
        ),
{
    reveal(Seq::filter);
    assert(log.push(e).drop_last() =~= log);
}

/// A list of entries stands for all of its entries, each as it is.
pub proof fn lists_stand_for_all_entries(entries: Seq<LogEntry>, i: int)
    requires
        0 <= i < entries.len(),
    ensures
        contents(entries).len() == entries.len(),
        contents(entries)[i].term == entries[i].term,
        contents(entries)[i].index == entries[i].index,
        contents(entries)[i].command == entries[i].command@,
{
}

/// What is replaced gives way from the first position on, and what lies before
/// it stays. From position 0 or 1 on that is everything, and from past the end
/// on it is nothing.
pub proof fn replacing_keeps_what_lies_before(
    log: Seq<Entry>,
    more: Seq<Entry>,
    from_index: u64,
    new: Seq<Entry>,
)
    ensures
        from_index == log.len() + 1 ==> replaced(log + more, from_index, new) == log + new,
        from_index > log.len() ==> replaced(log, from_index, new) == log + new,
        replaced(log, 0, new) == new,
        replaced(log, 1, new) == new,
{
    logs_begin_with_themselves(log, more);
    assert(Seq::<Entry>::empty() + new =~= new);
    assert(prefix(log, 0) =~= Seq::<Entry>::empty());
}

proof fn logs_begin_with_themselves(log: Seq<Entry>, more: Seq<Entry>)
    ensures
        prefix(log + more, log.len() as int) == log,
{
    assert((log + more).take(log.len() as int) =~= log);
    if more.len() == 0 {
        assert(log + more =~= log);
    }
}

} // verus!
