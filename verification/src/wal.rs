//! The write-ahead log as a file holds it: one record per entry, each a
//! four-byte little-endian length followed by the entry's bytes.
use vstd::prelude::*;
use vstd::slice::slice_subrange;

use crate::codec::{self, put_entry, put_framed, take_entry};
use crate::log::{self, Entry, LogEntry};
use crate::wire;

verus! {

/// Why a write-ahead log could not be written or read.
#[derive(Debug)]
pub enum WalError {
    Codec(bincode::Error),
    /// The file ends in the middle of a record.
    Truncated,
}

/// The bytes of one record.
pub open spec fn record_bytes(e: Entry) -> Seq<u8> {
    codec::framed(codec::entry_bytes(e))
}

/// The bytes of each record.
pub open spec fn record_parts(entries: Seq<Entry>) -> Seq<Seq<u8>> {
    Seq::new(entries.len(), |i: int| record_bytes(entries[i]))
}

/// A file that holds `entries`.
pub open spec fn wal_bytes(entries: Seq<Entry>) -> Seq<u8> {
    wire::joined(record_parts(entries))
}

/// An entry is short enough for the lengths in its record to fit.
pub open spec fn record_fits(e: Entry) -> bool {
    wire::blob_fits(e.command) && codec::entry_bytes(e).len() <= u32::MAX
}

/// What reading a file from the start gives.
pub enum Replayed {
    Entries(Seq<Entry>),
    Truncated,
    Corrupt,
}

/// Reads record after record. Fewer than four bytes at the end count as the
/// end; a record that is cut off or makes no sense stops the reading.
pub open spec fn replayed(s: Seq<u8>) -> Replayed
    decreases s.len(),
{
    match wire::parse_u32(s) {
        None => Replayed::Entries(Seq::empty()),
        Some((len, rest)) => if len > rest.len() {
            Replayed::Truncated
        } else {
            match codec::parse_entry(rest.take(len as int)) {
                None => Replayed::Corrupt,
                Some((first, _)) => preceded(first, replayed(rest.skip(len as int))),
            }
        },
    }
}

/// The result of reading when `first` comes before `others`.
pub open spec fn preceded(first: Entry, others: Replayed) -> Replayed {
    match others {
        Replayed::Entries(entries) => Replayed::Entries(seq![first] + entries),
        _ => others,
    }
}

/// How many bytes at the beginning of a file are whole records.
pub open spec fn whole(s: Seq<u8>) -> nat
    decreases s.len(),
{
    match wire::parse_u32(s) {
        None => 0,
        Some((len, rest)) => if len > rest.len() {
            0
        } else {
            4 + len as nat + whole(rest.skip(len as int))
        },
    }
}

/// A file that holds `entries` and nothing behind their records.
pub open spec fn holds(file: Seq<u8>, entries: Seq<Entry>) -> bool {
    replayed(file) == Replayed::Entries(entries) && whole(file) == file.len()
}

/// A file without what is behind its whole records.
pub open spec fn trimmed(file: Seq<u8>) -> Seq<u8> {
    file.take(whole(file) as int)
}

/// The result of reading when `done` comes before `others`.
spec fn resumed(done: Seq<Entry>, others: Replayed) -> Replayed {
    match others {
        Replayed::Entries(entries) => Replayed::Entries(done + entries),
        _ => others,
    }
}

/// Appends the record of one entry to a file's bytes.
pub fn write_record(file: &mut Vec<u8>, entry: &LogEntry) -> (r: Result<(), WalError>)
    ensures
        r is Ok,
        final(file)@ == old(file)@ + record_bytes(entry@),
        wire::blob_fits(entry@.command),
{
    let mut encoded: Vec<u8> = Vec::new();
    match put_entry(&mut encoded, entry) {
        Ok(_) => {
            assert(encoded@ =~= codec::entry_bytes(entry@));
            put_framed(file, &encoded);
            Ok(())
        },
        Err(e) => Err(WalError::Codec(e)),
    }
}

/// The entries a file holds, in order.
pub fn replay(file: &[u8]) -> (r: Result<Vec<LogEntry>, WalError>)
    ensures
        match r {
            Ok(entries) => replayed(file@) == Replayed::Entries(log::contents(entries@)),
            Err(WalError::Truncated) => replayed(file@) is Truncated,
            Err(WalError::Codec(_)) => replayed(file@) is Corrupt,
        },
{
    match scan(file) {
        Ok((entries, _)) => Ok(entries),
        Err(e) => Err(e),
    }
}

/// Where the whole records of a file end. What is behind them, if a crash left
/// the beginning of a length there, has to go before anything is appended.
pub fn whole_records(file: &[u8]) -> (r: Result<usize, WalError>)
    ensures
        match r {
            Ok(n) => {
                &&& n == whole(file@)
                &&& n <= file@.len()
                &&& file@.len() - n < 4
                &&& file@.take(n as int) == trimmed(file@)
                &&& replayed(file@) matches Replayed::Entries(entries) && {
                    &&& holds(file@.take(n as int), entries)
                    &&& forall|e: Entry|
                        record_fits(e) ==> replayed(
                            file@.take(n as int) + #[trigger] record_bytes(e),
                        ) == Replayed::Entries(entries.push(e))
                }
            },
            Err(WalError::Truncated) => replayed(file@) is Truncated,
            Err(WalError::Codec(_)) => replayed(file@) is Corrupt,
        },
{
    match scan(file) {
        Ok((entries, n)) => {
            proof {
                let all = log::contents(entries@);
                trimming_loses_nothing(file@);
                assert forall|e: Entry| record_fits(e) implies replayed(
                    file@.take(n as int) + #[trigger] record_bytes(e),
                ) == Replayed::Entries(all.push(e)) by {
                    appending_extends_the_replay(file@.take(n as int), all, e);
                }
            }
            Ok(n)
        },
        Err(e) => Err(e),
    }
}

/// The entries a file holds, and where their records end.
fn scan(file: &[u8]) -> (r: Result<(Vec<LogEntry>, usize), WalError>)
    ensures
        match r {
            Ok((entries, n)) => {
                &&& replayed(file@) == Replayed::Entries(log::contents(entries@))
                &&& n == whole(file@)
                &&& n <= file@.len()
                &&& file@.len() - n < 4
            },
            Err(WalError::Truncated) => replayed(file@) is Truncated,
            Err(WalError::Codec(_)) => replayed(file@) is Corrupt,
        },
{
    let mut entries: Vec<LogEntry> = Vec::new();
    let mut rest = file;
    proof {
        let none = log::contents(entries@);
        match replayed(file@) {
            Replayed::Entries(others) => {
                assert(none + others =~= others);
            },
            _ => {},
        }
    }
    while rest.len() >= 4
        invariant
            replayed(file@) == resumed(log::contents(entries@), replayed(rest@)),
            rest@.len() <= file@.len(),
            whole(file@) == file@.len() - rest@.len() + whole(rest@),
        decreases rest@.len(),
    {
        let ghost before = log::contents(entries@);
        let total = rest.len();
        let header = slice_subrange(rest, 0, 4);
        assert(header@ =~= rest@.take(4));
        let len = vstd::bytes::u32_from_le_bytes(header) as usize;
        if len > total - 4 {
            return Err(WalError::Truncated);
        }
        let record = slice_subrange(rest, 4, 4 + len);
        let next = slice_subrange(rest, 4 + len, total);
        assert(record@ =~= rest@.skip(4).take(len as int));
        assert(next@ =~= rest@.skip(4).skip(len as int));
        match take_entry(record) {
            Ok((entry, _)) => {
                entries.push(entry);
                proof {
                    let after = log::contents(entries@);
                    assert(after =~= before.push(entry@));
                    match replayed(next@) {
                        Replayed::Entries(others) => {
                            assert(before + (seq![entry@] + others) =~= after + others);
                        },
                        _ => {},
                    }
                }
            },
            Err(e) => return Err(WalError::Codec(e)),
        }
        rest = next;
    }
    assert(log::contents(entries@) + Seq::<Entry>::empty() =~= log::contents(entries@));
    Ok((entries, file.len() - rest.len()))
}

/// The entries below `from_index`, in order.
pub open spec fn kept(entries: Seq<Entry>, from_index: u64) -> Seq<Entry> {
    entries.filter(|e: Entry| e.index < from_index)
}

/// What becomes of a file when everything from `from_index` on is discarded, or
/// why nothing can.
pub open spec fn truncated(file: Seq<u8>, from_index: u64) -> Result<Seq<u8>, Replayed> {
    match replayed(file) {
        Replayed::Entries(entries) => Ok(wal_bytes(kept(entries, from_index))),
        damage => Err(damage),
    }
}

/// The bytes of the file that replaces `file` when everything from
/// `from_index` on is discarded.
pub fn truncate_from(file: &[u8], from_index: u64) -> (r: Result<Vec<u8>, WalError>)
    ensures
        match r {
            Ok(bytes) => replayed(file@) matches Replayed::Entries(entries) && bytes@ == wal_bytes(
                kept(entries, from_index),
            ),
            Err(WalError::Truncated) => replayed(file@) is Truncated,
            Err(WalError::Codec(_)) => replayed(file@) is Corrupt,
        },
        match r {
            Ok(bytes) => truncated(file@, from_index) == Ok::<Seq<u8>, Replayed>(bytes@),
            Err(_) => truncated(file@, from_index) is Err,
        },
{
    let entries = replay(file)?;
    let ghost all = log::contents(entries@);
    let ghost lower = |e: Entry| e.index < from_index;
    let mut out: Vec<u8> = Vec::new();
    proof {
        reveal(Seq::filter);
        assert(record_parts(all.take(0).filter(lower)) =~= Seq::<Seq<u8>>::empty());
    }
    for i in 0..entries.len()
        invariant
            all == log::contents(entries@),
            replayed(file@) == Replayed::Entries(all),
            lower == (|e: Entry| e.index < from_index),
            out@ == wal_bytes(all.take(i as int).filter(lower)),
    {
        let ghost step = all.take(i + 1);
        proof {
            reveal(Seq::filter);
            assert(step.drop_last() =~= all.take(i as int));
            assert(step.last() == entries@[i as int]@);
        }
        if entries[i].index < from_index {
            write_record(&mut out, &entries[i])?;
            proof {
                records_follow_each_other(all.take(i as int).filter(lower), step.last());
            }
        }
    }
    assert(all.take(all.len() as int) =~= all);
    Ok(out)
}

/// A record behind the others makes a file with one entry more.
pub proof fn records_follow_each_other(entries: Seq<Entry>, e: Entry)
    ensures
        wal_bytes(entries.push(e)) == wal_bytes(entries) + record_bytes(e),
{
    assert(record_parts(entries.push(e)) =~= record_parts(entries).push(record_bytes(e)));
    wire::lemma_joined_push(record_parts(entries), record_bytes(e));
}

/// Every entry fits its record.
pub open spec fn records_fit(entries: Seq<Entry>) -> bool {
    forall|i: int| 0 <= i < entries.len() ==> record_fits(#[trigger] entries[i])
}

/// What a file holds before a tail that is not a record is what is read
/// before the tail.
proof fn lemma_replay_before(entries: Seq<Entry>, tail: Seq<u8>)
    requires
        records_fit(entries),
    ensures
        replayed(wal_bytes(entries) + tail) == resumed(entries, replayed(tail)),
    decreases entries.len(),
{
    if entries.len() == 0 {
        assert(wal_bytes(entries) + tail =~= tail);
        match replayed(tail) {
            Replayed::Entries(others) => {
                assert(entries + others =~= others);
            },
            _ => {},
        }
    } else {
        let first = entries[0];
        let others = entries.drop_first();
        let payload = codec::entry_bytes(first);
        let len = payload.len() as u32;
        let after = wal_bytes(others) + tail;
        assert(record_parts(entries).drop_first() =~= record_parts(others));
        assert(wal_bytes(entries) + tail =~= wire::u32_bytes(len) + (payload + after));
        wire::u32_round_trips(len, payload + after);
        assert((payload + after).take(len as int) =~= payload);
        assert((payload + after).skip(len as int) =~= after);
        codec::entry_round_trips(first, Seq::empty());
        assert(payload + Seq::<u8>::empty() =~= payload);
        lemma_replay_before(others, tail);
        match replayed(tail) {
            Replayed::Entries(more) => {
                assert(seq![first] + (others + more) =~= entries + more);
            },
            _ => {},
        }
    }
}

/// What was written is what is read back, in order.
pub proof fn replay_returns_what_was_written(entries: Seq<Entry>)
    requires
        records_fit(entries),
    ensures
        replayed(wal_bytes(entries)) == Replayed::Entries(entries),
{
    lemma_replay_before(entries, Seq::empty());
    assert(wal_bytes(entries) + Seq::<u8>::empty() =~= wal_bytes(entries));
    assert(entries + Seq::<Entry>::empty() =~= entries);
}

/// What is read from a file is what is read from its whole records; whatever
/// takes the place of the bytes behind them is read as if it stood alone.
proof fn lemma_whole_records(file: Seq<u8>, tail: Seq<u8>)
    requires
        replayed(file) is Entries,
    ensures
        whole(file) <= file.len(),
        file.len() - whole(file) < 4,
        replayed(trimmed(file) + tail) == resumed(replayed(file)->Entries_0, replayed(tail)),
        whole(trimmed(file) + tail) == whole(file) + whole(tail),
    decreases file.len(),
{
    match wire::parse_u32(file) {
        None => {
            assert(trimmed(file) + tail =~= tail);
            if let Replayed::Entries(others) = replayed(tail) {
                assert(Seq::<Entry>::empty() + others =~= others);
            }
        },
        Some((len, rest)) => {
            let more = rest.skip(len as int);
            let payload = rest.take(len as int);
            let (first, _) = codec::parse_entry(payload)->0;
            lemma_whole_records(more, tail);
            let kept = trimmed(more);
            let whole_file = trimmed(file) + tail;
            let behind = payload + (kept + tail);
            assert(whole_file.take(4) =~= file.take(4));
            assert(whole_file.skip(4) =~= behind) by {
                assert(rest =~= payload + more);
                assert(trimmed(file).skip(4) =~= payload + kept);
            }
            assert(behind.take(len as int) =~= payload);
            assert(behind.skip(len as int) =~= kept + tail);
            let others = replayed(more)->Entries_0;
            if let Replayed::Entries(last) = replayed(tail) {
                assert(seq![first] + (others + last) =~= (seq![first] + others) + last);
            }
        },
    }
}

/// Cutting off what is behind the whole records of a file loses no entry.
pub proof fn trimming_loses_nothing(file: Seq<u8>)
    requires
        replayed(file) is Entries,
    ensures
        holds(trimmed(file), replayed(file)->Entries_0),
{
    let entries = replayed(file)->Entries_0;
    lemma_whole_records(file, Seq::empty());
    assert(trimmed(file) + Seq::<u8>::empty() =~= trimmed(file));
    assert(entries + Seq::<Entry>::empty() =~= entries);
}

/// Appending a record to a file of whole records appends its entry to what is
/// read back.
pub proof fn appending_extends_the_replay(file: Seq<u8>, entries: Seq<Entry>, e: Entry)
    requires
        holds(file, entries),
        record_fits(e),
    ensures
        holds(file + record_bytes(e), entries.push(e)),
{
    let one = seq![e];
    lemma_whole_records(file, record_bytes(e));
    assert(trimmed(file) =~= file);
    records_follow_each_other(Seq::empty(), e);
    assert(record_parts(Seq::empty()) =~= Seq::<Seq<u8>>::empty());
    assert(Seq::<u8>::empty() + record_bytes(e) =~= record_bytes(e));
    assert(Seq::<Entry>::empty().push(e) =~= one);
    files_hold_what_was_written(one);
    assert(entries + one =~= entries.push(e));
}

/// A file that was written in one piece holds its entries and nothing else.
pub proof fn files_hold_what_was_written(entries: Seq<Entry>)
    requires
        records_fit(entries),
    ensures
        holds(wal_bytes(entries), entries),
    decreases entries.len(),
{
    replay_returns_what_was_written(entries);
    if entries.len() > 0 {
        let first = entries[0];
        let others = entries.drop_first();
        let payload = codec::entry_bytes(first);
        let len = payload.len() as u32;
        let after = wal_bytes(others);
        assert(record_parts(entries).drop_first() =~= record_parts(others));
        assert(wal_bytes(entries) =~= wire::u32_bytes(len) + (payload + after));
        wire::u32_round_trips(len, payload + after);
        assert((payload + after).skip(len as int) =~= after);
        files_hold_what_was_written(others);
    }
}

/// A crash in the middle of an append loses nothing that was written before:
/// with less than a length on disk the earlier entries are read back, with
/// more the damage is reported.
pub proof fn torn_appends_are_noticed(entries: Seq<Entry>, e: Entry, written: int)
    requires
        records_fit(entries),
        record_fits(e),
        0 <= written < record_bytes(e).len(),
    ensures
        replayed(wal_bytes(entries) + record_bytes(e).take(written)) == if written < 4 {
            Replayed::Entries(entries)
        } else {
            Replayed::Truncated
        },
{
    let tail = record_bytes(e).take(written);
    let len = codec::entry_bytes(e).len() as u32;
    vstd::bytes::lemma_auto_spec_u32_to_from_le_bytes();
    lemma_replay_before(entries, tail);
    if written >= 4 {
        assert(tail.take(4) =~= wire::u32_bytes(len));
    }
    assert(entries + Seq::<Entry>::empty() =~= entries);
}

/// After a truncation the entries below the cut are read back, and no others.
pub proof fn truncation_keeps_the_prefix(entries: Seq<Entry>, from_index: u64)
    requires
        records_fit(entries),
    ensures
        replayed(wal_bytes(kept(entries, from_index))) == Replayed::Entries(
            kept(entries, from_index),
        ),
        log::numbered(entries) ==> kept(entries, from_index) == log::prefix(
            entries,
            if from_index == 0 {
                0
            } else {
                from_index - 1
            },
        ),
    decreases entries.len(),
{
    let lower = |e: Entry| e.index < from_index;
    kept_entries_fit(entries, from_index);
    replay_returns_what_was_written(kept(entries, from_index));
    if log::numbered(entries) {
        kept_entries_come_first(entries, from_index);
    }
}

/// What is kept fits its records.
pub proof fn kept_entries_fit(entries: Seq<Entry>, from_index: u64)
    requires
        records_fit(entries),
    ensures
        records_fit(kept(entries, from_index)),
    decreases entries.len(),
{
    reveal(Seq::filter);
    if entries.len() > 0 {
        kept_entries_fit(entries.drop_last(), from_index);
        assert(record_fits(entries[entries.len() - 1]));
    }
}

/// What is kept of a numbered log is its beginning.
pub proof fn kept_entries_come_first(entries: Seq<Entry>, from_index: u64)
    requires
        log::numbered(entries),
    ensures
        kept(entries, from_index) == log::prefix(
            entries,
            if from_index == 0 {
                0
            } else {
                from_index - 1
            },
        ),
    decreases entries.len(),
{
    reveal(Seq::filter);
    let n: int = if from_index == 0 {
        0
    } else {
        from_index - 1
    };
    if entries.len() == 0 {
        assert(kept(entries, from_index) =~= log::prefix(entries, n));
    } else {
        kept_entries_come_first(entries.drop_last(), from_index);
        assert(entries.last().index == entries.len());
        if entries.len() <= n {
            assert(entries.drop_last().push(entries.last()) =~= entries);
        } else {
            assert(log::prefix(entries.drop_last(), n) =~= log::prefix(entries, n));
        }
    }
}

/// A record is the length of its entry's bytes in four bytes, then these.
pub proof fn records_are_framed_entries(e: Entry)
    ensures
        record_bytes(e).len() == codec::entry_bytes(e).len() + 4,
        record_bytes(e).skip(4) == codec::entry_bytes(e),
{
    codec::frames_add_four_bytes(codec::entry_bytes(e));
}

/// A file is read record by record. One that is whole and holds an entry gives
/// that entry in front of what the rest gives; one that is cut off, or holds no
/// entry, is reported; and less than a length is the end.
pub proof fn files_are_read_record_by_record(len: u32, rest: Seq<u8>, stray: Seq<u8>)
    requires
        stray.len() < 4,
    ensures
        replayed(stray) == Replayed::Entries(Seq::empty()),
        ({
            let read = replayed(wire::u32_bytes(len) + rest);
            &&& len > rest.len() ==> read is Truncated
            &&& len <= rest.len() ==> match codec::parse_entry(rest.take(len as int)) {
                None => read is Corrupt,
                Some((first, _)) => match replayed(rest.skip(len as int)) {
                    Replayed::Entries(others) => read == Replayed::Entries(seq![first] + others),
                    Replayed::Truncated => read is Truncated,
                    Replayed::Corrupt => read is Corrupt,
                },
            }
        }),
{
    wire::u32_round_trips(len, rest);
}

/// A cut keeps the entries below it, every one of them and in their order, and
/// no others.
pub proof fn cuts_keep_what_is_below(entries: Seq<Entry>, e: Entry, from_index: u64)
    ensures
        kept(Seq::empty(), from_index) == Seq::<Entry>::empty(),
        e.index < from_index ==> kept(entries.push(e), from_index) == kept(
            entries,
            from_index,
        ).push(e),
        e.index >= from_index ==> kept(entries.push(e), from_index) == kept(entries, from_index),
{
    reveal(Seq::filter);
    assert(entries.push(e).drop_last() =~= entries);
}

/// What ends a file's whole records is never more than three bytes from its
/// end, and nothing that was read is behind it.
pub proof fn whole_records_reach_almost_to_the_end(file: Seq<u8>, entries: Seq<Entry>)
    requires
        replayed(file) == Replayed::Entries(entries),
    ensures
        file.len() - 3 <= whole(file) <= file.len(),
        replayed(file.take(whole(file) as int)) == Replayed::Entries(entries),
        replayed(file.skip(whole(file) as int)) == Replayed::Entries(Seq::empty()),
{
    trimming_loses_nothing(file);
    lemma_whole_records(file, Seq::empty());
}

/// A file that is truncated gives back the entries below the cut, in order and
/// no others; one that is damaged is not touched but reported.
pub proof fn truncation_gives_back_what_is_below(
    file: Seq<u8>,
    entries: Seq<Entry>,
    from_index: u64,
    e: Entry,
)
    requires
        records_fit(entries),
    ensures
        replayed(file) == Replayed::Entries(entries) ==> {
            &&& truncated(file, from_index) matches Ok(bytes)
            &&& replayed(bytes) matches Replayed::Entries(left)
            &&& left.contains(e) <==> entries.contains(e) && e.index < from_index
            &&& left.len() <= entries.len()
        },
        replayed(file) is Truncated || replayed(file) is Corrupt ==> truncated(file, from_index)
            == Err::<Seq<u8>, Replayed>(replayed(file)),
{
    if replayed(file) == Replayed::Entries(entries) {
        truncation_keeps_the_prefix(entries, from_index);
        lemma_kept(entries, from_index, e);
    }
}

proof fn lemma_kept(entries: Seq<Entry>, from_index: u64, e: Entry)
    ensures
        kept(entries, from_index).contains(e) <==> entries.contains(e) && e.index < from_index,
        kept(entries, from_index).len() <= entries.len(),
    decreases entries.len(),
{
    if entries.len() == 0 {
        assert(kept(entries, from_index) =~= Seq::<Entry>::empty()) by {
            reveal(Seq::filter);
        }
    } else {
        let fewer = entries.drop_last();
        let last = entries.last();
        lemma_kept(fewer, from_index, e);
        cuts_keep_what_is_below(fewer, last, from_index);
        assert(fewer.push(last) =~= entries);
        let before = kept(fewer, from_index);
        if last.index < from_index {
            assert(before.push(last)[before.len() as int] == last);
            if before.contains(e) {
                let i = choose|i: int| 0 <= i < before.len() && before[i] == e;
                assert(before.push(last)[i] == e);
            }
        }
        if fewer.contains(e) {
            let i = choose|i: int| 0 <= i < fewer.len() && fewer[i] == e;
            assert(entries[i] == e);
        }
        assert(entries[entries.len() - 1] == last);
        if entries.contains(e) && e != last {
            let i = choose|i: int| 0 <= i < entries.len() && entries[i] == e;
            assert(fewer[i] == e);
        }
    }
}

} // verus!
