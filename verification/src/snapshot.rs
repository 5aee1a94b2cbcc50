//! Snapshots of the state machine.
use vstd::prelude::*;

use crate::kv_store::{self, KvStore, Pair};
use crate::wire::{self, put_blob, put_text, put_u64, take_blob, take_text, take_u64};

verus! {

/// How much of the log a snapshot covers: every entry up to
/// `last_included_index` is folded into it.
#[derive(Debug, Clone, Copy, PartialEq, Eq, Structural)]
pub struct SnapshotMetadata {
    pub last_included_index: u64,
    pub last_included_term: u64,
}

/// Why a snapshot could not be written or read.
#[derive(Debug)]
pub enum SnapshotError {
    Codec(bincode::Error),
}

/// The bytes of a key and its value.
pub open spec fn pair_bytes(pair: Pair) -> Seq<u8> {
    wire::text_bytes(pair.0) + wire::blob_bytes(pair.1)
}

/// The bytes of each pair.
pub open spec fn pair_parts(pairs: Seq<Pair>) -> Seq<Seq<u8>> {
    Seq::new(pairs.len(), |i: int| pair_bytes(pairs[i]))
}

/// The bytes of a snapshot.
pub open spec fn snapshot_bytes(metadata: SnapshotMetadata, pairs: Seq<Pair>) -> Seq<u8> {
    wire::u64_bytes(metadata.last_included_index) + (wire::u64_bytes(metadata.last_included_term)
        + (wire::u64_bytes(pairs.len() as u64) + wire::joined(pair_parts(pairs))))
}

/// The lengths in a snapshot fit.
pub open spec fn pairs_fit(pairs: Seq<Pair>) -> bool {
    &&& pairs.len() <= u64::MAX
    &&& forall|i: int|
        0 <= i < pairs.len() ==> wire::text_fits((#[trigger] pairs[i]).0) && wire::blob_fits(
            pairs[i].1,
        )
}

pub open spec fn parse_pair(s: Seq<u8>) -> Option<(Pair, Seq<u8>)> {
    match wire::parse_text(s) {
        Some((key, s)) => match wire::parse_blob(s) {
            Some((value, s)) => Some(((key, value), s)),
            None => None,
        },
        None => None,
    }
}

/// `n` pairs from the beginning of `s`.
pub open spec fn parse_pairs(s: Seq<u8>, n: nat) -> Option<Seq<Pair>>
    decreases n,
{
    if n == 0 {
        Some(Seq::empty())
    } else {
        match parse_pair(s) {
            Some((first, rest)) => match parse_pairs(rest, (n - 1) as nat) {
                Some(others) => Some(seq![first] + others),
                None => None,
            },
            None => None,
        }
    }
}

/// The snapshot at the beginning of `s`: what it covers, and the keys and
/// values in the order they are written.
pub open spec fn parse_snapshot(s: Seq<u8>) -> Option<(SnapshotMetadata, Seq<Pair>)> {
    match wire::parse_u64(s) {
        Some((last_included_index, s)) => match wire::parse_u64(s) {
            Some((last_included_term, s)) => match wire::parse_u64(s) {
                Some((n, s)) => match parse_pairs(s, n as nat) {
                    Some(pairs) => Some(
                        (SnapshotMetadata { last_included_index, last_included_term }, pairs),
                    ),
                    None => None,
                },
                None => None,
            },
            None => None,
        },
        None => None,
    }
}

/// The bytes of a snapshot of `state`. In which order the keys are written is
/// left open.
pub fn encode_snapshot(metadata: SnapshotMetadata, state: &KvStore) -> (r: Result<
    Vec<u8>,
    SnapshotError,
>)
    requires
        state.valid(),
    ensures
        r is Ok,
        exists|pairs: Seq<Pair>|
            #![trigger snapshot_bytes(metadata, pairs)]
            kv_store::lists(pairs, state@) && pairs_fit(pairs) && r->Ok_0@ == snapshot_bytes(
                metadata,
                pairs,
            ),
{
    let items = state.pairs();
    let mut out: Vec<u8> = Vec::new();
    match put_snapshot(&mut out, metadata, &items) {
        Ok(_) => Ok(out),
        Err(e) => Err(SnapshotError::Codec(e)),
    }
}

fn put_snapshot(
    out: &mut Vec<u8>,
    metadata: SnapshotMetadata,
    items: &Vec<(String, Vec<u8>)>,
) -> (r: Result<(), bincode::Error>)
    requires
        old(out)@.len() == 0,
    ensures
        r is Ok,
        final(out)@ == snapshot_bytes(metadata, kv_store::pairs_of(items@)),
        pairs_fit(kv_store::pairs_of(items@)),
{
    let ghost all = kv_store::pairs_of(items@);
    put_u64(out, metadata.last_included_index)?;
    put_u64(out, metadata.last_included_term)?;
    put_u64(out, items.len() as u64)?;
    let ghost head = out@;
    assert(head + wire::joined(pair_parts(all.take(0))) =~= head);
    for i in 0..items.len()
        invariant
            all == kv_store::pairs_of(items@),
            out@ == head + wire::joined(pair_parts(all.take(i as int))),
            forall|j: int|
                0 <= j < i ==> wire::text_fits((#[trigger] all[j]).0) && wire::blob_fits(all[j].1),
    {
        put_text(out, items[i].0.as_str())?;
        put_blob(out, items[i].1.as_slice())?;
        proof {
            let before = pair_parts(all.take(i as int));
            assert(pair_parts(all.take(i + 1)) =~= before.push(pair_bytes(all[i as int])));
            wire::lemma_joined_push(before, pair_bytes(all[i as int]));
            assert(out@ =~= head + wire::joined(pair_parts(all.take(i + 1))));
        }
    }
    proof {
        assert(all.take(all.len() as int) =~= all);
        assert(out@ =~= snapshot_bytes(metadata, all));
    }
    Ok(())
}

/// Reads a snapshot back.
pub fn decode_snapshot(bytes: &[u8]) -> (r: Result<(SnapshotMetadata, KvStore), SnapshotError>)
    ensures
        match r {
            Ok((metadata, state)) => {
                &&& state.valid()
                &&& parse_snapshot(bytes@) matches Some((m, pairs)) && m == metadata && state@
                    == kv_store::collected(pairs)
            },
            Err(_) => parse_snapshot(bytes@) is None,
        },
{
    match take_snapshot(bytes) {
        Ok(pair) => Ok(pair),
        Err(e) => Err(SnapshotError::Codec(e)),
    }
}

/// What is left to read after `done` pairs were read.
spec fn resumed(done: Seq<Pair>, left: Option<Seq<Pair>>) -> Option<Seq<Pair>> {
    match left {
        Some(others) => Some(done + others),
        None => None,
    }
}

fn take_snapshot(bytes: &[u8]) -> (r: Result<(SnapshotMetadata, KvStore), bincode::Error>)
    ensures
        match r {
            Ok((metadata, state)) => {
                &&& state.valid()
                &&& parse_snapshot(bytes@) matches Some((m, pairs)) && m == metadata && state@
                    == kv_store::collected(pairs)
            },
            Err(_) => parse_snapshot(bytes@) is None,
        },
{
    let (last_included_index, s) = take_u64(bytes)?;
    let (last_included_term, s) = take_u64(s)?;
    let (n, body) = take_u64(s)?;
    let metadata = SnapshotMetadata { last_included_index, last_included_term };
    let mut state = KvStore::new();
    let mut rest = body;
    let mut left: u64 = n;
    let ghost mut done: Seq<Pair> = Seq::empty();
    let ghost whole = parse_pairs(body@, n as nat);
    proof {
        if whole is Some {
            assert(done + whole->0 =~= whole->0);
        }
    }
    while left > 0
        invariant
            state.valid(),
            state@ == kv_store::collected(done),
            whole == resumed(done, parse_pairs(rest@, left as nat)),
            parse_snapshot(bytes@) == match whole {
                Some(pairs) => Some((metadata, pairs)),
                None => None,
            },
        decreases left,
    {
        let (key, s) = take_text(rest)?;
        let (value, next) = take_blob(s)?;
        state.insert(&key, value);
        proof {
            let pair = (key@, value@);
            let more = done.push(pair);
            assert(more.drop_last() =~= done);
            match parse_pairs(next@, (left - 1) as nat) {
                Some(others) => {
                    assert(done + (seq![pair] + others) =~= more + others);
                },
                None => {},
            }
            done = more;
        }
        rest = next;
        left = left - 1;
    }
    assert(done + Seq::<Pair>::empty() =~= done);
    Ok((metadata, state))
}

proof fn lemma_pairs_round_trip(pairs: Seq<Pair>)
    requires
        pairs_fit(pairs),
    ensures
        parse_pairs(wire::joined(pair_parts(pairs)), pairs.len()) == Some(pairs),
    decreases pairs.len(),
{
    let parts = pair_parts(pairs);
    if pairs.len() == 0 {
        assert(pairs =~= Seq::<Pair>::empty());
    } else {
        let (key, value) = pairs[0];
        let others = pairs.drop_first();
        let tail = wire::joined(pair_parts(others));
        assert(parts.drop_first() =~= pair_parts(others));
        wire::text_round_trips(key, wire::blob_bytes(value) + tail);
        wire::blob_round_trips(value, tail);
        assert(wire::joined(parts) =~= wire::text_bytes(key) + (wire::blob_bytes(value) + tail));
        lemma_pairs_round_trip(others);
        assert(seq![pairs[0]] + others =~= pairs);
    }
}

/// A snapshot that was saved is what is loaded: the same coverage and the
/// same store, in whatever order the keys were written.
pub proof fn snapshots_round_trip(
    metadata: SnapshotMetadata,
    pairs: Seq<Pair>,
    store: Map<Seq<char>, Seq<u8>>,
)
    requires
        kv_store::lists(pairs, store),
        pairs_fit(pairs),
    ensures
        parse_snapshot(snapshot_bytes(metadata, pairs)) == Some((metadata, pairs)),
        kv_store::collected(pairs) == store,
{
    let s3 = wire::joined(pair_parts(pairs));
    let s2 = wire::u64_bytes(pairs.len() as u64) + s3;
    let s1 = wire::u64_bytes(metadata.last_included_term) + s2;
    wire::u64_round_trips(metadata.last_included_index, s1);
    wire::u64_round_trips(metadata.last_included_term, s2);
    wire::u64_round_trips(pairs.len() as u64, s3);
    lemma_pairs_round_trip(pairs);
    kv_store::listing_describes_the_store(pairs, store);
}

/// A snapshot starts with the index and the term that it covers, then says how
/// many keys follow.
pub proof fn snapshots_say_what_they_cover(metadata: SnapshotMetadata, pairs: Seq<Pair>)
    ensures
        ({
            let bytes = snapshot_bytes(metadata, pairs);
            &&& bytes.take(8) == wire::u64_bytes(metadata.last_included_index)
            &&& bytes.subrange(8, 16) == wire::u64_bytes(metadata.last_included_term)
            &&& pairs.len() <= u64::MAX ==> bytes.subrange(16, 24) == wire::u64_bytes(
                pairs.len() as u64,
            )
        }),
{
    vstd::bytes::lemma_auto_spec_u64_to_from_le_bytes();
    let bytes = snapshot_bytes(metadata, pairs);
    assert(bytes.take(8) =~= wire::u64_bytes(metadata.last_included_index));
    assert(bytes.subrange(8, 16) =~= wire::u64_bytes(metadata.last_included_term));
    assert(bytes.subrange(16, 24) =~= wire::u64_bytes(pairs.len() as u64));
}

/// Bytes are read as a snapshot only if they begin with the bytes of exactly
/// that snapshot: one that is cut short, or whose keys are no text, is refused.
pub proof fn only_snapshots_are_loaded(s: Seq<u8>)
    ensures
        parse_snapshot(s) matches Some((metadata, pairs)) ==> {
            let bytes = snapshot_bytes(metadata, pairs);
            s.len() >= bytes.len() && s.take(bytes.len() as int) == bytes
        },
{
    if let Some((metadata, pairs)) = parse_snapshot(s) {
        let bytes = snapshot_bytes(metadata, pairs);
        wire::what_is_read_was_written(s);
        let (_, s1) = wire::parse_u64(s)->0;
        wire::what_is_read_was_written(s1);
        let (_, s2) = wire::parse_u64(s1)->0;
        wire::what_is_read_was_written(s2);
        let (n, s3) = wire::parse_u64(s2)->0;
        let left = lemma_pairs_were_written(s3, n as nat, pairs);
        assert(s =~= bytes + left);
        assert(s.take(bytes.len() as int) =~= bytes);
    }
}

proof fn lemma_pairs_were_written(s: Seq<u8>, n: nat, pairs: Seq<Pair>) -> (left: Seq<u8>)
    requires
        parse_pairs(s, n) == Some(pairs),
    ensures
        pairs.len() == n,
        s == wire::joined(pair_parts(pairs)) + left,
    decreases n,
{
    if n == 0 {
        assert(wire::joined(pair_parts(pairs)) + s =~= s);
        s
    } else {
        lemma_pair_was_written(s);
        let (first, rest) = parse_pair(s)->0;
        let others = parse_pairs(rest, (n - 1) as nat)->0;
        let left = lemma_pairs_were_written(rest, (n - 1) as nat, others);
        let parts = pair_parts(pairs);
        assert(pairs == seq![first] + others);
        assert(parts[0] == pair_bytes(first));
        assert(parts.drop_first() =~= pair_parts(others));
        wire::lemma_regroup(pair_bytes(first), wire::joined(pair_parts(others)), left);
        left
    }
}

proof fn lemma_pair_was_written(s: Seq<u8>)
    ensures
        parse_pair(s) matches Some((pair, rest)) ==> s == pair_bytes(pair) + rest,
{
    if let Some((pair, rest)) = parse_pair(s) {
        wire::what_is_read_was_written(s);
        let (_, s1) = wire::parse_text(s)->0;
        wire::what_is_read_was_written(s1);
        wire::lemma_regroup(wire::text_bytes(pair.0), wire::blob_bytes(pair.1), rest);
    }
}

/// A snapshot that was saved is loaded as the same store: whatever key is looked
/// up, the answer is the one from before.
pub proof fn loading_gives_back_every_key(
    metadata: SnapshotMetadata,
    pairs: Seq<Pair>,
    store: Map<Seq<char>, Seq<u8>>,
    key: Seq<char>,
)
    requires
        kv_store::lists(pairs, store),
        pairs_fit(pairs),
    ensures
        parse_snapshot(snapshot_bytes(metadata, pairs)) matches Some((read, again)) && {
            &&& read.last_included_index == metadata.last_included_index
            &&& read.last_included_term == metadata.last_included_term
            &&& store.contains_key(key) == kv_store::collected(again).contains_key(key)
            &&& store.contains_key(key) ==> kv_store::collected(again)[key] == store[key]
        },
{
    snapshots_round_trip(metadata, pairs, store);
}

} // verus!
