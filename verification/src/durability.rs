//! What is on a node's disk, whatever happens to the node and whatever writes
//! fail.
use std::time::Instant;
use vstd::prelude::*;

use crate::cluster::{self, Act, Happening, Node, Stroke};
use crate::log::{self, Entry};
use crate::messages::{Append, Message};
use crate::replication;
use crate::safety;
use crate::state::NodeId;
use crate::wal;

verus! {

/// What the write-ahead log holds after some writes.
pub open spec fn on_disk(disk: Seq<Entry>, writes: Seq<Stroke>) -> Seq<Entry>
    decreases writes.len(),
{
    if writes.len() == 0 {
        disk
    } else {
        let before = on_disk(disk, writes.drop_last());
        match writes.last() {
            Stroke::Append(entry) => before.push(entry),
            Stroke::Truncate { from_index } => wal::kept(before, from_index),
        }
    }
}

/// A node's disk holds what the node counts on: all of its log, unless a write
/// has failed, and else at least the part that was saved.
pub open spec fn backed<R>(n: Node<R>, disk: Seq<Entry>) -> bool {
    &&& n.saved <= n.log.len()
    &&& log::begins(disk, n.log.take(n.saved as int))
    &&& !n.faulty ==> n.saved == n.log.len() && disk == n.log
}

/// A node that has just started with the log on its disk is backed.
pub proof fn nodes_start_backed<R>(n: Node<R>)
    requires
        !n.faulty,
        n.saved == n.log.len(),
    ensures
        backed(n, n.log),
{
    assert(n.log.take(n.log.len() as int) =~= n.log);
}

proof fn lemma_on_disk_adds_up(disk: Seq<Entry>, a: Seq<Stroke>, b: Seq<Stroke>)
    ensures
        on_disk(disk, a + b) == on_disk(on_disk(disk, a), b),
    decreases b.len(),
{
    if b.len() == 0 {
        assert(a + b =~= a);
    } else {
        lemma_on_disk_adds_up(disk, a, b.drop_last());
        assert((a + b).drop_last() =~= a + b.drop_last());
    }
}

proof fn lemma_entries_written(disk: Seq<Entry>, entries: Seq<Entry>)
    ensures
        on_disk(disk, cluster::appended(entries)) == disk + entries,
    decreases entries.len(),
{
    if entries.len() == 0 {
        assert(disk + entries =~= disk);
    } else {
        let fewer = entries.drop_last();
        lemma_entries_written(disk, fewer);
        assert(cluster::appended(entries).drop_last() =~= cluster::appended(fewer));
        assert((disk + fewer).push(entries.last()) =~= disk + entries);
    }
}

/// A cut, if there is one, and then some of the entries.
proof fn lemma_cut_and_append(
    disk: Seq<Entry>,
    cut: Seq<Stroke>,
    keep: int,
    entries: Seq<Entry>,
    i: int,
)
    requires
        log::numbered(disk),
        0 <= keep <= disk.len(),
        keep < u64::MAX,
        cut == Seq::<Stroke>::empty() && keep == disk.len() || cut == seq![
            Stroke::Truncate { from_index: (keep + 1) as u64 },
        ],
        0 <= i <= cut.len() + entries.len(),
    ensures
        on_disk(disk, (cut + cluster::appended(entries)).take(i)) == if i < cut.len() {
            disk
        } else {
            disk.take(keep) + entries.take(i - cut.len())
        },
{
    let writes = cut + cluster::appended(entries);
    assert(on_disk(disk, cut) =~= disk.take(keep)) by {
        if cut.len() > 0 {
            assert(on_disk(disk, cut.drop_last()) == disk);
            wal::kept_entries_come_first(disk, (keep + 1) as u64);
            assert(disk.take(disk.len() as int) =~= disk);
        } else {
            assert(disk.take(keep) =~= disk);
        }
    }
    if i < cut.len() {
        assert(writes.take(i) =~= Seq::<Stroke>::empty());
    } else {
        let some = entries.take(i - cut.len());
        assert(writes.take(i) =~= cut + cluster::appended(some));
        lemma_on_disk_adds_up(disk, cut, cluster::appended(some));
        lemma_entries_written(disk.take(keep), some);
    }
}

/// The entries of a request are numbered on from the position before them.
pub open spec fn numbered_on(req: Append) -> bool {
    forall|i: int|
        0 <= i < req.entries.len() ==> (#[trigger] req.entries[i]).index == req.prev_log_index + 1
            + i
}

/// If the event is a request, its entries are numbered on.
pub open spec fn asks_in_order<R>(event: Happening<R>) -> bool {
    event matches Happening::Rpc { msg: Message::AppendEntries(req), .. } ==> numbered_on(req)
}

/// A leader with a numbered log numbers what it sends.
pub proof fn leaders_number_what_they_send<R>(n: Node<R>, peer: NodeId)
    requires
        log::numbered(n.log),
        cluster::next_for(n, peer) <= n.log.len() + 1,
    ensures
        cluster::update_for(n, peer) matches Act::Send {
            msg: Message::AppendEntries(req),
            ..
        } && numbered_on(req),
{
    let next = cluster::next_for(n, peer);
    let prev = replication::request_for(n.persistent, n.log, n.id, next, 0).prev_log_index;
    log::entries_after_is_the_tail(n.log, prev);
}

/// How much of its log a node keeps whatever the event is.
spec fn kept_by<R>(n: Node<R>, event: Happening<R>) -> int {
    match event {
        Happening::Rpc { msg: Message::AppendEntries(req), .. } => if replication::accepts(
            n.persistent,
            n.log,
            req,
        ) && !log::begins(n.log, replication::merged(n.log, req)) {
            req.prev_log_index + replication::in_place(
                n.log,
                req.prev_log_index as int,
                req.entries,
            )
        } else {
            n.log.len() as int
        },
        _ => n.log.len() as int,
    }
}

/// What a node writes because of an event turns its old log into its new one,
/// and at every point on the way the part that both have in common is there.
proof fn lemma_needed<R>(n: Node<R>, event: Happening<R>, now: Instant, i: int)
    requires
        cluster::admissible(n, event),
        log::numbered(n.log),
        n.log.len() < u64::MAX,
        0 <= i <= cluster::needed(n, event).len(),
    ensures
        ({
            let after = cluster::reacted(n, event, now).0.log;
            let writes = cluster::needed(n, event);
            let keep = kept_by(n, event);
            let disk = on_disk(n.log, writes.take(i));
            &&& 0 <= keep <= n.log.len()
            &&& keep <= after.len()
            &&& after.take(keep) == n.log.take(keep)
            &&& keep < n.log.len() ==> keep < after.len() && after[keep] != n.log[keep]
            &&& on_disk(n.log, writes) == after
            &&& log::begins(disk, n.log.take(keep))
            &&& asks_in_order(event) ==> log::numbered(disk) && log::numbered(after)
        }),
{
    let after = cluster::reacted(n, event, now).0.log;
    let writes = cluster::needed(n, event);
    let none = Seq::<Stroke>::empty();
    let len = n.log.len() as int;
    assert(n.log.take(len) =~= n.log);
    assert(writes.take(writes.len() as int) =~= writes);
    match event {
        Happening::Rpc { msg: Message::AppendEntries(req), .. } => {
            if replication::accepts(n.persistent, n.log, req) {
                lemma_records(n.log, req, i);
                lemma_records(n.log, req, writes.len() as int);
            }
        },
        _ => {
            if writes.len() > 0 {
                let entry = writes[0]->Append_0;
                let one = seq![entry];
                assert(writes =~= cluster::appended(one));
                assert(none + writes =~= writes);
                assert(after == n.log.push(entry));
                log::append_keeps_numbering(n.log, entry.term, entry.command);
                lemma_cut_and_append(n.log, none, len, one, i);
                lemma_cut_and_append(n.log, none, len, one, 1);
                assert(n.log + one.take(1) =~= n.log.push(entry));
                assert(n.log + one.take(0) =~= n.log);
                assert(after.take(len) =~= n.log);
            } else {
                assert(after == n.log);
                assert(writes.take(i) =~= none);
            }
        },
    }
}

proof fn lemma_records(log: Seq<Entry>, req: Append, i: int)
    requires
        log::numbered(log),
        log.len() < u64::MAX,
        req.prev_log_index <= log.len(),
        0 <= i <= cluster::recorded(log, req).len(),
    ensures
        ({
            let whole = replication::merged(log, req);
            let after = if log::begins(log, whole) {
                log
            } else {
                whole
            };
            let keep = if log::begins(log, whole) {
                log.len() as int
            } else {
                req.prev_log_index + replication::in_place(
                    log,
                    req.prev_log_index as int,
                    req.entries,
                )
            };
            let writes = cluster::recorded(log, req);
            let disk = on_disk(log, writes.take(i));
            &&& 0 <= keep <= log.len()
            &&& keep <= after.len()
            &&& after.take(keep) == log.take(keep)
            &&& keep < log.len() ==> keep < after.len() && after[keep] != log[keep]
            &&& i == writes.len() ==> disk == after
            &&& log::begins(disk, log.take(keep))
            &&& numbered_on(req) ==> log::numbered(disk) && log::numbered(after)
        }),
{
    let prev = req.prev_log_index as int;
    let whole = replication::merged(log, req);
    let shared = replication::in_place(log, prev, req.entries) as int;
    let keep = prev + shared;
    let new = req.entries.skip(shared);
    let writes = cluster::recorded(log, req);
    replication::lemma_in_place(log, req);
    assert(log.take(log.len() as int) =~= log);
    if new.len() > 0 {
        let cut: Seq<Stroke> = if keep < log.len() {
            seq![Stroke::Truncate { from_index: (keep + 1) as u64 }]
        } else {
            Seq::empty()
        };
        assert(writes =~= cut + cluster::appended(new));
        lemma_cut_and_append(log, cut, keep, new, i);
        assert(whole == log.take(keep) + new);
        assert(whole.take(keep) =~= log.take(keep));
        assert(new.take(new.len() as int) =~= new);
        let disk = on_disk(log, writes.take(i));
        assert(disk.take(keep) =~= log.take(keep));
        if numbered_on(req) {
            assert forall|j: int| 0 <= j < whole.len() implies (#[trigger] whole[j]).index == j
                + 1 by {
                if j >= keep {
                    assert(whole[j] == req.entries[j - prev]);
                }
            }
            assert(log::numbered(disk)) by {
                if i >= cut.len() {
                    assert forall|j: int| 0 <= j < disk.len() implies (#[trigger] disk[j]).index
                        == j + 1 by {
                        assert(disk[j] == whole[j]);
                    }
                }
            }
        }
    } else {
        assert(writes =~= Seq::<Stroke>::empty());
        assert(writes.take(i) =~= Seq::<Stroke>::empty());
    }
}

/// What a node repairs brings its disk back in line with its log, and at every
/// point on the way the saved part of the log is there.
proof fn lemma_repairs<R>(n: Node<R>, disk: Seq<Entry>, i: int)
    requires
        log::numbered(n.log),
        log::numbered(disk),
        n.log.len() < u64::MAX,
        backed(n, disk),
        0 <= i <= cluster::repairs(n).len(),
    ensures
        log::begins(
            on_disk(disk, cluster::repairs(n).take(i)),
            n.log.take(n.saved as int),
        ),
        log::numbered(on_disk(disk, cluster::repairs(n).take(i))),
        on_disk(disk, cluster::repairs(n)) == n.log,
{
    let writes = cluster::repairs(n);
    let saved = n.saved as int;
    assert(writes.take(writes.len() as int) =~= writes);
    if n.faulty {
        let cut = seq![Stroke::Truncate { from_index: (saved + 1) as u64 }];
        let left = n.log.skip(saved);
        assert(writes =~= cut + cluster::appended(left));
        lemma_cut_and_append(disk, cut, saved, left, i);
        lemma_cut_and_append(disk, cut, saved, left, writes.len() as int);
        assert(disk.take(saved) == n.log.take(saved));
        assert(left.take(left.len() as int) =~= left);
        assert(n.log.take(saved) + left =~= n.log);
        let then = on_disk(disk, writes.take(i));
        if i >= 1 {
            let some = left.take(i - 1);
            assert(then == n.log.take(saved) + some);
            assert forall|j: int| 0 <= j < then.len() implies (#[trigger] then[j]).index == j
                + 1 by {
                assert(then[j] == n.log[j]);
            }
            assert(then.take(saved) =~= n.log.take(saved));
        }
    } else {
        assert(writes.take(i) =~= Seq::<Stroke>::empty());
        assert(n.log.take(saved) =~= n.log);
    }
}

/// Being told about the disk changes nothing that decides what is written.
proof fn lemma_informed<R>(n: Node<R>, event: Happening<R>, now: Instant, written: bool)
    ensures
        ({
            let m = cluster::informed(n, written);
            &&& m.log == n.log
            &&& m.persistent == n.persistent
            &&& m.faulty == !written
            &&& m.saved == if written {
                n.log.len()
            } else {
                n.saved
            }
            &&& cluster::admissible(m, event) == cluster::admissible(n, event)
            &&& cluster::needed(m, event) == cluster::needed(n, event)
            &&& kept_by(m, event) == kept_by(n, event)
            &&& cluster::reacted(m, event, now).0.log == cluster::reacted(n, event, now).0.log
        }),
{
}

/// The log after an event does not depend on whether it could be written.
pub proof fn logs_do_not_wait_for_the_disk<R>(
    n: Node<R>,
    event: Happening<R>,
    now: Instant,
    written: bool,
)
    ensures
        cluster::stepped(cluster::informed(n, written), event, now).0.log == cluster::stepped(
            n,
            event,
            now,
        ).0.log,
{
    lemma_informed(n, event, now, written);
    safety::settling_settles(cluster::reacted(n, event, now).0);
    safety::settling_settles(
        cluster::reacted(cluster::informed(n, written), event, now).0,
    );
}

/// The write-ahead log always holds what the log in memory holds, as long as
/// it can be written, so a node that restarts finds the log it had. Logs stay
/// numbered, as long as the leaders number what they send.
pub proof fn write_ahead_log_mirrors_the_log<R>(n: Node<R>, event: Happening<R>, now: Instant)
    requires
        !n.faulty,
        cluster::admissible(n, event),
        log::numbered(n.log),
        n.log.len() < u64::MAX,
    ensures
        ({
            let after = cluster::stepped(n, event, now).0;
            &&& on_disk(n.log, cluster::ahead(n, event)) == after.log
            &&& asks_in_order(event) ==> log::numbered(after.log)
        }),
{
    lemma_needed(n, event, now, 0);
    assert(cluster::ahead(n, event) =~= cluster::needed(n, event));
    safety::settling_settles(cluster::reacted(n, event, now).0);
}

/// Whatever part of the writes goes through, the disk backs the node that is
/// told whether all of them did. A write may have gone through although it was
/// reported to have failed. If the power fails after any of the writes,
/// everything is on disk that was saved before and that the node was not about
/// to replace.
pub proof fn disks_back_the_logs<R>(
    n: Node<R>,
    event: Happening<R>,
    now: Instant,
    disk: Seq<Entry>,
    i: int,
    written: bool,
)
    requires
        cluster::admissible(n, event),
        log::numbered(n.log),
        log::numbered(disk),
        n.log.len() < u64::MAX,
        backed(n, disk),
        0 <= i <= cluster::ahead(n, event).len(),
        written ==> i == cluster::ahead(n, event).len(),
    ensures
        ({
            let writes = cluster::ahead(n, event);
            let then = on_disk(disk, writes.take(i));
            let after = cluster::stepped(cluster::informed(n, written), event, now).0;
            &&& backed(after, then)
            &&& asks_in_order(event) ==> log::numbered(then) && log::numbered(after.log)
            &&& forall|k: int|
                0 <= k <= n.saved && log::begins(after.log, #[trigger] n.log.take(k))
                    ==> log::begins(then, n.log.take(k))
        }),
{
    let writes = cluster::ahead(n, event);
    let then = on_disk(disk, writes.take(i));
    let told = cluster::informed(n, written);
    let after = cluster::stepped(told, event, now).0;
    let keep = kept_by(n, event);
    let sure = sure_of(n, event);
    safety::settling_settles(cluster::reacted(told, event, now).0);
    lemma_saved_after(n, event, now, written);
    lemma_partway(n, event, now, disk, i);
    lemma_needed(n, event, now, 0);
    assert(after.log == cluster::reacted(n, event, now).0.log);
    assert(after.log.take(sure) =~= n.log.take(sure)) by {
        assert(after.log.take(keep).take(sure) =~= after.log.take(sure));
        assert(n.log.take(keep).take(sure) =~= n.log.take(sure));
    }
    if written {
        assert(after.log.take(after.log.len() as int) =~= after.log);
    } else {
        let saved = after.saved as int;
        lemma_shorter(then, n.log, saved, sure);
        assert(after.log.take(saved) =~= after.log.take(sure).take(saved));
        assert(n.log.take(saved) =~= n.log.take(sure).take(saved));
    }
    assert forall|k: int|
        0 <= k <= n.saved && log::begins(after.log, #[trigger] n.log.take(k)) implies log::begins(
        then,
        n.log.take(k),
    ) by {
        if k > keep {
            assert(after.log.take(k)[keep] == n.log.take(k)[keep]);
        }
        lemma_shorter(then, n.log, k, sure);
    }
}

/// How much of the log is on disk throughout.
spec fn sure_of<R>(n: Node<R>, event: Happening<R>) -> int {
    if n.saved <= kept_by(n, event) {
        n.saved as int
    } else {
        kept_by(n, event)
    }
}

/// What is on disk after some of the writes.
proof fn lemma_partway<R>(
    n: Node<R>,
    event: Happening<R>,
    now: Instant,
    disk: Seq<Entry>,
    i: int,
)
    requires
        cluster::admissible(n, event),
        log::numbered(n.log),
        log::numbered(disk),
        n.log.len() < u64::MAX,
        backed(n, disk),
        0 <= i <= cluster::ahead(n, event).len(),
    ensures
        ({
            let writes = cluster::ahead(n, event);
            let then = on_disk(disk, writes.take(i));
            let after = cluster::reacted(n, event, now).0.log;
            &&& log::begins(then, n.log.take(sure_of(n, event)))
            &&& i == writes.len() ==> then == after
            &&& asks_in_order(event) ==> log::numbered(then) && log::numbered(after)
        }),
{
    let writes = cluster::ahead(n, event);
    let first = cluster::repairs(n);
    let second = cluster::needed(n, event);
    let then = on_disk(disk, writes.take(i));
    let keep = kept_by(n, event);
    let sure = sure_of(n, event);
    lemma_needed(n, event, now, 0);
    if i <= first.len() {
        lemma_repairs(n, disk, i);
        assert(writes.take(i) =~= first.take(i));
        lemma_shorter(then, n.log, sure, n.saved as int);
        if i == writes.len() {
            assert(first.take(i) =~= first);
            assert(second =~= Seq::<Stroke>::empty());
        }
    } else {
        let j = i - first.len();
        lemma_repairs(n, disk, 0);
        lemma_needed(n, event, now, j);
        assert(writes.take(i) =~= first + second.take(j));
        lemma_on_disk_adds_up(disk, first, second.take(j));
        lemma_shorter(then, n.log, sure, keep);
        if i == writes.len() {
            assert(second.take(j) =~= second);
        }
    }
}

/// What a node takes for saved after an event.
proof fn lemma_saved_after<R>(n: Node<R>, event: Happening<R>, now: Instant, written: bool)
    requires
        n.saved <= n.log.len(),
    ensures
        ({
            let after = cluster::reacted(cluster::informed(n, written), event, now).0;
            &&& after.log == cluster::reacted(n, event, now).0.log
            &&& after.faulty == !written
            &&& written ==> after.saved == after.log.len()
            &&& !written ==> after.saved <= sure_of(n, event)
        }),
{
    lemma_informed(n, event, now, written);
    match event {
        Happening::Rpc { msg: Message::AppendEntries(req), .. } => {
            let whole = replication::merged(n.log, req);
            assert(n.log.take(n.log.len() as int) =~= n.log);
            if replication::accepts(n.persistent, n.log, req) {
                replication::lemma_in_place(n.log, req);
            }
        },
        _ => {},
    }
}

/// A disk that begins with some of a log begins with less of it.
proof fn lemma_shorter(disk: Seq<Entry>, log: Seq<Entry>, fewer: int, more: int)
    requires
        0 <= fewer <= more <= log.len(),
        log::begins(disk, log.take(more)),
    ensures
        log::begins(disk, log.take(fewer)),
{
    assert(disk.take(fewer) =~= disk.take(more).take(fewer));
    assert(log.take(fewer) =~= log.take(more).take(fewer));
}

/// A follower acknowledges entries only once they are on disk. If everything
/// could be written, its disk then holds exactly its log; if not, its disk
/// holds at least the log up to the end of what it acknowledges.
pub proof fn acknowledged_entries_are_on_disk<R>(
    n: Node<R>,
    from: NodeId,
    req: Append,
    now: Instant,
    disk: Seq<Entry>,
    i: int,
    written: bool,
    j: int,
)
    requires
        ({
            let event = Happening::<R>::Rpc { from, msg: Message::AppendEntries(req) };
            let writes = cluster::ahead(n, event);
            let deeds = cluster::stepped(cluster::informed(n, written), event, now).1;
            &&& 0 <= i <= writes.len()
            &&& written ==> i == writes.len()
            &&& 0 <= j < deeds.len()
            &&& deeds[j] matches Act::Send { msg: Message::AppendEntriesResponse(resp), .. }
                && resp.success
        }),
        log::numbered(n.log),
        log::numbered(disk),
        n.log.len() < u64::MAX,
        backed(n, disk),
    ensures
        ({
            let event = Happening::<R>::Rpc { from, msg: Message::AppendEntries(req) };
            let writes = cluster::ahead(n, event);
            let after = cluster::stepped(cluster::informed(n, written), event, now).0;
            let then = on_disk(disk, writes.take(i));
            let end = req.prev_log_index + req.entries.len();
            &&& written ==> then == after.log
            &&& end <= after.log.len()
            &&& log::begins(then, after.log.take(end as int))
        }),
{
    let event = Happening::<R>::Rpc { from, msg: Message::AppendEntries(req) };
    let writes = cluster::ahead(n, event);
    let told = cluster::informed(n, written);
    let (mid, deeds) = cluster::reacted(told, event, now);
    let after = cluster::stepped(told, event, now).0;
    let then = on_disk(disk, writes.take(i));
    let end = req.prev_log_index + req.entries.len();
    safety::settling_settles(mid);
    safety::settling_only_answers(mid);
    disks_back_the_logs(n, event, now, disk, i, written);
    lemma_informed(n, event, now, written);
    let reply = replication::append_reply(told.persistent, told.log, req);
    assert(cluster::stepped(told, event, now).1[j] is Send);
    assert(j < deeds.len());
    assert(reply.success);
    assert(replication::accepts(n.persistent, n.log, req));
    let whole = replication::merged(n.log, req);
    assert(after.log == if log::begins(n.log, whole) {
        n.log
    } else {
        whole
    });
    assert(end <= after.log.len());
    if written {
        lemma_take_all(then, end as int);
    } else {
        assert(end <= after.saved);
        lemma_shorter(then, after.log, end as int, after.saved as int);
    }
}

proof fn lemma_take_all(log: Seq<Entry>, k: int)
    requires
        0 <= k <= log.len(),
    ensures
        log::begins(log, log.take(k)),
{
}

/// A leader does not count what it could not save: a commit beyond the saved
/// part of its log is one that a majority of the cluster holds without it.
pub proof fn unsaved_entries_are_not_counted<R>(n: Node<R>)
    requires
        n.faulty,
        n.saved < log::last_index(n.log),
        cluster::advanced(n).volatile.commit_index != n.volatile.commit_index,
        cluster::advanced(n).volatile.commit_index > n.saved,
    ensures
        replication::holders(n.match_index, cluster::advanced(n).volatile.commit_index).len()
            >= n.cluster_size as int / 2 + 1,
{
    let own = cluster::own_match(n);
    let term = n.persistent.current_term;
    replication::there_is_a_commit_point(n.match_index, n.log, term, n.cluster_size, own);
    let point = replication::commit_point(n.match_index, n.log, term, n.cluster_size, own);
    assert(replication::committable(
        n.match_index,
        n.log,
        term,
        n.cluster_size,
        own,
        point->0,
    ));
}

/// A node whose writes fail goes on: it adopts terms, votes, stands for
/// election, leads, takes writes and answers clients as if they had gone
/// through. Only what it acknowledges to a leader and what it counts as
/// committed can differ.
#[verifier::rlimit(40)]
pub proof fn failed_writes_change_nothing_else<R>(n: Node<R>, event: Happening<R>, now: Instant)
    ensures
        ({
            let (a, done) = cluster::reacted(cluster::informed(n, true), event, now);
            let (b, anyway) = cluster::reacted(cluster::informed(n, false), event, now);
            &&& a.persistent == b.persistent
            &&& a.volatile.role == b.volatile.role
            &&& a.log == b.log
            &&& a.known_leader == b.known_leader
            &&& a.tally == b.tally
            &&& a.next_index == b.next_index
            &&& a.match_index == b.match_index
            &&& a.pending == b.pending
            &&& !n.faulty && !(event matches Happening::Rpc {
                msg: Message::AppendEntries(_),
                ..
            }) ==> done == anyway
        }),
{
    match event {
        Happening::Rpc { from, msg } => match msg {
            Message::Hello(_) => {},
            Message::RequestVote(_) => {},
            Message::RequestVoteResponse(resp) => {
                assert(cluster::wins(cluster::informed(n, true), from, resp) == cluster::wins(
                    cluster::informed(n, false),
                    from,
                    resp,
                ));
            },
            Message::AppendEntries(_) => {},
            Message::AppendEntriesResponse(_) => {},
        },
        Happening::Command { .. } => {},
        Happening::Query { .. } => {},
        Happening::HeartbeatDue => {},
        Happening::ElectionDue => {},
    }
}

/// The bytes of the write-ahead log after some writes.
pub open spec fn file_after(file: Seq<u8>, writes: Seq<Stroke>) -> Seq<u8>
    decreases writes.len(),
{
    if writes.len() == 0 {
        file
    } else {
        let before = file_after(file, writes.drop_last());
        match writes.last() {
            Stroke::Append(entry) => before + wal::record_bytes(entry),
            Stroke::Truncate { from_index } => match wal::replayed(before) {
                wal::Replayed::Entries(entries) => wal::wal_bytes(wal::kept(entries, from_index)),
                _ => before,
            },
        }
    }
}

/// Every entry that is written fits its record.
pub open spec fn writes_fit(writes: Seq<Stroke>) -> bool {
    forall|i: int|
        0 <= i < writes.len() ==> ((#[trigger] writes[i]) matches Stroke::Append(entry)
            ==> wal::record_fits(entry))
}

/// A file of whole records stays one, and holds what the writes make of it.
proof fn lemma_file_after(file: Seq<u8>, disk: Seq<Entry>, writes: Seq<Stroke>)
    requires
        wal::holds(file, disk),
        wal::records_fit(disk),
        writes_fit(writes),
    ensures
        wal::holds(file_after(file, writes), on_disk(disk, writes)),
        wal::records_fit(on_disk(disk, writes)),
    decreases writes.len(),
{
    if writes.len() > 0 {
        let fewer = writes.drop_last();
        assert(writes_fit(fewer)) by {
            assert forall|i: int| 0 <= i < fewer.len() implies ((
            #[trigger] fewer[i]) matches Stroke::Append(entry) ==> wal::record_fits(entry)) by {
                assert(fewer[i] == writes[i]);
            }
        }
        lemma_file_after(file, disk, fewer);
        let before = on_disk(disk, fewer);
        assert(writes[writes.len() - 1] == writes.last());
        match writes.last() {
            Stroke::Append(entry) => {
                wal::appending_extends_the_replay(file_after(file, fewer), before, entry);
            },
            Stroke::Truncate { from_index } => {
                wal::kept_entries_fit(before, from_index);
                wal::files_hold_what_was_written(wal::kept(before, from_index));
            },
        }
    }
}

/// A node that restarts between two events reads back from its write-ahead log
/// the log it had in memory. This holds for every file that gave the node its
/// log, also for one with a few stray bytes at the end: they are cut off before
/// anything is appended.
pub proof fn restarts_find_the_log<R>(
    n: Node<R>,
    event: Happening<R>,
    now: Instant,
    file: Seq<u8>,
)
    requires
        !n.faulty,
        cluster::admissible(n, event),
        log::numbered(n.log),
        n.log.len() < u64::MAX,
        wal::replayed(file) == wal::Replayed::Entries(n.log),
        wal::records_fit(n.log),
        writes_fit(cluster::ahead(n, event)),
    ensures
        wal::replayed(file_after(wal::trimmed(file), cluster::ahead(n, event)))
            == wal::Replayed::Entries(cluster::stepped(n, event, now).0.log),
{
    wal::trimming_loses_nothing(file);
    write_ahead_log_mirrors_the_log(n, event, now);
    lemma_file_after(wal::trimmed(file), n.log, cluster::ahead(n, event));
}

/// A crash inside a step loses nothing that was saved, unless the node was
/// about to replace it: after any number of the writes, the file gives back an
/// undamaged log that begins with the part that the old and the new log have
/// in common. In particular committed entries, which are never replaced, are
/// never lost.
pub proof fn crashes_lose_nothing_that_stays<R>(
    n: Node<R>,
    event: Happening<R>,
    now: Instant,
    file: Seq<u8>,
    disk: Seq<Entry>,
    i: int,
    k: int,
)
    requires
        cluster::admissible(n, event),
        log::numbered(n.log),
        log::numbered(disk),
        n.log.len() < u64::MAX,
        backed(n, disk),
        wal::replayed(file) == wal::Replayed::Entries(disk),
        wal::records_fit(disk),
        writes_fit(cluster::ahead(n, event)),
        0 <= i <= cluster::ahead(n, event).len(),
        0 <= k <= n.saved,
        log::begins(cluster::stepped(n, event, now).0.log, n.log.take(k)),
    ensures
        wal::replayed(file_after(wal::trimmed(file), cluster::ahead(n, event).take(i))) matches
            wal::Replayed::Entries(entries) && log::begins(entries, n.log.take(k)),
{
    let writes = cluster::ahead(n, event);
    let some = writes.take(i);
    assert(writes_fit(some)) by {
        assert forall|j: int| 0 <= j < some.len() implies ((
        #[trigger] some[j]) matches Stroke::Append(entry) ==> wal::record_fits(entry)) by {
            assert(some[j] == writes[j]);
        }
    }
    wal::trimming_loses_nothing(file);
    lemma_file_after(wal::trimmed(file), disk, some);
    disks_back_the_logs(n, event, now, disk, i, false);
    logs_do_not_wait_for_the_disk(n, event, now, false);
}

/// When a follower acknowledges entries, its file gives back exactly its log if
/// everything could be written: every entry in order, each index once. If not,
/// it gives back at least everything up to the end of what is acknowledged.
/// This holds for every file that gave back what the node had on disk before,
/// also for one with a few stray bytes at the end.
pub proof fn acknowledged_entries_can_be_read_back<R>(
    n: Node<R>,
    from: NodeId,
    req: Append,
    now: Instant,
    file: Seq<u8>,
    disk: Seq<Entry>,
    i: int,
    written: bool,
    j: int,
)
    requires
        ({
            let event = Happening::<R>::Rpc { from, msg: Message::AppendEntries(req) };
            let writes = cluster::ahead(n, event);
            let deeds = cluster::stepped(cluster::informed(n, written), event, now).1;
            &&& 0 <= i <= writes.len()
            &&& written ==> i == writes.len()
            &&& 0 <= j < deeds.len()
            &&& deeds[j] matches Act::Send { msg: Message::AppendEntriesResponse(resp), .. }
                && resp.success
            &&& writes_fit(writes)
        }),
        log::numbered(n.log),
        log::numbered(disk),
        n.log.len() < u64::MAX,
        backed(n, disk),
        wal::replayed(file) == wal::Replayed::Entries(disk),
        wal::records_fit(disk),
    ensures
        ({
            let event = Happening::<R>::Rpc { from, msg: Message::AppendEntries(req) };
            let writes = cluster::ahead(n, event);
            let after = cluster::stepped(cluster::informed(n, written), event, now).0;
            let end = req.prev_log_index + req.entries.len();
            wal::replayed(file_after(wal::trimmed(file), writes.take(i))) matches
                wal::Replayed::Entries(entries) && {
                &&& written ==> entries == after.log
                &&& end <= after.log.len()
                &&& log::begins(entries, after.log.take(end as int))
            }
        }),
{
    let event = Happening::<R>::Rpc { from, msg: Message::AppendEntries(req) };
    let writes = cluster::ahead(n, event);
    let some = writes.take(i);
    assert(writes_fit(some)) by {
        assert forall|k: int| 0 <= k < some.len() implies ((
        #[trigger] some[k]) matches Stroke::Append(entry) ==> wal::record_fits(entry)) by {
            assert(some[k] == writes[k]);
        }
    }
    wal::trimming_loses_nothing(file);
    lemma_file_after(wal::trimmed(file), disk, some);
    acknowledged_entries_are_on_disk(n, from, req, now, disk, i, written, j);
}

} // verus!
