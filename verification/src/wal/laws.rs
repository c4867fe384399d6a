//! What holds of the log: of its records, its segments and its plans.

use crate::bytes::u32_of_le;
use crate::codec::payload::{crc32, encoded_head, encoded_number, encoded_pair, encoded_write};
use crate::wal::names::{numbers, numbers_listed, segment_number};
use crate::wal::record::{
    decoded_entry, fits, lemma_record_bytes_len, payload_of, record_at, record_bytes, RecordAt,
    RecordModel, WalModel,
};
use crate::wal::replay::{declared_len, replay_from, replayed, sound_end};
use crate::wal::writer::{
    after_action, after_actions, capped_sum, capped_total, flushed, planned, with_sync,
    ActionModel, Cursor, PlanModel, PlanStop, SyncPolicy, WalConfig,
};
use crate::TxnId;
use vstd::prelude::*;

verus! {

/// What a record holds: the transaction, the kind of record by its number, and
/// the fields of that kind.
pub proof fn law_record_layout(
    t: TxnId,
    cf: u16,
    key: Seq<u8>,
    value: Option<Seq<u8>>,
    commit_ts: u64,
    inserted_at: u64,
    checkpoint_id: u64,
)
    ensures
        payload_of(WalModel { txn_id: t, record: RecordModel::Put { cf, key, value } })
            == encoded_head(t, 0) + encoded_write(cf, key, value),
        payload_of(WalModel { txn_id: t, record: RecordModel::Begin }) == encoded_head(t, 1),
        payload_of(
            WalModel { txn_id: t, record: RecordModel::Commit { commit_ts, inserted_at } },
        ) == encoded_head(t, 2) + encoded_pair(commit_ts, inserted_at),
        payload_of(WalModel { txn_id: t, record: RecordModel::Rollback }) == encoded_head(t, 3),
        payload_of(WalModel { txn_id: t, record: RecordModel::Checkpoint { checkpoint_id } })
            == encoded_head(t, 4) + encoded_number(checkpoint_id),
{
    assert(encoded_head(t, 1) + Seq::<u8>::empty() =~= encoded_head(t, 1));
    assert(encoded_head(t, 3) + Seq::<u8>::empty() =~= encoded_head(t, 3));
}

/// The bytes of a record: the length of its payload, the checksum of its
/// payload, and the payload. A payload may take up to 64 MiB.
pub proof fn law_record_bytes(e: WalModel)
    ensures
        fits(e) <==> payload_of(e).len() <= 67_108_864,
        fits(e) ==> {
            &&& record_bytes(e).len() == 8 + payload_of(e).len()
            &&& u32_of_le(record_bytes(e)) == payload_of(e).len()
            &&& u32_of_le(record_bytes(e).skip(4)) == crc32(payload_of(e))
            &&& record_bytes(e).skip(8) == payload_of(e)
        },
{
    if fits(e) {
        lemma_record_bytes_len(e);
        assert(record_bytes(e).skip(8) =~= payload_of(e));
    }
}

/// A record that was written is read back, wherever it stands, and what is read
/// next stands behind it.
pub proof fn law_record_reads_back(before: Seq<u8>, e: WalModel, rest: Seq<u8>)
    requires
        fits(e),
        decoded_entry(payload_of(e)) == Some(e),
    ensures
        record_at(before + record_bytes(e) + rest, before.len() as int) == RecordAt::Entry(
            e,
            (before.len() + record_bytes(e).len()) as int,
        ),
{
    let seg = before + record_bytes(e) + rest;
    let pos = before.len() as int;
    let s = seg.skip(pos);
    let b = record_bytes(e);
    lemma_record_bytes_len(e);
    assert(s =~= b + rest);
    assert(s[0] == b[0] && s[1] == b[1] && s[2] == b[2] && s[3] == b[3]);
    assert(u32_of_le(s) == u32_of_le(b));
    let s4 = s.skip(4);
    let b4 = b.skip(4);
    assert(s4[0] == b4[0] && s4[1] == b4[1] && s4[2] == b4[2] && s4[3] == b4[3]);
    assert(u32_of_le(s4) == u32_of_le(b4));
    assert(s.subrange(8, 8 + payload_of(e).len() as int) =~= payload_of(e)) by {
        assert(b.skip(8) =~= payload_of(e));
    }
}

/// A record is read only where its declared length is within the limit, all of
/// its bytes are there, and they have the stored checksum.
pub proof fn law_read_record_is_sound(seg: Seq<u8>, pos: int)
    requires
        0 <= pos <= seg.len(),
        record_at(seg, pos) is Entry,
    ensures
        seg.len() >= pos + 8 + u32_of_le(seg.skip(pos)),
        u32_of_le(seg.skip(pos)) <= 67_108_864,
        crc32(seg.subrange(pos + 8, pos + 8 + u32_of_le(seg.skip(pos)))) == u32_of_le(
            seg.skip(pos + 4),
        ),
        decoded_entry(seg.subrange(pos + 8, pos + 8 + u32_of_le(seg.skip(pos)))) == Some(
            record_at(seg, pos)->Entry_0,
        ),
        record_at(seg, pos)->Entry_1 == pos + 8 + u32_of_le(seg.skip(pos)),
{
    let s = seg.skip(pos);
    let len = u32_of_le(s) as int;
    assert(s.subrange(8, 8 + len) =~= seg.subrange(pos + 8, pos + 8 + len));
    assert(s.skip(4) =~= seg.skip(pos + 4));
}

/// A segment that is not the last is replayed without an error only if all of
/// it reads as records.
pub proof fn law_earlier_segment_has_to_be_whole(seg: Seq<u8>, pos: int)
    requires
        0 <= pos <= seg.len(),
        replay_from(seg, pos, false).1 is End,
    ensures
        sound_end(seg, pos) == seg.len(),
    decreases seg.len() - pos,
{
    match record_at(seg, pos) {
        RecordAt::Entry(_, next) => {
            law_earlier_segment_has_to_be_whole(seg, next);
        },
        _ => {
            assert(seg.skip(pos).len() == 0);
        },
    }
}

/// The last segment is replayed without an error only if all of it reads as
/// records, or what is left is a record that was not written to its end: it has
/// fewer bytes than a header, or fewer than it declares, and declares no more
/// than the limit.
pub proof fn law_last_segment_may_end_in_a_torn_record(seg: Seq<u8>, pos: int)
    requires
        0 <= pos <= seg.len(),
        replay_from(seg, pos, true).1 is End,
    ensures
        pos <= sound_end(seg, pos) <= seg.len(),
        sound_end(seg, pos) == seg.len() || seg.len() - sound_end(seg, pos) < 8 || (seg.len()
            - sound_end(seg, pos) < 8 + u32_of_le(seg.skip(sound_end(seg, pos))) && u32_of_le(
            seg.skip(sound_end(seg, pos)),
        ) <= 67_108_864),
    decreases seg.len() - pos,
{
    match record_at(seg, pos) {
        RecordAt::Entry(_, next) => {
            law_last_segment_may_end_in_a_torn_record(seg, next);
        },
        _ => {
            lemma_declares(seg.skip(pos));
        },
    }
}

proof fn lemma_declares(rest: Seq<u8>)
    ensures
        rest.len() >= 4 ==> declared_len(rest) == u32_of_le(rest),
{
    let z = rest + seq![0u8, 0u8, 0u8, 0u8];
    if rest.len() >= 4 {
        assert(z[0] == rest[0] && z[1] == rest[1] && z[2] == rest[2] && z[3] == rest[3]);
    }
}

/// Damage is reported, in the last segment too: a record whose bytes are all
/// there and whose checksum is wrong, or that holds no entry, or that declares
/// too much, stops the replay, and what was read before it is kept.
pub proof fn law_damage_is_reported(seg: Seq<u8>, pos: int, last: bool)
    requires
        0 <= pos <= seg.len(),
        record_at(seg, sound_end(seg, pos)) is CrcMismatch || record_at(seg, sound_end(seg, pos))
            is Undecodable || record_at(seg, sound_end(seg, pos)) is TooLong,
    ensures
        replay_from(seg, pos, last).1 == record_at(seg, sound_end(seg, pos)),
    decreases seg.len() - pos,
{
    match record_at(seg, pos) {
        RecordAt::Entry(_, next) => {
            law_damage_is_reported(seg, next, last);
        },
        _ => {
            lemma_declares(seg.skip(pos));
        },
    }
}

/// A log is replayed without an error only if every segment but the last reads
/// as records to its end.
pub proof fn law_replay_skips_nothing(segs: Seq<Seq<u8>>, i: int, k: int)
    requires
        0 <= i <= k < segs.len() - 1,
        replayed(segs, i).1 is End,
    ensures
        sound_end(segs[k], 0) == segs[k].len(),
    decreases k - i,
{
    if i == k {
        law_earlier_segment_has_to_be_whole(segs[i], 0);
    } else {
        law_replay_skips_nothing(segs, i + 1, k);
    }
}

/// A plan for one record: it goes to the current segment, unless that holds
/// something already and would grow over the limit; then it goes to the next
/// segment, and the current one is sealed where nothing is written through.
pub proof fn law_plan_of_one_record(c: Cursor, max: u64, write_through: bool, e: WalModel)
    ensures
        ({
            let p = planned(c, max, write_through, seq![e]);
            let write = ActionModel::Write { bytes: record_bytes(e) };
            let full = c.segment_bytes > 0 && c.segment_bytes + record_bytes(e).len() > max;
            if !fits(e) {
                p.stop == Some(PlanStop::TooLarge(payload_of(e).len())) && p.actions.len() == 0
            } else if !full {
                p.stop is None && p.actions == seq![write]
            } else if c.seq == u64::MAX {
                p.stop == Some(PlanStop::NoMoreSegments) && p.actions.len() == 0
            } else if write_through {
                p.stop is None && p.actions == seq![
                    ActionModel::Open { seq: (c.seq + 1) as u64 },
                    write,
                ]
            } else {
                p.stop is None && p.actions == seq![
                    ActionModel::Seal,
                    ActionModel::Open { seq: (c.seq + 1) as u64 },
                    write,
                ]
            }
        }),
{
    let es = seq![e];
    assert(es.drop_last() =~= Seq::<WalModel>::empty());
    assert(es.last() == e);
    reveal_with_fuel(planned, 2);
    let p = planned(c, max, write_through, es);
    let write = ActionModel::Write { bytes: record_bytes(e) };
    let none = Seq::<ActionModel>::empty();
    assert(planned(c, max, write_through, es.drop_last()).actions =~= none);
    assert(after_actions(c, none) == c);
    assert(none.push(write) =~= seq![write]);
    let open = ActionModel::Open { seq: (c.seq + 1) as u64 };
    assert((none + seq![open]).push(write) =~= seq![open, write]);
    assert((none + seq![ActionModel::Seal, open]).push(write) =~= seq![
        ActionModel::Seal,
        open,
        write,
    ]);
}

/// A plan for more records goes on where the plan for those before them ends,
/// unless that has stopped.
pub proof fn law_plan_goes_on(
    c: Cursor,
    max: u64,
    write_through: bool,
    es: Seq<WalModel>,
    e: WalModel,
)
    ensures
        ({
            let before = planned(c, max, write_through, es);
            let one = planned(after_actions(c, before.actions), max, write_through, seq![e]);
            let p = planned(c, max, write_through, es.push(e));
            if before.stop is Some {
                p == before
            } else {
                p.stop == one.stop && p.actions == before.actions + one.actions
            }
        }),
{
    let before = planned(c, max, write_through, es);
    let at = after_actions(c, before.actions);
    let p = planned(c, max, write_through, es.push(e));
    let write = ActionModel::Write { bytes: record_bytes(e) };
    let open = ActionModel::Open { seq: (at.seq + 1) as u64 };
    assert(es.push(e).drop_last() =~= es);
    law_plan_of_one_record(at, max, write_through, e);
    let one = planned(at, max, write_through, seq![e]);
    if before.stop is None {
        assert(p.actions =~= before.actions + one.actions);
    }
}

/// Where the writer stands after an action: a write makes the current segment
/// longer by its bytes; a new segment is empty, and what the one before held
/// counts among the previous ones; nothing else moves it.
pub proof fn law_cursor_moves(c: Cursor, seq: u64, bytes: Seq<u8>, to_disk: bool)
    ensures
        after_action(c, ActionModel::Seal) == c,
        after_action(c, ActionModel::Sync { to_disk }) == c,
        after_action(c, ActionModel::Open { seq }).seq == seq,
        after_action(c, ActionModel::Open { seq }).segment_bytes == 0,
        c.prev_segments_bytes + c.segment_bytes <= u64::MAX ==> after_action(
            c,
            ActionModel::Open { seq },
        ).prev_segments_bytes == c.prev_segments_bytes + c.segment_bytes,
        after_action(c, ActionModel::Write { bytes }).seq == c.seq,
        after_action(c, ActionModel::Write { bytes }).prev_segments_bytes == c.prev_segments_bytes,
        c.segment_bytes + bytes.len() <= u64::MAX ==> after_action(
            c,
            ActionModel::Write { bytes },
        ).segment_bytes == c.segment_bytes + bytes.len(),
{
}

/// A segment does not grow over the limit, unless a single record is larger
/// than that.
pub proof fn law_segments_stay_within_the_limit(
    c: Cursor,
    max: u64,
    write_through: bool,
    es: Seq<WalModel>,
)
    requires
        c.segment_bytes <= max,
    ensures
        ({
            let at = after_actions(c, planned(c, max, write_through, es).actions);
            at.segment_bytes <= max || exists|i: int|
                0 <= i < es.len() && at.segment_bytes == (#[trigger] record_bytes(es[i])).len()
        }),
    decreases es.len(),
{
    if es.len() > 0 {
        let rest = es.drop_last();
        let e = es.last();
        let before = planned(c, max, write_through, rest);
        let at = after_actions(c, before.actions);
        law_segments_stay_within_the_limit(c, max, write_through, rest);
        assert(rest.push(e) =~= es);
        law_plan_goes_on(c, max, write_through, rest, e);
        law_plan_of_one_record(at, max, write_through, e);
        let p = planned(c, max, write_through, es);
        let one = planned(at, max, write_through, seq![e]);
        let end = after_actions(c, p.actions);
        assert(es[es.len() - 1] == e);
        if at.segment_bytes > max {
            let i = choose|i: int|
                0 <= i < rest.len() && at.segment_bytes == (#[trigger] record_bytes(rest[i])).len();
            assert(rest[i] == es[i]);
            assert(at.segment_bytes == record_bytes(es[i]).len());
        }
        if before.stop is None && one.stop is None {
            let write = ActionModel::Write { bytes: record_bytes(e) };
            lemma_record_bytes_len(e);
            let head = p.actions.drop_last();
            assert(p.actions.last() == write);
            assert(end == after_action(after_actions(c, head), write));
            if one.actions.len() == 1 {
                assert(head =~= before.actions);
            } else {
                let open = ActionModel::Open { seq: (at.seq + 1) as u64 };
                assert(head.last() == open);
                assert(after_actions(c, head).segment_bytes == 0);
                assert(end.segment_bytes == record_bytes(es[es.len() - 1]).len());
            }
        } else if before.stop is None {
            assert(p.actions =~= before.actions);
        }
    }
}

/// A plan that is to be durable ends in a sync, which goes to the disk unless
/// everything is written through; a plan that has stopped syncs nothing. An
/// empty queue needs no plan.
pub proof fn law_durable_plan_ends_in_a_sync(
    p: PlanModel,
    c: Cursor,
    max: u64,
    write_through: bool,
    queue: Seq<WalModel>,
)
    ensures
        p.stop is None ==> with_sync(p, write_through).stop is None && with_sync(
            p,
            write_through,
        ).actions == p.actions + seq![ActionModel::Sync { to_disk: !write_through }],
        p.stop is Some ==> with_sync(p, write_through) == p,
        queue.len() == 0 ==> flushed(c, max, write_through, queue).actions.len() == 0 && flushed(
            c,
            max,
            write_through,
            queue,
        ).stop is None,
        queue.len() > 0 && planned(c, max, write_through, queue).stop is None ==> flushed(
            c,
            max,
            write_through,
            queue,
        ).actions == planned(c, max, write_through, queue).actions + seq![
            ActionModel::Sync { to_disk: !write_through },
        ],
        queue.len() > 0 ==> flushed(c, max, write_through, queue).stop == planned(
            c,
            max,
            write_through,
            queue,
        ).stop,
{
    let sync = ActionModel::Sync { to_disk: !write_through };
    assert(p.actions.push(sync) =~= p.actions + seq![sync]);
    let q = planned(c, max, write_through, queue);
    assert(q.actions.push(sync) =~= q.actions + seq![sync]);
}

/// The total of sizes is their sum, as long as that fits.
pub proof fn law_total_is_the_sum(sizes: Seq<u64>, x: u64, a: u64)
    ensures
        capped_total(Seq::<u64>::empty()) == 0,
        capped_total(sizes) + x <= u64::MAX ==> capped_total(sizes.push(x)) == capped_total(sizes)
            + x,
        capped_total(sizes) + x > u64::MAX ==> capped_total(sizes.push(x)) == u64::MAX,
        a + x <= u64::MAX ==> capped_sum(a, x as nat) == a + x,
        a + x > u64::MAX ==> capped_sum(a, x as nat) == u64::MAX,
{
    assert(sizes.push(x).drop_last() =~= sizes);
}

proof fn lemma_numbers(names: Seq<Seq<char>>, n: u64)
    requires
        forall|i: int|
            0 <= i < names.len() ==> (segment_number(#[trigger] names[i]) matches Some(m) ==> m
                <= u64::MAX),
    ensures
        numbers(names).contains(n) <==> exists|i: int|
            0 <= i < names.len() && segment_number(#[trigger] names[i]) == Some(n as nat),
    decreases names.len(),
{
    if names.len() > 0 {
        let rest = names.drop_last();
        let k = names.len() - 1;
        assert forall|i: int| 0 <= i < rest.len() implies #[trigger] rest[i] == names[i] by {}
        assert forall|i: int| 0 <= i < rest.len() implies (segment_number(#[trigger] rest[i]) matches Some(m) ==> m
            <= u64::MAX) by {
            assert(rest[i] == names[i]);
        }
        lemma_numbers(rest, n);
        assert(names[k] == names.last());
        let before = numbers(rest);
        let now = numbers(names);
        if before.contains(n) {
            let i = choose|i: int| 0 <= i < before.len() && before[i] == n;
            assert(now[i] == n);
            let j = choose|j: int|
                0 <= j < rest.len() && segment_number(#[trigger] rest[j]) == Some(n as nat);
            assert(segment_number(names[j]) == Some(n as nat));
        }
        if segment_number(names[k]) == Some(n as nat) {
            assert(now[now.len() - 1] == n);
        }
        if now.contains(n) && !before.contains(n) {
            let i = choose|i: int| 0 <= i < now.len() && now[i] == n;
            if i < before.len() {
                assert(before[i] == n);
            }
            assert(segment_number(names[k]) == Some(n as nat));
        }
        if exists|i: int|
            0 <= i < names.len() && segment_number(#[trigger] names[i]) == Some(n as nat) {
            let i = choose|i: int|
                0 <= i < names.len() && segment_number(#[trigger] names[i]) == Some(n as nat);
            if i < k {
                assert(segment_number(rest[i]) == Some(n as nat));
            }
        }
    }
}

/// The segments of a directory are exactly the numbers that its names carry,
/// ascending.
pub proof fn law_segments_are_found(names: Seq<Seq<char>>, seqs: Seq<u64>, n: u64)
    requires
        numbers_listed(names, seqs),
    ensures
        seqs.contains(n) <==> exists|i: int|
            0 <= i < names.len() && segment_number(#[trigger] names[i]) == Some(n as nat),
        forall|i: int, j: int|
            0 <= i < j < seqs.len() ==> #[trigger] seqs[i] <= #[trigger] seqs[j],
{
    lemma_numbers(names, n);
    seqs.to_multiset_ensures();
    numbers(names).to_multiset_ensures();
    assert(seqs.contains(n) <==> seqs.to_multiset().count(n) > 0);
    assert(numbers(names).contains(n) <==> numbers(names).to_multiset().count(n) > 0);
}

/// Group commit: without a setting of its own the WAL syncs strictly in groups
/// of a hundred, and otherwise as it is set.
pub proof fn law_group_commit_settings(c: WalConfig)
    ensures
        c.group_commit is None ==> c.policy() == SyncPolicy::GroupCommitStrict && c.batch_size()
            == 100,
        c.group_commit is Some ==> c.policy() == (c.group_commit->0).policy && c.batch_size() == (
        c.group_commit->0).max_batch_size,
{
}

} // verus!
