//! What holds of checkpoint files and of the order of a checkpoint.

use crate::bytes::{
    le_u32, le_u64, lemma_le_u32_differs, lemma_le_u32_round_trip, lemma_le_u64_round_trip,
    u32_of_le,
};
use crate::codec::payload::{
    crc32, decoded_history, encoded_history, law_checksum_tells_a_changed_byte,
};
use crate::text::{lemma_zero_padded_round_trip, zero_padded};
use crate::wal::checkpoint::{
    checkpoint_file, checkpoint_in, checkpoint_payload, enveloped, marked, opened, pointed_at, CheckpointModel,
    CheckpointStage,
};
use crate::wal::record::{wal_models, WalModel};
use crate::wal::writer::{planned, ActionModel, SyncPolicy, WalWriter};
use crate::TxnId;
use vstd::prelude::*;

verus! {

/// What is put in an envelope comes out of it, whatever follows it.
pub proof fn law_envelope_round_trip(payload: Seq<u8>, rest: Seq<u8>)
    requires
        payload.len() <= u32::MAX,
    ensures
        opened(enveloped(payload) + rest) == Some(payload),
        enveloped(payload).len() == 13 + payload.len(),
{
    let b = enveloped(payload) + rest;
    let crc = le_u32(crc32(payload));
    let len = le_u32(payload.len() as u32);
    lemma_le_u32_round_trip(crc32(payload), len + payload + rest);
    lemma_le_u32_round_trip(payload.len() as u32, payload + rest);
    assert(b.take(4) =~= seq![67u8, 75u8, 80u8, 84u8]);
    assert(b.skip(5) =~= crc + (len + payload + rest));
    assert(b.skip(9) =~= len + (payload + rest));
    assert(b.subrange(13, 13 + payload.len() as int) =~= payload);
}

/// A checkpoint file in which a byte was changed is not read, be it in the
/// magic, the version, the checksum or the payload.
pub proof fn law_changed_checkpoint_rejected(payload: Seq<u8>, i: int, b: u8)
    requires
        payload.len() <= u32::MAX,
        0 <= i < 9 || 13 <= i < 13 + payload.len(),
        b != enveloped(payload)[i],
    ensures
        opened(enveloped(payload).update(i, b)) is None,
{
    let whole = enveloped(payload);
    let bad = whole.update(i, b);
    law_envelope_round_trip(payload, Seq::empty());
    assert(whole + Seq::<u8>::empty() =~= whole);
    if i < 4 {
        assert(bad.take(4)[i] == b);
        assert(whole.take(4)[i] == whole[i]);
    } else if 5 <= i < 9 {
        assert(bad.skip(9) =~= whole.skip(9));
        let n = u32_of_le(whole.skip(9)) as int;
        assert(bad.subrange(13, 13 + n) =~= whole.subrange(13, 13 + n));
        let x = bad.skip(5);
        let y = whole.skip(5);
        assert(x[i - 5] == b && y[i - 5] == whole[i]);
        assert forall|k: int| 0 <= k < 4 && k != i - 5 implies x[k] == y[k] by {}
        lemma_le_u32_differs(x, y, i - 5);
    } else if i >= 13 {
        assert(bad.take(4) =~= whole.take(4));
        let x9 = bad.skip(9);
        let y9 = whole.skip(9);
        assert(x9[0] == y9[0] && x9[1] == y9[1] && x9[2] == y9[2] && x9[3] == y9[3]);
        assert(u32_of_le(x9) == u32_of_le(y9));
        let x5 = bad.skip(5);
        let y5 = whole.skip(5);
        assert(x5[0] == y5[0] && x5[1] == y5[1] && x5[2] == y5[2] && x5[3] == y5[3]);
        assert(u32_of_le(x5) == u32_of_le(y5));
        let n = payload.len() as int;
        lemma_le_u32_round_trip(payload.len() as u32, payload);
        assert(y9 =~= le_u32(payload.len() as u32) + payload);
        assert(bad.subrange(13, 13 + n) =~= payload.update(i - 13, b));
        law_checksum_tells_a_changed_byte(payload, i - 13, b);
        assert(whole.subrange(13, 13 + n) =~= payload);
        assert(crc32(payload) == u32_of_le(y5));
    }
}

/// A checkpoint file that was cut off anywhere is not read.
pub proof fn law_cut_checkpoint_rejected(payload: Seq<u8>, cut: int)
    requires
        payload.len() <= u32::MAX,
        0 <= cut < enveloped(payload).len(),
    ensures
        opened(enveloped(payload).take(cut)) is None,
{
    let whole = enveloped(payload);
    let short = whole.take(cut);
    law_envelope_round_trip(payload, Seq::empty());
    if cut >= 13 {
        let x = short.skip(9);
        let y = whole.skip(9);
        lemma_le_u32_round_trip(payload.len() as u32, payload);
        assert(y =~= le_u32(payload.len() as u32) + payload);
        assert(x[0] == y[0] && x[1] == y[1] && x[2] == y[2] && x[3] == y[3]);
        assert(u32_of_le(x) == payload.len());
    }
}

/// A checkpoint that is read from a file holds what the payload says, and a
/// checkpoint file written of a state is read as that state where its payload
/// is.
pub proof fn law_checkpoint_reads_back(s: CheckpointModel, bytes: Seq<u8>)
    ensures
        checkpoint_in(bytes) is Some ==> opened(bytes) is Some && decoded_history(
            opened(bytes)->0,
        ) == Some(
            (
                (checkpoint_in(bytes)->0).checkpoint_id,
                (checkpoint_in(bytes)->0).committed_txn,
                (checkpoint_in(bytes)->0).timestamp_ms,
                (checkpoint_in(bytes)->0).committed_history,
            ),
        ),
        opened(bytes) is None ==> checkpoint_in(bytes) is None,
        checkpoint_payload(s) == encoded_history(
            s.checkpoint_id,
            s.committed_txn,
            s.timestamp_ms,
            s.committed_history,
        ),
        checkpoint_payload(s).len() <= u32::MAX && decoded_history(checkpoint_payload(s)) == Some(
            (s.checkpoint_id, s.committed_txn, s.timestamp_ms, s.committed_history),
        ) ==> checkpoint_in(enveloped(checkpoint_payload(s))) == Some(s),
{
    if checkpoint_payload(s).len() <= u32::MAX {
        law_envelope_round_trip(checkpoint_payload(s), Seq::empty());
        assert(enveloped(checkpoint_payload(s)) + Seq::<u8>::empty() =~= enveloped(
            checkpoint_payload(s),
        ));
    }
}

/// The pointer names the checkpoint that was written to it, and eight bytes are
/// a pointer, whatever they hold.
pub proof fn law_pointer_round_trip(id: TxnId, bytes: Seq<u8>)
    ensures
        pointed_at(le_u64(id)) == Some(id),
        pointed_at(bytes) is Some <==> bytes.len() == 8,
{
    lemma_le_u64_round_trip(id);
    lemma_le_u32_round_trip((id % 4294967296) as u32, Seq::empty());
    lemma_le_u32_round_trip((id / 4294967296) as u32, Seq::empty());
}

/// The order of a checkpoint: flush the data, sync the WAL, write the state,
/// write the pointer, mark the WAL, truncate it. A step that fails ends it.
pub proof fn law_checkpoint_order(stage: CheckpointStage)
    ensures
        CheckpointStage::FlushData.stepped(true) == CheckpointStage::SyncWal,
        CheckpointStage::SyncWal.stepped(true) == CheckpointStage::WriteState,
        CheckpointStage::WriteState.stepped(true) == CheckpointStage::WriteLatest,
        CheckpointStage::WriteLatest.stepped(true) == CheckpointStage::MarkWal,
        CheckpointStage::MarkWal.stepped(true) == CheckpointStage::TruncateWal,
        CheckpointStage::TruncateWal.stepped(true) == CheckpointStage::Done,
        !(stage is Done) ==> stage.stepped(false) == CheckpointStage::Failed,
        CheckpointStage::Done.stepped(true) == CheckpointStage::Done,
        CheckpointStage::Done.stepped(false) == CheckpointStage::Done,
        CheckpointStage::Failed.stepped(true) == CheckpointStage::Failed,
{
}

/// The checkpoint record reaches the disk together with everything that was
/// queued before it: the plan writes these records, in this order, and ends in
/// a sync. A WAL that is off needs no plan.
pub proof fn law_checkpoint_record_is_synced(w: WalWriter, e: WalModel)
    ensures
        !w.config.enabled ==> marked(w, e).actions.len() == 0 && marked(w, e).stop is None,
        w.config.enabled && marked(w, e).stop is None ==> marked(w, e).actions.len() > 0 && marked(
            w,
            e,
        ).actions.last() == (ActionModel::Sync { to_disk: !w.config.write_through }),
        w.config.enabled && marked(w, e).stop is None ==> planned(
            w.cursor,
            w.config.max_file_size,
            w.config.write_through,
            if w.config.policy() == SyncPolicy::GroupCommitStrict {
                wal_models(w.queue@).push(e)
            } else {
                seq![e]
            },
        ).actions.is_prefix_of(marked(w, e).actions),
{
    let c = w.config;
    if c.enabled {
        let es = if c.policy() == SyncPolicy::GroupCommitStrict {
            wal_models(w.queue@).push(e)
        } else {
            seq![e]
        };
        let p = planned(w.cursor, c.max_file_size, c.write_through, es);
        let sync = ActionModel::Sync { to_disk: !c.write_through };
        if p.stop is None {
            assert(p.actions.is_prefix_of(p.actions.push(sync)));
            assert(p.actions.is_prefix_of(p.actions.push(sync).push(sync)));
        }
    }
}

/// Two checkpoints have the same file name only if they have the same number.
pub proof fn law_checkpoint_names_differ(a: TxnId, b: TxnId)
    requires
        checkpoint_file(a) == checkpoint_file(b),
    ensures
        a == b,
{
    reveal_strlit("ckpt_");
    reveal_strlit(".bin");
    let x = zero_padded(a as nat, 16);
    let y = zero_padded(b as nat, 16);
    assert(checkpoint_file(a).len() == 5 + x.len() + 4);
    assert(checkpoint_file(b).len() == 5 + y.len() + 4);
    assert(checkpoint_file(a).subrange(5, 5 + x.len() as int) =~= x);
    assert(checkpoint_file(b).subrange(5, 5 + y.len() as int) =~= y);
    lemma_zero_padded_round_trip(a as nat, 16);
    lemma_zero_padded_round_trip(b as nat, 16);
}

} // verus!
