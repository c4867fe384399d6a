//! Replaying segments.
//!
//! Records are read in order. Whatever does not read as a record is an error,
//! with one exception: at the tail of the last segment a record that was only
//! partly written is dropped. It belongs to no committed transaction, since a
//! commit is synced as a whole. A record that is complete but damaged, or
//! whose declared length is over the limit, is never dropped.

use crate::bytes::{read_le_u32, u32_of_le};
use crate::error::Result;
use crate::wal::record::{
    all_fit, fits, lemma_wal_models_push, log_bytes, read_one_record, record_at, record_bytes,
    reports, wal_models, RecordAt, WalEntry, WalModel, MAX_WAL_RECORD_LEN,
};
use vstd::prelude::*;

verus! {

/// The length that a record declares, with missing bytes read as zero.
pub open spec fn declared_len(rest: Seq<u8>) -> u32 {
    u32_of_le(rest + seq![0u8, 0u8, 0u8, 0u8])
}

/// What stands at `pos` extends past the end of the segment and declares a
/// length within the limit: a record that was only partly written.
pub open spec fn partly_written(seg: Seq<u8>, pos: int) -> bool {
    let rest = seg.skip(pos);
    &&& rest.len() < 8 || rest.len() < 8 + declared_len(rest)
    &&& declared_len(rest) <= MAX_WAL_RECORD_LEN
}

/// The entries from `pos` on, and what stopped the reading; `End` where
/// nothing did. In the last segment a partly written record ends the reading.
pub open spec fn replay_from(seg: Seq<u8>, pos: int, last: bool) -> (Seq<WalModel>, RecordAt)
    decreases seg.len() - pos,
    when 0 <= pos <= seg.len()
{
    match record_at(seg, pos) {
        RecordAt::Entry(e, next) => {
            let (rest, stop) = replay_from(seg, next, last);
            (seq![e] + rest, stop)
        },
        at => if last && partly_written(seg, pos) {
            (Seq::empty(), RecordAt::End)
        } else {
            (Seq::empty(), at)
        },
    }
}

/// The entries of the segments from `i` on, and what stopped the reading.
pub open spec fn replayed(segs: Seq<Seq<u8>>, i: int) -> (Seq<WalModel>, RecordAt)
    decreases segs.len() - i,
{
    if i < 0 || i >= segs.len() {
        (Seq::empty(), RecordAt::End)
    } else {
        let (es, stop) = replay_from(segs[i], 0, i + 1 == segs.len());
        if stop is End {
            let (more, stop2) = replayed(segs, i + 1);
            (es + more, stop2)
        } else {
            (es, stop)
        }
    }
}

/// `tail` is what reached the disk of a record before the write broke off.
pub open spec fn broken_off(tail: Seq<u8>) -> bool {
    exists|e: WalModel| #[trigger]
        fits(e) && tail.len() < record_bytes(e).len() && tail == record_bytes(e).take(
            tail.len() as int,
        )
}

/// `seg` holds exactly these entries as they were written; the last segment
/// may end in a record that broke off.
pub open spec fn holds(seg: Seq<u8>, es: Seq<WalModel>, tail: Seq<u8>, last: bool) -> bool {
    &&& all_fit(es)
    &&& seg == log_bytes(es) + tail
    &&& tail.len() == 0 || (last && broken_off(tail))
}

/// The segments of a log, as byte strings.
pub open spec fn seg_models(segs: Seq<Vec<u8>>) -> Seq<Seq<u8>> {
    segs.map_values(|v: Vec<u8>| v@)
}

/// The segments hold exactly these entries, segment by segment, and the last
/// one may end in a record that broke off.
pub open spec fn segments_hold(
    segs: Seq<Seq<u8>>,
    logs: Seq<Seq<WalModel>>,
    tail: Seq<u8>,
) -> bool {
    &&& logs.len() == segs.len()
    &&& forall|i: int|
        0 <= i < segs.len() ==> holds(
            #[trigger] segs[i],
            logs[i],
            if i + 1 == segs.len() {
                tail
            } else {
                Seq::empty()
            },
            i + 1 == segs.len(),
        )
}

/// All entries of the logs from `i` on.
pub open spec fn joined(logs: Seq<Seq<WalModel>>, i: int) -> Seq<WalModel>
    decreases logs.len() - i,
{
    if i < 0 || i >= logs.len() {
        Seq::empty()
    } else {
        logs[i] + joined(logs, i + 1)
    }
}

pub proof fn lemma_log_bytes_concat(a: Seq<WalModel>, b: Seq<WalModel>)
    ensures
        log_bytes(a + b) == log_bytes(a) + log_bytes(b),
    decreases b.len(),
{
    if b.len() == 0 {
        assert(a + b =~= a);
        assert(log_bytes(a) + log_bytes(b) =~= log_bytes(a));
    } else {
        assert((a + b).drop_last() =~= a + b.drop_last());
        lemma_log_bytes_concat(a, b.drop_last());
        assert(log_bytes(a + b) =~= log_bytes(a) + log_bytes(b));
    }
}

/// The bytes of a log at its `k`-th entry.
proof fn lemma_log_at(es: Seq<WalModel>, k: int)
    requires
        0 <= k < es.len(),
    ensures
        log_bytes(es) == log_bytes(es.take(k)) + record_bytes(es[k]) + log_bytes(es.skip(k + 1)),
        log_bytes(es.take(k + 1)) == log_bytes(es.take(k)) + record_bytes(es[k]),
{
    assert(es.take(k + 1).drop_last() =~= es.take(k));
    assert(es =~= es.take(k + 1) + es.skip(k + 1));
    lemma_log_bytes_concat(es.take(k + 1), es.skip(k + 1));
}

proof fn lemma_declared(rest: Seq<u8>)
    ensures
        rest.len() >= 4 ==> declared_len(rest) == u32_of_le(rest),
{
    let z = rest + seq![0u8, 0u8, 0u8, 0u8];
    if rest.len() >= 4 {
        assert(z[0] == rest[0] && z[1] == rest[1] && z[2] == rest[2] && z[3] == rest[3]);
    }
}

/// The start of a byte string declares no more than the whole of it.
proof fn lemma_declared_prefix(whole: Seq<u8>, n: int)
    requires
        0 <= n <= whole.len(),
        whole.len() >= 4,
    ensures
        declared_len(whole.take(n)) <= u32_of_le(whole),
        n >= 4 ==> declared_len(whole.take(n)) == u32_of_le(whole),
{
    let rest = whole.take(n);
    let z = rest + seq![0u8, 0u8, 0u8, 0u8];
    assert forall|i: int| 0 <= i < 4 implies #[trigger] z[i] <= whole[i] by {
        if i < n {
            assert(z[i] == whole[i]);
        } else {
            assert(z[i] == 0);
        }
    }
    assert(z[0] <= whole[0] && z[1] <= whole[1] && z[2] <= whole[2] && z[3] <= whole[3]);
    if n >= 4 {
        assert(z[0] == whole[0] && z[1] == whole[1] && z[2] == whole[2] && z[3] == whole[3]);
    }
}

/// A record that broke off reads as one that was only partly written.
proof fn lemma_broken_off(seg: Seq<u8>, pos: int, tail: Seq<u8>)
    requires
        0 <= pos <= seg.len(),
        seg.skip(pos) == tail,
        tail.len() > 0,
        broken_off(tail),
    ensures
        partly_written(seg, pos),
        record_at(seg, pos) is TruncatedHeader || record_at(seg, pos) is TruncatedPayload,
{
    let e = choose|e: WalModel| #[trigger]
        fits(e) && tail.len() < record_bytes(e).len() && tail == record_bytes(e).take(
            tail.len() as int,
        );
    let b = record_bytes(e);
    crate::wal::record::lemma_record_bytes_len(e);
    lemma_declared_prefix(b, tail.len() as int);
    lemma_declared(tail);
}

/// The position of a replay inside a log: `k` entries are read.
proof fn lemma_position(seg: Seq<u8>, es: Seq<WalModel>, tail: Seq<u8>, k: int)
    requires
        seg == log_bytes(es) + tail,
        0 <= k <= es.len(),
    ensures
        log_bytes(es.take(k)).len() <= seg.len(),
        k < es.len() ==> seg.skip(log_bytes(es.take(k)).len() as int) == record_bytes(es[k]) + (
        log_bytes(es.skip(k + 1)) + tail),
        k == es.len() ==> seg.skip(log_bytes(es.take(k)).len() as int) == tail,
{
    if k < es.len() {
        lemma_log_at(es, k);
        assert(seg =~= log_bytes(es.take(k)) + (record_bytes(es[k]) + (log_bytes(es.skip(k + 1))
            + tail)));
        assert(seg.skip(log_bytes(es.take(k)).len() as int) =~= record_bytes(es[k]) + (log_bytes(
            es.skip(k + 1),
        ) + tail));
    } else {
        assert(es.take(k) =~= es);
        assert(seg.skip(log_bytes(es).len() as int) =~= tail);
    }
}

/// The replay has read `done` and stands at `pos`.
spec fn on_track(seg: Seq<u8>, done: Seq<WalModel>, pos: int, es: Seq<WalModel>) -> bool {
    &&& done.len() <= es.len()
    &&& done == es.take(done.len() as int)
    &&& pos == log_bytes(done).len()
}

/// Whether what stands at `pos` was only partly written.
fn is_partly_written(seg: &[u8], pos: usize) -> (r: bool)
    requires
        pos <= seg@.len(),
    ensures
        r == partly_written(seg@, pos as int),
{
    assert(seg@.len() == seg.len());
    let avail: usize = seg.len() - pos;
    let ghost rest = seg@.skip(pos as int);
    let declared: u32 = if avail >= 4 {
        proof {
            lemma_declared(rest);
        }
        read_le_u32(seg, pos)
    } else {
        let b0: u32 = if avail > 0 {
            seg[pos] as u32
        } else {
            0
        };
        let b1: u32 = if avail > 1 {
            seg[pos + 1] as u32
        } else {
            0
        };
        let b2: u32 = if avail > 2 {
            seg[pos + 2] as u32
        } else {
            0
        };
        proof {
            let z = rest + seq![0u8, 0u8, 0u8, 0u8];
            assert(z[0] == b0 && z[1] == b1 && z[2] == b2 && z[3] == 0);
        }
        b0 + b1 * 256 + b2 * 65536
    };
    if declared > MAX_WAL_RECORD_LEN {
        return false;
    }
    avail < 8 || avail - 8 < declared as usize
}

/// Replay one segment.
fn replay_segment(seg: &[u8], last: bool) -> (r: Result<Vec<WalEntry>>)
    ensures
        ({
            let (es, stop) = replay_from(seg@, 0, last);
            match r {
                Ok(got) => stop is End && wal_models(got@) == es,
                Err(e) => reports(stop, e),
            }
        }),
        forall|es: Seq<WalModel>, tail: Seq<u8>|
            #[trigger] holds(seg@, es, tail, last) ==> (r is Ok && wal_models(r->Ok_0@) == es),
{
    let mut out: Vec<WalEntry> = Vec::new();
    let mut pos: usize = 0;
    assert(seg@.len() == seg.len());
    proof {
        assert(wal_models(out@) =~= Seq::<WalModel>::empty());
        assert(wal_models(out@) + replay_from(seg@, 0, last).0 =~= replay_from(seg@, 0, last).0);
        assert forall|es: Seq<WalModel>, tail: Seq<u8>| #[trigger] holds(
            seg@,
            es,
            tail,
            last,
        ) implies on_track(seg@, wal_models(out@), 0, es) by {
            assert(es.take(0) =~= Seq::<WalModel>::empty());
        }
    }
    loop
        invariant
            pos <= seg@.len(),
            seg@.len() == seg.len(),
            replay_from(seg@, 0, last).0 == wal_models(out@) + replay_from(
                seg@,
                pos as int,
                last,
            ).0,
            replay_from(seg@, 0, last).1 == replay_from(seg@, pos as int, last).1,
            forall|es: Seq<WalModel>, tail: Seq<u8>|
                #[trigger] holds(seg@, es, tail, last) ==> on_track(
                    seg@,
                    wal_models(out@),
                    pos as int,
                    es,
                ),
        decreases seg@.len() - pos,
    {
        let ghost done = wal_models(out@);
        proof {
            assert forall|es: Seq<WalModel>, tail: Seq<u8>| #[trigger] holds(
                seg@,
                es,
                tail,
                last,
            ) implies (done.len() < es.len() ==> seg@.skip(pos as int) == record_bytes(
                es[done.len() as int],
            ) + (log_bytes(es.skip(done.len() as int + 1)) + tail) && fits(es[done.len() as int])) && (
            done.len() == es.len() ==> seg@.skip(pos as int) == tail) by {
                lemma_position(seg@, es, tail, done.len() as int);
            }
        }
        match read_one_record(seg, pos) {
            Ok(Some((entry, next))) => {
                let ghost out0 = out@;
                let ghost m = entry@;
                let ghost pos0 = pos as int;
                out.push(entry);
                pos = next;
                proof {
                    lemma_wal_models_push(out0, entry);
                    let rest = replay_from(seg@, next as int, last).0;
                    assert(done + (seq![m] + rest) =~= done.push(m) + rest);
                    assert forall|es: Seq<WalModel>, tail: Seq<u8>| #[trigger] holds(
                        seg@,
                        es,
                        tail,
                        last,
                    ) implies on_track(seg@, wal_models(out@), pos as int, es) by {
                        let k = done.len() as int;
                        if k < es.len() {
                            assert(fits(es[k]));
                            lemma_log_at(es, k);
                            assert(es.take(k + 1) =~= done.push(m));
                        } else if tail.len() > 0 {
                            lemma_broken_off(seg@, pos0, tail);
                        }
                    }
                }
            },
            Ok(None) => {
                proof {
                    assert forall|es: Seq<WalModel>, tail: Seq<u8>| #[trigger] holds(
                        seg@,
                        es,
                        tail,
                        last,
                    ) implies done == es by {
                        if done.len() < es.len() {
                            assert(fits(es[done.len() as int]));
                        }
                        assert(es.take(es.len() as int) =~= es);
                    }
                    assert(done + Seq::<WalModel>::empty() =~= done);
                }
                return Ok(out);
            },
            Err(e) => {
                proof {
                    assert forall|es: Seq<WalModel>, tail: Seq<u8>| #[trigger] holds(
                        seg@,
                        es,
                        tail,
                        last,
                    ) implies done == es && last && partly_written(seg@, pos as int) by {
                        if done.len() < es.len() {
                            assert(fits(es[done.len() as int]));
                        }
                        assert(es.take(es.len() as int) =~= es);
                        if tail.len() > 0 {
                            lemma_broken_off(seg@, pos as int, tail);
                        }
                    }
                    assert(done + Seq::<WalModel>::empty() =~= done);
                }
                if last && is_partly_written(seg, pos) {
                    return Ok(out);
                }
                return Err(e);
            },
        }
    }
}

/// Where the records that can be read from `pos` on end.
pub open spec fn sound_end(seg: Seq<u8>, pos: int) -> int
    decreases seg.len() - pos,
    when 0 <= pos <= seg.len()
{
    match record_at(seg, pos) {
        RecordAt::Entry(_, next) => sound_end(seg, next),
        _ => pos,
    }
}

/// The length of the part of a segment that reads as records. A writer goes
/// on from there: a record that broke off at the end of the last segment is
/// cut off, so that what follows can be read.
pub fn sound_len(seg: &[u8]) -> (r: usize)
    ensures
        r == sound_end(seg@, 0),
        r <= seg@.len(),
        forall|es: Seq<WalModel>, tail: Seq<u8>|
            #[trigger] holds(seg@, es, tail, true) ==> seg@.take(r as int) == log_bytes(es),
{
    let mut pos: usize = 0;
    let ghost mut done: Seq<WalModel> = Seq::empty();
    assert(seg@.len() == seg.len());
    proof {
        assert forall|es: Seq<WalModel>, tail: Seq<u8>| #[trigger] holds(
            seg@,
            es,
            tail,
            true,
        ) implies on_track(seg@, done, 0, es) by {
            assert(es.take(0) =~= Seq::<WalModel>::empty());
        }
    }
    loop
        invariant
            pos <= seg@.len(),
            seg@.len() == seg.len(),
            sound_end(seg@, 0) == sound_end(seg@, pos as int),
            forall|es: Seq<WalModel>, tail: Seq<u8>|
                #[trigger] holds(seg@, es, tail, true) ==> on_track(seg@, done, pos as int, es),
        decreases seg@.len() - pos,
    {
        proof {
            assert forall|es: Seq<WalModel>, tail: Seq<u8>| #[trigger] holds(
                seg@,
                es,
                tail,
                true,
            ) implies (done.len() < es.len() ==> seg@.skip(pos as int) == record_bytes(
                es[done.len() as int],
            ) + (log_bytes(es.skip(done.len() as int + 1)) + tail) && fits(es[done.len() as int]))
                && (done.len() == es.len() ==> seg@.skip(pos as int) == tail) by {
                lemma_position(seg@, es, tail, done.len() as int);
            }
        }
        match read_one_record(seg, pos) {
            Ok(Some((entry, next))) => {
                let ghost m = entry@;
                let ghost pos0 = pos as int;
                let ghost before = done;
                pos = next;
                proof {
                    done = before.push(m);
                    assert forall|es: Seq<WalModel>, tail: Seq<u8>| #[trigger] holds(
                        seg@,
                        es,
                        tail,
                        true,
                    ) implies on_track(seg@, done, pos as int, es) by {
                        let k = before.len() as int;
                        if k < es.len() {
                            assert(fits(es[k]));
                            lemma_log_at(es, k);
                            assert(es.take(k + 1) =~= before.push(m));
                        } else if tail.len() > 0 {
                            lemma_broken_off(seg@, pos0, tail);
                        }
                    }
                }
            },
            _ => {
                proof {
                    assert forall|es: Seq<WalModel>, tail: Seq<u8>| #[trigger] holds(
                        seg@,
                        es,
                        tail,
                        true,
                    ) implies seg@.take(pos as int) == log_bytes(es) by {
                        if done.len() < es.len() {
                            assert(fits(es[done.len() as int]));
                        }
                        assert(es.take(es.len() as int) =~= es);
                        assert(seg@.take(pos as int) =~= log_bytes(es));
                    }
                }
                return pos;
            },
        }
    }
}

/// Replay the segments of a log, given in order. What does not read as a
/// record is an error, except for a partly written record at the very end.
///
/// Entries that were written are read back, in the order of writing, also
/// when the write of a further record broke off anywhere.
pub fn replay_all(segs: &Vec<Vec<u8>>) -> (r: Result<Vec<WalEntry>>)
    ensures
        ({
            let (es, stop) = replayed(seg_models(segs@), 0);
            match r {
                Ok(got) => stop is End && wal_models(got@) == es,
                Err(e) => reports(stop, e),
            }
        }),
        forall|logs: Seq<Seq<WalModel>>, tail: Seq<u8>|
            #[trigger] segments_hold(seg_models(segs@), logs, tail) ==> (r is Ok && wal_models(
                r->Ok_0@,
            ) == joined(logs, 0)),
{
    let mut out: Vec<WalEntry> = Vec::new();
    let ghost models = seg_models(segs@);
    let mut i: usize = 0;
    proof {
        assert(wal_models(out@) =~= Seq::<WalModel>::empty());
        assert(wal_models(out@) + replayed(models, 0).0 =~= replayed(models, 0).0);
        assert forall|logs: Seq<Seq<WalModel>>, tail: Seq<u8>| #[trigger] segments_hold(
            models,
            logs,
            tail,
        ) implies joined(logs, 0) == wal_models(out@) + joined(logs, 0) by {
            assert(wal_models(out@) + joined(logs, 0) =~= joined(logs, 0));
        }
    }
    while i < segs.len()
        invariant
            i <= segs@.len(),
            models == seg_models(segs@),
            replayed(models, 0).0 == wal_models(out@) + replayed(models, i as int).0,
            replayed(models, 0).1 == replayed(models, i as int).1,
            forall|logs: Seq<Seq<WalModel>>, tail: Seq<u8>|
                #[trigger] segments_hold(models, logs, tail) ==> joined(logs, 0) == wal_models(out@)
                    + joined(logs, i as int),
        decreases segs@.len() - i,
    {
        let last: bool = i + 1 == segs.len();
        let ghost done = wal_models(out@);
        assert(models[i as int] == segs@[i as int]@);
        match replay_segment(segs[i].as_slice(), last) {
            Ok(entries) => {
                let ghost got = wal_models(entries@);
                let mut entries = entries;
                out.append(&mut entries);
                proof {
                    assert(wal_models(out@) =~= done + got);
                    let rest = replayed(models, i + 1).0;
                    assert(done + (got + rest) =~= (done + got) + rest);
                    assert forall|logs: Seq<Seq<WalModel>>, tail: Seq<u8>| #[trigger] segments_hold(
                        models,
                        logs,
                        tail,
                    ) implies joined(logs, 0) == wal_models(out@) + joined(logs, i + 1) by {
                        let t = if last {
                            tail
                        } else {
                            Seq::empty()
                        };
                        assert(holds(models[i as int], logs[i as int], t, last));
                        assert(done + (got + joined(logs, i + 1)) =~= (done + got) + joined(
                            logs,
                            i + 1,
                        ));
                    }
                }
            },
            Err(e) => {
                proof {
                    assert forall|logs: Seq<Seq<WalModel>>, tail: Seq<u8>| #[trigger] segments_hold(
                        models,
                        logs,
                        tail,
                    ) implies false by {
                        let t = if last {
                            tail
                        } else {
                            Seq::empty()
                        };
                        assert(holds(models[i as int], logs[i as int], t, last));
                    }
                }
                return Err(e);
            },
        }
        i = i + 1;
    }
    proof {
        assert(wal_models(out@) + Seq::<WalModel>::empty() =~= wal_models(out@));
        assert forall|logs: Seq<Seq<WalModel>>, tail: Seq<u8>| #[trigger] segments_hold(
            models,
            logs,
            tail,
        ) implies wal_models(out@) == joined(logs, 0) by {
            assert(joined(logs, i as int) =~= Seq::<WalModel>::empty());
        }
    }
    Ok(out)
}

/// From a common position on, a cut segment reads as a part of the whole one.
proof fn lemma_cut(seg: Seq<u8>, cut: int, pos: int)
    requires
        0 <= pos <= cut <= seg.len(),
        replay_from(seg, pos, true).1 is End,
    ensures
        replay_from(seg.take(cut), pos, true).1 is End,
        replay_from(seg.take(cut), pos, true).0.is_prefix_of(replay_from(seg, pos, true).0),
    decreases seg.len() - pos,
{
    let part = seg.take(cut);
    let rest = seg.skip(pos);
    let short = part.skip(pos);
    assert(short =~= rest.take(cut - pos));
    let es = replay_from(seg, pos, true).0;
    lemma_declared(rest);
    lemma_declared(short);
    if short.len() == 0 {
        assert(replay_from(part, pos, true).0 =~= es.take(0));
    } else {
        // the record at `pos` declares a length within the limit
        let wide = rest + seq![0u8, 0u8, 0u8, 0u8];
        assert(declared_len(rest) <= MAX_WAL_RECORD_LEN);
        assert(short =~= wide.take(short.len() as int));
        lemma_declared_prefix(wide, short.len() as int);
        if short.len() >= 8 {
            assert(u32_of_le(short) == u32_of_le(rest)) by {
                assert(short[0] == rest[0] && short[1] == rest[1] && short[2] == rest[2]
                    && short[3] == rest[3]);
            }
            assert(u32_of_le(short.skip(4)) == u32_of_le(rest.skip(4))) by {
                let a = short.skip(4);
                let b = rest.skip(4);
                assert(a[0] == b[0] && a[1] == b[1] && a[2] == b[2] && a[3] == b[3]);
            }
            let len = u32_of_le(rest);
            if short.len() >= 8 + len {
                assert(short.subrange(8, 8 + len) =~= rest.subrange(8, 8 + len));
                match record_at(seg, pos) {
                    RecordAt::Entry(e, next) => {
                        lemma_cut(seg, cut, next);
                        let a = replay_from(part, next, true).0;
                        let b = replay_from(seg, next, true).0;
                        assert((seq![e] + a).is_prefix_of(seq![e] + b)) by {
                            assert((seq![e] + b).subrange(0, (seq![e] + a).len() as int) =~= seq![e]
                                + a) by {
                                assert(a == b.subrange(0, a.len() as int));
                            }
                        }
                    },
                    _ => {},
                }
            } else {
                assert(partly_written(part, pos));
                assert(replay_from(part, pos, true).0 =~= es.take(0));
            }
        } else {
            assert(partly_written(part, pos));
            assert(replay_from(part, pos, true).0 =~= es.take(0));
        }
    }
}

/// Wherever a crash cuts the last segment of a log off, what is left reads
/// without an error and gives a prefix of the entries.
pub proof fn law_cut_keeps_a_prefix(seg: Seq<u8>, cut: int)
    requires
        0 <= cut <= seg.len(),
        replay_from(seg, 0, true).1 is End,
    ensures
        replay_from(seg.take(cut), 0, true).1 is End,
        replay_from(seg.take(cut), 0, true).0.is_prefix_of(replay_from(seg, 0, true).0),
{
    lemma_cut(seg, cut, 0);
}

} // verus!
