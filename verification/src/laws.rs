//! Laws of the protocol engine: properties that hold of every input, proved
//! over the same specification functions the engine's contracts use.

use vstd::prelude::*;
use crate::packet::UcpPacket;
use crate::seqnum::{seq_below, seq_diff, lemma_wrap_add_diff, lemma_seq_diff_self,
    lemma_seq_below_flip};
use crate::stream::{adjacent_ascending, pairwise_ascending, seqs_of, scan_pos, scan_dup,
    advance_una, advance_count, lemma_advance_una_is_wrap_add, lemma_scan_pos_char,
    lemma_scan_pos_unique, ack_scan, ack_found, drop_acked, bump_skip};

verus! {

/// The delivery boundary never moves backwards: absorbing a contiguous run
/// advances it by exactly the run's length, a non-negative step.
pub proof fn lemma_una_non_decreasing(q: Seq<UcpPacket>, pos: int, una: u32)
    requires
        0 <= pos <= q.len(),
        q.len() - pos < 0x8000_0000,
    ensures
        0 <= seq_diff(advance_una(q, pos, una), una) <= q.len() - pos,
{
    lemma_advance_una_is_wrap_add(q, pos, una);
    lemma_wrap_add_diff(una, advance_count(q, pos, una));
}

/// A sorted receive queue stays strictly sorted through a data insertion:
/// the arriving sequence lands between a strict predecessor and a strict
/// successor.
pub proof fn lemma_data_insert_sorted(q: Seq<UcpPacket>, p: UcpPacket)
    requires
        adjacent_ascending(q),
        !scan_dup(q, p.seq),
    ensures
        adjacent_ascending(q.insert(scan_pos(q, p.seq), p)),
{
    lemma_scan_pos_char(q, p.seq);
    let pos = scan_pos(q, p.seq);
    let q2 = q.insert(pos, p);
    assert forall|k: int| 0 <= k < q2.len() - 1 implies seq_below(
        (#[trigger] q2[k]).seq,
        q2[k + 1].seq,
    ) by {
        if k < pos - 1 {
            assert(q2[k] == q[k] && q2[k + 1] == q[k + 1]);
        } else if k == pos - 1 {
            assert(q2[k] == q[k] && q2[k + 1] == p);
            lemma_seq_below_flip(p.seq, q[k].seq);
        } else if k == pos {
            assert(q2[k] == p && q2[k + 1] == q[k]);
        } else {
            assert(q2[k] == q[k - 1] && q2[k + 1] == q[k]);
        }
    }
}

/// Delivering the same data packet a second time is a no-op on the receive
/// queue: the scan meets the copy inserted the first time.
pub proof fn lemma_data_redelivery_noop(q: Seq<UcpPacket>, p: UcpPacket)
    requires
        !scan_dup(q, p.seq),
    ensures
        scan_dup(q.insert(scan_pos(q, p.seq), p), p.seq),
{
    lemma_scan_pos_char(q, p.seq);
    let pos = scan_pos(q, p.seq);
    let q2 = q.insert(pos, p);
    assert forall|j: int| 0 <= j < pos implies seq_diff(p.seq, (#[trigger] q2[j]).seq) > 0 by {
        assert(q2[j] == q[j]);
    }
    lemma_seq_diff_self(p.seq);
    assert(q2[pos] == p);
    lemma_scan_pos_unique(q2, p.seq, pos);
    lemma_scan_pos_char(q2, p.seq);
}

/// A wrap-ordered queue holds no sequence twice: strict order is
/// irreflexive.
pub proof fn lemma_ordered_no_duplicates(q: Seq<UcpPacket>)
    requires
        pairwise_ascending(q),
    ensures
        seqs_of(q).no_duplicates(),
{
    assert forall|i: int, j: int|
        0 <= i < seqs_of(q).len() && 0 <= j < seqs_of(q).len() && i != j implies seqs_of(q)[i]
        != seqs_of(q)[j] by {
        if i < j {
            assert(seq_below(q[i].seq, q[j].seq));
            crate::seqnum::lemma_seq_diff_zero(q[i].seq, q[j].seq);
        } else {
            assert(seq_below(q[j].seq, q[i].seq));
            crate::seqnum::lemma_seq_diff_zero(q[j].seq, q[i].seq);
        }
    }
}

/// An acknowledged sequence is in the queue exactly when the scan finds it.
pub proof fn lemma_ack_found_is_contains(q: Seq<UcpPacket>, s: u32)
    ensures
        ack_found(q, s) <==> seqs_of(q).contains(s),
    decreases q.len(),
{
    if q.len() == 0 {
        assert(!seqs_of(q).contains(s));
    } else {
        lemma_ack_found_is_contains(q.drop_first(), s);
        assert(seqs_of(q.drop_first()) =~= seqs_of(q).drop_first());
        if q[0].seq == s {
            assert(seqs_of(q)[0] == s);
        } else {
            if seqs_of(q).contains(s) {
                let i = choose|i: int| 0 <= i < seqs_of(q).len() && seqs_of(q)[i] == s;
                assert(i > 0);
                assert(seqs_of(q).drop_first()[i - 1] == s);
            }
            if seqs_of(q).drop_first().contains(s) {
                let i = choose|i: int|
                    0 <= i < seqs_of(q).drop_first().len() && seqs_of(q).drop_first()[i] == s;
                assert(seqs_of(q)[i + 1] == s);
            }
        }
    }
}

/// One acknowledgement removes at most one packet, and an acknowledgement
/// of an absent sequence removes none: the queue keeps every sequence, in
/// order.
pub proof fn lemma_ack_removes_at_most_one(q: Seq<UcpPacket>, s: u32, ts: u32)
    ensures
        ack_scan(q, s, ts).len() >= q.len() - 1,
        !ack_found(q, s) ==> seqs_of(ack_scan(q, s, ts)) == seqs_of(q),
    decreases q.len(),
{
    if q.len() == 0 {
        assert(seqs_of(ack_scan(q, s, ts)) =~= seqs_of(q));
    } else if q[0].seq == s {
    } else {
        lemma_ack_removes_at_most_one(q.drop_first(), s, ts);
        if !ack_found(q, s) {
            let qd = q.drop_first();
            let r = ack_scan(q, s, ts);
            assert(r == seq![bump_skip(q[0], ts)] + ack_scan(qd, s, ts));
            assert(seqs_of(ack_scan(qd, s, ts)).len() == seqs_of(qd).len());
            assert(r.len() == q.len());
            assert forall|k: int| 0 <= k < q.len() implies seqs_of(r)[k] == seqs_of(q)[k] by {
                if k == 0 {
                    assert(r[0] == bump_skip(q[0], ts));
                } else {
                    assert(r[k] == ack_scan(qd, s, ts)[k - 1]);
                    assert(seqs_of(ack_scan(qd, s, ts))[k - 1] == seqs_of(qd)[k - 1]);
                    assert(seqs_of(qd)[k - 1] == qd[k - 1].seq);
                    assert(qd[k - 1] == q[k]);
                }
            }
            assert(seqs_of(r) =~= seqs_of(q));
        }
    }
}

/// Once a sequence has been removed from a duplicate-free queue, every
/// later acknowledgement of it is a no-op: the scan no longer finds it.
pub proof fn lemma_ack_second_time_noop(q: Seq<UcpPacket>, s: u32, ts: u32)
    requires
        seqs_of(q).no_duplicates(),
    ensures
        !ack_found(ack_scan(q, s, ts), s),
    decreases q.len(),
{
    if q.len() == 0 {
    } else if q[0].seq == s {
        lemma_ack_found_is_contains(q.drop_first(), s);
        if seqs_of(q.drop_first()).contains(s) {
            let i = choose|i: int|
                0 <= i < seqs_of(q.drop_first()).len() && seqs_of(q.drop_first())[i] == s;
            assert(seqs_of(q.drop_first()) =~= seqs_of(q).drop_first());
            assert(seqs_of(q)[i + 1] == s && seqs_of(q)[0] == s);
        }
    } else {
        assert(seqs_of(q.drop_first()) =~= seqs_of(q).drop_first());
        assert forall|i: int, j: int|
            0 <= i < j < seqs_of(q.drop_first()).len() implies seqs_of(q.drop_first())[i]
            != seqs_of(q.drop_first())[j] by {
            assert(seqs_of(q)[i + 1] == seqs_of(q.drop_first())[i]);
            assert(seqs_of(q)[j + 1] == seqs_of(q.drop_first())[j]);
        }
        lemma_ack_second_time_noop(q.drop_first(), s, ts);
        let r = ack_scan(q, s, ts);
        assert(r == seq![bump_skip(q[0], ts)] + ack_scan(q.drop_first(), s, ts));
        assert(r[0].seq == q[0].seq);
        assert(r.drop_first() =~= ack_scan(q.drop_first(), s, ts));
    }
}

/// Cumulative acknowledgement keeps the in-flight order: what remains is a
/// suffix of the queue.
pub proof fn lemma_drop_acked_keeps_order(q: Seq<UcpPacket>, una: u32)
    requires
        pairwise_ascending(q),
    ensures
        pairwise_ascending(drop_acked(q, una)),
    decreases q.len(),
{
    if q.len() > 0 && seq_below(q[0].seq, una) {
        let qd = q.drop_first();
        assert forall|i: int, j: int| 0 <= i < j < qd.len() implies seq_below(
            (#[trigger] qd[i]).seq,
            (#[trigger] qd[j]).seq,
        ) by {
            assert(qd[i] == q[i + 1] && qd[j] == q[j + 1]);
        }
        lemma_drop_acked_keeps_order(qd, una);
    }
}

/// While every pair of in-flight sequences is wrap-ordered — the in-flight
/// span far below 2^31, which the window keeps — a selective
/// acknowledgement keeps that order: it only removes one packet and bumps
/// skip counters.  Every remaining sequence was already in the queue.
pub proof fn lemma_ack_scan_keeps_order(q: Seq<UcpPacket>, s: u32, ts: u32)
    requires
        pairwise_ascending(q),
    ensures
        pairwise_ascending(ack_scan(q, s, ts)),
        forall|k: int|
            0 <= k < ack_scan(q, s, ts).len() ==> exists|j: int|
                0 <= j < q.len() && (#[trigger] ack_scan(q, s, ts)[k]).seq == q[j].seq && k <= j,
    decreases q.len(),
{
    let r = ack_scan(q, s, ts);
    if q.len() == 0 {
    } else if q[0].seq == s {
        let qd = q.drop_first();
        assert forall|k: int|
            0 <= k < r.len() implies exists|j: int|
            0 <= j < q.len() && (#[trigger] r[k]).seq == q[j].seq && k <= j by {
            assert(r[k] == q[k + 1]);
            assert(r[k].seq == q[k + 1].seq && k <= k + 1);
        }
        assert forall|i: int, j: int| 0 <= i < j < r.len() implies seq_below(
            (#[trigger] r[i]).seq,
            (#[trigger] r[j]).seq,
        ) by {
            assert(r[i] == q[i + 1] && r[j] == q[j + 1]);
        }
    } else {
        let qd = q.drop_first();
        assert forall|i: int, j: int| 0 <= i < j < qd.len() implies seq_below(
            (#[trigger] qd[i]).seq,
            (#[trigger] qd[j]).seq,
        ) by {
            assert(qd[i] == q[i + 1] && qd[j] == q[j + 1]);
        }
        lemma_ack_scan_keeps_order(qd, s, ts);
        let rd = ack_scan(qd, s, ts);
        assert(r == seq![bump_skip(q[0], ts)] + rd);
        assert forall|k: int|
            0 <= k < r.len() implies exists|j: int|
            0 <= j < q.len() && (#[trigger] r[k]).seq == q[j].seq && k <= j by {
            if k == 0 {
                assert(r[0].seq == q[0].seq && 0 <= 0);
            } else {
                assert(r[k] == rd[k - 1]);
                let j = choose|j: int| 0 <= j < qd.len() && rd[k - 1].seq == qd[j].seq && k - 1
                    <= j;
                assert(r[k].seq == q[j + 1].seq && k <= j + 1);
            }
        }
        assert forall|i: int, j: int| 0 <= i < j < r.len() implies seq_below(
            (#[trigger] r[i]).seq,
            (#[trigger] r[j]).seq,
        ) by {
            if i == 0 {
                assert(r[j] == rd[j - 1]);
                let jj = choose|jj: int| 0 <= jj < qd.len() && rd[j - 1].seq == qd[jj].seq && j - 1
                    <= jj;
                assert(qd[jj] == q[jj + 1]);
                assert(seq_below(q[0].seq, q[jj + 1].seq));
                assert(r[0].seq == q[0].seq);
            } else {
                assert(r[i] == rd[i - 1] && r[j] == rd[j - 1]);
            }
        }
    }
}

} // verus!
