//! The analysis of one SSH session: calibration from the key exchange,
//! fingerprints, endpoints, and the grouping of keystrokes into sequences.
use super::containers::{
    sent_by_server, text_of, AnalysisError, Keystroke, KeystrokeType, Packet, PacketInfo, SshLayer,
};
use super::scan::{
    find_successful_login, host_key_accept_from, login_events, obfuscated_keystrokes,
    scan_for_host_key_accepts, scan_for_keystrokes, scan_for_obfuscated_keystrokes, scan_from,
    scan_login_data, successful_login_from, Mark,
};
use super::utils::{
    chaff_capable, common_algorithm, create_size_matrix, find_common_algorithm, fingerprint,
    first_unprojectable, get_md5_hash, is_obfuscated, order_keystrokes,
    order_obfuscated_keystrokes, ordered, ordered_obfuscated, size_matrix,
};
use chrono::{TimeZone, Utc};
use vstd::prelude::*;
use vstd::slice::slice_subrange;
use vstd::string::*;

verus! {

/// Whether the latency between two capture times fits an `i64`.
pub open spec fn latency_fits(earlier: int, later: int) -> bool {
    i64::MIN <= later - earlier <= i64::MAX
}

/// Whether the latency of the keystroke at `i` to the one before it fits.
pub open spec fn pair_fits(s: Seq<Keystroke>, i: int) -> bool {
    latency_fits(s[i - 1].timestamp as int, s[i].timestamp as int)
}

/// Whether every latency within `s`, taken as one sequence, fits.
pub open spec fn sequence_fits(s: Seq<Keystroke>) -> bool {
    forall|i: int| 0 < i < s.len() ==> #[trigger] pair_fits(s, i)
}

/// A sequence with its capture times turned into latencies: 0 for the
/// first keystroke, and for each other one the time since the keystroke
/// before it. Nothing else changes.
pub open spec fn relative(s: Seq<Keystroke>) -> Seq<Keystroke> {
    Seq::new(s.len(), |i: int| latency_at(s, i))
}

/// The keystroke at `i` with its latency in place of its capture time.
pub open spec fn latency_at(s: Seq<Keystroke>, i: int) -> Keystroke {
    Keystroke {
        k_type: s[i].k_type,
        timestamp: if i == 0 {
            0i64
        } else {
            (s[i].timestamp - s[i - 1].timestamp) as i64
        },
        response_size: s[i].response_size,
        seq: s[i].seq,
    }
}

/// In a sequence turned relative the first latency is 0, every other one
/// is the difference of the two capture times, and kind, response size
/// and sequence number stay as they were.
pub proof fn lemma_relative_latencies(s: Seq<Keystroke>)
    requires
        sequence_fits(s),
    ensures
        relative(s).len() == s.len(),
        s.len() > 0 ==> relative(s)[0].timestamp == 0,
        forall|i: int|
            0 < i < s.len() ==> (#[trigger] relative(s)[i]).timestamp == s[i].timestamp - s[i
                - 1].timestamp,
        forall|i: int|
            0 <= i < s.len() ==> (#[trigger] relative(s)[i]).k_type == s[i].k_type && relative(
                s,
            )[i].response_size == s[i].response_size && relative(s)[i].seq == s[i].seq,
{
    assert forall|i: int| 0 < i < s.len() implies (#[trigger] relative(s)[i]).timestamp
        == s[i].timestamp - s[i - 1].timestamp by {
        assert(pair_fits(s, i));
    }
}

/// Turns the capture times of one sequence into latencies. The sequence
/// has to hold a keystroke, and its latencies have to fit.
pub fn make_relative(sequence: &mut Vec<Keystroke>)
    requires
        old(sequence)@.len() > 0,
        sequence_fits(old(sequence)@),
    ensures
        final(sequence)@ == relative(old(sequence)@),
{
    let ghost s = sequence@;
    let len = sequence.len();
    let mut prev_time: i64 = sequence[0].timestamp;
    let mut i: usize = 1;
    while i < len
        invariant
            1 <= i <= len,
            len == s.len(),
            sequence@.len() == len,
            sequence_fits(s),
            prev_time == s[i - 1].timestamp,
            forall|j: int| i <= j < len ==> #[trigger] sequence@[j] == s[j],
            sequence@[0] == s[0],
            forall|j: int| 1 <= j < i ==> #[trigger] sequence@[j] == latency_at(s, j),
        decreases len - i,
    {
        let current = sequence[i];
        assert(pair_fits(s, i as int));
        let latency: i64 = current.timestamp - prev_time;
        prev_time = current.timestamp;
        sequence.set(
            i,
            Keystroke {
                k_type: current.k_type,
                timestamp: latency,
                response_size: current.response_size,
                seq: current.seq,
            },
        );
        i += 1;
    }
    let first = sequence[0];
    sequence.set(
        0,
        Keystroke {
            k_type: first.k_type,
            timestamp: 0,
            response_size: first.response_size,
            seq: first.seq,
        },
    );
    assert(sequence@ =~= relative(s));
}

/// Where the sequence that starts at `start` ends: behind the first
/// Enter at or after `start`, or at the end of the list.
pub open spec fn sequence_end(s: Seq<Keystroke>, start: int) -> int
    decreases s.len() - start,
{
    if start >= s.len() {
        s.len() as int
    } else if s[start].k_type == KeystrokeType::Enter {
        start + 1
    } else {
        sequence_end(s, start + 1)
    }
}

/// A sequence ends behind its start, within the list, and holds no Enter
/// before its last keystroke; unless it is cut off by the end of the
/// list, its last keystroke is an Enter.
pub proof fn lemma_sequence_end(s: Seq<Keystroke>, start: int)
    requires
        0 <= start < s.len(),
    ensures
        start < sequence_end(s, start) <= s.len(),
        forall|i: int|
            start <= i < sequence_end(s, start) - 1 ==> (#[trigger] s[i]).k_type
                != KeystrokeType::Enter,
        sequence_end(s, start) < s.len() ==> s[sequence_end(s, start) - 1].k_type
            == KeystrokeType::Enter,
        s[sequence_end(s, start) - 1].k_type != KeystrokeType::Enter ==> sequence_end(s, start)
            == s.len(),
    decreases s.len() - start,
{
    if s[start].k_type != KeystrokeType::Enter {
        if start + 1 < s.len() {
            lemma_sequence_end(s, start + 1);
        } else {
            assert(sequence_end(s, start + 1) == s.len());
        }
    }
}

/// The keystrokes from `start` on, cut into sequences: each ends with an
/// Enter, but for the last one where the list ends without.
pub open spec fn sequences_from(s: Seq<Keystroke>, start: int) -> Seq<Seq<Keystroke>>
    decreases s.len() - start,
{
    if start < 0 || start >= s.len() {
        Seq::empty()
    } else {
        let end = sequence_end(s, start);
        proof {
            lemma_sequence_end(s, start);
        }
        seq![s.subrange(start, end)] + sequences_from(s, end)
    }
}

/// The sequences of `sequences_from`, each turned relative.
pub open spec fn grouped_from(s: Seq<Keystroke>, start: int) -> Seq<Seq<Keystroke>>
    decreases s.len() - start,
{
    if start < 0 || start >= s.len() {
        Seq::empty()
    } else {
        let end = sequence_end(s, start);
        proof {
            lemma_sequence_end(s, start);
        }
        seq![relative(s.subrange(start, end))] + grouped_from(s, end)
    }
}

/// The keystroke sequences of a session: the flat list cut behind each
/// Enter, with latencies in place of capture times.
pub open spec fn grouped(s: Seq<Keystroke>) -> Seq<Seq<Keystroke>> {
    grouped_from(s, 0)
}

/// Sequences put one behind the other.
pub open spec fn concat(groups: Seq<Seq<Keystroke>>) -> Seq<Keystroke>
    decreases groups.len(),
{
    if groups.len() == 0 {
        Seq::empty()
    } else {
        groups[0] + concat(groups.drop_first())
    }
}

/// Whether the latencies within every sequence of `s` fit: two
/// neighbours with no Enter between them are never too far apart.
pub open spec fn latencies_fit(s: Seq<Keystroke>) -> bool {
    forall|i: int|
        0 < i < s.len() && s[i - 1].k_type != KeystrokeType::Enter ==> #[trigger] pair_fits(s, i)
}

/// The sequences are a partition of the flat list: put one behind the
/// other they give back the list from `start` on.
pub proof fn lemma_sequences_partition(s: Seq<Keystroke>, start: int)
    requires
        0 <= start <= s.len(),
    ensures
        concat(sequences_from(s, start)) == s.skip(start),
    decreases s.len() - start,
{
    if start < s.len() {
        let end = sequence_end(s, start);
        lemma_sequence_end(s, start);
        lemma_sequences_partition(s, end);
        let groups = sequences_from(s, start);
        assert(groups.drop_first() == sequences_from(s, end));
        assert(groups[0] == s.subrange(start, end));
        assert(s.subrange(start, end) + s.skip(end) == s.skip(start));
    } else {
        assert(s.skip(start) == Seq::<Keystroke>::empty());
    }
}

/// No sequence is empty; within a sequence only the last keystroke may
/// be an Enter; and every sequence but the last ends with an Enter.
pub proof fn lemma_sequences_shape(s: Seq<Keystroke>, start: int)
    requires
        0 <= start <= s.len(),
    ensures
        forall|a: int|
            0 <= a < sequences_from(s, start).len() ==> (#[trigger] sequences_from(
                s,
                start,
            )[a]).len() > 0,
        forall|a: int, j: int|
            0 <= a < sequences_from(s, start).len() && 0 <= j < sequences_from(s, start)[a].len()
                - 1 ==> (#[trigger] sequences_from(s, start)[a][j]).k_type
                != KeystrokeType::Enter,
        forall|a: int|
            0 <= a < sequences_from(s, start).len() - 1 ==> (#[trigger] sequences_from(
                s,
                start,
            )[a]).last().k_type == KeystrokeType::Enter,
    decreases s.len() - start,
{
    if start < s.len() {
        let end = sequence_end(s, start);
        lemma_sequence_end(s, start);
        lemma_sequences_shape(s, end);
        let groups = sequences_from(s, start);
        let rest = sequences_from(s, end);
        assert(groups == seq![s.subrange(start, end)] + rest);
        assert forall|a: int| 0 <= a < groups.len() implies (#[trigger] groups[a]).len() > 0 by {
            if a > 0 {
                assert(groups[a] == rest[a - 1]);
            }
        }
        assert forall|a: int, j: int|
            0 <= a < groups.len() && 0 <= j < groups[a].len() - 1 implies (#[trigger] groups[a][j]).k_type
            != KeystrokeType::Enter by {
            if a > 0 {
                assert(groups[a] == rest[a - 1]);
                assert(rest[a - 1][j].k_type != KeystrokeType::Enter);
            } else {
                assert(groups[0][j] == s[start + j]);
            }
        }
        assert forall|a: int| 0 <= a < groups.len() - 1 implies (#[trigger] groups[a]).last().k_type
            == KeystrokeType::Enter by {
            if a > 0 {
                assert(groups[a] == rest[a - 1]);
            } else {
                assert(rest.len() > 0);
                assert(end < s.len());
                assert(groups[0].last() == s[end - 1]);
            }
        }
    }
}

/// The grouped sequences are the sequences of `sequences_from`, one for
/// one, each turned relative.
pub proof fn lemma_grouped_relative(s: Seq<Keystroke>, start: int)
    requires
        0 <= start <= s.len(),
    ensures
        grouped_from(s, start).len() == sequences_from(s, start).len(),
        forall|a: int|
            0 <= a < grouped_from(s, start).len() ==> #[trigger] grouped_from(s, start)[a]
                == relative(sequences_from(s, start)[a]),
    decreases s.len() - start,
{
    if start < s.len() {
        let end = sequence_end(s, start);
        lemma_sequence_end(s, start);
        lemma_grouped_relative(s, end);
        let g = grouped_from(s, start);
        let q = sequences_from(s, start);
        assert forall|a: int| 0 <= a < g.len() implies #[trigger] g[a] == relative(q[a]) by {
            if a > 0 {
                assert(g[a] == grouped_from(s, end)[a - 1]);
                assert(q[a] == sequences_from(s, end)[a - 1]);
            }
        }
    }
}

/// The views of the sequences.
pub open spec fn views(groups: Seq<Vec<Keystroke>>) -> Seq<Seq<Keystroke>> {
    Seq::new(groups.len(), |i: int| groups[i]@)
}

/// Within one sequence of a list whose latencies fit, every latency fits.
pub proof fn lemma_sequence_fits(s: Seq<Keystroke>, start: int)
    requires
        0 <= start < s.len(),
        latencies_fit(s),
    ensures
        sequence_fits(s.subrange(start, sequence_end(s, start))),
{
    lemma_sequence_end(s, start);
    let end = sequence_end(s, start);
    let q = s.subrange(start, end);
    assert forall|i: int| 0 < i < q.len() implies #[trigger] pair_fits(q, i) by {
        assert(q[i - 1] == s[start + i - 1]);
        assert(q[i] == s[start + i]);
        assert(s[start + i - 1].k_type != KeystrokeType::Enter);
        assert(pair_fits(s, start + i));
    }
}

/// The views of a list of sequences with one more pushed.
pub proof fn lemma_views_push(groups: Seq<Vec<Keystroke>>, last: Vec<Keystroke>)
    ensures
        views(groups.push(last)) == views(groups).push(last@),
{
    assert(views(groups.push(last)) =~= views(groups).push(last@));
}

/// The grouping from `start` on is the first sequence, turned relative,
/// followed by the grouping from its end on.
pub proof fn lemma_grouped_step(s: Seq<Keystroke>, start: int)
    requires
        0 <= start < s.len(),
    ensures
        grouped_from(s, start) == seq![
            relative(s.subrange(start, sequence_end(s, start))),
        ] + grouped_from(s, sequence_end(s, start)),
{
}

/// The sequence that starts at `start`, and where it ends.
fn take_sequence(keystrokes: &Vec<Keystroke>, start: usize) -> (taken: (Vec<Keystroke>, usize))
    requires
        start < keystrokes@.len(),
    ensures
        taken.1 == sequence_end(keystrokes@, start as int),
        start < taken.1 <= keystrokes@.len(),
        taken.0@ == keystrokes@.subrange(start as int, taken.1 as int),
{
    let ghost s = keystrokes@;
    let len = keystrokes.len();
    let mut tmp_vec: Vec<Keystroke> = Vec::new();
    let mut itr: usize = start;
    proof {
        lemma_sequence_end(s, start as int);
    }
    while itr < len
        invariant
            len == s.len(),
            s == keystrokes@,
            start <= itr <= len,
            tmp_vec@ == s.subrange(start as int, itr as int),
            sequence_end(s, itr as int) == sequence_end(s, start as int),
        decreases len - itr,
    {
        let curr = keystrokes[itr];
        tmp_vec.push(curr);
        itr += 1;
        if curr.k_type == KeystrokeType::Enter {
            return (tmp_vec, itr);
        }
    }
    (tmp_vec, itr)
}

/// Groups the keystrokes into sequences and turns their capture times
/// into latencies. A sequence runs from its first keystroke to the Enter
/// that ends it; the last sequence may end without one. The latencies
/// within each sequence have to fit.
pub fn process_keystrokes(keystrokes: Vec<Keystroke>) -> (out: Vec<Vec<Keystroke>>)
    requires
        latencies_fit(keystrokes@),
    ensures
        views(out@) == grouped(keystrokes@),
        same_keys(concat(views(out@)), keystrokes@),
        concat(sequences(keystrokes@)) == keystrokes@,
        out@.len() == sequences(keystrokes@).len(),
        out@.len() == sequence_count(keystrokes@),
        forall|a: int| 0 <= a < out@.len() ==> (#[trigger] out@[a])@.len() > 0,
        forall|a: int, j: int|
            0 <= a < out@.len() && 0 <= j < out@[a]@.len() - 1 ==> (#[trigger] out@[a]@[j]).k_type
                != KeystrokeType::Enter,
        forall|a: int|
            0 <= a < out@.len() - 1 ==> (#[trigger] out@[a])@.last().k_type
                == KeystrokeType::Enter,
        forall|a: int| 0 <= a < out@.len() ==> (#[trigger] out@[a])@[0].timestamp == 0,
        forall|a: int, i: int|
            0 <= a < out@.len() && 0 < i < out@[a]@.len() ==> (#[trigger] out@[a]@[i]).timestamp
                == sequences(keystrokes@)[a][i].timestamp - sequences(keystrokes@)[a][i
                - 1].timestamp,
{
    let ghost s = keystrokes@;
    proof {
        lemma_grouping_partitions(s);
        lemma_latencies_are_relative(s);
        lemma_sequence_count(s, 0);
        assert(s.skip(0) == s);
    }
    let len = keystrokes.len();
    let mut out: Vec<Vec<Keystroke>> = Vec::new();
    let mut itr: usize = 0;
    while itr < len
        invariant
            len == s.len(),
            s == keystrokes@,
            itr <= len,
            latencies_fit(s),
            views(out@) + grouped_from(s, itr as int) == grouped(s),
        decreases len - itr,
    {
        let ghost start = itr;
        let ghost before = out@;
        let (mut tmp_vec, end) = take_sequence(&keystrokes, itr);
        proof {
            lemma_sequence_fits(s, start as int);
        }
        make_relative(&mut tmp_vec);
        out.push(tmp_vec);
        itr = end;
        proof {
            lemma_views_push(before, tmp_vec);
            lemma_grouped_step(s, start as int);
        }
    }
    assert(grouped_from(s, len as int) == Seq::<Seq<Keystroke>>::empty());
    proof {
        let g = grouped(s);
        assert(views(out@) == g);
        assert forall|a: int| 0 <= a < out@.len() implies (#[trigger] out@[a])@ == g[a] by {
            assert(views(out@)[a] == out@[a]@);
        }
    }
    out
}

/// Whether the latencies within every sequence fit.
pub fn check_latencies(keystrokes: &Vec<Keystroke>) -> (fit: bool)
    ensures
        fit == latencies_fit(keystrokes@),
{
    let len = keystrokes.len();
    let mut i: usize = 1;
    while i < len
        invariant
            1 <= i,
            len == keystrokes@.len(),
            forall|j: int|
                0 < j < i && j < len && keystrokes@[j - 1].k_type != KeystrokeType::Enter
                    ==> #[trigger] pair_fits(keystrokes@, j),
        decreases len - i,
    {
        if keystrokes[i - 1].k_type != KeystrokeType::Enter {
            let earlier: i128 = keystrokes[i - 1].timestamp as i128;
            let later: i128 = keystrokes[i].timestamp as i128;
            let distance: i128 = later - earlier;
            if distance < -0x8000_0000_0000_0000 || distance > 0x7fff_ffff_ffff_ffff {
                assert(!pair_fits(keystrokes@, i as int));
                return false;
            }
            assert(pair_fits(keystrokes@, i as int));
        }
        i += 1;
    }
    true
}

/// Whether two lists of keystrokes agree in everything but the times.
pub open spec fn same_keys(a: Seq<Keystroke>, b: Seq<Keystroke>) -> bool {
    &&& a.len() == b.len()
    &&& forall|i: int|
        0 <= i < a.len() ==> (#[trigger] a[i]).k_type == b[i].k_type && a[i].response_size
            == b[i].response_size && a[i].seq == b[i].seq
}

/// The grouped sequences, put one behind the other, give back the flat
/// list in its order, with latencies in place of the capture times.
pub proof fn lemma_grouped_partition(s: Seq<Keystroke>, start: int)
    requires
        0 <= start <= s.len(),
    ensures
        same_keys(concat(grouped_from(s, start)), s.skip(start)),
    decreases s.len() - start,
{
    if start < s.len() {
        let end = sequence_end(s, start);
        lemma_sequence_end(s, start);
        lemma_grouped_partition(s, end);
        let groups = grouped_from(s, start);
        let head = relative(s.subrange(start, end));
        let tail = concat(grouped_from(s, end));
        assert(groups[0] == head);
        assert(groups.drop_first() == grouped_from(s, end));
        assert(concat(groups) == head + tail);
        let flat = concat(groups);
        let rest = s.skip(start);
        assert forall|i: int| 0 <= i < flat.len() implies (#[trigger] flat[i]).k_type
            == rest[i].k_type && flat[i].response_size == rest[i].response_size && flat[i].seq
            == rest[i].seq by {
            if i < head.len() {
                assert(flat[i] == head[i]);
            } else {
                assert(flat[i] == tail[i - head.len()]);
                assert(s.skip(end)[i - head.len()] == rest[i]);
            }
        }
    }
}

/// The keystrokes as they were found, cut into sequences.
pub open spec fn sequences(s: Seq<Keystroke>) -> Seq<Seq<Keystroke>> {
    sequences_from(s, 0)
}

/// Grouping is a partition. The sequences, put one behind the other,
/// are the flat list, and the grouped sequences are the same keystrokes
/// in the same order, but for the times. No sequence is empty; within a
/// sequence no keystroke before the last is an Enter; and every sequence
/// but the last ends with an Enter.
pub proof fn lemma_grouping_partitions(s: Seq<Keystroke>)
    ensures
        concat(sequences(s)) == s,
        same_keys(concat(grouped(s)), s),
        grouped(s).len() == sequences(s).len(),
        forall|a: int| 0 <= a < grouped(s).len() ==> (#[trigger] grouped(s)[a]).len() > 0,
        forall|a: int, j: int|
            0 <= a < grouped(s).len() && 0 <= j < grouped(s)[a].len() - 1 ==> (#[trigger] grouped(
                s,
            )[a][j]).k_type != KeystrokeType::Enter,
        forall|a: int|
            0 <= a < grouped(s).len() - 1 ==> (#[trigger] grouped(s)[a]).last().k_type
                == KeystrokeType::Enter,
{
    lemma_sequences_partition(s, 0);
    assert(s.skip(0) == s);
    lemma_grouped_partition(s, 0);
    lemma_sequences_shape(s, 0);
    lemma_grouped_relative(s, 0);
    let g = grouped(s);
    let q = sequences(s);
    assert forall|a: int| 0 <= a < g.len() implies (#[trigger] g[a]).len() > 0 by {
        assert(g[a] == relative(q[a]));
        assert(q[a].len() > 0);
    }
    assert forall|a: int, j: int| 0 <= a < g.len() && 0 <= j < g[a].len() - 1 implies (#[trigger] g[a][j]).k_type
        != KeystrokeType::Enter by {
        assert(g[a] == relative(q[a]));
        assert(q[a][j].k_type != KeystrokeType::Enter);
    }
    assert forall|a: int| 0 <= a < g.len() - 1 implies (#[trigger] g[a]).last().k_type
        == KeystrokeType::Enter by {
        assert(g[a] == relative(q[a]));
        assert(q[a].len() > 0);
        assert(q[a].last().k_type == KeystrokeType::Enter);
    }
}

/// The number of Enters in a list of keystrokes.
pub open spec fn enters(s: Seq<Keystroke>) -> nat
    decreases s.len(),
{
    if s.len() == 0 {
        0
    } else if s.last().k_type == KeystrokeType::Enter {
        enters(s.drop_last()) + 1
    } else {
        enters(s.drop_last())
    }
}

/// The number of sequences that a list of keystrokes falls into: one for
/// each Enter, and one more where keystrokes follow the last Enter.
pub open spec fn sequence_count(s: Seq<Keystroke>) -> nat {
    if s.len() > 0 && s.last().k_type != KeystrokeType::Enter {
        enters(s) + 1
    } else {
        enters(s)
    }
}

/// The Enters of two lists put together are those of the one and those
/// of the other.
pub proof fn lemma_enters_add(a: Seq<Keystroke>, b: Seq<Keystroke>)
    ensures
        enters(a + b) == enters(a) + enters(b),
    decreases b.len(),
{
    if b.len() == 0 {
        assert(a + b == a);
    } else {
        assert((a + b).drop_last() == a + b.drop_last());
        assert((a + b).last() == b.last());
        lemma_enters_add(a, b.drop_last());
    }
}

/// A list with no Enter before its last keystroke holds one Enter or
/// none.
pub proof fn lemma_enters_of_sequence(q: Seq<Keystroke>)
    requires
        forall|i: int| 0 <= i < q.len() - 1 ==> (#[trigger] q[i]).k_type != KeystrokeType::Enter,
    ensures
        enters(q) == (if q.len() > 0 && q.last().k_type == KeystrokeType::Enter {
            1nat
        } else {
            0nat
        }),
    decreases q.len(),
{
    if q.len() > 0 {
        lemma_no_enters(q.drop_last());
    }
}

/// A list without Enter holds none.
pub proof fn lemma_no_enters(q: Seq<Keystroke>)
    requires
        forall|i: int| 0 <= i < q.len() ==> (#[trigger] q[i]).k_type != KeystrokeType::Enter,
    ensures
        enters(q) == 0,
    decreases q.len(),
{
    if q.len() > 0 {
        lemma_no_enters(q.drop_last());
    }
}

/// There are as many sequences as Enters, and one more where keystrokes
/// follow the last Enter.
pub proof fn lemma_sequence_count(s: Seq<Keystroke>, start: int)
    requires
        0 <= start <= s.len(),
    ensures
        sequences_from(s, start).len() == sequence_count(s.skip(start)),
        grouped_from(s, start).len() == sequence_count(s.skip(start)),
    decreases s.len() - start,
{
    lemma_grouped_relative(s, start);
    if start < s.len() {
        let end = sequence_end(s, start);
        lemma_sequence_end(s, start);
        lemma_sequence_count(s, end);
        let q = s.subrange(start, end);
        let rest = s.skip(end);
        assert(s.skip(start) == q + rest);
        lemma_enters_add(q, rest);
        assert forall|i: int| 0 <= i < q.len() - 1 implies (#[trigger] q[i]).k_type
            != KeystrokeType::Enter by {
            assert(q[i] == s[start + i]);
        }
        lemma_enters_of_sequence(q);
        assert(q.last() == s[end - 1]);
        if rest.len() > 0 {
            assert((q + rest).last() == rest.last());
        } else {
            assert((q + rest).last() == q.last());
        }
    } else {
        assert(s.skip(start) == Seq::<Keystroke>::empty());
    }
}

/// Within every sequence of a list whose latencies fit, every latency
/// fits.
pub proof fn lemma_every_sequence_fits(s: Seq<Keystroke>, start: int)
    requires
        0 <= start <= s.len(),
        latencies_fit(s),
    ensures
        forall|a: int|
            0 <= a < sequences_from(s, start).len() ==> sequence_fits(
                #[trigger] sequences_from(s, start)[a],
            ),
    decreases s.len() - start,
{
    if start < s.len() {
        let end = sequence_end(s, start);
        lemma_sequence_end(s, start);
        lemma_sequence_fits(s, start);
        lemma_every_sequence_fits(s, end);
        let q = sequences_from(s, start);
        assert forall|a: int| 0 <= a < q.len() implies sequence_fits(#[trigger] q[a]) by {
            if a > 0 {
                assert(q[a] == sequences_from(s, end)[a - 1]);
            }
        }
    }
}

/// Latencies are relative. In every grouped sequence the first latency
/// is 0, and every other one is the capture time of the keystroke less
/// the capture time of the keystroke before it in the same sequence.
pub proof fn lemma_latencies_are_relative(s: Seq<Keystroke>)
    requires
        latencies_fit(s),
    ensures
        grouped(s).len() == sequences(s).len(),
        forall|a: int|
            0 <= a < grouped(s).len() ==> (#[trigger] grouped(s)[a]).len() == sequences(s)[a].len()
                && grouped(s)[a].len() > 0 && grouped(s)[a][0].timestamp == 0,
        forall|a: int, i: int|
            0 <= a < grouped(s).len() && 0 < i < grouped(s)[a].len() ==> (#[trigger] grouped(
                s,
            )[a][i]).timestamp == sequences(s)[a][i].timestamp - sequences(s)[a][i - 1].timestamp,
{
    lemma_sequences_shape(s, 0);
    lemma_grouped_relative(s, 0);
    lemma_every_sequence_fits(s, 0);
    let g = grouped(s);
    let q = sequences(s);
    assert forall|a: int| 0 <= a < g.len() implies (#[trigger] g[a]).len() == q[a].len()
        && g[a].len() > 0 && g[a][0].timestamp == 0 by {
        assert(g[a] == relative(q[a]));
        assert(q[a].len() > 0);
    }
    assert forall|a: int, i: int| 0 <= a < g.len() && 0 < i < g[a].len() implies (#[trigger] g[a][i]).timestamp
        == q[a][i].timestamp - q[a][i - 1].timestamp by {
        assert(g[a] == relative(q[a]));
        assert(sequence_fits(q[a]));
        assert(pair_fits(q[a], i));
    }
}

/// The position of the New Keys message (code 21) that the client sent,
/// among the first 50 packets, from `i` on. A packet without SSH layer
/// met on the way stops the search, and so does a New Keys message
/// without TCP layer, whose sender cannot be told.
pub open spec fn new_keys_from(packets: Seq<Packet>, i: int) -> Result<int, AnalysisError>
    decreases packets.len() - i,
{
    if i < 0 || i >= packets.len() || i >= 50 {
        Err(AnalysisError::NewKeysNotFound)
    } else if packets[i].ssh is None {
        Err(AnalysisError::SshLayerNotFound)
    } else if packets[i].ssh->0.message_code != Some(21u32) {
        new_keys_from(packets, i + 1)
    } else if packets[i].tcp is None {
        Err(AnalysisError::TcpLayerNotFound)
    } else if sent_by_server(packets[i].tcp->0) {
        new_keys_from(packets, i + 1)
    } else {
        Ok(i)
    }
}

/// What is wrong with the four packets behind the one at `i`, looking
/// from the `j`th on: the first that is missing or has no TCP layer.
pub open spec fn window_error(packets: Seq<Packet>, i: int, j: int) -> Option<AnalysisError>
    decreases 5 - j,
{
    if j < 1 || j > 4 {
        None
    } else if i + j >= packets.len() {
        Some(AnalysisError::NotEnoughPackets)
    } else if packets[i + j].tcp is None {
        Some(AnalysisError::TcpLayerNotFound)
    } else {
        window_error(packets, i, j + 1)
    }
}

/// Without a window error all four packets are there, with TCP layers.
pub proof fn lemma_window_complete(packets: Seq<Packet>, i: int, j: int)
    requires
        0 <= i,
        1 <= j <= 5,
        window_error(packets, i, j) is None,
    ensures
        forall|o: int| j <= o <= 4 ==> i + o < packets.len() && (#[trigger] packets[i + o]).tcp is Some,
    decreases 5 - j,
{
    if j <= 4 {
        lemma_window_complete(packets, i, j + 1);
    }
}

/// The payload length of the packet at `i`, which has a TCP layer.
pub open spec fn payload(packets: Seq<Packet>, i: int) -> int {
    packets[i].tcp->0.len as int
}

/// The position of the New Keys message that the calibration rests on,
/// or why the calibration fails. The four packets behind it have to be
/// there, with TCP layers; the first two of them have to be of equal
/// length; and the New Keys message, the packet behind it and the fourth
/// behind it have to be projectable.
pub open spec fn meta_size(packets: Seq<Packet>) -> Result<int, AnalysisError> {
    match new_keys_from(packets, 0) {
        Err(e) => Err(e),
        Ok(i) => match window_error(packets, i, 1) {
            Some(e) => Err(e),
            None => if payload(packets, i + 1) != payload(packets, i + 2) {
                Err(AnalysisError::NewKeysSizeMismatch)
            } else if !PacketInfo::projectable(packets[i]) {
                Err(PacketInfo::projection_error(packets[i]))
            } else if !PacketInfo::projectable(packets[i + 1]) {
                Err(PacketInfo::projection_error(packets[i + 1]))
            } else if !PacketInfo::projectable(packets[i + 4]) {
                Err(PacketInfo::projection_error(packets[i + 4]))
            } else {
                Ok(i)
            },
        },
    }
}

/// Where the calibration succeeds, the New Keys message lies among the
/// first 50 packets, four packets follow it, and the two right behind it
/// have equal payload length.
pub proof fn lemma_meta_size_invariant(packets: Seq<Packet>)
    requires
        meta_size(packets) is Ok,
    ensures
        0 <= meta_size(packets)->Ok_0 < 50,
        meta_size(packets)->Ok_0 + 4 < packets.len(),
        packets[meta_size(packets)->Ok_0].ssh is Some,
        packets[meta_size(packets)->Ok_0].ssh->0.message_code == Some(21u32),
        packets[meta_size(packets)->Ok_0].tcp is Some,
        !sent_by_server(packets[meta_size(packets)->Ok_0].tcp->0),
        packets[meta_size(packets)->Ok_0 + 1].tcp is Some,
        packets[meta_size(packets)->Ok_0 + 2].tcp is Some,
        payload(packets, meta_size(packets)->Ok_0 + 1) == payload(
            packets,
            meta_size(packets)->Ok_0 + 2,
        ),
{
    lemma_new_keys_found(packets, 0);
    let i = new_keys_from(packets, 0)->Ok_0;
    lemma_window_complete(packets, i, 1);
    assert(packets[i + 1].tcp is Some);
    assert(packets[i + 2].tcp is Some);
    assert(packets[i + 4].tcp is Some);
}

/// A New Keys message that is found lies at or after the start of the
/// search, among the first 50 packets, and carries code 21.
pub proof fn lemma_new_keys_found(packets: Seq<Packet>, i: int)
    requires
        new_keys_from(packets, i) is Ok,
    ensures
        i <= new_keys_from(packets, i)->Ok_0 < packets.len(),
        new_keys_from(packets, i)->Ok_0 < 50,
        packets[new_keys_from(packets, i)->Ok_0].ssh is Some,
        packets[new_keys_from(packets, i)->Ok_0].ssh->0.message_code == Some(21u32),
        packets[new_keys_from(packets, i)->Ok_0].tcp is Some,
        !sent_by_server(packets[new_keys_from(packets, i)->Ok_0].tcp->0),
    decreases packets.len() - i,
{
    if packets[i].ssh->0.message_code != Some(21u32) || sent_by_server(packets[i].tcp->0) {
        lemma_new_keys_found(packets, i + 1);
    }
}

/// Looks for the New Keys message among the first 50 packets.
fn find_new_keys(packets: &[Packet]) -> (result: Result<usize, AnalysisError>)
    ensures
        match new_keys_from(packets@, 0) {
            Ok(i) => result is Ok && result->Ok_0 == i && 0 <= i < packets@.len(),
            Err(e) => result == Err::<usize, AnalysisError>(e),
        },
{
    let mut i: usize = 0;
    while i < packets.len() && i < 50
        invariant
            new_keys_from(packets@, i as int) == new_keys_from(packets@, 0),
        decreases packets@.len() - i,
    {
        match &packets[i].ssh {
            None => {
                return Err(AnalysisError::SshLayerNotFound);
            },
            Some(ssh) => {
                let is_new_keys = match ssh.message_code {
                    Some(code) => code == 21,
                    None => false,
                };
                if is_new_keys {
                    match &packets[i].tcp {
                        None => {
                            return Err(AnalysisError::TcpLayerNotFound);
                        },
                        Some(tcp) => {
                            if !(tcp.dstport > tcp.srcport) {
                                return Ok(i);
                            }
                        },
                    }
                }
            },
        }
        i += 1;
    }
    Err(AnalysisError::NewKeysNotFound)
}

/// The packet at `at` is there, with a TCP layer and a payload of `size`
/// bytes.
pub open spec fn has_payload(packets: Seq<Packet>, at: int, size: u32) -> bool {
    0 <= at < packets.len() && packets[at].tcp is Some && packets[at].tcp->0.len == size
}

/// The payload length of the packet at `at`.
fn payload_at(packets: &[Packet], at: usize) -> (result: Result<u32, AnalysisError>)
    ensures
        match result {
            Ok(size) => has_payload(packets@, at as int, size),
            Err(e) => e == (if at >= packets@.len() {
                AnalysisError::NotEnoughPackets
            } else {
                AnalysisError::TcpLayerNotFound
            }) && (at >= packets@.len() || packets@[at as int].tcp is None),
        },
{
    if at >= packets.len() {
        return Err(AnalysisError::NotEnoughPackets);
    }
    match &packets[at].tcp {
        None => Err(AnalysisError::TcpLayerNotFound),
        Some(tcp) => Ok(tcp.len),
    }
}

/// The payload lengths of the four packets behind the one at `i`.
fn window_sizes(packets: &[Packet], i: usize) -> (result: Result<[u32; 4], AnalysisError>)
    requires
        i < packets@.len(),
    ensures
        match window_error(packets@, i as int, 1) {
            Some(e) => result == Err::<[u32; 4], AnalysisError>(e),
            None => {
                &&& result is Ok
                &&& i + 4 < packets@.len()
                &&& has_payload(packets@, i + 1, result->Ok_0@[0])
                &&& has_payload(packets@, i + 2, result->Ok_0@[1])
                &&& has_payload(packets@, i + 3, result->Ok_0@[2])
                &&& has_payload(packets@, i + 4, result->Ok_0@[3])
            },
        },
{
    let len = packets.len();
    proof {
        reveal_with_fuel(window_error, 5);
    }
    if len - i <= 1 {
        return Err(AnalysisError::NotEnoughPackets);
    }
    let first = match payload_at(packets, i + 1) {
        Ok(size) => size,
        Err(e) => {
            return Err(e);
        },
    };
    if len - i <= 2 {
        return Err(AnalysisError::NotEnoughPackets);
    }
    let second = match payload_at(packets, i + 2) {
        Ok(size) => size,
        Err(e) => {
            return Err(e);
        },
    };
    if len - i <= 3 {
        return Err(AnalysisError::NotEnoughPackets);
    }
    let third = match payload_at(packets, i + 3) {
        Ok(size) => size,
        Err(e) => {
            return Err(e);
        },
    };
    if len - i <= 4 {
        return Err(AnalysisError::NotEnoughPackets);
    }
    let fourth = match payload_at(packets, i + 4) {
        Ok(size) => size,
        Err(e) => {
            return Err(e);
        },
    };
    Ok([first, second, third, fourth])
}

/// Finds the three packets that the calibration rests on: the client's
/// New Keys message (code 21) among the first 50 packets, the packet behind it,
/// whose length less 8 is the size of a keystroke, and the fourth
/// behind it, the first login prompt. The two packets behind New Keys
/// have to be of equal length. See `meta_size`.
pub fn find_meta_size(packets: &[Packet]) -> (result: Result<[PacketInfo; 3], AnalysisError>)
    ensures
        match meta_size(packets@) {
            Ok(i) => {
                &&& result is Ok
                &&& 0 <= i && i + 4 < packets@.len()
                &&& result->Ok_0@[0].projects(packets@[i], i as usize)
                &&& result->Ok_0@[0].label() == Some("New Keys (21)"@)
                &&& result->Ok_0@[1].projects(packets@[i + 1], (i + 1) as usize)
                &&& result->Ok_0@[1].label() == Some("Keystroke Size Indicator"@)
                &&& result->Ok_0@[2].projects(packets@[i + 4], (i + 4) as usize)
                &&& result->Ok_0@[2].label() == Some("First login prompt"@)
            },
            Err(e) => result == Err::<[PacketInfo; 3], AnalysisError>(e),
        },
{
    let i = match find_new_keys(packets) {
        Ok(i) => i,
        Err(e) => {
            return Err(e);
        },
    };
    assert(new_keys_from(packets@, 0) == Ok::<int, AnalysisError>(i as int));
    let sizes = match window_sizes(packets, i) {
        Ok(sizes) => sizes,
        Err(e) => {
            return Err(e);
        },
    };
    if sizes[0] != sizes[1] {
        return Err(AnalysisError::NewKeysSizeMismatch);
    }
    let new_keys = match PacketInfo::new(&packets[i], i, Some(String::from_str("New Keys (21)"))) {
        Ok(info) => info,
        Err(e) => {
            return Err(e);
        },
    };
    let indicator = match PacketInfo::new(
        &packets[i + 1],
        i + 1,
        Some(String::from_str("Keystroke Size Indicator")),
    ) {
        Ok(info) => info,
        Err(e) => {
            return Err(e);
        },
    };
    let prompt = match PacketInfo::new(
        &packets[i + 4],
        i + 4,
        Some(String::from_str("First login prompt")),
    ) {
        Ok(info) => info,
        Err(e) => {
            return Err(e);
        },
    };
    Ok([new_keys, indicator, prompt])
}

/// The payload length of the packet at `at`, if it is there, has a TCP
/// layer and came from the client.
pub open spec fn client_payload(packets: Seq<Packet>, at: int) -> Option<u32> {
    if 0 <= at < packets.len() && packets[at].tcp is Some && !sent_by_server(packets[at].tcp->0) {
        Some(packets[at].tcp->0.len)
    } else {
        None
    }
}

/// The common payload length of the four packets behind the one at `i`,
/// if all of them came from the client and are of one length.
pub open spec fn window_size(packets: Seq<Packet>, i: int) -> Option<u32> {
    let first = client_payload(packets, i + 1);
    if first is Some && client_payload(packets, i + 2) == first && client_payload(packets, i + 3)
        == first && client_payload(packets, i + 4) == first {
        first
    } else {
        None
    }
}

/// The payload length of the first four client packets in a row that
/// are of one length, looking behind each packet from `i` on; 0 where
/// there are none.
pub open spec fn alt_size_from(packets: Seq<Packet>, i: int) -> u32
    decreases packets.len() - i,
{
    if i < 0 || i >= packets.len() {
        0
    } else {
        match window_size(packets, i) {
            Some(size) => size,
            None => alt_size_from(packets, i + 1),
        }
    }
}

/// Where the fallback search for the keystroke size starts.
pub const ALT_SEARCH_OFFSET: usize = 20;

/// The payload length of the packet at `at`, if the client sent it.
fn client_payload_at(packets: &[Packet], at: usize) -> (size: Option<u32>)
    ensures
        size == client_payload(packets@, at as int),
{
    if at >= packets.len() {
        return None;
    }
    match &packets[at].tcp {
        Some(tcp) => if tcp.dstport > tcp.srcport {
            None
        } else {
            Some(tcp.len)
        },
        None => None,
    }
}

/// Whether the packet at `at` came from the client with a payload of
/// `size` bytes.
fn is_client_payload(packets: &[Packet], at: usize, size: u32) -> (same: bool)
    ensures
        same == (client_payload(packets@, at as int) == Some(size)),
{
    match client_payload_at(packets, at) {
        Some(found) => found == size,
        None => false,
    }
}

/// Finds the keystroke size by brute force, for sessions on which the
/// packet behind New Keys does not tell: from packet 20 on, the first
/// four client packets in a row with one payload length give the size.
/// The result is 0 where no such run exists.
pub fn alt_find_keystroke_size(packets: &[Packet]) -> (keystroke_size: u32)
    ensures
        keystroke_size == alt_size_from(packets@, ALT_SEARCH_OFFSET as int),
{
    let len = packets.len();
    let mut i: usize = ALT_SEARCH_OFFSET;
    while len >= 5 && i < len - 4
        invariant
            len == packets@.len(),
            alt_size_from(packets@, i as int) == alt_size_from(packets@, ALT_SEARCH_OFFSET as int),
        decreases len - i,
    {
        match client_payload_at(packets, i + 1) {
            Some(size) => {
                if is_client_payload(packets, i + 2, size) && is_client_payload(packets, i + 3, size)
                    && is_client_payload(packets, i + 4, size) {
                    return size;
                }
            },
            None => {},
        }
        i += 1;
    }
    proof {
        lemma_alt_size_tail(packets@, i as int);
    }
    0
}

/// Behind the last packet that four others follow, no run is found.
pub proof fn lemma_alt_size_tail(packets: Seq<Packet>, i: int)
    requires
        i + 4 >= packets.len(),
    ensures
        alt_size_from(packets, i) == 0,
    decreases packets.len() - i,
{
    if 0 <= i < packets.len() {
        lemma_alt_size_tail(packets, i + 1);
    }
}

/// The algorithm lists that one side advertises in its key exchange init
/// message, for the direction in which it sends.
pub struct Proposal {
    pub kex: String,
    pub encryption: String,
    pub mac: String,
    pub compression: String,
}

impl Proposal {
    /// The text that is hashed for the fingerprint: the four lists joined
    /// by semicolons.
    pub open spec fn text(self) -> Seq<char> {
        self.kex@ + seq![';'] + self.encryption@ + seq![';'] + self.mac@ + seq![';']
            + self.compression@
    }

    /// The text that is hashed for the fingerprint.
    pub fn hassh_text(&self) -> (joined: String)
        ensures
            joined@ == self.text(),
    {
        proof {
            reveal_strlit(";");
        }
        let mut joined = String::from_str(self.kex.as_str());
        joined.append(";");
        joined.append(self.encryption.as_str());
        joined.append(";");
        joined.append(self.mac.as_str());
        joined.append(";");
        joined.append(self.compression.as_str());
        assert(";"@ == seq![';']);
        joined
    }
}

/// What a client's key exchange init message proposes, or the first list
/// that it lacks.
pub open spec fn client_proposal(ssh: SshLayer) -> Result<Proposal, AnalysisError> {
    if ssh.kex_algorithms is None {
        Err(AnalysisError::KexAlgorithmsNotFound)
    } else if ssh.encryption_algorithms_client_to_server is None {
        Err(AnalysisError::EncryptionAlgorithmsNotFound)
    } else if ssh.mac_algorithms_client_to_server is None {
        Err(AnalysisError::MacAlgorithmsNotFound)
    } else if ssh.compression_algorithms_client_to_server is None {
        Err(AnalysisError::CompressionAlgorithmsNotFound)
    } else {
        Ok(
            Proposal {
                kex: ssh.kex_algorithms->0,
                encryption: ssh.encryption_algorithms_client_to_server->0,
                mac: ssh.mac_algorithms_client_to_server->0,
                compression: ssh.compression_algorithms_client_to_server->0,
            },
        )
    }
}

/// What a server's key exchange init message proposes, or the first list
/// that it lacks.
pub open spec fn server_proposal(ssh: SshLayer) -> Result<Proposal, AnalysisError> {
    if ssh.kex_algorithms is None {
        Err(AnalysisError::KexAlgorithmsNotFound)
    } else if ssh.encryption_algorithms_server_to_client is None {
        Err(AnalysisError::EncryptionAlgorithmsNotFound)
    } else if ssh.mac_algorithms_server_to_client is None {
        Err(AnalysisError::MacAlgorithmsNotFound)
    } else if ssh.compression_algorithms_server_to_client is None {
        Err(AnalysisError::CompressionAlgorithmsNotFound)
    } else {
        Ok(
            Proposal {
                kex: ssh.kex_algorithms->0,
                encryption: ssh.encryption_algorithms_server_to_client->0,
                mac: ssh.mac_algorithms_server_to_client->0,
                compression: ssh.compression_algorithms_server_to_client->0,
            },
        )
    }
}

/// Reads four lists into a proposal, or tells the first that is missing.
fn read_proposal(
    kex: &Option<String>,
    encryption: &Option<String>,
    mac: &Option<String>,
    compression: &Option<String>,
) -> (result: Result<Proposal, AnalysisError>)
    ensures
        result == (if *kex is None {
            Err::<Proposal, AnalysisError>(AnalysisError::KexAlgorithmsNotFound)
        } else if *encryption is None {
            Err(AnalysisError::EncryptionAlgorithmsNotFound)
        } else if *mac is None {
            Err(AnalysisError::MacAlgorithmsNotFound)
        } else if *compression is None {
            Err(AnalysisError::CompressionAlgorithmsNotFound)
        } else {
            Ok(
                Proposal {
                    kex: kex->0,
                    encryption: encryption->0,
                    mac: mac->0,
                    compression: compression->0,
                },
            )
        }),
{
    let kex = match kex {
        Some(list) => list.clone(),
        None => {
            return Err(AnalysisError::KexAlgorithmsNotFound);
        },
    };
    let encryption = match encryption {
        Some(list) => list.clone(),
        None => {
            return Err(AnalysisError::EncryptionAlgorithmsNotFound);
        },
    };
    let mac = match mac {
        Some(list) => list.clone(),
        None => {
            return Err(AnalysisError::MacAlgorithmsNotFound);
        },
    };
    let compression = match compression {
        Some(list) => list.clone(),
        None => {
            return Err(AnalysisError::CompressionAlgorithmsNotFound);
        },
    };
    Ok(Proposal { kex, encryption, mac, compression })
}

/// The proposals of client and server, as far as found.
pub struct Proposals {
    pub client: Option<Proposal>,
    pub server: Option<Proposal>,
}

/// The scan for the key exchange init messages (code 20) of both sides
/// among the first 50 packets, from `i` on, with what was found before.
/// The first such message from the higher port is the client's, the
/// first from the lower port the server's. The scan ends when both are
/// found. It fails at a packet without SSH layer, at a key exchange init
/// message without TCP layer, and at one that lacks a list.
pub open spec fn proposals_from(packets: Seq<Packet>, i: int, found: Proposals) -> Result<
    Proposals,
    AnalysisError,
>
    decreases packets.len() - i,
{
    if i < 0 || i >= packets.len() || i >= 50 || (found.client is Some && found.server is Some) {
        Ok(found)
    } else if packets[i].ssh is None {
        Err(AnalysisError::SshLayerNotFound)
    } else if packets[i].ssh->0.message_code != Some(20u32) {
        proposals_from(packets, i + 1, found)
    } else if packets[i].tcp is None {
        Err(AnalysisError::TcpLayerNotFound)
    } else if packets[i].tcp->0.srcport > packets[i].tcp->0.dstport && found.client is None {
        match client_proposal(packets[i].ssh->0) {
            Ok(p) => proposals_from(
                packets,
                i + 1,
                Proposals { client: Some(p), server: found.server },
            ),
            Err(e) => Err(e),
        }
    } else if packets[i].tcp->0.dstport > packets[i].tcp->0.srcport && found.server is None {
        match server_proposal(packets[i].ssh->0) {
            Ok(p) => proposals_from(
                packets,
                i + 1,
                Proposals { client: found.client, server: Some(p) },
            ),
            Err(e) => Err(e),
        }
    } else {
        proposals_from(packets, i + 1, found)
    }
}

/// The text that stands for a MAC where client and server share none,
/// as with ciphers that authenticate by themselves.
pub open spec fn no_mac() -> Seq<char> {
    "none"@
}

/// What the key exchange tells of a session, in this order: the client's
/// fingerprint, the server's fingerprint, and the negotiated algorithms
/// for key exchange, encryption, MAC and compression. A fingerprint is
/// the hash of a side's proposal; a negotiated algorithm is the first of
/// the client's list that the server lists too. Only a common MAC may be
/// missing.
pub open spec fn meta_hassh(packets: Seq<Packet>) -> Result<Seq<Seq<char>>, AnalysisError> {
    match proposals_from(packets, 0, Proposals { client: None, server: None }) {
        Err(e) => Err(e),
        Ok(found) => if found.client is None {
            Err(AnalysisError::ClientHasshNotFound)
        } else if found.server is None {
            Err(AnalysisError::ServerHasshNotFound)
        } else {
            let c = found.client->0;
            let s = found.server->0;
            if common_algorithm(c.kex@, s.kex@) is None {
                Err(AnalysisError::NoCommonKex)
            } else if common_algorithm(c.encryption@, s.encryption@) is None {
                Err(AnalysisError::NoCommonEncryption)
            } else if common_algorithm(c.compression@, s.compression@) is None {
                Err(AnalysisError::NoCommonCompression)
            } else {
                Ok(
                    seq![
                        fingerprint(c.text()),
                        fingerprint(s.text()),
                        common_algorithm(c.kex@, s.kex@)->0,
                        common_algorithm(c.encryption@, s.encryption@)->0,
                        match common_algorithm(c.mac@, s.mac@) {
                            Some(mac) => mac,
                            None => no_mac(),
                        },
                        common_algorithm(c.compression@, s.compression@)->0,
                    ],
                )
            }
        },
    }
}

/// Whether six texts are the six given sequences of characters.
pub open spec fn texts_are(texts: [String; 6], expected: Seq<Seq<char>>) -> bool {
    &&& expected.len() == 6
    &&& texts@[0]@ == expected[0]
    &&& texts@[1]@ == expected[1]
    &&& texts@[2]@ == expected[2]
    &&& texts@[3]@ == expected[3]
    &&& texts@[4]@ == expected[4]
    &&& texts@[5]@ == expected[5]
}

/// Scans for the key exchange init messages of both sides.
fn find_proposals(packets: &[Packet]) -> (result: Result<Proposals, AnalysisError>)
    ensures
        result == proposals_from(packets@, 0, Proposals { client: None, server: None }),
{
    let mut found = Proposals { client: None, server: None };
    let mut i: usize = 0;
    while i < packets.len() && i < 50 && !(found.client.is_some() && found.server.is_some())
        invariant
            proposals_from(packets@, i as int, found) == proposals_from(
                packets@,
                0,
                Proposals { client: None, server: None },
            ),
        decreases packets@.len() - i,
    {
        let packet = &packets[i];
        match &packet.ssh {
            None => {
                return Err(AnalysisError::SshLayerNotFound);
            },
            Some(ssh) => {
                let is_kex_init = match ssh.message_code {
                    Some(code) => code == 20,
                    None => false,
                };
                if is_kex_init {
                    match &packet.tcp {
                        None => {
                            return Err(AnalysisError::TcpLayerNotFound);
                        },
                        Some(tcp) => {
                            if tcp.srcport > tcp.dstport && found.client.is_none() {
                                match read_proposal(
                                    &ssh.kex_algorithms,
                                    &ssh.encryption_algorithms_client_to_server,
                                    &ssh.mac_algorithms_client_to_server,
                                    &ssh.compression_algorithms_client_to_server,
                                ) {
                                    Ok(p) => {
                                        found = Proposals { client: Some(p), server: found.server };
                                    },
                                    Err(e) => {
                                        return Err(e);
                                    },
                                }
                            } else if tcp.dstport > tcp.srcport && found.server.is_none() {
                                match read_proposal(
                                    &ssh.kex_algorithms,
                                    &ssh.encryption_algorithms_server_to_client,
                                    &ssh.mac_algorithms_server_to_client,
                                    &ssh.compression_algorithms_server_to_client,
                                ) {
                                    Ok(p) => {
                                        found = Proposals { client: found.client, server: Some(p) };
                                    },
                                    Err(e) => {
                                        return Err(e);
                                    },
                                }
                            }
                        },
                    }
                }
            },
        }
        i += 1;
    }
    Ok(found)
}

/// Goes through the key exchange and gives the fingerprints of client
/// and server and the negotiated algorithms. See `meta_hassh`.
pub fn find_meta_hassh(packets: &[Packet]) -> (result: Result<[String; 6], AnalysisError>)
    ensures
        match meta_hassh(packets@) {
            Ok(expected) => result is Ok && texts_are(result->Ok_0, expected),
            Err(e) => result == Err::<[String; 6], AnalysisError>(e),
        },
{
    let found = match find_proposals(packets) {
        Ok(found) => found,
        Err(e) => {
            return Err(e);
        },
    };
    let client = match found.client {
        Some(p) => p,
        None => {
            return Err(AnalysisError::ClientHasshNotFound);
        },
    };
    let server = match found.server {
        Some(p) => p,
        None => {
            return Err(AnalysisError::ServerHasshNotFound);
        },
    };
    let hassh = get_md5_hash(client.hassh_text());
    let hassh_server = get_md5_hash(server.hassh_text());
    let kex = match find_common_algorithm(client.kex.as_str(), server.kex.as_str()) {
        Some(name) => name,
        None => {
            return Err(AnalysisError::NoCommonKex);
        },
    };
    let encryption = match find_common_algorithm(
        client.encryption.as_str(),
        server.encryption.as_str(),
    ) {
        Some(name) => name,
        None => {
            return Err(AnalysisError::NoCommonEncryption);
        },
    };
    let mac = match find_common_algorithm(client.mac.as_str(), server.mac.as_str()) {
        Some(name) => name,
        None => String::from_str("none"),
    };
    let compression = match find_common_algorithm(
        client.compression.as_str(),
        server.compression.as_str(),
    ) {
        Some(name) => name,
        None => {
            return Err(AnalysisError::NoCommonCompression);
        },
    };
    Ok([hassh, hassh_server, kex, encryption, mac, compression])
}

/// The character of a decimal digit.
pub open spec fn digit_char(digit: int) -> char {
    seq!['0', '1', '2', '3', '4', '5', '6', '7', '8', '9'][digit]
}

/// A number in decimal, without leading zeros.
pub open spec fn decimal(n: nat) -> Seq<char>
    decreases n,
{
    if n < 10 {
        seq![digit_char(n as int)]
    } else {
        decimal(n / 10).push(digit_char((n % 10) as int))
    }
}

/// The text of one decimal digit.
fn digit_text(digit: u32) -> (text: &'static str)
    requires
        digit < 10,
    ensures
        text@ == seq![digit_char(digit as int)],
{
    proof {
        reveal_strlit("0");
        reveal_strlit("1");
        reveal_strlit("2");
        reveal_strlit("3");
        reveal_strlit("4");
        reveal_strlit("5");
        reveal_strlit("6");
        reveal_strlit("7");
        reveal_strlit("8");
        reveal_strlit("9");
    }
    let text = if digit == 0 {
        "0"
    } else if digit == 1 {
        "1"
    } else if digit == 2 {
        "2"
    } else if digit == 3 {
        "3"
    } else if digit == 4 {
        "4"
    } else if digit == 5 {
        "5"
    } else if digit == 6 {
        "6"
    } else if digit == 7 {
        "7"
    } else if digit == 8 {
        "8"
    } else {
        "9"
    };
    assert(text@ =~= seq![digit_char(digit as int)]);
    text
}

/// A port number as decimal text.
pub fn decimal_text(n: u32) -> (text: String)
    ensures
        text@ == decimal(n as nat),
    decreases n,
{
    if n < 10 {
        String::from_str(digit_text(n))
    } else {
        let mut text = decimal_text(n / 10);
        text.append(digit_text(n % 10));
        text
    }
}

/// What the banner scan has found: the positions of the banner packets
/// of client and server, and of the banner packet seen last.
pub struct Banners {
    pub client: Option<int>,
    pub server: Option<int>,
    pub last: Option<int>,
}

/// The scan for the version banners of both sides among the first 50
/// packets, from `i` on, with what was found before. The first banner
/// from the higher port is the client's, the first from the lower port
/// the server's. The scan ends when both are found. It fails at a packet
/// without SSH layer, and at a banner packet without IP or TCP layer.
pub open spec fn banners_from(packets: Seq<Packet>, i: int, found: Banners) -> Result<
    Banners,
    AnalysisError,
>
    decreases packets.len() - i,
{
    if i < 0 || i >= packets.len() || i >= 50 || (found.client is Some && found.server is Some) {
        Ok(found)
    } else if packets[i].ssh is None {
        Err(AnalysisError::SshLayerNotFound)
    } else if packets[i].ssh->0.protocol is None {
        banners_from(packets, i + 1, found)
    } else if packets[i].ip is None {
        Err(AnalysisError::IpLayerNotFound)
    } else if packets[i].tcp is None {
        Err(AnalysisError::TcpLayerNotFound)
    } else if packets[i].tcp->0.srcport > packets[i].tcp->0.dstport && found.client is None {
        banners_from(
            packets,
            i + 1,
            Banners { client: Some(i), server: found.server, last: Some(i) },
        )
    } else if packets[i].tcp->0.dstport > packets[i].tcp->0.srcport && found.server is None {
        banners_from(
            packets,
            i + 1,
            Banners { client: found.client, server: Some(i), last: Some(i) },
        )
    } else {
        banners_from(packets, i + 1, Banners { client: found.client, server: found.server, last: Some(i) })
    }
}

/// Whether what the banner scan has found points at banner packets.
pub open spec fn banners_valid(packets: Seq<Packet>, found: Banners) -> bool {
    &&& found.client matches Some(c) ==> is_banner(packets, c)
    &&& found.server matches Some(s) ==> is_banner(packets, s)
    &&& found.last matches Some(l) ==> is_banner(packets, l)
    &&& found.client is Some ==> found.last is Some
}

/// Whether the packet at `at` carries a version banner, with IP and TCP
/// layers.
pub open spec fn is_banner(packets: Seq<Packet>, at: int) -> bool {
    &&& 0 <= at < packets.len()
    &&& packets[at].ssh is Some
    &&& packets[at].ssh->0.protocol is Some
    &&& packets[at].ip is Some
    &&& packets[at].tcp is Some
}

/// What the banners tell of a session, in this order: the client's
/// version, the server's version, and the client's address and port and
/// the server's address and port, the ports in decimal. The endpoints
/// are those of the banner packet seen last; where the server sent it,
/// its source is the server, and the two ends change places.
pub open spec fn meta_protocol(packets: Seq<Packet>) -> Result<Seq<Seq<char>>, AnalysisError> {
    match banners_from(packets, 0, Banners { client: None, server: None, last: None }) {
        Err(e) => Err(e),
        Ok(found) => if found.client is None {
            Err(AnalysisError::ClientProtocolNotFound)
        } else if found.server is None {
            Err(AnalysisError::ServerProtocolNotFound)
        } else {
            let last = packets[found.last->0];
            let swapped = sent_by_server(last.tcp->0);
            Ok(
                seq![
                    packets[found.client->0].ssh->0.protocol->0@,
                    packets[found.server->0].ssh->0.protocol->0@,
                    if swapped {
                        last.ip->0.dst@
                    } else {
                        last.ip->0.src@
                    },
                    if swapped {
                        decimal(last.tcp->0.dstport as nat)
                    } else {
                        decimal(last.tcp->0.srcport as nat)
                    },
                    if swapped {
                        last.ip->0.src@
                    } else {
                        last.ip->0.dst@
                    },
                    if swapped {
                        decimal(last.tcp->0.srcport as nat)
                    } else {
                        decimal(last.tcp->0.dstport as nat)
                    },
                ],
            )
        },
    }
}

/// What the banner scan of the executable code has found.
struct FoundBanners {
    client: Option<usize>,
    server: Option<usize>,
    last: Option<usize>,
}

impl FoundBanners {
    spec fn model(self) -> Banners {
        Banners {
            client: match self.client {
                Some(c) => Some(c as int),
                None => None,
            },
            server: match self.server {
                Some(s) => Some(s as int),
                None => None,
            },
            last: match self.last {
                Some(l) => Some(l as int),
                None => None,
            },
        }
    }
}

/// Scans for the version banners of both sides.
fn find_banners(packets: &[Packet]) -> (result: Result<FoundBanners, AnalysisError>)
    ensures
        match banners_from(packets@, 0, Banners { client: None, server: None, last: None }) {
            Ok(found) => result is Ok && result->Ok_0.model() == found && banners_valid(
                packets@,
                found,
            ),
            Err(e) => result is Err && result->Err_0 == e,
        },
{
    let mut found = FoundBanners { client: None, server: None, last: None };
    let ghost start = Banners { client: None, server: None, last: None };
    let mut i: usize = 0;
    while i < packets.len() && i < 50 && !(found.client.is_some() && found.server.is_some())
        invariant
            start == (Banners { client: None, server: None, last: None }),
            banners_valid(packets@, found.model()),
            banners_from(packets@, i as int, found.model()) == banners_from(packets@, 0, start),
        decreases packets@.len() - i,
    {
        let packet = &packets[i];
        assert(found.model().client is Some == found.client is Some);
        assert(found.model().server is Some == found.server is Some);
        match &packet.ssh {
            None => {
                return Err(AnalysisError::SshLayerNotFound);
            },
            Some(ssh) => {
                if ssh.protocol.is_some() {
                    if packet.ip.is_none() {
                        return Err(AnalysisError::IpLayerNotFound);
                    }
                    match &packet.tcp {
                        None => {
                            return Err(AnalysisError::TcpLayerNotFound);
                        },
                        Some(tcp) => {
                            if tcp.srcport > tcp.dstport && found.client.is_none() {
                                found =
                                FoundBanners { client: Some(i), server: found.server, last: Some(i) };
                            } else if tcp.dstport > tcp.srcport && found.server.is_none() {
                                found =
                                FoundBanners { client: found.client, server: Some(i), last: Some(i) };
                            } else {
                                found =
                                FoundBanners {
                                    client: found.client,
                                    server: found.server,
                                    last: Some(i),
                                };
                            }
                        },
                    }
                }
            },
        }
        i += 1;
    }
    assert(found.model().client is Some == found.client is Some);
    assert(found.model().server is Some == found.server is Some);
    Ok(found)
}

/// The version banner of the packet at `at`.
fn banner_at(packets: &[Packet], at: usize) -> (text: String)
    requires
        is_banner(packets@, at as int),
    ensures
        text@ == packets@[at as int].ssh->0.protocol->0@,
{
    match &packets[at].ssh {
        Some(ssh) => match &ssh.protocol {
            Some(protocol) => protocol.clone(),
            None => String::new(),
        },
        None => String::new(),
    }
}

/// Finds the versions of client and server, and the addresses and ports
/// of both ends. See `meta_protocol`.
pub fn find_meta_protocol(packets: &[Packet]) -> (result: Result<[String; 6], AnalysisError>)
    ensures
        match meta_protocol(packets@) {
            Ok(expected) => result is Ok && texts_are(result->Ok_0, expected),
            Err(e) => result == Err::<[String; 6], AnalysisError>(e),
        },
{
    let found = match find_banners(packets) {
        Ok(found) => found,
        Err(e) => {
            return Err(e);
        },
    };
    let client = match found.client {
        Some(at) => at,
        None => {
            return Err(AnalysisError::ClientProtocolNotFound);
        },
    };
    let server = match found.server {
        Some(at) => at,
        None => {
            return Err(AnalysisError::ServerProtocolNotFound);
        },
    };
    let last = match found.last {
        Some(at) => at,
        None => {
            return Err(AnalysisError::ClientProtocolNotFound);
        },
    };
    let protocol_client = banner_at(packets, client);
    let protocol_server = banner_at(packets, server);
    let packet = &packets[last];
    match (&packet.ip, &packet.tcp) {
        (Some(ip), Some(tcp)) => {
            if tcp.dstport > tcp.srcport {
                Ok(
                    [
                        protocol_client,
                        protocol_server,
                        ip.dst.clone(),
                        decimal_text(tcp.dstport),
                        ip.src.clone(),
                        decimal_text(tcp.srcport),
                    ],
                )
            } else {
                Ok(
                    [
                        protocol_client,
                        protocol_server,
                        ip.src.clone(),
                        decimal_text(tcp.srcport),
                        ip.dst.clone(),
                        decimal_text(tcp.dstport),
                    ],
                )
            }
        },
        _ => Err(AnalysisError::ClientProtocolNotFound),
    }
}

/// The layout in which start and end of a session are written: year,
/// month and day, then hour, minute and second.
pub open spec fn time_layout() -> Seq<char> {
    "%Y-%m-%d %H:%M:%S"@
}

/// The text of a capture time in UTC, written in the given layout:
/// `None` for a time outside the range of calendar dates.
pub uninterp spec fn utc_text(micros: int, layout: Seq<char>) -> Option<Seq<char>>;

/// Calls `Utc.timestamp_micros` of the chrono crate and writes the date
/// it gives with `DateTime::format` in the layout handed in, which has
/// to be the one of `time_layout`. The result is `None` where chrono has
/// no date for the time; the text itself is named, not spelled out.
#[verifier::external_body]
fn format_utc(micros: i64, layout: &str) -> (text: Option<String>)
    requires
        layout@ == time_layout(),
    ensures
        text_of(text) == utc_text(micros as int, layout@),
{
    match Utc.timestamp_micros(micros).single() {
        Some(time) => Some(time.format(layout).to_string()),
        None => None,
    }
}

/// Start and end of a session, as the texts of the capture times of
/// its first and its last packet.
pub open spec fn start_and_end(packets: Seq<Packet>) -> Result<(Seq<char>, Seq<char>), AnalysisError> {
    if packets.len() == 0 {
        Err(AnalysisError::EmptyStream)
    } else if utc_text(packets.first().timestamp_micros as int, time_layout()) is None
        || utc_text(packets.last().timestamp_micros as int, time_layout()) is None {
        Err(AnalysisError::TimestampOutOfRange)
    } else {
        Ok(
            (
                utc_text(packets.first().timestamp_micros as int, time_layout())->0,
                utc_text(packets.last().timestamp_micros as int, time_layout())->0,
            ),
        )
    }
}

/// Start and end of a session, given the texts of the capture times of
/// its first and last packet as the calendar gave them.
pub fn timeframe(first: Option<String>, last: Option<String>) -> (result: Result<
    (String, String),
    AnalysisError,
>)
    ensures
        result is Ok <==> first is Some && last is Some,
        result matches Ok(frame) ==> frame.0 == first->0 && frame.1 == last->0,
        result matches Err(e) ==> e == AnalysisError::TimestampOutOfRange,
{
    match (first, last) {
        (Some(start), Some(end)) => Ok((start, end)),
        _ => Err(AnalysisError::TimestampOutOfRange),
    }
}

/// Gets start and end of a stream as date and time in UTC. Fails on an
/// empty stream, and on a capture time that the calendar does not hold.
pub fn get_start_and_end(packets: &[Packet]) -> (result: Result<(String, String), AnalysisError>)
    ensures
        match start_and_end(packets@) {
            Ok(frame) => result is Ok && result->Ok_0.0@ == frame.0 && result->Ok_0.1@ == frame.1,
            Err(e) => result is Err && result->Err_0 == e,
        },
{
    if packets.len() == 0 {
        return Err(AnalysisError::EmptyStream);
    }
    let first = format_utc(packets[0].timestamp_micros, "%Y-%m-%d %H:%M:%S");
    let last = format_utc(packets[packets.len() - 1].timestamp_micros, "%Y-%m-%d %H:%M:%S");
    timeframe(first, last)
}

/// What the analysis of one stream finds.
#[derive(Debug)]
pub struct SshSession {
    /// Number of the stream in the capture.
    pub stream: u32,
    /// Position of the New Keys message.
    pub new_keys_at: usize,
    /// Size of a keystroke packet; doubled in a session with chaff.
    pub keystroke_size: u32,
    /// Signed size of a login prompt.
    pub prompt_size: i32,
    /// Version banners of client and server.
    pub protocols: (String, String),
    /// Address and port of the client.
    pub src: String,
    /// Address and port of the server.
    pub dst: String,
    /// Fingerprint of the server.
    pub hassh_s: String,
    /// Fingerprint of the client.
    pub hassh_c: String,
    /// Negotiated algorithms: key exchange, encryption, MAC, compression.
    pub algorithms: (String, String, String, String),
    /// Position of the authentication success in the ordered packets.
    pub logged_in_at: usize,
    /// Capture time of the first packet.
    pub start_utc: String,
    /// Capture time of the last packet.
    pub end_utc: String,
    /// The timeline of events, each a described packet.
    pub results: Vec<PacketInfo>,
    /// The keystroke sequences.
    pub keystroke_data: Vec<Vec<Keystroke>>,
}

/// An entry of the timeline: a packet and the text that describes it.
pub struct Finding {
    pub packet: PacketInfo,
    pub text: Seq<char>,
}

/// What a session holds, as plain values.
pub struct SessionModel {
    pub stream: u32,
    pub new_keys_at: int,
    pub keystroke_size: int,
    pub prompt_size: int,
    pub protocols: (Seq<char>, Seq<char>),
    pub src: Seq<char>,
    pub dst: Seq<char>,
    pub hassh_s: Seq<char>,
    pub hassh_c: Seq<char>,
    pub algorithms: (Seq<char>, Seq<char>, Seq<char>, Seq<char>),
    pub logged_in_at: int,
    pub start_utc: Seq<char>,
    pub end_utc: Seq<char>,
    pub results: Seq<Finding>,
    pub keystroke_data: Seq<Seq<Keystroke>>,
}

/// `found` holds, for each finding in order, its packet described by its
/// text.
pub open spec fn shows(found: Seq<PacketInfo>, findings: Seq<Finding>) -> bool {
    &&& found.len() == findings.len()
    &&& forall|i: int|
        0 <= i < findings.len() ==> (#[trigger] found[i]).relabels(
            findings[i].packet,
            findings[i].text,
        )
}

impl SshSession {
    /// Whether the session holds exactly what `model` says.
    pub open spec fn matches(self, model: SessionModel) -> bool {
        &&& self.stream == model.stream
        &&& self.new_keys_at == model.new_keys_at
        &&& self.keystroke_size == model.keystroke_size
        &&& self.prompt_size == model.prompt_size
        &&& self.protocols.0@ == model.protocols.0
        &&& self.protocols.1@ == model.protocols.1
        &&& self.src@ == model.src
        &&& self.dst@ == model.dst
        &&& self.hassh_s@ == model.hassh_s
        &&& self.hassh_c@ == model.hassh_c
        &&& self.algorithms.0@ == model.algorithms.0
        &&& self.algorithms.1@ == model.algorithms.1
        &&& self.algorithms.2@ == model.algorithms.2
        &&& self.algorithms.3@ == model.algorithms.3
        &&& self.logged_in_at == model.logged_in_at
        &&& self.start_utc@ == model.start_utc
        &&& self.end_utc@ == model.end_utc
        &&& shows(self.results@, model.results)
        &&& views(self.keystroke_data@) == model.keystroke_data
    }
}

/// The keystroke size before chaff is accounted for: what the fallback
/// search gives, where it finds a run; else the payload length of the
/// packet behind New Keys, less 8.
pub open spec fn base_keystroke_size(packets: Seq<Packet>, new_keys_at: int) -> int {
    let fallback = alt_size_from(packets, ALT_SEARCH_OFFSET as int);
    if fallback > 0 {
        fallback as int
    } else {
        payload(packets, new_keys_at + 1) - 8
    }
}

/// The keystroke size that the scans work with: twice the base size in
/// a session with chaff, where a real packet is as large as two.
pub open spec fn calibrated_size(base: int, obfuscated: bool) -> int {
    if obfuscated {
        2 * base
    } else {
        base
    }
}

/// An address and a port as one text, with a colon between them.
pub open spec fn endpoint(address: Seq<char>, port: Seq<char>) -> Seq<char> {
    address + seq![':'] + port
}

/// The packets in their inferred order of sending.
pub open spec fn ordering(packets: Seq<Packet>, size: int, obfuscated: bool) -> Seq<PacketInfo> {
    if obfuscated {
        ordered_obfuscated(size_matrix(packets), size)
    } else {
        ordered(size_matrix(packets), size)
    }
}

/// The position of the successful login: the first packet that looks
/// like the authentication success among the 40 packets behind the New
/// Keys message.
pub open spec fn login_position(ord: Seq<PacketInfo>, new_keys_at: int) -> Option<int> {
    if new_keys_at < 0 || new_keys_at + 1 > ord.len() {
        None
    } else {
        match successful_login_from(ord.subrange(new_keys_at + 1, ord.len() as int), 0) {
            Some(at) => Some(new_keys_at + 1 + at),
            None => None,
        }
    }
}

/// The three packets of the calibration as entries of the timeline.
pub open spec fn calibration_findings(packets: Seq<Packet>, new_keys_at: int) -> Seq<Finding> {
    seq![
        Finding {
            packet: PacketInfo::projection(packets[new_keys_at], new_keys_at as usize),
            text: "New Keys (21)"@,
        },
        Finding {
            packet: PacketInfo::projection(packets[new_keys_at + 1], (new_keys_at + 1) as usize),
            text: "Keystroke Size Indicator"@,
        },
        Finding {
            packet: PacketInfo::projection(packets[new_keys_at + 4], (new_keys_at + 4) as usize),
            text: "First login prompt"@,
        },
    ]
}

/// The acceptance of the host key as an entry of the timeline, if it
/// was seen.
pub open spec fn host_key_findings(ord: Seq<PacketInfo>, logged_in_at: int) -> Seq<Finding> {
    match host_key_accept_from(ord, logged_in_at, 0) {
        Some(at) => seq![Finding { packet: ord[at], text: "Server hostkey accepted"@ }],
        None => Seq::empty(),
    }
}

/// The events of the login phase as entries of the timeline.
pub open spec fn login_findings(ord: Seq<PacketInfo>, marks: Seq<Mark>) -> Seq<Finding> {
    Seq::new(marks.len(), |i: int| Finding { packet: ord[marks[i].at], text: marks[i].event.name() })
}

/// The timeline of a session: the acceptance of the host key, where it
/// was seen, the three packets of the calibration, and the events of the
/// login phase.
pub open spec fn timeline(
    packets: Seq<Packet>,
    ord: Seq<PacketInfo>,
    new_keys_at: int,
    prompt_size: int,
    logged_in_at: int,
) -> Seq<Finding> {
    host_key_findings(ord, logged_in_at) + calibration_findings(packets, new_keys_at)
        + login_findings(ord, login_events(ord, prompt_size, new_keys_at, logged_in_at))
}

/// The keystrokes of a session. Where the scan at the calibrated size
/// finds none and the fallback search gave a size, the plain scan is
/// tried once more at that size.
pub open spec fn session_keystrokes(
    ord: Seq<PacketInfo>,
    size: int,
    fallback: int,
    logged_in_at: int,
    obfuscated: bool,
) -> Seq<Keystroke> {
    let first = if obfuscated {
        obfuscated_keystrokes(ord, size, logged_in_at)
    } else {
        scan_from(ord, size, logged_in_at, Seq::empty(), None)
    };
    if first.len() == 0 && 0 < fallback <= i32::MAX {
        scan_from(ord, fallback, logged_in_at, Seq::empty(), None)
    } else {
        first
    }
}

/// The analysis of one stream, step by step; the first step that fails
/// gives the error.
/// 1. Start and end of the stream.
/// 2. The calibration: the New Keys message, and a base keystroke size
///    above 0.
/// 3. Fingerprints and negotiated algorithms.
/// 4. Versions and endpoints.
/// 5. The projection of every packet.
/// 6. The keystroke size, doubled if both versions can inject chaff; it
///    has to fit a signed length.
/// 7. The ordering of the packets, and in it the successful login,
///    among the 40 packets behind the New Keys message.
/// 8. The timeline of events.
/// 9. Unless only the metadata is asked for: the keystrokes, grouped
///    into sequences, whose latencies have to fit.
pub open spec fn analysis(stream: u32, packets: Seq<Packet>, only_meta: bool) -> Result<
    SessionModel,
    AnalysisError,
> {
    if start_and_end(packets) is Err {
        Err(start_and_end(packets)->Err_0)
    } else if meta_size(packets) is Err {
        Err(meta_size(packets)->Err_0)
    } else if base_keystroke_size(packets, meta_size(packets)->Ok_0) <= 0 {
        Err(AnalysisError::KeystrokeSizeNotPositive)
    } else if meta_hassh(packets) is Err {
        Err(meta_hassh(packets)->Err_0)
    } else if meta_protocol(packets) is Err {
        Err(meta_protocol(packets)->Err_0)
    } else if first_unprojectable(packets, 0) is Some {
        Err(PacketInfo::projection_error(packets[first_unprojectable(packets, 0)->0]))
    } else {
        let frame = start_and_end(packets)->Ok_0;
        let new_keys_at = meta_size(packets)->Ok_0;
        let hassh = meta_hassh(packets)->Ok_0;
        let protocol = meta_protocol(packets)->Ok_0;
        let obfuscated = chaff_capable(protocol[0]) && chaff_capable(protocol[1]);
        let size = calibrated_size(base_keystroke_size(packets, new_keys_at), obfuscated);
        let prompt_size = PacketInfo::directed_length(packets[new_keys_at + 4]);
        let ord = ordering(packets, size, obfuscated);
        if size > i32::MAX {
            Err(AnalysisError::KeystrokeSizeOutOfRange)
        } else if login_position(ord, new_keys_at) is None {
            Err(AnalysisError::LoginNotFound)
        } else {
            let logged_in_at = login_position(ord, new_keys_at)->0;
            let keystrokes = session_keystrokes(
                ord,
                size,
                alt_size_from(packets, ALT_SEARCH_OFFSET as int) as int,
                logged_in_at,
                obfuscated,
            );
            if !only_meta && !latencies_fit(keystrokes) {
                Err(AnalysisError::LatencyOutOfRange)
            } else {
                Ok(
                    SessionModel {
                        stream,
                        new_keys_at,
                        keystroke_size: size,
                        prompt_size,
                        protocols: (protocol[0], protocol[1]),
                        src: endpoint(protocol[2], protocol[3]),
                        dst: endpoint(protocol[4], protocol[5]),
                        hassh_s: hassh[1],
                        hassh_c: hassh[0],
                        algorithms: (hassh[2], hassh[3], hassh[4], hassh[5]),
                        logged_in_at,
                        start_utc: frame.0,
                        end_utc: frame.1,
                        results: timeline(packets, ord, new_keys_at, prompt_size, logged_in_at),
                        keystroke_data: if only_meta {
                            Seq::empty()
                        } else {
                            grouped(keystrokes)
                        },
                    },
                )
            }
        }
    }
}

/// Wherever the analysis succeeds, the keystroke size is above 0, and
/// the two packets right behind the New Keys message have equal payload
/// length.
pub proof fn lemma_calibration_invariant(stream: u32, packets: Seq<Packet>, only_meta: bool)
    requires
        analysis(stream, packets, only_meta) is Ok,
    ensures
        analysis(stream, packets, only_meta)->Ok_0.keystroke_size > 0,
        0 <= analysis(stream, packets, only_meta)->Ok_0.new_keys_at,
        analysis(stream, packets, only_meta)->Ok_0.new_keys_at + 2 < packets.len(),
        payload(packets, analysis(stream, packets, only_meta)->Ok_0.new_keys_at + 1) == payload(
            packets,
            analysis(stream, packets, only_meta)->Ok_0.new_keys_at + 2,
        ),
{
    lemma_meta_size_invariant(packets);
}

/// An address and a port as one text.
fn join_endpoint(address: &String, port: &String) -> (joined: String)
    ensures
        joined@ == endpoint(address@, port@),
{
    proof {
        reveal_strlit(":");
    }
    let mut joined = address.clone();
    joined.append(":");
    joined.append(port.as_str());
    assert(":"@ == seq![':']);
    joined
}

/// The timeline of a session.
fn collect_results(
    kex: &[PacketInfo; 3],
    ordered_packets: &Vec<PacketInfo>,
    prompt_size: i32,
    new_keys_at: usize,
    logged_in_at: usize,
    packets: Ghost<Seq<Packet>>,
) -> (results: Vec<PacketInfo>)
    requires
        shows(kex@, calibration_findings(packets@, new_keys_at as int)),
    ensures
        shows(
            results@,
            timeline(
                packets@,
                ordered_packets@,
                new_keys_at as int,
                prompt_size as int,
                logged_in_at as int,
            ),
        ),
{
    let ghost ord = ordered_packets@;
    let ghost marks = login_events(ord, prompt_size as int, new_keys_at as int, logged_in_at as int);
    let mut results: Vec<PacketInfo> = Vec::new();
    match scan_for_host_key_accepts(ordered_packets.as_slice(), logged_in_at) {
        Some(info) => {
            results.push(info);
        },
        None => {},
    }
    assert(shows(results@, host_key_findings(ord, logged_in_at as int)));
    let ghost host = results@;
    results.push(kex[0].duplicate());
    results.push(kex[1].duplicate());
    results.push(kex[2].duplicate());
    assert(results@ == host + kex@);
    let ghost head = results@;
    let mut login_events = scan_login_data(
        ordered_packets.as_slice(),
        prompt_size,
        new_keys_at,
        logged_in_at,
    );
    let ghost events = login_events@;
    assert(shows(events, login_findings(ord, marks))) by {
        assert forall|i: int| 0 <= i < marks.len() implies (#[trigger] events[i]).relabels(
            login_findings(ord, marks)[i].packet,
            login_findings(ord, marks)[i].text,
        ) by {
            assert(0 <= marks[i].at < ord.len());
        }
    }
    results.append(&mut login_events);
    assert(results@ == host + kex@ + events);
    proof {
        lemma_shows_concat(
            host,
            host_key_findings(ord, logged_in_at as int),
            kex@,
            calibration_findings(packets@, new_keys_at as int),
        );
        lemma_shows_concat(
            host + kex@,
            host_key_findings(ord, logged_in_at as int) + calibration_findings(
                packets@,
                new_keys_at as int,
            ),
            events,
            login_findings(ord, marks),
        );
    }
    results
}

/// Two stretches of a timeline, shown one behind the other.
pub proof fn lemma_shows_concat(
    a: Seq<PacketInfo>,
    fa: Seq<Finding>,
    b: Seq<PacketInfo>,
    fb: Seq<Finding>,
)
    requires
        shows(a, fa),
        shows(b, fb),
    ensures
        shows(a + b, fa + fb),
{
    assert forall|i: int| 0 <= i < (fa + fb).len() implies (#[trigger] (a + b)[i]).relabels(
        (fa + fb)[i].packet,
        (fa + fb)[i].text,
    ) by {
        if i < fa.len() {
            assert((a + b)[i] == a[i]);
        } else {
            assert((a + b)[i] == b[i - fa.len()]);
        }
    }
}

/// The position of the successful login behind the handshake.
fn find_login(ordered_packets: &Vec<PacketInfo>, new_keys_at: usize) -> (found: Option<usize>)
    ensures
        match login_position(ordered_packets@, new_keys_at as int) {
            Some(at) => found == Some(at as usize) && new_keys_at < at < ordered_packets@.len(),
            None => found is None,
        },
{
    let len = ordered_packets.len();
    if new_keys_at >= len {
        return None;
    }
    let behind = slice_subrange(ordered_packets.as_slice(), new_keys_at + 1, len);
    match find_successful_login(behind) {
        Some(at) => Some(new_keys_at + 1 + at),
        None => None,
    }
}

/// The keystrokes of a session. See `session_keystrokes`.
fn collect_keystrokes(
    ordered_packets: &Vec<PacketInfo>,
    size: i32,
    fallback: u32,
    logged_in_at: usize,
    obfuscated: bool,
) -> (keystrokes: Vec<Keystroke>)
    ensures
        keystrokes@ == session_keystrokes(
            ordered_packets@,
            size as int,
            fallback as int,
            logged_in_at as int,
            obfuscated,
        ),
{
    let keystrokes = if obfuscated {
        scan_for_obfuscated_keystrokes(ordered_packets.as_slice(), size, logged_in_at)
    } else {
        scan_for_keystrokes(ordered_packets.as_slice(), size, logged_in_at)
    };
    if keystrokes.len() == 0 && 0 < fallback && fallback <= 0x7fff_ffff {
        scan_for_keystrokes(ordered_packets.as_slice(), fallback as i32, logged_in_at)
    } else {
        keystrokes
    }
}

/// Analyses one stream of a capture and gives the session it holds. With
/// `only_meta` the keystrokes are left out. See `analysis` for the steps
/// and for the errors.
pub fn analyse(stream_id: u32, packet_stream: &[Packet], only_meta: bool) -> (result: Result<
    SshSession,
    AnalysisError,
>)
    ensures
        match analysis(stream_id, packet_stream@, only_meta) {
            Ok(model) => result is Ok && result->Ok_0.matches(model),
            Err(e) => result is Err && result->Err_0 == e,
        },
{
    let ghost packets = packet_stream@;
    let timeframe = match get_start_and_end(packet_stream) {
        Ok(frame) => frame,
        Err(e) => {
            return Err(e);
        },
    };
    let kex = match find_meta_size(packet_stream) {
        Ok(infos) => infos,
        Err(e) => {
            return Err(e);
        },
    };
    let new_keys_at: usize = kex[0].index;
    let prompt_size: i32 = kex[2].length;
    proof {
        lemma_meta_size_invariant(packets);
    }
    let fallback: u32 = alt_find_keystroke_size(packet_stream);
    let indicator: u32 = match &packet_stream[new_keys_at + 1].tcp {
        Some(tcp) => tcp.len,
        None => 0,
    };
    let base: u32 = if fallback > 0 {
        fallback
    } else if indicator > 8 {
        indicator - 8
    } else {
        return Err(AnalysisError::KeystrokeSizeNotPositive);
    };
    let hassh = match find_meta_hassh(packet_stream) {
        Ok(texts) => texts,
        Err(e) => {
            return Err(e);
        },
    };
    let protocols = match find_meta_protocol(packet_stream) {
        Ok(texts) => texts,
        Err(e) => {
            return Err(e);
        },
    };
    let mut size_matrix = match create_size_matrix(packet_stream) {
        Ok(matrix) => matrix,
        Err(e) => {
            return Err(e);
        },
    };
    let obfuscated = is_obfuscated(protocols[0].as_str(), protocols[1].as_str());
    let doubled: u64 = if obfuscated {
        2 * (base as u64)
    } else {
        base as u64
    };
    if doubled > 0x7fff_ffff {
        return Err(AnalysisError::KeystrokeSizeOutOfRange);
    }
    let keystroke_size: u32 = doubled as u32;
    let ordered_packets = if obfuscated {
        order_obfuscated_keystrokes(&mut size_matrix, keystroke_size)
    } else {
        order_keystrokes(&mut size_matrix, keystroke_size)
    };
    let logged_in_at = match find_login(&ordered_packets, new_keys_at) {
        Some(index) => index,
        None => {
            return Err(AnalysisError::LoginNotFound);
        },
    };
    assert(shows(kex@, calibration_findings(packets, new_keys_at as int)));
    let results = collect_results(
        &kex,
        &ordered_packets,
        prompt_size,
        new_keys_at,
        logged_in_at,
        Ghost(packets),
    );
    let keystroke_data = if only_meta {
        Vec::new()
    } else {
        let keystrokes = collect_keystrokes(
            &ordered_packets,
            keystroke_size as i32,
            fallback,
            logged_in_at,
            obfuscated,
        );
        if !check_latencies(&keystrokes) {
            return Err(AnalysisError::LatencyOutOfRange);
        }
        process_keystrokes(keystrokes)
    };
    assert(only_meta ==> views(keystroke_data@) == Seq::<Seq<Keystroke>>::empty());
    Ok(
        SshSession {
            stream: stream_id,
            new_keys_at,
            keystroke_size,
            prompt_size,
            protocols: (protocols[0].clone(), protocols[1].clone()),
            src: join_endpoint(&protocols[2], &protocols[3]),
            dst: join_endpoint(&protocols[4], &protocols[5]),
            hassh_s: hassh[1].clone(),
            hassh_c: hassh[0].clone(),
            algorithms: (hassh[2].clone(), hassh[3].clone(), hassh[4].clone(), hassh[5].clone()),
            logged_in_at,
            start_utc: timeframe.0,
            end_utc: timeframe.1,
            results,
            keystroke_data,
        },
    )
}

} // verus!
