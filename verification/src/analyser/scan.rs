//! Scans over the ordered packet sequence: keystrokes, with and without
//! chaff, login events, reverse tunnels,
//! host key acceptance and the successful login.
use super::containers::{Event, Keystroke, KeystrokeType, PacketInfo};
use super::utils::KEYSTROKE_UPPER_BOUND;
use vstd::prelude::*;

verus! {

/// The keystroke of kind `kind` that the packet at `i` stands for.
pub open spec fn keystroke_at(s: Seq<PacketInfo>, i: int, kind: KeystrokeType) -> Keystroke {
    Keystroke { k_type: kind, timestamp: s[i].timestamp, response_size: None, seq: s[i].seq }
}

/// Where the block of server packets that starts at `from` ends: the
/// position of the first client packet at or after `from`, or the length
/// of the sequence where none follows.
pub open spec fn response_end(s: Seq<PacketInfo>, from: int) -> int
    decreases s.len() - from,
{
    if from >= s.len() {
        s.len() as int
    } else if s[from].length > 0 {
        from
    } else {
        response_end(s, from + 1)
    }
}

/// The payload bytes of the packets in `from..to`, whatever their direction.
pub open spec fn response_bytes(s: Seq<PacketInfo>, from: int, to: int) -> nat
    decreases to - from,
{
    if from >= to {
        0
    } else {
        response_bytes(s, from, to - 1) + vstd::math::abs(s[to - 1].length as int)
    }
}

/// The Enter keystroke found at `index`, whose response ends at `end`. It
/// carries the time and sequence number of its own packet, and as
/// response size the bytes of every packet between itself and `end`.
pub open spec fn enter_at(s: Seq<PacketInfo>, index: int, end: int) -> Keystroke {
    Keystroke {
        k_type: KeystrokeType::Enter,
        timestamp: s[index].timestamp,
        response_size: Some(response_bytes(s, index + 1, end) as u128),
        seq: s[index].seq,
    }
}

/// The keystroke classifier as a state machine over the cursor `index`,
/// the keystrokes found so far, and `run`: `Some(a)` while the cursor is
/// inside a run of horizontal arrows of size `a`.
///
/// Only a client packet, one of a length above 0, is ever a keystroke.
/// Outside a run, with `k` the keystroke size and the packets at
/// `index`, `index + 1`, `index + 2` called current, next and after:
/// - current in `(k, k + 16]` is an arrow: horizontal if next is an echo
///   of `-k` or of the size of current, and a run begins two packets on;
///   vertical otherwise, and the cursor moves by two;
/// - current exactly `k`, next `-k`, and after `k` or `k + 8`: a
///   keystroke, and the cursor moves by two;
/// - current exactly `k`, next `-(k + 8)` and after `k`: a delete, and the
///   cursor moves by two. Jumps to the start or the end of the line echo
///   alike and are taken for deletes;
/// - current exactly `k`, next below `-(k + 8)` and after `k`: a tab, and
///   the cursor moves by two;
/// - current exactly `k`, next and after both at most `-k`, and a
///   keystroke found before: an Enter. Its response is every packet
///   behind it up to the next client packet, where the cursor goes;
/// - a position that matches none of these moves the cursor by one.
///
/// Inside a run the cursor moves by two: a packet of size `k` echoed at
/// `-a` or below is of unknown kind, a packet of size `a` is another
/// horizontal arrow. The run ends before a packet whose successor's
/// successor came from the server or is missing, and before a packet of
/// size `k` echoed at `-k`.
///
/// Every keystroke carries the time and the sequence number of its own
/// packet.
///
/// The scan ends when fewer than two packets follow the cursor.
pub open spec fn scan_from(
    s: Seq<PacketInfo>,
    k: int,
    index: int,
    found: Seq<Keystroke>,
    run: Option<int>,
) -> Seq<Keystroke>
    decreases s.len() - index, (if run is Some { 1int } else { 0int }),
{
    if index < 0 || index + 2 >= s.len() {
        found
    } else {
        let current = s[index].length as int;
        let next = s[index + 1].length as int;
        let after = s[index + 2].length as int;
        match run {
            Some(a) => {
                if s[index + 2].from_server {
                    scan_from(s, k, index, found, None)
                } else if current > 0 && current == k && next <= -a {
                    scan_from(
                        s,
                        k,
                        index + 2,
                        found.push(keystroke_at(s, index, KeystrokeType::Unknown)),
                        run,
                    )
                } else if current > 0 && current == a {
                    scan_from(
                        s,
                        k,
                        index + 2,
                        found.push(keystroke_at(s, index, KeystrokeType::ArrowHorizontal)),
                        run,
                    )
                } else if current == k && next == -k {
                    scan_from(s, k, index, found, None)
                } else {
                    scan_from(s, k, index + 2, found, run)
                }
            },
            None => {
                if current <= 0 {
                    scan_from(s, k, index + 1, found, None)
                } else if k < current <= k + KEYSTROKE_UPPER_BOUND {
                    if next == -k || next == -current {
                        scan_from(
                            s,
                            k,
                            index + 2,
                            found.push(keystroke_at(s, index, KeystrokeType::ArrowHorizontal)),
                            Some(current),
                        )
                    } else {
                        scan_from(
                            s,
                            k,
                            index + 2,
                            found.push(keystroke_at(s, index, KeystrokeType::ArrowVertical)),
                            None,
                        )
                    }
                } else if current != k {
                    scan_from(s, k, index + 1, found, None)
                } else if next == -k && (after == k || after == k + 8) {
                    scan_from(
                        s,
                        k,
                        index + 2,
                        found.push(keystroke_at(s, index, KeystrokeType::Keystroke)),
                        None,
                    )
                } else if next == -(k + 8) && after == k {
                    scan_from(
                        s,
                        k,
                        index + 2,
                        found.push(keystroke_at(s, index, KeystrokeType::Delete)),
                        None,
                    )
                } else if next < -(k + 8) && after == k {
                    scan_from(
                        s,
                        k,
                        index + 2,
                        found.push(keystroke_at(s, index, KeystrokeType::Tab)),
                        None,
                    )
                } else if next <= -k && after <= -k && found.len() > 0 {
                    let end = response_end(s, index + 1);
                    proof {
                        lemma_response_end_bounds(s, index + 1);
                    }
                    scan_from(s, k, end, found.push(enter_at(s, index, end)), None)
                } else {
                    scan_from(s, k, index + 1, found, None)
                }
            },
        }
    }
}

/// `response_end` lies between its start and the end of the sequence.
pub proof fn lemma_response_end_bounds(s: Seq<PacketInfo>, from: int)
    requires
        0 <= from <= s.len(),
    ensures
        from <= response_end(s, from) <= s.len(),
    decreases s.len() - from,
{
    if from < s.len() && s[from].length <= 0 {
        lemma_response_end_bounds(s, from + 1);
    }
}

/// The keystroke at place `i` of `found` carries the time and the
/// sequence number of the packet at `places[i]`, a client packet at or
/// after `from` that lies behind the packet of the keystroke before it.
pub open spec fn placed(
    s: Seq<PacketInfo>,
    found: Seq<Keystroke>,
    places: Seq<int>,
    i: int,
    from: int,
) -> bool {
    &&& from <= places[i] < s.len()
    &&& 0 <= places[i]
    &&& s[places[i]].length > 0
    &&& found[i].seq == s[places[i]].seq
    &&& found[i].timestamp == s[places[i]].timestamp
    &&& i > 0 ==> places[i - 1] < places[i]
}

/// Every keystroke of `found` has its place: its own client packet at or
/// after `from`, the places in the order of the keystrokes.
pub open spec fn all_placed(
    s: Seq<PacketInfo>,
    found: Seq<Keystroke>,
    places: Seq<int>,
    from: int,
) -> bool {
    &&& places.len() == found.len()
    &&& forall|i: int| 0 <= i < found.len() ==> #[trigger] placed(s, found, places, i, from)
}

/// Keystrokes that have their places keep them when one more is found
/// at a client packet behind them.
pub proof fn lemma_placed_push(
    s: Seq<PacketInfo>,
    found: Seq<Keystroke>,
    places: Seq<int>,
    from: int,
    index: int,
    keystroke: Keystroke,
)
    requires
        all_placed(s, found, places, from),
        places.len() > 0 ==> places.last() < index,
        0 <= from <= index < s.len(),
        s[index].length > 0,
        keystroke.seq == s[index].seq,
        keystroke.timestamp == s[index].timestamp,
    ensures
        all_placed(s, found.push(keystroke), places.push(index), from),
{
    let more = found.push(keystroke);
    let at = places.push(index);
    assert forall|i: int| 0 <= i < more.len() implies #[trigger] placed(s, more, at, i, from) by {
        if i < found.len() {
            assert(placed(s, found, places, i, from));
        }
    }
}

/// Every keystroke that the classifier finds carries the time and the
/// sequence number of its own packet: a client packet at or after the
/// start of the scan, each behind the one before. Gives the places.
pub proof fn lemma_scan_places(
    s: Seq<PacketInfo>,
    k: int,
    index: int,
    found: Seq<Keystroke>,
    run: Option<int>,
    places: Seq<int>,
    from: int,
) -> (all: Seq<int>)
    requires
        0 <= from <= index,
        all_placed(s, found, places, from),
        places.len() > 0 ==> places.last() < index,
    ensures
        all_placed(s, scan_from(s, k, index, found, run), all, from),
    decreases s.len() - index, (if run is Some { 1int } else { 0int }),
{
    if index + 2 >= s.len() {
        places
    } else {
        let current = s[index].length as int;
        let next = s[index + 1].length as int;
        let after = s[index + 2].length as int;
        match run {
            Some(a) => {
                if s[index + 2].from_server {
                    lemma_scan_places(s, k, index, found, None, places, from)
                } else if current > 0 && current == k && next <= -a {
                    let keystroke = keystroke_at(s, index, KeystrokeType::Unknown);
                    lemma_placed_push(s, found, places, from, index, keystroke);
                    lemma_scan_places(
                        s,
                        k,
                        index + 2,
                        found.push(keystroke),
                        run,
                        places.push(index),
                        from,
                    )
                } else if current > 0 && current == a {
                    let keystroke = keystroke_at(s, index, KeystrokeType::ArrowHorizontal);
                    lemma_placed_push(s, found, places, from, index, keystroke);
                    lemma_scan_places(
                        s,
                        k,
                        index + 2,
                        found.push(keystroke),
                        run,
                        places.push(index),
                        from,
                    )
                } else if current == k && next == -k {
                    lemma_scan_places(s, k, index, found, None, places, from)
                } else {
                    lemma_scan_places(s, k, index + 2, found, run, places, from)
                }
            },
            None => {
                if current <= 0 {
                    lemma_scan_places(s, k, index + 1, found, None, places, from)
                } else if k < current <= k + KEYSTROKE_UPPER_BOUND {
                    if next == -k || next == -current {
                        let keystroke = keystroke_at(s, index, KeystrokeType::ArrowHorizontal);
                        lemma_placed_push(s, found, places, from, index, keystroke);
                        lemma_scan_places(
                            s,
                            k,
                            index + 2,
                            found.push(keystroke),
                            Some(current),
                            places.push(index),
                            from,
                        )
                    } else {
                        let keystroke = keystroke_at(s, index, KeystrokeType::ArrowVertical);
                        lemma_placed_push(s, found, places, from, index, keystroke);
                        lemma_scan_places(
                            s,
                            k,
                            index + 2,
                            found.push(keystroke),
                            None,
                            places.push(index),
                            from,
                        )
                    }
                } else if current != k {
                    lemma_scan_places(s, k, index + 1, found, None, places, from)
                } else if next == -k && (after == k || after == k + 8) {
                    let keystroke = keystroke_at(s, index, KeystrokeType::Keystroke);
                    lemma_placed_push(s, found, places, from, index, keystroke);
                    lemma_scan_places(
                        s,
                        k,
                        index + 2,
                        found.push(keystroke),
                        None,
                        places.push(index),
                        from,
                    )
                } else if next == -(k + 8) && after == k {
                    let keystroke = keystroke_at(s, index, KeystrokeType::Delete);
                    lemma_placed_push(s, found, places, from, index, keystroke);
                    lemma_scan_places(
                        s,
                        k,
                        index + 2,
                        found.push(keystroke),
                        None,
                        places.push(index),
                        from,
                    )
                } else if next < -(k + 8) && after == k {
                    let keystroke = keystroke_at(s, index, KeystrokeType::Tab);
                    lemma_placed_push(s, found, places, from, index, keystroke);
                    lemma_scan_places(
                        s,
                        k,
                        index + 2,
                        found.push(keystroke),
                        None,
                        places.push(index),
                        from,
                    )
                } else if next <= -k && after <= -k && found.len() > 0 {
                    let end = response_end(s, index + 1);
                    lemma_response_end_bounds(s, index + 1);
                    let keystroke = enter_at(s, index, end);
                    lemma_placed_push(s, found, places, from, index, keystroke);
                    lemma_scan_places(
                        s,
                        k,
                        end,
                        found.push(keystroke),
                        None,
                        places.push(index),
                        from,
                    )
                } else {
                    lemma_scan_places(s, k, index + 1, found, None, places, from)
                }
            },
        }
    }
}

/// Finds and classifies the keystrokes of a session, starting at
/// `logged_in_at`. See `scan_from` for the rules. Every keystroke found
/// carries time and sequence number of its own packet, a client packet
/// at or after `logged_in_at`, and the packets follow one another in the
/// order of the keystrokes.
pub fn scan_for_keystrokes(
    packet_infos: &[PacketInfo],
    keystroke_size: i32,
    logged_in_at: usize,
) -> (keystrokes: Vec<Keystroke>)
    ensures
        keystrokes@ == scan_from(
            packet_infos@,
            keystroke_size as int,
            logged_in_at as int,
            Seq::empty(),
            None,
        ),
        exists|places: Seq<int>|
            all_placed(packet_infos@, keystrokes@, places, logged_in_at as int),
{
    proof {
        let places = lemma_scan_places(
            packet_infos@,
            keystroke_size as int,
            logged_in_at as int,
            Seq::empty(),
            None,
            Seq::empty(),
            logged_in_at as int,
        );
        assert(all_placed(
            packet_infos@,
            scan_from(
                packet_infos@,
                keystroke_size as int,
                logged_in_at as int,
                Seq::empty(),
                None,
            ),
            places,
            logged_in_at as int,
        ));
    }
    let len = packet_infos.len();
    let k: i64 = keystroke_size as i64;
    let mut index: usize = logged_in_at;
    let mut keystrokes: Vec<Keystroke> = Vec::new();
    let ghost s = packet_infos@;
    let ghost goal = scan_from(s, k as int, logged_in_at as int, Seq::empty(), None);

    while len >= 2 && index < len - 2
        invariant
            len == s.len(),
            s == packet_infos@,
            k == keystroke_size,
            scan_from(s, k as int, index as int, keystrokes@, None) == goal,
        decreases len - index,
    {
        let current: i64 = packet_infos[index].length as i64;
        let next: i64 = packet_infos[index + 1].length as i64;
        let after: i64 = packet_infos[index + 2].length as i64;
        if current <= 0 {
            index += 1;
        } else if current > k && current <= k + (KEYSTROKE_UPPER_BOUND as i64) {
            if next == -k || next == -current {
                keystrokes.push(
                    Keystroke {
                        k_type: KeystrokeType::ArrowHorizontal,
                        timestamp: packet_infos[index].timestamp,
                        response_size: None,
                        seq: packet_infos[index].seq,
                    },
                );
                let arrow: i64 = current;
                let ghost before = index;
                index += 2;
                loop
                    invariant
                        len == s.len(),
                        s == packet_infos@,
                        k == keystroke_size,
                        before < index <= len,
                        arrow == s[before as int].length,
                        scan_from(s, k as int, index as int, keystrokes@, Some(arrow as int))
                            == goal,
                    ensures
                        before < index <= len,
                        scan_from(s, k as int, index as int, keystrokes@, None) == goal,
                    decreases len - index,
                {
                    if len < 2 || index >= len - 2 {
                        break ;
                    }
                    if packet_infos[index + 2].from_server {
                        break ;
                    }
                    let here: i64 = packet_infos[index].length as i64;
                    let echo: i64 = packet_infos[index + 1].length as i64;
                    if here > 0 && here == k && echo <= -arrow {
                        keystrokes.push(
                            Keystroke {
                                k_type: KeystrokeType::Unknown,
                                timestamp: packet_infos[index].timestamp,
                                response_size: None,
                                seq: packet_infos[index].seq,
                            },
                        );
                    } else if here > 0 && here == arrow {
                        keystrokes.push(
                            Keystroke {
                                k_type: KeystrokeType::ArrowHorizontal,
                                timestamp: packet_infos[index].timestamp,
                                response_size: None,
                                seq: packet_infos[index].seq,
                            },
                        );
                    } else if here == k && echo == -k {
                        break ;
                    }
                    index += 2;
                }
            } else {
                keystrokes.push(
                    Keystroke {
                        k_type: KeystrokeType::ArrowVertical,
                        timestamp: packet_infos[index].timestamp,
                        response_size: None,
                        seq: packet_infos[index].seq,
                    },
                );
                index += 2;
            }
        } else if current != k {
            index += 1;
        } else if next == -k && (after == k || after == k + 8) {
            keystrokes.push(
                Keystroke {
                    k_type: KeystrokeType::Keystroke,
                    timestamp: packet_infos[index].timestamp,
                    response_size: None,
                    seq: packet_infos[index].seq,
                },
            );
            index += 2;
        } else if next == -(k + 8) && after == k {
            keystrokes.push(
                Keystroke {
                    k_type: KeystrokeType::Delete,
                    timestamp: packet_infos[index].timestamp,
                    response_size: None,
                    seq: packet_infos[index].seq,
                },
            );
            index += 2;
        } else if next < -(k + 8) && after == k {
            keystrokes.push(
                Keystroke {
                    k_type: KeystrokeType::Tab,
                    timestamp: packet_infos[index].timestamp,
                    response_size: None,
                    seq: packet_infos[index].seq,
                },
            );
            index += 2;
        } else if next <= -k && after <= -k && keystrokes.len() > 0 {
            let start: usize = index + 1;
            proof {
                lemma_response_end_bounds(s, start as int);
            }
            let mut end: usize = start;
            let mut response_size: u128 = 0;
            while end < len && packet_infos[end].length <= 0
                invariant
                    len == s.len(),
                    s == packet_infos@,
                    start <= end <= len,
                    response_end(s, end as int) == response_end(s, start as int),
                    response_size == response_bytes(s, start as int, end as int),
                    response_size <= (end - start) * 0x8000_0000,
                decreases len - end,
            {
                let size: i64 = packet_infos[end].length as i64;
                response_size += (-size) as u128;
                end += 1;
            }
            keystrokes.push(
                Keystroke {
                    k_type: KeystrokeType::Enter,
                    timestamp: packet_infos[index].timestamp,
                    response_size: Some(response_size),
                    seq: packet_infos[index].seq,
                },
            );
            index = end;
        } else {
            index += 1;
        }
    }
    keystrokes
}

/// Half of a size, rounded towards zero.
pub open spec fn half(k: int) -> int {
    if k >= 0 {
        k / 2
    } else {
        -((-k) / 2)
    }
}

/// Half of a keystroke size, rounded towards zero.
pub fn half_size(keystroke_size: i32) -> (h: i32)
    ensures
        h == half(keystroke_size as int),
{
    if keystroke_size >= 0 {
        keystroke_size / 2
    } else {
        let positive: i64 = -(keystroke_size as i64);
        (-(positive / 2)) as i32
    }
}

/// The positions of the packets that look like an Enter in a session with
/// chaff, from the cursor `index` on: a packet of the full size `k` whose
/// two successors are both at most minus half of `k`. After such a packet
/// the cursor goes to the next client packet; anywhere else it moves by
/// two. The scan ends when fewer than two packets follow the cursor.
pub open spec fn returns_from(s: Seq<PacketInfo>, k: int, index: int, found: Seq<usize>) -> Seq<
    usize,
>
    decreases s.len() - index,
{
    if index < 0 || index + 2 >= s.len() {
        found
    } else if s[index].length == k && s[index + 1].length <= -half(k) && s[index + 2].length
        <= -half(k) {
        proof {
            lemma_response_end_bounds(s, index + 2);
        }
        returns_from(s, k, response_end(s, index + 2), found.push(index as usize))
    } else {
        returns_from(s, k, index + 2, found)
    }
}

/// Finds the positions of the packets suspected to be an Enter, from
/// `logged_in_at` on. See `returns_from`.
pub fn find_returns(packet_infos: &[PacketInfo], keystroke_size: i32, logged_in_at: usize) -> (indexes:
    Vec<usize>)
    ensures
        indexes@ == returns_from(
            packet_infos@,
            keystroke_size as int,
            logged_in_at as int,
            Seq::empty(),
        ),
{
    let len = packet_infos.len();
    let k: i64 = keystroke_size as i64;
    let h: i64 = half_size(keystroke_size) as i64;
    let mut index: usize = logged_in_at;
    let mut indexes: Vec<usize> = Vec::new();
    let ghost s = packet_infos@;
    let ghost goal = returns_from(s, k as int, logged_in_at as int, Seq::empty());

    while len >= 2 && index < len - 2
        invariant
            len == s.len(),
            s == packet_infos@,
            k == keystroke_size,
            h == half(k as int),
            returns_from(s, k as int, index as int, indexes@) == goal,
        decreases len - index,
    {
        if packet_infos[index].length as i64 == k && packet_infos[index + 1].length as i64 <= -h
            && packet_infos[index + 2].length as i64 <= -h {
            indexes.push(index);
            let start: usize = index + 2;
            proof {
                lemma_response_end_bounds(s, start as int);
            }
            let mut end: usize = start;
            while end < len && packet_infos[end].length <= 0
                invariant
                    len == s.len(),
                    s == packet_infos@,
                    start <= end <= len,
                    response_end(s, end as int) == response_end(s, start as int),
                decreases len - end,
            {
                end += 1;
            }
            index = end;
        } else {
            index += 2;
        }
    }
    indexes
}

/// The position of the first packet of exactly `size` at or after `from`,
/// or the length of the sequence where there is none.
pub open spec fn first_of_size(s: Seq<PacketInfo>, size: int, from: int) -> int
    decreases s.len() - from,
{
    if from >= s.len() {
        s.len() as int
    } else if s[from].length == size {
        from
    } else {
        first_of_size(s, size, from + 1)
    }
}

/// `first_of_size` lies between its start and the end of the sequence.
pub proof fn lemma_first_of_size_bounds(s: Seq<PacketInfo>, size: int, from: int)
    requires
        0 <= from,
    ensures
        from <= first_of_size(s, size, from) || first_of_size(s, size, from) == s.len(),
        first_of_size(s, size, from) <= s.len(),
        first_of_size(s, size, from) < s.len() ==> s[first_of_size(s, size, from)].length == size,
    decreases s.len() - from,
{
    if from < s.len() && s[from].length != size {
        lemma_first_of_size_bounds(s, size, from + 1);
    }
}

/// The longest pause between two packets of one burst of chaff, in
/// microseconds: a longer one is a gap.
pub const CHAFF_INTERVAL_MICROS: i64 = 35000;

/// Walks from `cursor` in steps of two while at least two packets follow
/// and the packet under the cursor came no more than 35 ms after `last`,
/// the time of the packet before it. Gives the cursor where the walk
/// stops.
pub open spec fn gap_from(s: Seq<PacketInfo>, cursor: int, last: int) -> int
    decreases s.len() - cursor,
{
    if cursor < 0 || cursor + 2 >= s.len() || s[cursor].timestamp - last > CHAFF_INTERVAL_MICROS {
        cursor
    } else {
        gap_from(s, cursor + 2, s[cursor].timestamp as int)
    }
}

/// The gap that follows the return at `ret`, if any: from the first packet
/// of half size at or after `ret`, the first packet two or more steps on
/// that comes more than 35 ms after its predecessor in the walk, with at
/// least two packets after it.
pub open spec fn gap_after(s: Seq<PacketInfo>, k: int, ret: int) -> Option<usize> {
    let slim = first_of_size(s, half(k), ret);
    if slim >= s.len() {
        None
    } else {
        let stop = gap_from(s, slim + 2, s[slim].timestamp as int);
        if stop + 2 < s.len() {
            Some(stop as usize)
        } else {
            None
        }
    }
}

/// The gaps that follow the returns, in the order of the returns; a
/// return without a gap adds nothing.
pub open spec fn chaff_gaps(s: Seq<PacketInfo>, rets: Seq<usize>, k: int) -> Seq<usize>
    decreases rets.len(),
{
    if rets.len() == 0 {
        Seq::empty()
    } else {
        let earlier = chaff_gaps(s, rets.drop_last(), k);
        match gap_after(s, k, rets.last() as int) {
            Some(gap) => earlier.push(gap),
            None => earlier,
        }
    }
}

/// Whether the packet at `g` follows a pause: it came more than 35 ms
/// after the packet two places before it, and two packets follow it.
pub open spec fn follows_pause(s: Seq<PacketInfo>, g: int) -> bool {
    2 <= g && g + 2 < s.len() && s[g].timestamp - s[g - 2].timestamp > CHAFF_INTERVAL_MICROS
}

/// Where the walk stops with two packets to follow, the packet there
/// came more than 35 ms after the one before it in the walk.
pub proof fn lemma_gap_from_pause(s: Seq<PacketInfo>, cursor: int, last: int)
    requires
        2 <= cursor,
        last == s[cursor - 2].timestamp,
    ensures
        cursor <= gap_from(s, cursor, last),
        gap_from(s, cursor, last) + 2 < s.len() ==> follows_pause(s, gap_from(s, cursor, last)),
    decreases s.len() - cursor,
{
    if cursor + 2 < s.len() && s[cursor].timestamp - last <= CHAFF_INTERVAL_MICROS {
        lemma_gap_from_pause(s, cursor + 2, s[cursor].timestamp as int);
    }
}

/// A gap lies behind the return it was found for, and follows a pause.
pub proof fn lemma_gap_after_pause(s: Seq<PacketInfo>, k: int, ret: int)
    requires
        0 <= ret,
        s.len() <= usize::MAX,
    ensures
        gap_after(s, k, ret) matches Some(g) ==> ret + 2 <= g && follows_pause(s, g as int),
{
    lemma_first_of_size_bounds(s, half(k), ret);
    let slim = first_of_size(s, half(k), ret);
    if slim < s.len() {
        lemma_gap_from_pause(s, slim + 2, s[slim].timestamp as int);
    }
}

/// There is at most one gap for each return, and every gap follows a
/// pause.
pub proof fn lemma_chaff_gaps(s: Seq<PacketInfo>, rets: Seq<usize>, k: int)
    requires
        s.len() <= usize::MAX,
    ensures
        chaff_gaps(s, rets, k).len() <= rets.len(),
        forall|i: int|
            0 <= i < chaff_gaps(s, rets, k).len() ==> follows_pause(
                s,
                #[trigger] chaff_gaps(s, rets, k)[i] as int,
            ),
    decreases rets.len(),
{
    if rets.len() > 0 {
        lemma_chaff_gaps(s, rets.drop_last(), k);
        lemma_gap_after_pause(s, k, rets.last() as int);
        let earlier = chaff_gaps(s, rets.drop_last(), k);
        assert forall|i: int| 0 <= i < chaff_gaps(s, rets, k).len() implies follows_pause(
            s,
            #[trigger] chaff_gaps(s, rets, k)[i] as int,
        ) by {
            if i < earlier.len() {
                assert(chaff_gaps(s, rets, k)[i] == earlier[i]);
            }
        }
    }
}

/// Finds, after each return, the first packet that follows a pause of
/// more than 35 ms in the chaff: the start of real typing. See
/// `gap_after`.
pub fn find_chaff_gap(packet_infos: &[PacketInfo], rets: &[usize], keystroke_size: i32) -> (gaps:
    Vec<usize>)
    ensures
        gaps@ == chaff_gaps(packet_infos@, rets@, keystroke_size as int),
        gaps@.len() <= rets@.len(),
        forall|i: int| 0 <= i < gaps@.len() ==> follows_pause(packet_infos@, #[trigger] gaps@[i] as int),
{
    let len = packet_infos.len();
    let h: i32 = half_size(keystroke_size);
    proof {
        lemma_chaff_gaps(packet_infos@, rets@, keystroke_size as int);
    }
    let mut real_slims: Vec<usize> = Vec::new();
    let ghost s = packet_infos@;
    let ghost k = keystroke_size as int;
    let mut r: usize = 0;
    while r < rets.len()
        invariant
            len == s.len(),
            s == packet_infos@,
            k == keystroke_size,
            h == half(k),
            r <= rets.len(),
            real_slims@ == chaff_gaps(s, rets@.take(r as int), k),
        decreases rets.len() - r,
    {
        let ret_index: usize = rets[r];
        let mut itr: usize = ret_index;
        proof {
            assert(rets@.take(r + 1).drop_last() == rets@.take(r as int));
            lemma_first_of_size_bounds(s, h as int, ret_index as int);
        }
        while itr < len && packet_infos[itr].length != h
            invariant
                len == s.len(),
                s == packet_infos@,
                ret_index <= itr,
                first_of_size(s, h as int, itr as int) == first_of_size(s, h as int, ret_index as int),
            decreases len - itr,
        {
            itr += 1;
        }
        if len >= 2 && itr < len - 2 {
            let mut last_timestamp: i64 = packet_infos[itr].timestamp;
            let ghost slim = itr;
            itr += 2;
            while len >= 2 && itr < len - 2 && (packet_infos[itr].timestamp as i128) - (
            last_timestamp as i128) <= (CHAFF_INTERVAL_MICROS as i128)
                invariant
                    len == s.len(),
                    s == packet_infos@,
                    slim + 2 <= itr,
                    gap_from(s, itr as int, last_timestamp as int) == gap_from(
                        s,
                        slim + 2,
                        s[slim as int].timestamp as int,
                    ),
                decreases len - itr,
            {
                last_timestamp = packet_infos[itr].timestamp;
                itr += 2;
            }
            if len >= 2 && itr < len - 2 {
                real_slims.push(itr);
            }
        }
        r += 1;
    }
    proof {
        assert(rets@.take(rets.len() as int) == rets@);
    }
    real_slims
}

/// Whether the packet at `i` is a real slim keystroke: its echo of minus
/// half of `k` and another packet of half of `k` follow it.
pub open spec fn slim_pair(s: Seq<PacketInfo>, k: int, i: int) -> bool {
    0 <= i && i + 2 < s.len() && s[i + 1].length == -half(k) && s[i + 2].length == half(k)
}

/// The packet at `i` and its successor, as far as the sequence holds them.
pub open spec fn pair_at(s: Seq<PacketInfo>, i: int) -> Seq<PacketInfo> {
    if 0 <= i && i + 1 < s.len() {
        seq![s[i], s[i + 1]]
    } else if 0 <= i < s.len() {
        seq![s[i]]
    } else {
        Seq::empty()
    }
}

/// Where the run of server packets that starts at `from` ends: the
/// position of the first packet at or after `from` whose length is not
/// negative, or the length of the sequence.
pub open spec fn block_end(s: Seq<PacketInfo>, from: int) -> int
    decreases s.len() - from,
{
    if from >= s.len() {
        s.len() as int
    } else if s[from].length >= 0 {
        from
    } else {
        block_end(s, from + 1)
    }
}

/// `block_end` lies between its start and the end of the sequence.
pub proof fn lemma_block_end_bounds(s: Seq<PacketInfo>, from: int)
    requires
        0 <= from <= s.len(),
    ensures
        from <= block_end(s, from) <= s.len(),
    decreases s.len() - from,
{
    if from < s.len() && s[from].length < 0 {
        lemma_block_end_bounds(s, from + 1);
    }
}

/// The first of `gaps`, from position `j` on, that lies after `cursor`.
pub open spec fn next_gap(gaps: Seq<usize>, cursor: int, j: int) -> Option<usize>
    decreases gaps.len() - j,
{
    if j < 0 || j >= gaps.len() {
        None
    } else if gaps[j] > cursor {
        Some(gaps[j])
    } else {
        next_gap(gaps, cursor, j + 1)
    }
}

/// Where a walk in steps of two from `cursor` stops before `gap`: at the
/// first position from which two more steps would pass the gap.
pub open spec fn stop_before(cursor: int, gap: int) -> int
    decreases gap - cursor,
{
    if cursor + 2 > gap {
        cursor
    } else {
        stop_before(cursor + 2, gap)
    }
}

/// `kept` with every fat packet, and its successor, that the walk from
/// `cursor` to `gap` passes.
pub open spec fn fat_until(
    s: Seq<PacketInfo>,
    k: int,
    cursor: int,
    gap: int,
    kept: Seq<PacketInfo>,
) -> Seq<PacketInfo>
    decreases gap - cursor,
{
    if cursor + 2 > gap {
        kept
    } else if 0 <= cursor < s.len() && s[cursor].length == k {
        fat_until(s, k, cursor + 2, gap, kept + pair_at(s, cursor))
    } else {
        fat_until(s, k, cursor + 2, gap, kept)
    }
}

/// The walk stops at or after its start, and at or before the gap when it
/// starts before it.
pub proof fn lemma_stop_before_bounds(cursor: int, gap: int)
    ensures
        cursor <= stop_before(cursor, gap),
        cursor <= gap ==> stop_before(cursor, gap) <= gap,
    decreases gap - cursor,
{
    if cursor + 2 <= gap {
        lemma_stop_before_bounds(cursor + 2, gap);
    }
}

/// The gap that counts after the return number `ret_itr`, whose response
/// ended at `cursor`: the first gap after the cursor, if it lies inside
/// the capture and before the next return.
pub open spec fn usable_gap(
    s: Seq<PacketInfo>,
    rets: Seq<usize>,
    gaps: Seq<usize>,
    cursor: int,
    ret_itr: int,
) -> Option<usize> {
    match next_gap(gaps, cursor, 0) {
        Some(gap) => if gap < s.len() && ret_itr + 1 < rets.len() && gap < rets[ret_itr + 1] {
            Some(gap)
        } else {
            None
        },
        None => None,
    }
}

/// Where the cursor stands after the return at `index` was handled: behind
/// its response block, or, with a usable gap, where the walk to the gap
/// stopped.
pub open spec fn cursor_after_return(
    s: Seq<PacketInfo>,
    rets: Seq<usize>,
    gaps: Seq<usize>,
    index: int,
    ret_itr: int,
) -> int {
    let block = block_end(s, index + 1);
    match usable_gap(s, rets, gaps, block, ret_itr) {
        Some(gap) => stop_before(block, gap as int),
        None => block,
    }
}

/// What is kept after the return at `index` was handled: the return, its
/// response block, and, with a usable gap, the fat packets up to the gap
/// and the slim keystroke at the gap.
pub open spec fn kept_after_return(
    s: Seq<PacketInfo>,
    rets: Seq<usize>,
    gaps: Seq<usize>,
    k: int,
    index: int,
    ret_itr: int,
    kept: Seq<PacketInfo>,
) -> Seq<PacketInfo> {
    let block = block_end(s, index + 1);
    let with_block = kept + s.subrange(index, block);
    match usable_gap(s, rets, gaps, block, ret_itr) {
        Some(gap) => {
            let fat = fat_until(s, k, block, gap as int, with_block);
            if stop_before(block, gap as int) == gap && slim_pair(s, k, gap as int) {
                fat + pair_at(s, gap as int)
            } else {
                fat
            }
        },
        None => with_block,
    }
}

/// Whether the chaff removal goes on at `index`: a packet stands there,
/// and either two more follow or a return is still ahead.
pub open spec fn chaff_goes_on(s: Seq<PacketInfo>, rets: Seq<usize>, index: int) -> bool {
    0 <= index < s.len() && (index + 2 < s.len() || (rets.len() > 0 && index <= rets.last()))
}

/// The chaff removal as a state machine over the cursor `index`, the
/// number `ret_itr` of returns handled, and the packets kept so far.
///
/// At the return number `ret_itr` the return and its response block are
/// kept; then, if a gap follows before the next return, the fat packets
/// up to the gap, each with its successor, and the slim keystroke at the
/// gap with its echo. Wherever the cursor then stands, a fat packet is
/// kept with its successor, and the cursor moves by two.
pub open spec fn chaff_free_from(
    s: Seq<PacketInfo>,
    rets: Seq<usize>,
    gaps: Seq<usize>,
    k: int,
    index: int,
    ret_itr: int,
    kept: Seq<PacketInfo>,
) -> Seq<PacketInfo>
    decreases s.len() + 2 - index,
{
    if ret_itr < 0 || !chaff_goes_on(s, rets, index) {
        kept
    } else {
        let at_return = ret_itr < rets.len() && rets[ret_itr] == index;
        let cursor = if at_return {
            cursor_after_return(s, rets, gaps, index, ret_itr)
        } else {
            index
        };
        let kept_here = if at_return {
            kept_after_return(s, rets, gaps, k, index, ret_itr, kept)
        } else {
            kept
        };
        let ret_next = if at_return {
            ret_itr + 1
        } else {
            ret_itr
        };
        let kept_next = if cursor < s.len() && s[cursor].length == k {
            kept_here + pair_at(s, cursor)
        } else {
            kept_here
        };
        proof {
            lemma_cursor_after_return_bounds(s, rets, gaps, index, ret_itr);
        }
        chaff_free_from(s, rets, gaps, k, cursor + 2, ret_next, kept_next)
    }
}

/// After a return the cursor has moved on and still lies within the
/// capture or at its end.
pub proof fn lemma_cursor_after_return_bounds(
    s: Seq<PacketInfo>,
    rets: Seq<usize>,
    gaps: Seq<usize>,
    index: int,
    ret_itr: int,
)
    requires
        0 <= index < s.len(),
    ensures
        index < cursor_after_return(s, rets, gaps, index, ret_itr) <= s.len(),
{
    let block = block_end(s, index + 1);
    lemma_block_end_bounds(s, index + 1);
    match usable_gap(s, rets, gaps, block, ret_itr) {
        Some(gap) => {
            lemma_next_gap_after(gaps, block, 0);
            lemma_stop_before_bounds(block, gap as int);
        },
        None => {},
    }
}

/// A gap that `next_gap` finds lies after the cursor.
pub proof fn lemma_next_gap_after(gaps: Seq<usize>, cursor: int, j: int)
    ensures
        next_gap(gaps, cursor, j) matches Some(gap) ==> gap > cursor,
    decreases gaps.len() - j,
{
    if 0 <= j < gaps.len() && gaps[j] <= cursor {
        lemma_next_gap_after(gaps, cursor, j + 1);
    }
}

/// The capture without chaff: nothing where no packet of half of `k`
/// stands at or after `start`; else that first slim packet with its echo,
/// if it is a real keystroke, and what `chaff_free_from` keeps from there.
pub open spec fn chaff_free(
    s: Seq<PacketInfo>,
    rets: Seq<usize>,
    gaps: Seq<usize>,
    k: int,
    start: int,
) -> Seq<PacketInfo> {
    let first = first_of_size(s, half(k), start);
    if first >= s.len() {
        Seq::empty()
    } else {
        chaff_free_from(
            s,
            rets,
            gaps,
            k,
            first,
            0,
            if slim_pair(s, k, first) {
                pair_at(s, first)
            } else {
                Seq::empty()
            },
        )
    }
}

/// Appends copies of the packet at `i` and of its successor, as far as
/// they exist.
fn keep_pair(packet_infos: &[PacketInfo], i: usize, kept: &mut Vec<PacketInfo>)
    ensures
        final(kept)@ == old(kept)@ + pair_at(packet_infos@, i as int),
{
    let len = packet_infos.len();
    if i < len {
        kept.push(packet_infos[i].duplicate());
        if i < len - 1 {
            kept.push(packet_infos[i + 1].duplicate());
        }
    }
}

/// Whether the packet at `i` is a real slim keystroke.
fn is_slim_pair(packet_infos: &[PacketInfo], h: i32, i: usize) -> (b: bool)
    ensures
        b == (i + 2 < packet_infos@.len() && packet_infos@[i + 1].length == -(h as int)
            && packet_infos@[i + 2].length == h),
{
    let len = packet_infos.len();
    len >= 2 && i < len - 2 && packet_infos[i + 1].length as i64 == -(h as i64) && packet_infos[i
        + 2].length == h
}

/// The first of `gaps` that lies after `cursor`.
fn find_next_gap(gaps: &[usize], cursor: usize) -> (gap: Option<usize>)
    ensures
        gap == next_gap(gaps@, cursor as int, 0),
{
    let mut j: usize = 0;
    while j < gaps.len()
        invariant
            j <= gaps.len(),
            next_gap(gaps@, cursor as int, j as int) == next_gap(gaps@, cursor as int, 0),
        decreases gaps.len() - j,
    {
        if gaps[j] > cursor {
            return Some(gaps[j]);
        }
        j += 1;
    }
    None
}

/// Drops the chaff from a capture, keeping the real keystrokes: the
/// first slim keystroke, every return with its response, the fat packets
/// and the slim keystroke at each gap. See `chaff_free`.
pub fn drop_chaff(
    packet_infos: &[PacketInfo],
    rets: &[usize],
    gaps: &[usize],
    keystroke_size: i32,
    logged_in_at: usize,
) -> (real_keystrokes: Vec<PacketInfo>)
    ensures
        real_keystrokes@ == chaff_free(
            packet_infos@,
            rets@,
            gaps@,
            keystroke_size as int,
            logged_in_at as int,
        ),
{
    let len = packet_infos.len();
    let h: i32 = half_size(keystroke_size);
    let ghost s = packet_infos@;
    let ghost k = keystroke_size as int;
    let mut real_keystrokes: Vec<PacketInfo> = Vec::new();
    let mut index: usize = logged_in_at;
    while index < len && packet_infos[index].length != h
        invariant
            len == s.len(),
            s == packet_infos@,
            first_of_size(s, h as int, index as int) == first_of_size(s, h as int, logged_in_at as int),
        decreases len - index,
    {
        index += 1;
    }
    if index >= len {
        return real_keystrokes;
    }
    if is_slim_pair(packet_infos, h, index) {
        keep_pair(packet_infos, index, &mut real_keystrokes);
    }
    let ghost goal = chaff_free(s, rets@, gaps@, k, logged_in_at as int);
    let mut ret_itr: usize = 0;
    while index < len && ((len >= 2 && index < len - 2) || (rets.len() > 0 && index <= rets[rets.len()
        - 1]))
        invariant
            len == s.len(),
            s == packet_infos@,
            k == keystroke_size,
            h == half(k),
            ret_itr <= rets.len(),
            chaff_free_from(s, rets@, gaps@, k, index as int, ret_itr as int, real_keystrokes@)
                == goal,
        decreases len + 2 - index,
    {
        let mut cursor: usize = index;
        let ghost at_return = ret_itr < rets.len() && rets[ret_itr as int] == index;
        let ghost kept = real_keystrokes@;
        let ghost ret_before = ret_itr;
        if ret_itr < rets.len() && rets[ret_itr] == index {
            proof {
                lemma_block_end_bounds(s, index + 1);
            }
            real_keystrokes.push(packet_infos[index].duplicate());
            cursor = index + 1;
            while cursor < len && packet_infos[cursor].length < 0
                invariant
                    len == s.len(),
                    s == packet_infos@,
                    index < cursor <= len,
                    block_end(s, cursor as int) == block_end(s, index + 1),
                    real_keystrokes@ == kept + s.subrange(index as int, cursor as int),
                decreases len - cursor,
            {
                real_keystrokes.push(packet_infos[cursor].duplicate());
                cursor += 1;
            }
            let ghost block = cursor;
            let ghost with_block = real_keystrokes@;
            match find_next_gap(gaps, cursor) {
                Some(gap) => {
                    if gap < len && ret_itr + 1 < rets.len() && gap < rets[ret_itr + 1] {
                        proof {
                            lemma_next_gap_after(gaps@, cursor as int, 0);
                        }
                        while gap - cursor >= 2
                            invariant
                                len == s.len(),
                                s == packet_infos@,
                                k == keystroke_size,
                                cursor <= gap < len,
                                stop_before(cursor as int, gap as int) == stop_before(
                                    block as int,
                                    gap as int,
                                ),
                                fat_until(s, k, cursor as int, gap as int, real_keystrokes@)
                                    == fat_until(s, k, block as int, gap as int, with_block),
                            decreases gap - cursor,
                        {
                            if packet_infos[cursor].length == keystroke_size {
                                keep_pair(packet_infos, cursor, &mut real_keystrokes);
                            }
                            cursor += 2;
                        }
                        if cursor == gap && is_slim_pair(packet_infos, h, cursor) {
                            keep_pair(packet_infos, cursor, &mut real_keystrokes);
                        }
                    }
                },
                None => {},
            }
            ret_itr += 1;
            assert(cursor == cursor_after_return(s, rets@, gaps@, index as int, ret_before as int));
            assert(real_keystrokes@ == kept_after_return(
                s,
                rets@,
                gaps@,
                k,
                index as int,
                ret_before as int,
                kept,
            ));
        }
        let ghost kept_here = real_keystrokes@;
        assert(chaff_goes_on(s, rets@, index as int));
        if cursor >= len {
            assert(chaff_free_from(s, rets@, gaps@, k, index as int, ret_before as int, kept)
                == chaff_free_from(s, rets@, gaps@, k, cursor + 2, ret_itr as int, real_keystrokes@));
            assert(!chaff_goes_on(s, rets@, cursor + 2));
            assert(!chaff_goes_on(s, rets@, len as int));
            index = len;
        } else {
            if packet_infos[cursor].length == keystroke_size {
                keep_pair(packet_infos, cursor, &mut real_keystrokes);
            }
            assert(chaff_free_from(s, rets@, gaps@, k, index as int, ret_before as int, kept)
                == chaff_free_from(s, rets@, gaps@, k, cursor + 2, ret_itr as int, real_keystrokes@));
            if len - cursor <= 2 {
                assert(!chaff_goes_on(s, rets@, cursor + 2));
                assert(!chaff_goes_on(s, rets@, len as int));
                index = len;
            } else {
                index = cursor + 2;
            }
        }
    }
    real_keystrokes
}

/// Finds and classifies the keystrokes of a session that injects chaff:
/// locates the returns and the gaps in the chaff, drops the chaff, and
/// classifies what is left, from its first packet on, at half the
/// keystroke size.
pub fn scan_for_obfuscated_keystrokes(
    packet_infos: &[PacketInfo],
    keystroke_size: i32,
    logged_in_at: usize,
) -> (keystrokes: Vec<Keystroke>)
    ensures
        keystrokes@ == obfuscated_keystrokes(
            packet_infos@,
            keystroke_size as int,
            logged_in_at as int,
        ),
{
    let rets = find_returns(packet_infos, keystroke_size, logged_in_at);
    let gaps = find_chaff_gap(packet_infos, rets.as_slice(), keystroke_size);
    let real_keystrokes = drop_chaff(
        packet_infos,
        rets.as_slice(),
        gaps.as_slice(),
        keystroke_size,
        logged_in_at,
    );
    scan_for_keystrokes(real_keystrokes.as_slice(), half_size(keystroke_size), 0)
}

/// The keystrokes of a session with chaff: the classification, at half
/// of `k`, of the capture without its chaff.
pub open spec fn obfuscated_keystrokes(s: Seq<PacketInfo>, k: int, start: int) -> Seq<Keystroke> {
    let rets = returns_from(s, k, start, Seq::empty());
    let gaps = chaff_gaps(s, rets, k);
    scan_from(chaff_free(s, rets, gaps, k, start), half(k), 0, Seq::empty(), None)
}

/// An event of the login phase and the position, in the ordered
/// sequence, of the packet it is attributed to.
pub struct Mark {
    pub at: int,
    pub event: Event,
}

/// The key offer that a client packet of this length stands for, going by
/// the sizes observed for each key type: 492 to 500 bytes for RSA, 140 to
/// 148 for ED25519, 188 to 212 for ECDSA.
pub open spec fn offered_key(length: int) -> Option<Event> {
    if 492 <= length <= 500 {
        Some(Event::OfferRSAKey)
    } else if 140 <= length <= 148 {
        Some(Event::OfferED25519Key)
    } else if 188 <= length <= 212 {
        Some(Event::OfferECDSAKey)
    } else {
        None
    }
}

/// The offer that a client packet of this length stands for: of a key
/// of the type that the length tells, or of a key of unknown type.
pub open spec fn offer_of(length: int) -> Event {
    match offered_key(length) {
        Some(offer) => offer,
        None => Event::OfferUnknownKey,
    }
}

/// `marks` with what a prompt behind the client packet at `ptr + 1`
/// tells: the offer of a key and its rejection, if the client packet has
/// the size of an offer, else a wrong password. The offer is attributed
/// to the client packet, the rest to the prompt at `ptr + 2`.
pub open spec fn with_rejection(marks: Seq<Mark>, s: Seq<PacketInfo>, ptr: int) -> Seq<Mark> {
    match offered_key(s[ptr + 1].length as int) {
        Some(offer) => marks.push(Mark { at: ptr + 1, event: offer }).push(
            Mark { at: ptr + 2, event: Event::RejectedKey },
        ),
        None => marks.push(Mark { at: ptr + 2, event: Event::WrongPassword }),
    }
}

/// `marks` with the offer of a key by the client packet at `ptr + 1`,
/// of unknown type where its length tells none, and its acceptance by
/// the packet at `ptr + 2`.
pub open spec fn with_acceptance(marks: Seq<Mark>, s: Seq<PacketInfo>, ptr: int) -> Seq<Mark> {
    marks.push(Mark { at: ptr + 1, event: offer_of(s[ptr + 1].length as int) }).push(
        Mark { at: ptr + 2, event: Event::AcceptedKey },
    )
}

/// The login scan as a state machine over the cursor `ptr` and the
/// events found so far. `logged_in_at` is the position of the
/// authentication success; no step looks beyond it.
///
/// A step looks at the packet under the cursor, the packet behind it
/// and the one behind that:
/// - the latter has the size of a login prompt: the packet between was a
///   key offer that the server rejected, or a wrong password;
/// - the latter is the authentication success: a correct password, if
///   the packet under the cursor is a prompt and a client packet stands
///   between; the scan ends;
/// - else, with a client packet between: a key offer that the server
///   accepted; the scan ends if the authentication success stands four
///   packets behind the cursor;
/// - else nothing.
/// The cursor moves by two.
pub open spec fn login_events_from(
    s: Seq<PacketInfo>,
    prompt_size: int,
    logged_in_at: int,
    ptr: int,
    marks: Seq<Mark>,
) -> Seq<Mark>
    decreases s.len() - ptr,
{
    if ptr < 0 || ptr + 2 >= s.len() || ptr + 2 > logged_in_at {
        marks
    } else if s[ptr + 2].length == prompt_size {
        login_events_from(s, prompt_size, logged_in_at, ptr + 2, with_rejection(marks, s, ptr))
    } else if ptr + 2 == logged_in_at {
        if s[ptr].length == prompt_size && s[ptr + 1].length > 0 {
            marks.push(Mark { at: ptr + 2, event: Event::CorrectPassword })
        } else {
            marks
        }
    } else if s[ptr + 1].length > 0 {
        if ptr + 4 == logged_in_at {
            with_acceptance(marks, s, ptr)
        } else {
            login_events_from(
                s,
                prompt_size,
                logged_in_at,
                ptr + 2,
                with_acceptance(marks, s, ptr),
            )
        }
    } else {
        login_events_from(s, prompt_size, logged_in_at, ptr + 2, marks)
    }
}

/// The events of the login phase. The scan starts at the first login
/// prompt, the fourth packet behind the New Keys message. Nothing is
/// found where the sequence does not reach that far.
pub open spec fn login_events(
    s: Seq<PacketInfo>,
    prompt_size: int,
    new_keys_index: int,
    logged_in_at: int,
) -> Seq<Mark> {
    if new_keys_index < 0 || new_keys_index + 4 >= s.len() {
        Seq::empty()
    } else {
        login_events_from(s, prompt_size, logged_in_at, new_keys_index + 4, Seq::empty())
    }
}

/// Whether an event is the offer of a key.
pub open spec fn is_offer(event: Event) -> bool {
    event == Event::OfferRSAKey || event == Event::OfferECDSAKey || event
        == Event::OfferED25519Key || event == Event::OfferUnknownKey
}

/// An offer at place `i` of the events comes from a client packet and
/// is followed at once by its acceptance or rejection, attributed to
/// the next packet.
pub open spec fn offer_answered(s: Seq<PacketInfo>, marks: Seq<Mark>, i: int) -> bool {
    is_offer(marks[i].event) ==> s[marks[i].at].length > 0 && i + 1 < marks.len() && marks[i
        + 1].at == marks[i].at + 1 && (marks[i + 1].event == Event::AcceptedKey || marks[i
        + 1].event == Event::RejectedKey)
}

/// The event at place `i` is attributed to a packet not behind `upper`.
pub open spec fn mark_before(marks: Seq<Mark>, i: int, upper: int) -> bool {
    marks[i].at <= upper
}

/// The event at place `i` is attributed to a packet behind `first`, not
/// behind `upper`, and behind the packet of the event before it.
pub open spec fn mark_in_order(s: Seq<PacketInfo>, marks: Seq<Mark>, i: int, first: int, upper: int) -> bool {
    &&& first < marks[i].at <= upper
    &&& marks[i].at < s.len()
    &&& i > 0 ==> marks[i - 1].at < marks[i].at
}

/// What holds of the events of a login scan, `first` being the first
/// login prompt:
/// - every event is attributed to a packet behind the first prompt and
///   not behind the login;
/// - the packets they are attributed to follow one another in the order
///   of the events;
/// - an offer comes from a client packet and is followed at once by its
///   acceptance or rejection, attributed to the next packet;
/// - a correct password stands at the end, where the login is: nothing
///   follows it.
pub open spec fn well_ended(
    s: Seq<PacketInfo>,
    marks: Seq<Mark>,
    first: int,
    logged_in_at: int,
) -> bool {
    &&& forall|i: int|
        0 <= i < marks.len() ==> #[trigger] mark_in_order(s, marks, i, first, logged_in_at)
    &&& forall|i: int| 0 <= i < marks.len() ==> #[trigger] offer_answered(s, marks, i)
    &&& forall|i: int|
        0 <= i < marks.len() && (#[trigger] marks[i]).event == Event::CorrectPassword ==> i
            == marks.len() - 1 && marks[i].at == logged_in_at
}

/// Events that are well marked stay so when one more is attributed to a
/// packet behind them.
pub proof fn lemma_mark_pushed(
    s: Seq<PacketInfo>,
    marks: Seq<Mark>,
    mark: Mark,
    first: int,
    ptr: int,
    upper: int,
)
    requires
        ptr <= upper,
        forall|i: int| 0 <= i < marks.len() ==> #[trigger] mark_in_order(s, marks, i, first, ptr),
        forall|i: int| 0 <= i < marks.len() - 1 ==> #[trigger] offer_answered(s, marks, i),
        marks.len() > 0 ==> (offer_answered(s, marks, marks.len() - 1) || (is_offer(
            marks.last().event,
        ) && s[marks.last().at].length > 0 && mark.at == marks.last().at + 1 && (mark.event
            == Event::AcceptedKey || mark.event == Event::RejectedKey))),
        first < mark.at <= upper,
        mark.at < s.len(),
        ptr < mark.at,
        marks.len() > 0 ==> marks.last().at < mark.at,
    ensures
        forall|i: int|
            0 <= i < marks.len() + 1 ==> #[trigger] mark_in_order(s, marks.push(mark), i, first, upper),
        forall|i: int| 0 <= i < marks.len() ==> #[trigger] offer_answered(s, marks.push(mark), i),
{
    let next = marks.push(mark);
    assert forall|i: int| 0 <= i < marks.len() + 1 implies #[trigger] mark_in_order(
        s,
        next,
        i,
        first,
        upper,
    ) by {
        if i < marks.len() {
            assert(mark_in_order(s, marks, i, first, ptr));
        }
    }
    assert forall|i: int| 0 <= i < marks.len() implies #[trigger] offer_answered(s, next, i) by {
        if i < marks.len() - 1 {
            assert(offer_answered(s, marks, i));
        }
    }
}

/// The events of a login scan keep their order and their bounds to the
/// end of the scan.
pub proof fn lemma_login_events_from(
    s: Seq<PacketInfo>,
    prompt_size: int,
    logged_in_at: int,
    first: int,
    ptr: int,
    marks: Seq<Mark>,
)
    requires
        0 <= first <= ptr,
        forall|i: int| 0 <= i < marks.len() ==> #[trigger] mark_in_order(s, marks, i, first, ptr),
        forall|i: int| 0 <= i < marks.len() ==> #[trigger] mark_before(marks, i, logged_in_at),
        forall|i: int| 0 <= i < marks.len() ==> #[trigger] offer_answered(s, marks, i),
        forall|i: int| 0 <= i < marks.len() ==> (#[trigger] marks[i]).event != Event::CorrectPassword,
    ensures
        well_ended(
            s,
            login_events_from(s, prompt_size, logged_in_at, ptr, marks),
            first,
            logged_in_at,
        ),
    decreases s.len() - ptr,
{
    let bound = logged_in_at;
    if ptr + 2 >= s.len() || ptr + 2 > logged_in_at {
        assert forall|i: int| 0 <= i < marks.len() implies #[trigger] mark_in_order(
            s,
            marks,
            i,
            first,
            bound,
        ) by {
            assert(mark_in_order(s, marks, i, first, ptr));
            assert(mark_before(marks, i, logged_in_at));
        }
    } else if s[ptr + 2].length == prompt_size {
        let next = with_rejection(marks, s, ptr);
        match offered_key(s[ptr + 1].length as int) {
            Some(offer) => {
                let offered = Mark { at: ptr + 1, event: offer };
                let rejected = Mark { at: ptr + 2, event: Event::RejectedKey };
                lemma_last_in_order(s, marks, first, ptr);
                lemma_mark_pushed(s, marks, offered, first, ptr, ptr + 1);
                let one = marks.push(offered);
                lemma_mark_pushed(s, one, rejected, first, ptr + 1, ptr + 2);
                assert(offer_answered(s, next, next.len() - 1));
            },
            None => {
                let wrong = Mark { at: ptr + 2, event: Event::WrongPassword };
                lemma_last_in_order(s, marks, first, ptr);
                lemma_mark_pushed(s, marks, wrong, first, ptr, ptr + 2);
                assert(offer_answered(s, next, next.len() - 1));
            },
        }
        assert forall|i: int| 0 <= i < next.len() implies #[trigger] mark_before(
            next,
            i,
            logged_in_at,
        ) by {
            assert(mark_in_order(s, next, i, first, ptr + 2));
        }
        assert forall|i: int| 0 <= i < next.len() implies (#[trigger] next[i]).event
            != Event::CorrectPassword by {
            if i < marks.len() {
                assert(next[i] == marks[i]);
            }
        }
        lemma_login_events_from(s, prompt_size, logged_in_at, first, ptr + 2, next);
    } else if ptr + 2 == logged_in_at {
        if s[ptr].length == prompt_size && s[ptr + 1].length > 0 {
            let correct = Mark { at: ptr + 2, event: Event::CorrectPassword };
            lemma_last_in_order(s, marks, first, ptr);
            lemma_mark_pushed(s, marks, correct, first, ptr, ptr + 2);
            let next = marks.push(correct);
            assert(offer_answered(s, next, next.len() - 1));
            assert forall|i: int|
                0 <= i < next.len() && (#[trigger] next[i]).event
                    == Event::CorrectPassword implies i == next.len() - 1 && next[i].at
                == logged_in_at by {
                if i < marks.len() {
                    assert(next[i] == marks[i]);
                }
            }
        } else {
            assert forall|i: int| 0 <= i < marks.len() implies #[trigger] mark_in_order(
                s,
                marks,
                i,
                first,
                bound,
            ) by {
                assert(mark_in_order(s, marks, i, first, ptr));
            assert(mark_before(marks, i, logged_in_at));
            }
        }
    } else if s[ptr + 1].length > 0 {
        let next = with_acceptance(marks, s, ptr);
        let offered = Mark { at: ptr + 1, event: offer_of(s[ptr + 1].length as int) };
        let accepted = Mark { at: ptr + 2, event: Event::AcceptedKey };
        lemma_last_in_order(s, marks, first, ptr);
        lemma_mark_pushed(s, marks, offered, first, ptr, ptr + 1);
        let one = marks.push(offered);
        lemma_mark_pushed(s, one, accepted, first, ptr + 1, ptr + 2);
        assert(offer_answered(s, next, next.len() - 1));
        assert forall|i: int| 0 <= i < next.len() implies #[trigger] mark_before(
            next,
            i,
            logged_in_at,
        ) by {
            assert(mark_in_order(s, next, i, first, ptr + 2));
        }
        assert forall|i: int| 0 <= i < next.len() implies (#[trigger] next[i]).event
            != Event::CorrectPassword by {
            if i < marks.len() {
                assert(next[i] == marks[i]);
            }
        }
        if ptr + 4 != logged_in_at {
            lemma_login_events_from(s, prompt_size, logged_in_at, first, ptr + 2, next);
        } else {
            assert forall|i: int| 0 <= i < next.len() implies #[trigger] mark_in_order(
                s,
                next,
                i,
                first,
                bound,
            ) by {
                assert(mark_in_order(s, next, i, first, ptr + 2));
            }
        }
    } else {
        assert forall|i: int| 0 <= i < marks.len() implies #[trigger] mark_in_order(
            s,
            marks,
            i,
            first,
            ptr + 2,
        ) by {
            assert(mark_in_order(s, marks, i, first, ptr));
        }
        lemma_login_events_from(s, prompt_size, logged_in_at, first, ptr + 2, marks);
    }
}

/// The last of the events is attributed to a packet not behind the
/// cursor.
pub proof fn lemma_last_in_order(s: Seq<PacketInfo>, marks: Seq<Mark>, first: int, ptr: int)
    requires
        forall|i: int| 0 <= i < marks.len() ==> #[trigger] mark_in_order(s, marks, i, first, ptr),
        forall|i: int| 0 <= i < marks.len() ==> #[trigger] offer_answered(s, marks, i),
    ensures
        marks.len() > 0 ==> marks.last().at <= ptr && offer_answered(s, marks, marks.len() - 1),
{
    if marks.len() > 0 {
        assert(mark_in_order(s, marks, marks.len() - 1, first, ptr));
    }
}

/// The events of the login phase are attributed to packets behind the
/// first prompt and not behind the login, in the order of the packets;
/// every offer comes from a client packet and is followed at once by
/// its acceptance or rejection; and nothing follows a correct password.
pub proof fn lemma_login_events(
    s: Seq<PacketInfo>,
    prompt_size: int,
    new_keys_index: int,
    logged_in_at: int,
)
    requires
        0 <= new_keys_index,
    ensures
        well_ended(
            s,
            login_events(s, prompt_size, new_keys_index, logged_in_at),
            new_keys_index + 4,
            logged_in_at,
        ),
{
    if new_keys_index + 4 < s.len() {
        lemma_login_events_from(
            s,
            prompt_size,
            logged_in_at,
            new_keys_index + 4,
            new_keys_index + 4,
            Seq::empty(),
        );
    }
}

/// `found` holds, for each mark in order, the packet it points at, with
/// the event's name as description.
pub open spec fn labelled(found: Seq<PacketInfo>, s: Seq<PacketInfo>, marks: Seq<Mark>) -> bool {
    &&& found.len() == marks.len()
    &&& forall|i: int|
        0 <= i < marks.len() ==> 0 <= (#[trigger] marks[i]).at < s.len() && found[i].relabels(
            s[marks[i].at],
            marks[i].event.name(),
        )
}

/// Appends a copy of the packet at `at`, described as `event`.
fn push_event(
    found: &mut Vec<PacketInfo>,
    packet_infos: &[PacketInfo],
    at: usize,
    event: Event,
    marks: Ghost<Seq<Mark>>,
)
    requires
        at < packet_infos@.len(),
        labelled(old(found)@, packet_infos@, marks@),
    ensures
        labelled(final(found)@, packet_infos@, marks@.push(Mark { at: at as int, event })),
{
    let name = event.to_string();
    found.push(packet_infos[at].with_description(name.as_str()));
}

/// The key offer that a client packet of this length stands for.
fn offer_for(length: i32) -> (offer: Option<Event>)
    ensures
        offer == offered_key(length as int),
{
    if 492 <= length && length <= 500 {
        Some(Event::OfferRSAKey)
    } else if 140 <= length && length <= 148 {
        Some(Event::OfferED25519Key)
    } else if 188 <= length && length <= 212 {
        Some(Event::OfferECDSAKey)
    } else {
        None
    }
}

/// Scans for what happened between the first login prompt and the
/// successful login: key offers with their acceptance or rejection, and
/// password attempts. Each event comes as a copy of the packet it is
/// attributed to, described by the event's name. See `login_events`.
pub fn scan_login_data(
    packet_infos: &[PacketInfo],
    prompt_size: i32,
    new_keys_index: usize,
    logged_in_at: usize,
) -> (event_packets: Vec<PacketInfo>)
    ensures
        labelled(
            event_packets@,
            packet_infos@,
            login_events(
                packet_infos@,
                prompt_size as int,
                new_keys_index as int,
                logged_in_at as int,
            ),
        ),
        well_ended(
            packet_infos@,
            login_events(
                packet_infos@,
                prompt_size as int,
                new_keys_index as int,
                logged_in_at as int,
            ),
            new_keys_index + 4,
            logged_in_at as int,
        ),
{
    let len = packet_infos.len();
    let mut event_packets: Vec<PacketInfo> = Vec::new();
    proof {
        lemma_login_events(
            packet_infos@,
            prompt_size as int,
            new_keys_index as int,
            logged_in_at as int,
        );
    }
    if len < 5 || new_keys_index >= len - 4 {
        return event_packets;
    }
    let ghost s = packet_infos@;
    let ghost goal = login_events(s, prompt_size as int, new_keys_index as int, logged_in_at as int);
    let ghost mut marks: Seq<Mark> = Seq::empty();
    let mut ptr: usize = new_keys_index + 4;
    while ptr < len - 2 && logged_in_at >= 2 && ptr <= logged_in_at - 2
        invariant_except_break
            login_events_from(s, prompt_size as int, logged_in_at as int, ptr as int, marks) == goal,
        invariant
            len == s.len(),
            s == packet_infos@,
            len >= 5,
            labelled(event_packets@, s, marks),
        ensures
            labelled(event_packets@, s, marks),
            marks == goal,
        decreases len - ptr,
    {
        if packet_infos[ptr + 2].length == prompt_size {
            match offer_for(packet_infos[ptr + 1].length) {
                Some(offer) => {
                    push_event(&mut event_packets, packet_infos, ptr + 1, offer, Ghost(marks));
                    proof {
                        marks = marks.push(Mark { at: ptr + 1, event: offer });
                    }
                    push_event(
                        &mut event_packets,
                        packet_infos,
                        ptr + 2,
                        Event::RejectedKey,
                        Ghost(marks),
                    );
                    proof {
                        marks = marks.push(Mark { at: ptr + 2, event: Event::RejectedKey });
                    }
                },
                None => {
                    push_event(
                        &mut event_packets,
                        packet_infos,
                        ptr + 2,
                        Event::WrongPassword,
                        Ghost(marks),
                    );
                    proof {
                        marks = marks.push(Mark { at: ptr + 2, event: Event::WrongPassword });
                    }
                },
            }
        } else if ptr == logged_in_at - 2 {
            if packet_infos[ptr].length == prompt_size && packet_infos[ptr + 1].length > 0 {
                push_event(
                    &mut event_packets,
                    packet_infos,
                    ptr + 2,
                    Event::CorrectPassword,
                    Ghost(marks),
                );
                proof {
                    marks = marks.push(Mark { at: ptr + 2, event: Event::CorrectPassword });
                }
            }
            break ;
        } else if packet_infos[ptr + 1].length > 0 {
            let offer = match offer_for(packet_infos[ptr + 1].length) {
                Some(offer) => offer,
                None => Event::OfferUnknownKey,
            };
            push_event(&mut event_packets, packet_infos, ptr + 1, offer, Ghost(marks));
            proof {
                marks = marks.push(Mark { at: ptr + 1, event: offer });
            }
            push_event(&mut event_packets, packet_infos, ptr + 2, Event::AcceptedKey, Ghost(marks));
            proof {
                marks = marks.push(Mark { at: ptr + 2, event: Event::AcceptedKey });
            }
            if logged_in_at >= 4 && ptr == logged_in_at - 4 {
                break ;
            }
        }
        ptr += 2;
    }
    event_packets
}

/// The packet that shows the client accepting the server's host key: the
/// one before the first New Keys message (code 21) that is followed by a
/// packet without a message code. Only the first 100 packets are looked
/// at, and only those before the position `logged_in_at`; a New Keys
/// message with no packet before or after it is passed over.
pub open spec fn host_key_accept_from(s: Seq<PacketInfo>, logged_in_at: int, index: int) -> Option<
    int,
>
    decreases s.len() - index,
{
    if index < 0 || index >= s.len() || index >= 100 || index == logged_in_at {
        None
    } else if s[index].message_code == Some(21u32) && index + 1 < s.len() && s[index
        + 1].message_code is None && index >= 1 {
        Some(index - 1)
    } else {
        host_key_accept_from(s, logged_in_at, index + 1)
    }
}

/// Looks for the client's acceptance of the server's host key, which
/// happens when the key is already known to the client. Gives a copy of
/// the packet that carries the server's key, described as
/// "Server hostkey accepted". See `host_key_accept_from`.
pub fn scan_for_host_key_accepts(packet_infos: &[PacketInfo], logged_in_at: usize) -> (result:
    Option<PacketInfo>)
    ensures
        match host_key_accept_from(packet_infos@, logged_in_at as int, 0) {
            Some(at) => 0 <= at < packet_infos@.len() && result is Some && result->0.relabels(
                packet_infos@[at],
                "Server hostkey accepted"@,
            ),
            None => result is None,
        },
{
    let len = packet_infos.len();
    let ghost s = packet_infos@;
    let mut index: usize = 0;
    while index < len && index < 100 && index != logged_in_at
        invariant
            len == s.len(),
            s == packet_infos@,
            host_key_accept_from(s, logged_in_at as int, index as int) == host_key_accept_from(
                s,
                logged_in_at as int,
                0,
            ),
        decreases len - index,
    {
        let is_new_keys = match packet_infos[index].message_code {
            Some(code) => code == 21,
            None => false,
        };
        if is_new_keys && index + 1 < len && packet_infos[index + 1].message_code.is_none() && index
            >= 1 {
            return Some(packet_infos[index - 1].with_description("Server hostkey accepted"));
        }
        index += 1;
    }
    None
}

/// Whether a packet has the size of the authentication success message
/// sent by the server: 28 or 36 bytes.
pub open spec fn is_login_success(p: PacketInfo) -> bool {
    p.length == -28 || p.length == -36
}

/// The position of the first authentication success packet among the
/// first 40 packets of `s`, from `index` on.
pub open spec fn successful_login_from(s: Seq<PacketInfo>, index: int) -> Option<usize>
    decreases s.len() - index,
{
    if index < 0 || index >= s.len() || index >= 40 {
        None
    } else if is_login_success(s[index]) {
        Some(index as usize)
    } else {
        successful_login_from(s, index + 1)
    }
}

/// Looks for the server's authentication success packet among the first
/// 40 packets of the sequence it is given, and gives the position of the
/// first. The packets behind the handshake are the ones to hand in.
pub fn find_successful_login(packet_infos: &[PacketInfo]) -> (result: Option<usize>)
    ensures
        result == successful_login_from(packet_infos@, 0),
        match result {
            Some(at) => at < 40 && at < packet_infos@.len() && is_login_success(
                packet_infos@[at as int],
            ) && forall|j: int| 0 <= j < at ==> !is_login_success(#[trigger] packet_infos@[j]),
            None => forall|j: int|
                0 <= j < packet_infos@.len() && j < 40 ==> !is_login_success(
                    #[trigger] packet_infos@[j],
                ),
        },
{
    let len = packet_infos.len();
    let ghost s = packet_infos@;
    let mut index: usize = 0;
    while index < len && index < 40
        invariant
            len == s.len(),
            s == packet_infos@,
            index <= 40,
            successful_login_from(s, index as int) == successful_login_from(s, 0),
            forall|j: int| 0 <= j < index ==> !is_login_success(#[trigger] s[j]),
        decreases len - index,
    {
        if packet_infos[index].length == -28 || packet_infos[index].length == -36 {
            return Some(index);
        }
        index += 1;
    }
    None
}

/// The size of a length, without its direction.
pub open spec fn magnitude(length: int) -> int {
    vstd::math::abs(length) as int
}

/// The packet pattern that clients on macOS often show after a login
/// with a reverse tunnel. `base` is the position of the login prompt.
pub open spec fn mac_client_signature(s: Seq<PacketInfo>, prompt_size: int, base: int) -> bool {
    &&& s[base + 3].length > 0
    &&& s[base + 4].length < 0
    &&& s[base + 4].length != prompt_size
    &&& s[base + 5].length > 0
    &&& s[base + 6].length < 0
    &&& s[base + 6].length != prompt_size
    &&& magnitude(s[base + 6].length as int) < magnitude(s[base + 5].length as int)
}

/// The packet pattern that clients on Ubuntu often show after a login
/// with a reverse tunnel. `base` is the position of the login prompt.
pub open spec fn ubuntu_client_signature(s: Seq<PacketInfo>, prompt_size: int, base: int) -> bool {
    &&& s[base + 3].length > 0
    &&& s[base + 4].length > 0
    &&& s[base + 5].length != prompt_size
    &&& s[base + 5].length < 0
    &&& s[base + 6].length < 0
    &&& s[base + 6].length != prompt_size
    &&& magnitude(s[base + 6].length as int) < magnitude(s[base + 5].length as int)
    &&& s[base + 7].length > 0
}

/// Whether a reverse tunnel signature follows the New Keys message at
/// `index`, looking from `offset` packets after it. Only offsets below
/// 20 with seven packets after them are looked at. A packet that is not
/// a login prompt is passed over; a prompt followed two packets later by
/// another prompt was a failed login, and the search goes on at that
/// second prompt; after any other prompt the signatures are tried.
pub open spec fn tunnel_after(s: Seq<PacketInfo>, prompt_size: int, index: int, offset: int) -> bool
    decreases 22 - offset,
{
    if index < 0 || offset < 0 || offset >= 20 || index + offset + 7 >= s.len() {
        false
    } else if s[index + offset].length != prompt_size {
        tunnel_after(s, prompt_size, index, offset + 1)
    } else if s[index + offset + 2].length == prompt_size {
        tunnel_after(s, prompt_size, index, offset + 2)
    } else if mac_client_signature(s, prompt_size, index + offset) || ubuntu_client_signature(
        s,
        prompt_size,
        index + offset,
    ) {
        true
    } else {
        tunnel_after(s, prompt_size, index, offset + 1)
    }
}

/// The position of the first New Keys message (code 21), among the first
/// 40 packets from `index` on, that a reverse tunnel signature follows.
pub open spec fn reverse_tunnel_from(s: Seq<PacketInfo>, prompt_size: int, index: int) -> Option<
    int,
>
    decreases s.len() - index,
{
    if index < 0 || index >= s.len() || index >= 40 {
        None
    } else if s[index].message_code == Some(21u32) && tunnel_after(s, prompt_size, index, 4) {
        Some(index)
    } else {
        reverse_tunnel_from(s, prompt_size, index + 1)
    }
}

/// A tunnel is only found where at least eleven packets follow the New
/// Keys message.
pub proof fn lemma_tunnel_after_room(s: Seq<PacketInfo>, prompt_size: int, index: int, offset: int)
    requires
        tunnel_after(s, prompt_size, index, offset),
        offset >= 4,
    ensures
        0 <= index,
        index + 11 < s.len(),
    decreases 22 - offset,
{
    if s[index + offset].length != prompt_size {
        lemma_tunnel_after_room(s, prompt_size, index, offset + 1);
    } else if s[index + offset + 2].length == prompt_size {
        lemma_tunnel_after_room(s, prompt_size, index, offset + 2);
    } else if mac_client_signature(s, prompt_size, index + offset) || ubuntu_client_signature(
        s,
        prompt_size,
        index + offset,
    ) {
    } else {
        lemma_tunnel_after_room(s, prompt_size, index, offset + 1);
    }
}

/// When the session set up a reverse tunnel (`ssh -R`), the time of its
/// start relative to the first packet: the time of the tenth packet
/// after the New Keys message that the signature follows. This is a
/// best-effort detector: the signatures are observations, not protocol.
pub open spec fn reverse_session_start(s: Seq<PacketInfo>, prompt_size: int) -> Option<int> {
    match reverse_tunnel_from(s, prompt_size, 0) {
        Some(index) => Some(s[index + 10].timestamp - s[0].timestamp),
        None => None,
    }
}

/// Looks for the first New Keys message that the signature of a reverse
/// tunnel follows.
fn find_reverse_tunnel(ordered_packets: &Vec<PacketInfo>, prompt_size: i32) -> (found: Option<usize>)
    ensures
        match reverse_tunnel_from(ordered_packets@, prompt_size as int, 0) {
            Some(index) => found is Some && found->0 == index && index + 11 < ordered_packets@.len(),
            None => found is None,
        },
{
    let size = ordered_packets.len();
    let ghost s = ordered_packets@;
    let ghost p = prompt_size as int;
    let mut index: usize = 0;
    while index < size && index < 40
        invariant
            size == s.len(),
            s == ordered_packets@,
            p == prompt_size,
            reverse_tunnel_from(s, p, index as int) == reverse_tunnel_from(s, p, 0),
        decreases size - index,
    {
        let is_new_keys = match ordered_packets[index].message_code {
            Some(code) => code == 21,
            None => false,
        };
        if is_new_keys {
            let mut offset: usize = 4;
            let mut found = false;
            while !found && offset < 20 && index + offset + 7 < size
                invariant
                    size == s.len(),
                    s == ordered_packets@,
                    p == prompt_size,
                    index < 40,
                    4 <= offset <= 21,
                    found ==> tunnel_after(s, p, index as int, 4),
                    !found ==> tunnel_after(s, p, index as int, offset as int) == tunnel_after(
                        s,
                        p,
                        index as int,
                        4,
                    ),
                decreases 22 - offset, (if found { 0int } else { 1int }),
            {
                let base: usize = index + offset;
                if ordered_packets[base].length != prompt_size {
                    offset += 1;
                } else if ordered_packets[base + 2].length == prompt_size {
                    offset += 2;
                } else {
                    let l3: i64 = ordered_packets[base + 3].length as i64;
                    let l4: i64 = ordered_packets[base + 4].length as i64;
                    let l5: i64 = ordered_packets[base + 5].length as i64;
                    let l6: i64 = ordered_packets[base + 6].length as i64;
                    let l7: i64 = ordered_packets[base + 7].length as i64;
                    let prompt: i64 = prompt_size as i64;
                    let mac = l3 > 0 && l4 < 0 && l4 != prompt && l5 > 0 && l6 < 0 && l6 != prompt
                        && -l6 < l5;
                    let ubuntu = l3 > 0 && l4 > 0 && l5 != prompt && l5 < 0 && l6 < 0 && l6
                        != prompt && -l6 < -l5 && l7 > 0;
                    if mac || ubuntu {
                        found = true;
                    } else {
                        offset += 1;
                    }
                }
            }
            if found {
                proof {
                    lemma_tunnel_after_room(s, p, index as int, 4);
                    assert(reverse_tunnel_from(s, p, index as int) == Some(index as int));
                }
                return Some(index);
            }
        }
        index += 1;
    }
    None
}

/// Whether the start of a reverse tunnel, if there is one, fits an
/// `i64` as a time relative to the first packet: what
/// `scan_for_reverse_session_r_option` asks of its input.
pub open spec fn reverse_session_fits(s: Seq<PacketInfo>, prompt_size: int) -> bool {
    reverse_session_start(s, prompt_size) matches Some(t) ==> i64::MIN <= t <= i64::MAX
}

/// Tells whether `scan_for_reverse_session_r_option` may be called.
pub fn check_reverse_session(ordered_packets: &Vec<PacketInfo>, prompt_size: i32) -> (fits: bool)
    ensures
        fits == reverse_session_fits(ordered_packets@, prompt_size as int),
{
    let len = ordered_packets.len();
    match find_reverse_tunnel(ordered_packets, prompt_size) {
        Some(index) => {
            let start: i128 = (ordered_packets[index + 10].timestamp as i128) - (
            ordered_packets[0].timestamp as i128);
            -0x8000_0000_0000_0000 <= start && start <= 0x7fff_ffff_ffff_ffff
        },
        None => true,
    }
}

/// Looks for the signature of a reverse tunnel and gives the time of its
/// start relative to the first packet, in microseconds. See
/// `reverse_session_start`. The relative time has to fit an `i64`, which
/// `check_reverse_session` tells.
pub fn scan_for_reverse_session_r_option(ordered_packets: &Vec<PacketInfo>, prompt_size: i32) -> (result:
    Option<i64>)
    requires
        reverse_session_fits(ordered_packets@, prompt_size as int),
    ensures
        match reverse_session_start(ordered_packets@, prompt_size as int) {
            Some(t) => result == Some(t as i64),
            None => result is None,
        },
{
    let len = ordered_packets.len();
    match find_reverse_tunnel(ordered_packets, prompt_size) {
        Some(index) => Some(ordered_packets[index + 10].timestamp - ordered_packets[0].timestamp),
        None => None,
    }
}

} // verus!
