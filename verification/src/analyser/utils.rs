//! Helpers for packet processing: projection, causal reordering,
//! fingerprint hashing and algorithm negotiation.
use super::containers::{sent_by_server, AnalysisError, Packet, PacketInfo};
use super::scan::{block_end, half, lemma_block_end_bounds};
use md5::{Digest, Md5};
use vstd::prelude::*;
use vstd::string::*;

verus! {

/// How far above the keystroke size a packet may lie and still count as a
/// keystroke or its echo. The reordering and the classification share it.
pub const KEYSTROKE_UPPER_BOUND: i32 = 16;

/// How many packets after a keystroke are searched for its echo.
pub const ECHO_WINDOW: usize = 10;

/// Whether a packet is the echo of a keystroke of size `k`: a server
/// packet of the same size, or 8 or 16 bytes larger.
pub open spec fn is_echo(p: PacketInfo, k: int) -> bool {
    p.length == -k || p.length == -(k + 8) || p.length == -(k + KEYSTROKE_UPPER_BOUND)
}

/// The position of the first echo among the first ten packets of `s`,
/// from `i` on.
pub open spec fn first_echo(s: Seq<PacketInfo>, k: int, i: int) -> Option<int>
    decreases ECHO_WINDOW - i,
{
    if i < 0 || i >= s.len() || i >= ECHO_WINDOW {
        None
    } else if is_echo(s[i], k) {
        Some(i)
    } else {
        first_echo(s, k, i + 1)
    }
}

/// An echo that `first_echo` finds lies within the sequence, at or after
/// the start of the search, and is an echo.
pub proof fn lemma_first_echo_bounds(s: Seq<PacketInfo>, k: int, i: int)
    ensures
        first_echo(s, k, i) matches Some(e) ==> i <= e < s.len() && e < ECHO_WINDOW && is_echo(
            s[e],
            k,
        ),
    decreases ECHO_WINDOW - i,
{
    if 0 <= i < s.len() && i < ECHO_WINDOW && !is_echo(s[i], k) {
        lemma_first_echo_bounds(s, k, i + 1);
    }
}

/// The packets in their inferred order of sending: each client packet of
/// the keystroke size `k` is followed at once by its echo, the first echo
/// among the ten packets behind it; a keystroke without one stays alone.
/// Every other packet keeps its place.
pub open spec fn ordered(s: Seq<PacketInfo>, k: int) -> Seq<PacketInfo>
    decreases s.len(),
{
    if s.len() == 0 {
        Seq::empty()
    } else {
        let rest = s.drop_first();
        if s[0].length == k {
            match first_echo(rest, k, 0) {
                Some(e) => {
                    proof {
                        lemma_first_echo_bounds(rest, k, 0);
                    }
                    seq![s[0], rest[e]] + ordered(rest.remove(e), k)
                },
                None => seq![s[0]] + ordered(rest, k),
            }
        } else {
            seq![s[0]] + ordered(rest, k)
        }
    }
}

/// Reordering keeps the number of packets.
pub proof fn lemma_ordered_len(s: Seq<PacketInfo>, k: int)
    ensures
        ordered(s, k).len() == s.len(),
    decreases s.len(),
{
    if s.len() > 0 {
        let rest = s.drop_first();
        if s[0].length == k {
            lemma_first_echo_bounds(rest, k, 0);
            match first_echo(rest, k, 0) {
                Some(e) => lemma_ordered_len(rest.remove(e), k),
                None => lemma_ordered_len(rest, k),
            }
        } else {
            lemma_ordered_len(rest, k);
        }
    }
}

/// Reordering neither loses nor invents a packet: the ordered packets
/// are the captured ones, each as often as it was captured.
pub proof fn lemma_ordered_permutes(s: Seq<PacketInfo>, k: int)
    ensures
        ordered(s, k).to_multiset() == s.to_multiset(),
    decreases s.len(),
{
    broadcast use vstd::multiset::group_multiset_axioms;

    if s.len() == 0 {
        assert(ordered(s, k) == s);
    } else {
        let rest = s.drop_first();
        let head = seq![s[0]];
        assert(s == head + rest);
        vstd::seq_lib::lemma_multiset_commutative(head, rest);
        let echo = if s[0].length == k {
            first_echo(rest, k, 0)
        } else {
            None
        };
        match echo {
            Some(e) => {
                lemma_first_echo_bounds(rest, k, 0);
                let left = rest.remove(e);
                let x = rest[e];
                let one = seq![x];
                lemma_ordered_permutes(left, k);
                vstd::seq_lib::to_multiset_remove(rest, e);
                rest.to_multiset_ensures();
                assert(rest.to_multiset().count(x) > 0);
                assert(ordered(s, k) == head + (one + ordered(left, k)));
                vstd::seq_lib::lemma_multiset_commutative(head, one + ordered(left, k));
                vstd::seq_lib::lemma_multiset_commutative(one, ordered(left, k));
                assert(one == Seq::<PacketInfo>::empty().push(x));
                vstd::seq_lib::to_multiset_build(Seq::<PacketInfo>::empty(), x);
                vstd::seq_lib::to_multiset_len(Seq::<PacketInfo>::empty());
                vstd::multiset::lemma_multiset_empty_len(Seq::<PacketInfo>::empty().to_multiset());
                let m = rest.to_multiset();
                assert(one.to_multiset().add(m.remove(x)) =~= m);
            },
            None => {
                lemma_ordered_permutes(rest, k);
                assert(ordered(s, k) == head + ordered(rest, k));
                vstd::seq_lib::lemma_multiset_commutative(head, ordered(rest, k));
            },
        }
    }
}

/// Whether the packet at `i` is an echo of a keystroke of size `k`.
fn echoes(packet_infos: &Vec<PacketInfo>, i: usize, k: i64) -> (b: bool)
    requires
        i < packet_infos@.len(),
        -0x1_0000_0000 <= k <= 0x1_0000_0000,
    ensures
        b == is_echo(packet_infos@[i as int], k as int),
{
    let length: i64 = packet_infos[i].length as i64;
    length == -k || length == -(k + 8) || length == -(k + (KEYSTROKE_UPPER_BOUND as i64))
}

/// The position of the first echo of a keystroke of size `k` among the
/// first ten packets.
fn find_echo(packet_infos: &Vec<PacketInfo>, k: i64) -> (found: Option<usize>)
    requires
        -0x1_0000_0000 <= k <= 0x1_0000_0000,
    ensures
        match first_echo(packet_infos@, k as int, 0) {
            Some(e) => found == Some(e as usize) && 0 <= e < packet_infos@.len(),
            None => found is None,
        },
{
    let mut itr: usize = 0;
    proof {
        lemma_first_echo_bounds(packet_infos@, k as int, 0);
    }
    while itr < packet_infos.len() && itr < ECHO_WINDOW
        invariant
            -0x1_0000_0000 <= k <= 0x1_0000_0000,
            first_echo(packet_infos@, k as int, itr as int) == first_echo(packet_infos@, k as int, 0),
        decreases ECHO_WINDOW - itr,
    {
        if echoes(packet_infos, itr, k) {
            return Some(itr);
        }
        itr += 1;
    }
    None
}

/// Orders the packets into their inferred order of sending, emptying
/// `packet_infos`. For every packet of the keystroke size the echo of the
/// server, which the capture may hold out of order, is looked for among
/// the next ten packets and put right behind it. See `ordered`.
pub fn order_keystrokes(packet_infos: &mut Vec<PacketInfo>, keystroke_size: u32) -> (ordered_packets:
    Vec<PacketInfo>)
    ensures
        ordered_packets@ == ordered(old(packet_infos)@, keystroke_size as int),
        ordered_packets@.len() == old(packet_infos)@.len(),
        ordered_packets@.to_multiset() == old(packet_infos)@.to_multiset(),
        final(packet_infos)@.len() == 0,
{
    let k: i64 = keystroke_size as i64;
    let mut ordered_packets: Vec<PacketInfo> = Vec::new();
    let ghost goal = ordered(packet_infos@, k as int);
    proof {
        lemma_ordered_len(packet_infos@, k as int);
        lemma_ordered_permutes(packet_infos@, k as int);
    }
    while packet_infos.len() > 0
        invariant
            k == keystroke_size,
            ordered_packets@ + ordered(packet_infos@, k as int) == goal,
        decreases packet_infos@.len(),
    {
        let ghost s = packet_infos@;
        let ghost done = ordered_packets@;
        let first = packet_infos.remove(0);
        assert(packet_infos@ == s.drop_first());
        let is_keystroke = first.length as i64 == k;
        ordered_packets.push(first);
        if is_keystroke {
            match find_echo(packet_infos, k) {
                Some(e) => {
                    let echo = packet_infos.remove(e);
                    ordered_packets.push(echo);
                    assert(ordered_packets@ == done + seq![s[0], s.drop_first()[e as int]]);
                },
                None => {
                    assert(ordered_packets@ == done + seq![s[0]]);
                },
            }
        } else {
            assert(ordered_packets@ == done + seq![s[0]]);
        }
    }
    ordered_packets
}

/// Whether a packet is an echo of a keystroke of size `h` that carries
/// 8 or 16 bytes of padding.
pub open spec fn is_padded_echo(p: PacketInfo, h: int) -> bool {
    p.length == -(h + 8) || p.length == -(h + KEYSTROKE_UPPER_BOUND)
}

/// The position of the first padded echo among the four packets behind
/// `from`, looking from the `j`th on.
pub open spec fn first_padded_echo(w: Seq<PacketInfo>, h: int, from: int, j: int) -> Option<int>
    decreases 5 - j,
{
    if j < 1 || j > 4 || from + j >= w.len() {
        None
    } else if is_padded_echo(w[from + j], h) {
        Some(from + j)
    } else {
        first_padded_echo(w, h, from, j + 1)
    }
}

/// A padded echo that `first_padded_echo` finds lies behind `from`,
/// within the sequence.
pub proof fn lemma_first_padded_echo_bounds(w: Seq<PacketInfo>, h: int, from: int, j: int)
    requires
        j >= 1,
    ensures
        first_padded_echo(w, h, from, j) matches Some(p) ==> from < p < w.len() && is_padded_echo(
            w[p],
            h,
        ),
    decreases 5 - j,
{
    if j <= 4 && from + j < w.len() && !is_padded_echo(w[from + j], h) {
        lemma_first_padded_echo_bounds(w, h, from, j + 1);
    }
}

/// Whether what follows a fat packet looks like the answer to a return:
/// the second and third packet behind it both came from the server.
pub open spec fn looks_like_return(w: Seq<PacketInfo>) -> bool {
    w.len() > 2 && w[1].length < 0 && w[2].length < 0
}

/// Whether a packet is a chaff echo: an echo of a slim packet that the
/// server sent.
pub open spec fn is_chaff_echo(p: PacketInfo, h: int) -> bool {
    p.length < 0 && is_echo(p, h)
}

/// The position of the chaff echo behind the echo at `e` that is kept:
/// the packet right behind it, if that is a chaff echo.
pub open spec fn chaff_behind(w: Seq<PacketInfo>, h: int, e: int) -> Option<int> {
    if e + 1 < w.len() && is_chaff_echo(w[e + 1], h) {
        Some(e + 1)
    } else {
        None
    }
}

/// What is put behind a fat packet, `w` being the packets after it and
/// `h` half the keystroke size: nothing, where none of the next ten
/// packets is an echo of a slim packet. Else, with `e` the first echo:
/// - an echo of exactly `-h`, where the packets look like the answer to
///   a return: the whole run of server packets from `e` on;
/// - an echo of exactly `-h` otherwise: the first padded echo among the
///   four packets behind `e`, or `e` itself where there is none;
/// - a padded echo: `e` itself.
pub open spec fn fat_emitted(w: Seq<PacketInfo>, h: int) -> Seq<PacketInfo> {
    match first_echo(w, h, 0) {
        None => Seq::empty(),
        Some(e) => if w[e].length == -h {
            if looks_like_return(w) {
                w.subrange(e, block_end(w, e))
            } else {
                match first_padded_echo(w, h, e, 1) {
                    Some(p) => seq![w[p]],
                    None => seq![w[e]],
                }
            }
        } else {
            seq![w[e]]
        },
    }
}

/// The position in `w` of the one chaff echo that leaves when a fat
/// packet is handled, if any does. Nothing leaves where no echo is
/// found, nor where the packets look like the answer to a return. With a
/// padded echo behind the echo `e`, it is `e` that leaves, if the server
/// sent it; else it is the packet right behind the echo that is kept, if
/// that is a chaff echo. No other packet ever leaves.
pub open spec fn fat_chaff(w: Seq<PacketInfo>, h: int) -> Option<int> {
    match first_echo(w, h, 0) {
        None => None,
        Some(e) => if w[e].length == -h {
            if looks_like_return(w) {
                None
            } else {
                match first_padded_echo(w, h, e, 1) {
                    Some(p) => if w[e].length < 0 {
                        Some(e)
                    } else {
                        None
                    },
                    None => chaff_behind(w, h, e),
                }
            }
        } else {
            chaff_behind(w, h, e)
        },
    }
}

/// `w` without the echo at `e` and without the chaff echo behind it.
pub open spec fn without_echo(w: Seq<PacketInfo>, h: int, e: int) -> Seq<PacketInfo> {
    if chaff_behind(w, h, e) is Some {
        w.remove(e).remove(e)
    } else {
        w.remove(e)
    }
}

/// What is left of `w` after a fat packet was handled: all but what was
/// put behind the fat packet and the chaff echo that left.
pub open spec fn fat_remaining(w: Seq<PacketInfo>, h: int) -> Seq<PacketInfo> {
    match first_echo(w, h, 0) {
        None => w,
        Some(e) => if w[e].length == -h {
            if looks_like_return(w) {
                w.subrange(0, e) + w.subrange(block_end(w, e), w.len() as int)
            } else {
                match first_padded_echo(w, h, e, 1) {
                    Some(p) => if w[e].length < 0 {
                        w.remove(p).remove(e)
                    } else {
                        w.remove(p)
                    },
                    None => without_echo(w, h, e),
                }
            }
        } else {
            without_echo(w, h, e)
        },
    }
}

/// The chaff echo that leaves when a fat packet is handled, as a
/// sequence of one packet or none.
pub open spec fn fat_dropped(w: Seq<PacketInfo>, h: int) -> Seq<PacketInfo> {
    match fat_chaff(w, h) {
        Some(c) => seq![w[c]],
        None => Seq::empty(),
    }
}

/// A chaff echo that leaves lies in `w`, came from the server, and is an
/// echo of a slim packet.
pub proof fn lemma_fat_chaff_is_echo(w: Seq<PacketInfo>, h: int)
    ensures
        fat_chaff(w, h) matches Some(c) ==> 0 <= c < w.len() && is_chaff_echo(w[c], h),
{
    lemma_first_echo_bounds(w, h, 0);
}

/// Handling a fat packet never adds packets.
pub proof fn lemma_fat_remaining_len(w: Seq<PacketInfo>, h: int)
    ensures
        fat_remaining(w, h).len() <= w.len(),
        fat_emitted(w, h).len() + fat_remaining(w, h).len() <= w.len(),
{
    lemma_first_echo_bounds(w, h, 0);
    match first_echo(w, h, 0) {
        None => {},
        Some(e) => {
            lemma_block_end_bounds(w, e);
            lemma_first_padded_echo_bounds(w, h, e, 1);
        },
    }
}

/// The packets of a session with chaff in their inferred order of
/// sending, `k` being the full keystroke size. A slim packet, of half of
/// `k`, is paired with its echo as in `ordered`. A fat packet, of `k`,
/// carries two echoes, a real one and chaff: see `fat_emitted` and
/// `fat_remaining`. Every other packet keeps its place.
pub open spec fn ordered_obfuscated(s: Seq<PacketInfo>, k: int) -> Seq<PacketInfo>
    decreases s.len(),
{
    if s.len() == 0 {
        Seq::empty()
    } else {
        let rest = s.drop_first();
        if s[0].length == half(k) {
            match first_echo(rest, half(k), 0) {
                Some(e) => {
                    proof {
                        lemma_first_echo_bounds(rest, half(k), 0);
                    }
                    seq![s[0], rest[e]] + ordered_obfuscated(rest.remove(e), k)
                },
                None => seq![s[0]] + ordered_obfuscated(rest, k),
            }
        } else if s[0].length == k {
            proof {
                lemma_fat_remaining_len(rest, half(k));
            }
            seq![s[0]] + fat_emitted(rest, half(k)) + ordered_obfuscated(
                fat_remaining(rest, half(k)),
                k,
            )
        } else {
            seq![s[0]] + ordered_obfuscated(rest, k)
        }
    }
}

/// A packet taken out of a sequence and the rest of the sequence hold
/// together what the sequence held.
pub proof fn lemma_taken_out(w: Seq<PacketInfo>, i: int)
    requires
        0 <= i < w.len(),
    ensures
        seq![w[i]].to_multiset().add(w.remove(i).to_multiset()) == w.to_multiset(),
{
    broadcast use vstd::multiset::group_multiset_axioms;

    let x = w[i];
    vstd::seq_lib::to_multiset_remove(w, i);
    w.to_multiset_ensures();
    assert(w.to_multiset().count(x) > 0);
    assert(seq![x] == Seq::<PacketInfo>::empty().push(x));
    vstd::seq_lib::to_multiset_build(Seq::<PacketInfo>::empty(), x);
    vstd::seq_lib::to_multiset_len(Seq::<PacketInfo>::empty());
    vstd::multiset::lemma_multiset_empty_len(Seq::<PacketInfo>::empty().to_multiset());
    let m = w.to_multiset();
    assert(seq![x].to_multiset().add(m.remove(x)) =~= m);
}

/// The empty sequence holds nothing.
pub proof fn lemma_nothing_held()
    ensures
        Seq::<PacketInfo>::empty().to_multiset() == vstd::multiset::Multiset::<PacketInfo>::empty(),
{
    vstd::seq_lib::to_multiset_len(Seq::<PacketInfo>::empty());
    vstd::multiset::lemma_multiset_empty_len(Seq::<PacketInfo>::empty().to_multiset());
}

/// Handling a fat packet neither loses nor invents a packet: what is put
/// behind the fat packet, what is left and the chaff echo that leaves
/// hold together what followed the fat packet.
pub proof fn lemma_fat_conserves(w: Seq<PacketInfo>, h: int)
    ensures
        fat_emitted(w, h).to_multiset().add(fat_remaining(w, h).to_multiset()).add(
            fat_dropped(w, h).to_multiset(),
        ) == w.to_multiset(),
{
    broadcast use vstd::multiset::group_multiset_axioms;

    lemma_nothing_held();
    lemma_first_echo_bounds(w, h, 0);
    let total = fat_emitted(w, h).to_multiset().add(fat_remaining(w, h).to_multiset()).add(
        fat_dropped(w, h).to_multiset(),
    );
    match first_echo(w, h, 0) {
        None => {
            assert(total =~= w.to_multiset());
        },
        Some(e) => {
            if w[e].length == -h && looks_like_return(w) {
                lemma_block_end_bounds(w, e);
                let b = block_end(w, e);
                let front = w.subrange(0, e);
                let middle = w.subrange(e, b);
                let back = w.subrange(b, w.len() as int);
                assert(w == front + (middle + back));
                vstd::seq_lib::lemma_multiset_commutative(front, middle + back);
                vstd::seq_lib::lemma_multiset_commutative(middle, back);
                vstd::seq_lib::lemma_multiset_commutative(front, back);
                assert(total =~= w.to_multiset());
            } else if w[e].length == -h && first_padded_echo(w, h, e, 1) is Some {
                lemma_first_padded_echo_bounds(w, h, e, 1);
                let p = first_padded_echo(w, h, e, 1)->0;
                lemma_taken_out(w, p);
                assert(w.remove(p)[e] == w[e]);
                if w[e].length < 0 {
                    lemma_taken_out(w.remove(p), e);
                }
                assert(total =~= w.to_multiset());
            } else {
                lemma_taken_out(w, e);
                if chaff_behind(w, h, e) is Some {
                    assert(w.remove(e)[e] == w[e + 1]);
                    lemma_taken_out(w.remove(e), e);
                }
                assert(total =~= w.to_multiset());
            }
        },
    }
}

/// The chaff echoes that leave when a session with chaff is reordered,
/// in the order in which they leave.
pub open spec fn chaff_dropped(s: Seq<PacketInfo>, k: int) -> Seq<PacketInfo>
    decreases s.len(),
{
    if s.len() == 0 {
        Seq::empty()
    } else {
        let rest = s.drop_first();
        if s[0].length == half(k) {
            match first_echo(rest, half(k), 0) {
                Some(e) => {
                    proof {
                        lemma_first_echo_bounds(rest, half(k), 0);
                    }
                    chaff_dropped(rest.remove(e), k)
                },
                None => chaff_dropped(rest, k),
            }
        } else if s[0].length == k {
            proof {
                lemma_fat_remaining_len(rest, half(k));
            }
            fat_dropped(rest, half(k)) + chaff_dropped(fat_remaining(rest, half(k)), k)
        } else {
            chaff_dropped(rest, k)
        }
    }
}

/// Reordering a session with chaff neither invents a packet nor loses
/// one but chaff: the ordered packets and the chaff echoes that left
/// hold together what was captured, and every packet that left is an
/// echo of a slim packet that the server sent.
pub proof fn lemma_obfuscated_conserves(s: Seq<PacketInfo>, k: int)
    ensures
        ordered_obfuscated(s, k).to_multiset().add(chaff_dropped(s, k).to_multiset())
            == s.to_multiset(),
        ordered_obfuscated(s, k).len() + chaff_dropped(s, k).len() == s.len(),
        forall|i: int|
            0 <= i < chaff_dropped(s, k).len() ==> is_chaff_echo(
                #[trigger] chaff_dropped(s, k)[i],
                half(k),
            ),
    decreases s.len(),
{
    broadcast use vstd::multiset::group_multiset_axioms;

    lemma_nothing_held();
    if s.len() == 0 {
        assert(ordered_obfuscated(s, k) == s);
    } else {
        let rest = s.drop_first();
        let head = seq![s[0]];
        let h = half(k);
        assert(s == head + rest);
        vstd::seq_lib::lemma_multiset_commutative(head, rest);
        if s[0].length == h && first_echo(rest, h, 0) is Some {
            lemma_first_echo_bounds(rest, h, 0);
            let e = first_echo(rest, h, 0)->0;
            let left = rest.remove(e);
            lemma_obfuscated_conserves(left, k);
            lemma_taken_out(rest, e);
            let one = seq![rest[e]];
            assert(ordered_obfuscated(s, k) == head + (one + ordered_obfuscated(left, k)));
            vstd::seq_lib::lemma_multiset_commutative(head, one + ordered_obfuscated(left, k));
            vstd::seq_lib::lemma_multiset_commutative(one, ordered_obfuscated(left, k));
            assert(ordered_obfuscated(s, k).to_multiset().add(chaff_dropped(s, k).to_multiset())
                =~= s.to_multiset());
        } else if s[0].length != h && s[0].length == k {
            lemma_fat_remaining_len(rest, h);
            lemma_fat_conserves(rest, h);
            lemma_fat_chaff_is_echo(rest, h);
            lemma_fat_shares(rest, h);
            let left = fat_remaining(rest, h);
            lemma_obfuscated_conserves(left, k);
            let put = fat_emitted(rest, h);
            let gone = fat_dropped(rest, h);
            assert(ordered_obfuscated(s, k) == head + (put + ordered_obfuscated(left, k)));
            vstd::seq_lib::lemma_multiset_commutative(head, put + ordered_obfuscated(left, k));
            vstd::seq_lib::lemma_multiset_commutative(put, ordered_obfuscated(left, k));
            vstd::seq_lib::lemma_multiset_commutative(gone, chaff_dropped(left, k));
            assert(ordered_obfuscated(s, k).to_multiset().add(chaff_dropped(s, k).to_multiset())
                =~= s.to_multiset());
            assert forall|i: int| 0 <= i < chaff_dropped(s, k).len() implies is_chaff_echo(
                #[trigger] chaff_dropped(s, k)[i],
                h,
            ) by {
                if i >= gone.len() {
                    assert(chaff_dropped(s, k)[i] == chaff_dropped(left, k)[i - gone.len()]);
                }
            }
        } else {
            lemma_obfuscated_conserves(rest, k);
            assert(ordered_obfuscated(s, k) == head + ordered_obfuscated(rest, k));
            vstd::seq_lib::lemma_multiset_commutative(head, ordered_obfuscated(rest, k));
            assert(ordered_obfuscated(s, k).to_multiset().add(chaff_dropped(s, k).to_multiset())
                =~= s.to_multiset());
        }
    }
}

/// The number of fat packets in a sequence: those of exactly the full
/// keystroke size `k`.
pub open spec fn fat_count(s: Seq<PacketInfo>, k: int) -> nat
    decreases s.len(),
{
    if s.len() == 0 {
        0
    } else if s[0].length == k {
        fat_count(s.drop_first(), k) + 1
    } else {
        fat_count(s.drop_first(), k)
    }
}

/// The fat packets of two sequences put together are those of the one
/// and those of the other.
pub proof fn lemma_fat_count_add(a: Seq<PacketInfo>, b: Seq<PacketInfo>, k: int)
    ensures
        fat_count(a + b, k) == fat_count(a, k) + fat_count(b, k),
    decreases a.len(),
{
    if a.len() == 0 {
        assert(a + b == b);
    } else {
        assert((a + b).drop_first() == a.drop_first() + b);
        lemma_fat_count_add(a.drop_first(), b, k);
    }
}

/// A sequence without one of its packets holds no more fat packets.
pub proof fn lemma_fat_count_remove(w: Seq<PacketInfo>, i: int, k: int)
    requires
        0 <= i < w.len(),
    ensures
        fat_count(w.remove(i), k) <= fat_count(w, k),
{
    let front = w.subrange(0, i);
    let one = w.subrange(i, i + 1);
    let back = w.subrange(i + 1, w.len() as int);
    assert(w == front + (one + back));
    assert(w.remove(i) == front + back);
    lemma_fat_count_add(front, one + back, k);
    lemma_fat_count_add(one, back, k);
    lemma_fat_count_add(front, back, k);
}

/// What is left behind a fat packet holds no more fat packets than what
/// followed it.
pub proof fn lemma_fat_count_remaining(w: Seq<PacketInfo>, h: int, k: int)
    ensures
        fat_count(fat_remaining(w, h), k) <= fat_count(w, k),
{
    lemma_first_echo_bounds(w, h, 0);
    match first_echo(w, h, 0) {
        None => {},
        Some(e) => {
            if w[e].length == -h && looks_like_return(w) {
                lemma_block_end_bounds(w, e);
                let b = block_end(w, e);
                let front = w.subrange(0, e);
                let middle = w.subrange(e, b);
                let back = w.subrange(b, w.len() as int);
                assert(w == front + (middle + back));
                lemma_fat_count_add(front, middle + back, k);
                lemma_fat_count_add(middle, back, k);
                lemma_fat_count_add(front, back, k);
            } else if w[e].length == -h && first_padded_echo(w, h, e, 1) is Some {
                lemma_first_padded_echo_bounds(w, h, e, 1);
                let p = first_padded_echo(w, h, e, 1)->0;
                lemma_fat_count_remove(w, p, k);
                if w[e].length < 0 {
                    lemma_fat_count_remove(w.remove(p), e, k);
                }
            } else {
                lemma_fat_count_remove(w, e, k);
                if chaff_behind(w, h, e) is Some {
                    lemma_fat_count_remove(w.remove(e), e, k);
                }
            }
        },
    }
}

/// At most one chaff echo leaves for each fat packet.
pub proof fn lemma_one_chaff_per_fat(s: Seq<PacketInfo>, k: int)
    ensures
        chaff_dropped(s, k).len() <= fat_count(s, k),
    decreases s.len(),
{
    if s.len() > 0 {
        let rest = s.drop_first();
        let h = half(k);
        if s[0].length == h && first_echo(rest, h, 0) is Some {
            lemma_first_echo_bounds(rest, h, 0);
            let e = first_echo(rest, h, 0)->0;
            lemma_one_chaff_per_fat(rest.remove(e), k);
            lemma_fat_count_remove(rest, e, k);
        } else if s[0].length != h && s[0].length == k {
            lemma_fat_remaining_len(rest, h);
            lemma_one_chaff_per_fat(fat_remaining(rest, h), k);
            lemma_fat_count_remaining(rest, h, k);
        } else {
            lemma_one_chaff_per_fat(rest, k);
        }
    }
}

/// Handling a fat packet shares out what followed it: every packet is
/// put behind the fat packet, left, or leaves as chaff.
pub proof fn lemma_fat_shares(w: Seq<PacketInfo>, h: int)
    ensures
        fat_emitted(w, h).len() + fat_remaining(w, h).len() + fat_dropped(w, h).len() == w.len(),
{
    lemma_first_echo_bounds(w, h, 0);
    match first_echo(w, h, 0) {
        None => {},
        Some(e) => {
            lemma_block_end_bounds(w, e);
            lemma_first_padded_echo_bounds(w, h, e, 1);
        },
    }
}

/// The position of the first padded echo among the four packets behind
/// `from`.
fn find_padded_echo(packet_infos: &Vec<PacketInfo>, h: i64, from: usize) -> (found: Option<usize>)
    requires
        from < packet_infos@.len(),
        -0x1_0000_0000 <= h <= 0x1_0000_0000,
    ensures
        match first_padded_echo(packet_infos@, h as int, from as int, 1) {
            Some(p) => found == Some(p as usize) && from < p < packet_infos@.len(),
            None => found is None,
        },
{
    let len = packet_infos.len();
    let mut j: usize = 1;
    proof {
        lemma_first_padded_echo_bounds(packet_infos@, h as int, from as int, 1);
    }
    while j <= 4 && j < len - from
        invariant
            len == packet_infos@.len(),
            from < len,
            1 <= j <= 5,
            -0x1_0000_0000 <= h <= 0x1_0000_0000,
            first_padded_echo(packet_infos@, h as int, from as int, j as int) == first_padded_echo(
                packet_infos@,
                h as int,
                from as int,
                1,
            ),
        decreases 5 - j,
    {
        let length: i64 = packet_infos[from + j].length as i64;
        if length == -(h + 8) || length == -(h + (KEYSTROKE_UPPER_BOUND as i64)) {
            return Some(from + j);
        }
        j += 1;
    }
    None
}

/// Whether the packet at `at` is a chaff echo.
fn is_chaff(packet_infos: &Vec<PacketInfo>, at: usize, h: i64) -> (chaff: bool)
    requires
        -0x1_0000_0000 <= h <= 0x1_0000_0000,
    ensures
        chaff == (at < packet_infos@.len() && is_chaff_echo(packet_infos@[at as int], h as int)),
{
    at < packet_infos.len() && packet_infos[at].length < 0 && echoes(packet_infos, at, h)
}

/// Removes the echo at `at`, and the chaff echo behind it if there is
/// one, and gives the first.
fn take_echo(packet_infos: &mut Vec<PacketInfo>, at: usize, h: i64) -> (kept: PacketInfo)
    requires
        at < old(packet_infos)@.len(),
        -0x1_0000_0000 <= h <= 0x1_0000_0000,
    ensures
        kept == old(packet_infos)@[at as int],
        final(packet_infos)@ == without_echo(old(packet_infos)@, h as int, at as int),
{
    let kept = packet_infos.remove(at);
    if is_chaff(packet_infos, at, h) {
        let _ = packet_infos.remove(at);
    }
    kept
}

/// Handles what follows a fat packet: moves what belongs behind it from
/// `packet_infos` to `ordered_packets`, and drops one chaff echo.
fn order_fat(packet_infos: &mut Vec<PacketInfo>, ordered_packets: &mut Vec<PacketInfo>, h: i64)
    requires
        -0x1_0000_0000 <= h <= 0x1_0000_0000,
    ensures
        final(ordered_packets)@ == old(ordered_packets)@ + fat_emitted(
            old(packet_infos)@,
            h as int,
        ),
        final(packet_infos)@ == fat_remaining(old(packet_infos)@, h as int),
{
    let ghost w = packet_infos@;
    let ghost done = ordered_packets@;
    proof {
        lemma_first_echo_bounds(w, h as int, 0);
    }
    match find_echo(packet_infos, h) {
        None => {
            assert(ordered_packets@ == done + Seq::<PacketInfo>::empty());
        },
        Some(e) => {
            if packet_infos[e].length as i64 == -h {
                if packet_infos.len() > 2 && packet_infos[1].length < 0 && packet_infos[2].length
                    < 0 {
                    let ghost mut end: int = e as int;
                    proof {
                        lemma_block_end_bounds(w, e as int);
                    }
                    while e < packet_infos.len() && packet_infos[e].length < 0
                        invariant
                            e <= end <= w.len(),
                            block_end(w, end) == block_end(w, e as int),
                            packet_infos@ == w.subrange(0, e as int) + w.subrange(
                                end,
                                w.len() as int,
                            ),
                            ordered_packets@ == done + w.subrange(e as int, end),
                        decreases w.len() - end,
                    {
                        assert(packet_infos@[e as int] == w[end]);
                        let moved = packet_infos.remove(e);
                        ordered_packets.push(moved);
                        proof {
                            end = end + 1;
                        }
                    }
                    proof {
                        if e < packet_infos@.len() {
                            assert(packet_infos@[e as int] == w[end]);
                        }
                        assert(block_end(w, end) == end);
                    }
                } else {
                    match find_padded_echo(packet_infos, h, e) {
                        Some(p) => {
                            let echo = packet_infos.remove(p);
                            ordered_packets.push(echo);
                            if packet_infos[e].length < 0 {
                                let _ = packet_infos.remove(e);
                            }
                        },
                        None => {
                            let echo = take_echo(packet_infos, e, h);
                            ordered_packets.push(echo);
                        },
                    }
                }
            } else {
                let echo = take_echo(packet_infos, e, h);
                ordered_packets.push(echo);
            }
        },
    }
}

/// Orders the packets of a session with chaff into their inferred order
/// of sending, emptying `packet_infos`. Slim packets, of half the
/// keystroke size, are paired with their echo; behind a fat packet, of
/// the full size, the real echo is kept and one chaff echo of the server
/// is dropped. Nothing else is ever left out. See `ordered_obfuscated`.
pub fn order_obfuscated_keystrokes(packet_infos: &mut Vec<PacketInfo>, keystroke_size: u32) -> (ordered_packets:
    Vec<PacketInfo>)
    ensures
        ordered_packets@ == ordered_obfuscated(old(packet_infos)@, keystroke_size as int),
        ordered_packets@.len() + chaff_dropped(old(packet_infos)@, keystroke_size as int).len()
            == old(packet_infos)@.len(),
        ordered_packets@.to_multiset().add(
            chaff_dropped(old(packet_infos)@, keystroke_size as int).to_multiset(),
        ) == old(packet_infos)@.to_multiset(),
        forall|i: int|
            0 <= i < chaff_dropped(old(packet_infos)@, keystroke_size as int).len()
                ==> is_chaff_echo(
                #[trigger] chaff_dropped(old(packet_infos)@, keystroke_size as int)[i],
                half(keystroke_size as int),
            ),
        chaff_dropped(old(packet_infos)@, keystroke_size as int).len() <= fat_count(
            old(packet_infos)@,
            keystroke_size as int,
        ),
        final(packet_infos)@.len() == 0,
{
    let k: i64 = keystroke_size as i64;
    let h: i64 = (keystroke_size / 2) as i64;
    let mut ordered_packets: Vec<PacketInfo> = Vec::new();
    let ghost goal = ordered_obfuscated(packet_infos@, k as int);
    proof {
        lemma_obfuscated_conserves(packet_infos@, k as int);
        lemma_one_chaff_per_fat(packet_infos@, k as int);
    }
    while packet_infos.len() > 0
        invariant
            k == keystroke_size,
            h == half(k as int),
            ordered_packets@ + ordered_obfuscated(packet_infos@, k as int) == goal,
        decreases packet_infos@.len(),
    {
        let ghost s = packet_infos@;
        let ghost done = ordered_packets@;
        let first = packet_infos.remove(0);
        assert(packet_infos@ == s.drop_first());
        let length: i64 = first.length as i64;
        ordered_packets.push(first);
        if length == h {
            match find_echo(packet_infos, h) {
                Some(e) => {
                    let echo = packet_infos.remove(e);
                    ordered_packets.push(echo);
                    assert(ordered_packets@ == done + seq![s[0], s.drop_first()[e as int]]);
                },
                None => {
                    assert(ordered_packets@ == done + seq![s[0]]);
                },
            }
        } else if length == k {
            proof {
                lemma_fat_remaining_len(s.drop_first(), h as int);
            }
            order_fat(packet_infos, &mut ordered_packets, h);
            assert(ordered_packets@ == done + (seq![s[0]] + fat_emitted(s.drop_first(), h as int)));
        } else {
            assert(ordered_packets@ == done + seq![s[0]]);
        }
    }
    ordered_packets
}

/// Whether the server sent this packet: the client holds the higher port.
/// The packet has to have a TCP layer.
pub fn is_server_packet(packet: &Packet) -> (from_server: bool)
    requires
        packet.tcp is Some,
    ensures
        from_server == sent_by_server(packet.tcp->0),
{
    match &packet.tcp {
        Some(tcp) => tcp.dstport > tcp.srcport,
        None => false,
    }
}

/// The SSH message code of a packet, if it carries one. The packet has
/// to have an SSH layer.
pub fn get_message_code(packet: &Packet) -> (code: Option<u32>)
    requires
        packet.ssh is Some,
    ensures
        code == packet.ssh->0.message_code,
{
    match &packet.ssh {
        Some(ssh) => ssh.message_code,
        None => None,
    }
}

/// The position of the first packet, from `i` on, that cannot be
/// projected.
pub open spec fn first_unprojectable(packets: Seq<Packet>, i: int) -> Option<int>
    decreases packets.len() - i,
{
    if i < 0 || i >= packets.len() {
        None
    } else if !PacketInfo::projectable(packets[i]) {
        Some(i)
    } else {
        first_unprojectable(packets, i + 1)
    }
}

/// The projections of the packets of a stream, in the order of the
/// stream, each at its position and without description.
pub open spec fn size_matrix(packets: Seq<Packet>) -> Seq<PacketInfo> {
    Seq::new(packets.len(), |i: int| PacketInfo::projection(packets[i], i as usize))
}

/// Projects the packets of a stream, keeping their order and number. A
/// packet that the server sent gets a negative length. Fails at the first
/// packet that has no TCP layer or whose length is beyond `i32::MAX`.
pub fn create_size_matrix(packets: &[Packet]) -> (result: Result<Vec<PacketInfo>, AnalysisError>)
    ensures
        match first_unprojectable(packets@, 0) {
            Some(i) => result == Err::<Vec<PacketInfo>, AnalysisError>(
                PacketInfo::projection_error(packets@[i]),
            ),
            None => result is Ok && result->Ok_0@ == size_matrix(packets@),
        },
{
    let mut matrix: Vec<PacketInfo> = Vec::new();
    let mut index: usize = 0;
    while index < packets.len()
        invariant
            index <= packets@.len(),
            first_unprojectable(packets@, index as int) == first_unprojectable(packets@, 0),
            matrix@.len() == index,
            forall|j: int|
                0 <= j < index ==> #[trigger] matrix@[j] == PacketInfo::projection(
                    packets@[j],
                    j as usize,
                ),
        decreases packets@.len() - index,
    {
        match PacketInfo::new(&packets[index], index, None) {
            Ok(info) => {
                matrix.push(info);
            },
            Err(e) => {
                return Err(e);
            },
        }
        index += 1;
    }
    assert(matrix@ == size_matrix(packets@));
    Ok(matrix)
}

/// The MD5 digest of a sequence of bytes.
pub uninterp spec fn md5_digest(data: Seq<u8>) -> Seq<u8>;

/// Calls `Md5::digest` of the md-5 crate. The result is the MD5 digest of
/// `data`, which is 16 bytes long; the digest itself is named, not
/// spelled out.
#[verifier::external_body]
fn md5_bytes(data: &[u8]) -> (digest: Vec<u8>)
    ensures
        digest@ == md5_digest(data@),
        digest@.len() == 16,
{
    Md5::digest(data).to_vec()
}

/// The lowercase hexadecimal digit for a value below 16.
pub open spec fn hex_digit(value: int) -> char {
    seq!['0', '1', '2', '3', '4', '5', '6', '7', '8', '9', 'a', 'b', 'c', 'd', 'e', 'f'][value]
}

/// Bytes in lowercase hexadecimal, two digits a byte, the high half
/// first.
pub open spec fn hex_lower(data: Seq<u8>) -> Seq<char>
    decreases data.len(),
{
    if data.len() == 0 {
        Seq::empty()
    } else {
        hex_lower(data.drop_last()) + seq![
            hex_digit(data.last() as int / 16),
            hex_digit(data.last() as int % 16),
        ]
    }
}

/// Calls `hex::encode`. The result holds two lowercase hexadecimal digits
/// for each byte of `data`, in the order of the bytes.
#[verifier::external_body]
fn hex_encode(data: &[u8]) -> (text: String)
    ensures
        text@ == hex_lower(data@),
{
    hex::encode(data)
}

/// Whether a character is a lowercase hexadecimal digit.
pub open spec fn is_hex_digit(c: char) -> bool {
    exists|value: int| 0 <= value < 16 && c == hex_digit(value)
}

/// Bytes in hexadecimal take two characters each, all of them lowercase
/// hexadecimal digits.
pub proof fn lemma_hex_lower_shape(data: Seq<u8>)
    ensures
        hex_lower(data).len() == 2 * data.len(),
        forall|i: int| 0 <= i < hex_lower(data).len() ==> is_hex_digit(#[trigger] hex_lower(data)[i]),
    decreases data.len(),
{
    if data.len() > 0 {
        lemma_hex_lower_shape(data.drop_last());
        let front = hex_lower(data.drop_last());
        let high = data.last() as int / 16;
        let low = data.last() as int % 16;
        assert forall|i: int| 0 <= i < hex_lower(data).len() implies is_hex_digit(
            #[trigger] hex_lower(data)[i],
        ) by {
            if i < front.len() {
                assert(hex_lower(data)[i] == front[i]);
            } else if i == front.len() {
                assert(hex_lower(data)[i] == hex_digit(high));
            } else {
                assert(hex_lower(data)[i] == hex_digit(low));
            }
        }
    }
}

/// The fingerprint of a text: the MD5 digest of its UTF-8 encoding, in
/// lowercase hexadecimal.
pub open spec fn fingerprint(text: Seq<char>) -> Seq<char> {
    hex_lower(md5_digest(vstd::utf8::encode_utf8(text)))
}

/// The fingerprint is a function of the text alone: equal texts have
/// equal fingerprints.
pub proof fn lemma_fingerprint_deterministic(a: Seq<char>, b: Seq<char>)
    requires
        a == b,
    ensures
        fingerprint(a) == fingerprint(b),
{
}

/// The MD5 hash of a text in lowercase hexadecimal, as used for the
/// fingerprints of client and server: 32 characters, each a lowercase
/// hexadecimal digit, that depend on the text alone.
pub fn get_md5_hash(string_in: String) -> (hash: String)
    ensures
        hash@ == fingerprint(string_in@),
        hash@.len() == 32,
        forall|i: int| 0 <= i < 32 ==> is_hex_digit(#[trigger] hash@[i]),
{
    let digest = md5_bytes(string_in.as_str().as_bytes());
    proof {
        lemma_hex_lower_shape(digest@);
    }
    hex_encode(digest.as_slice())
}

/// The characters of a text.
pub fn to_chars(text: &str) -> (chars: Vec<char>)
    ensures
        chars@ == text@,
{
    let len = text.unicode_len();
    let mut chars: Vec<char> = Vec::new();
    let mut i: usize = 0;
    while i < len
        invariant
            len == text@.len(),
            i <= len,
            chars@ == text@.take(i as int),
        decreases len - i,
    {
        chars.push(text.get_char(i));
        i += 1;
    }
    chars
}

/// The position of the first comma in `s` at or after `from`, or the
/// length of `s` where there is none.
pub open spec fn next_comma(s: Seq<char>, from: int) -> int
    decreases s.len() - from,
{
    if from >= s.len() {
        s.len() as int
    } else if s[from] == ',' {
        from
    } else {
        next_comma(s, from + 1)
    }
}

/// `next_comma` lies between its start and the end of the text.
pub proof fn lemma_next_comma_bounds(s: Seq<char>, from: int)
    requires
        0 <= from <= s.len(),
    ensures
        from <= next_comma(s, from) <= s.len(),
    decreases s.len() - from,
{
    if from < s.len() && s[from] != ',' {
        lemma_next_comma_bounds(s, from + 1);
    }
}

/// Whether `entry` is one of the comma-separated entries of `list` that
/// start at or after `start`, itself the start of an entry.
pub open spec fn has_entry(list: Seq<char>, entry: Seq<char>, start: int) -> bool
    decreases list.len() - start,
{
    if start < 0 || start > list.len() {
        false
    } else {
        let end = next_comma(list, start);
        if list.subrange(start, end) == entry {
            true
        } else if end >= list.len() {
            false
        } else {
            proof {
                lemma_next_comma_bounds(list, start);
            }
            has_entry(list, entry, end + 1)
        }
    }
}

/// The first of the comma-separated entries of `first`, from the entry
/// that starts at `start` on, that is also an entry of `second`.
pub open spec fn common_from(first: Seq<char>, second: Seq<char>, start: int) -> Option<Seq<char>>
    decreases first.len() - start,
{
    if start < 0 || start > first.len() {
        None
    } else {
        let end = next_comma(first, start);
        if has_entry(second, first.subrange(start, end), 0) {
            Some(first.subrange(start, end))
        } else if end >= first.len() {
            None
        } else {
            proof {
                lemma_next_comma_bounds(first, start);
            }
            common_from(first, second, end + 1)
        }
    }
}

/// The negotiated algorithm: the first entry of the comma-separated list
/// `first` that the list `second` holds too. An empty list counts as one
/// empty entry.
pub open spec fn common_algorithm(first: Seq<char>, second: Seq<char>) -> Option<Seq<char>> {
    common_from(first, second, 0)
}

/// The position of the first comma at or after `from`.
fn find_comma(list: &Vec<char>, from: usize) -> (end: usize)
    requires
        from <= list@.len(),
    ensures
        end == next_comma(list@, from as int),
        from <= end <= list@.len(),
{
    let mut end: usize = from;
    proof {
        lemma_next_comma_bounds(list@, from as int);
    }
    while end < list.len() && list[end] != ','
        invariant
            from <= end <= list@.len(),
            next_comma(list@, end as int) == next_comma(list@, from as int),
        decreases list@.len() - end,
    {
        end += 1;
    }
    end
}

/// Whether two stretches of text hold the same characters.
fn same_text(a: &Vec<char>, a_start: usize, a_end: usize, b: &Vec<char>, b_start: usize, b_end: usize) -> (same:
    bool)
    requires
        a_start <= a_end <= a@.len(),
        b_start <= b_end <= b@.len(),
    ensures
        same == (a@.subrange(a_start as int, a_end as int) == b@.subrange(
            b_start as int,
            b_end as int,
        )),
{
    if a_end - a_start != b_end - b_start {
        assert(a@.subrange(a_start as int, a_end as int).len() != b@.subrange(
            b_start as int,
            b_end as int,
        ).len());
        return false;
    }
    let n = a_end - a_start;
    let ghost x = a@.subrange(a_start as int, a_end as int);
    let ghost y = b@.subrange(b_start as int, b_end as int);
    let mut i: usize = 0;
    while i < n
        invariant
            a_start <= a_end <= a@.len(),
            b_start <= b_end <= b@.len(),
            n == a_end - a_start,
            n == b_end - b_start,
            x == a@.subrange(a_start as int, a_end as int),
            y == b@.subrange(b_start as int, b_end as int),
            i <= n,
            forall|j: int| 0 <= j < i ==> x[j] == y[j],
        decreases n - i,
    {
        if a[a_start + i] != b[b_start + i] {
            assert(x[i as int] != y[i as int]);
            return false;
        }
        i += 1;
    }
    assert(x =~= y);
    true
}

/// Whether the stretch `start..end` of `entry` is an entry of `list`.
fn list_has_entry(list: &Vec<char>, entry: &Vec<char>, start: usize, end: usize) -> (found: bool)
    requires
        start <= end <= entry@.len(),
    ensures
        found == has_entry(list@, entry@.subrange(start as int, end as int), 0),
{
    let ghost e = entry@.subrange(start as int, end as int);
    let mut at: usize = 0;
    loop
        invariant
            start <= end <= entry@.len(),
            e == entry@.subrange(start as int, end as int),
            at <= list@.len(),
            has_entry(list@, e, at as int) == has_entry(list@, e, 0),
        decreases list@.len() - at,
    {
        let stop = find_comma(list, at);
        if same_text(list, at, stop, entry, start, end) {
            return true;
        }
        if stop >= list.len() {
            return false;
        }
        at = stop + 1;
    }
}

/// Finds the negotiated algorithm of two comma-separated lists: the first
/// entry of `first` that `second` holds too. Both lists are in order of
/// preference, so this is the first mutual option.
pub fn find_common_algorithm(first: &str, second: &str) -> (result: Option<String>)
    ensures
        match common_algorithm(first@, second@) {
            Some(entry) => result is Some && result->0@ == entry,
            None => result is None,
        },
{
    let a = to_chars(first);
    let b = to_chars(second);
    let mut start: usize = 0;
    loop
        invariant
            a@ == first@,
            b@ == second@,
            start <= a@.len(),
            common_from(a@, b@, start as int) == common_from(a@, b@, 0),
        decreases a@.len() - start,
    {
        let end = find_comma(&a, start);
        if list_has_entry(&b, &a, start, end) {
            let entry = first.substring_char(start, end);
            return Some(String::from_str(entry));
        }
        if end >= a.len() {
            return None;
        }
        start = end + 1;
    }
}

/// Whether the version marker "9." followed by one of 5, 6, 7, 8 stands
/// at position `i` of `text`.
pub open spec fn marker_at(text: Seq<char>, i: int) -> bool {
    &&& 0 <= i
    &&& i + 3 <= text.len()
    &&& text[i] == '9'
    &&& text[i + 1] == '.'
    &&& (text[i + 2] == '5' || text[i + 2] == '6' || text[i + 2] == '7' || text[i + 2] == '8')
}

/// Whether a version banner names a release that can inject chaff: it
/// holds "9.5", "9.6", "9.7" or "9.8" somewhere.
pub open spec fn chaff_capable(banner: Seq<char>) -> bool {
    exists|i: int| marker_at(banner, i)
}

/// Whether a version banner names a release that can inject chaff.
fn names_chaff_version(banner: &str) -> (capable: bool)
    ensures
        capable == chaff_capable(banner@),
{
    let text = to_chars(banner);
    let len = text.len();
    let mut i: usize = 0;
    while len >= 3 && i <= len - 3
        invariant
            len == text@.len(),
            text@ == banner@,
            forall|j: int| 0 <= j < i ==> !marker_at(text@, j),
        decreases len - i,
    {
        if text[i] == '9' && text[i + 1] == '.' && (text[i + 2] == '5' || text[i + 2] == '6'
            || text[i + 2] == '7' || text[i + 2] == '8') {
            assert(marker_at(text@, i as int));
            return true;
        }
        i += 1;
    }
    false
}

/// Whether the session should be treated as obfuscated: the banners of
/// both client and server name a release that ships the chaff
/// countermeasure. Either side may still have it switched off.
pub fn is_obfuscated(client: &str, server: &str) -> (obfuscated: bool)
    ensures
        obfuscated == (chaff_capable(client@) && chaff_capable(server@)),
{
    let client_capable = names_chaff_version(client);
    let server_capable = names_chaff_version(server);
    client_capable && server_capable
}

} // verus!
