//! The scanners on short, handwritten packet sequences.
use sshniff::analyser::containers::{Event, Keystroke, KeystrokeType, PacketInfo};
use sshniff::analyser::scan::{
    check_reverse_session, drop_chaff, find_chaff_gap, find_returns, find_successful_login,
    half_size,
    scan_for_host_key_accepts, scan_for_keystrokes, scan_for_obfuscated_keystrokes,
    scan_for_reverse_session_r_option, scan_login_data,
};
use sshniff::analyser::utils::{order_keystrokes, order_obfuscated_keystrokes};

/// A packet at `index`, captured 10 ms after its predecessor.
fn info(index: usize, length: i32) -> PacketInfo {
    PacketInfo {
        index,
        seq: 1000 + index as i64,
        length,
        timestamp: 10_000 * index as i64,
        from_server: length < 0,
        message_code: None,
        description: None,
    }
}

fn infos(lengths: &[i32]) -> Vec<PacketInfo> {
    lengths.iter().enumerate().map(|(i, l)| info(i, *l)).collect()
}

fn lengths(packets: &[PacketInfo]) -> Vec<i32> {
    packets.iter().map(|p| p.length).collect()
}

fn positions(packets: &[PacketInfo]) -> Vec<usize> {
    packets.iter().map(|p| p.index).collect()
}

fn key(kind: KeystrokeType, at: usize) -> Keystroke {
    Keystroke { k_type: kind, timestamp: 10_000 * at as i64, response_size: None, seq: 1000 + at as i64 }
}

#[test]
fn keystroke_delete_tab_and_enter_are_told_apart() {
    let s = infos(&[36, -36, 36, -44, 36, -100, 36, -36, -60, -70]);
    let found = scan_for_keystrokes(&s, 36, 0);
    assert_eq!(
        vec![
            key(KeystrokeType::Keystroke, 0),
            key(KeystrokeType::Delete, 2),
            key(KeystrokeType::Tab, 4),
            // The response is every packet of the server behind the Enter.
            Keystroke {
                k_type: KeystrokeType::Enter,
                timestamp: 60_000,
                response_size: Some(166),
                seq: 1006,
            },
        ],
        found
    );
}

#[test]
fn an_enter_carries_time_and_number_of_its_own_packet() {
    let s = infos(&[36, -36, 36, -36, -500, -76, 36, -36, 36, 7]);
    let found = scan_for_keystrokes(&s, 36, 0);
    assert_eq!(
        vec![
            key(KeystrokeType::Keystroke, 0),
            Keystroke {
                k_type: KeystrokeType::Enter,
                timestamp: 20_000,
                response_size: Some(612),
                seq: 1002,
            },
            key(KeystrokeType::Keystroke, 6),
        ],
        found
    );
    let s = infos(&[36, -36, 36, -36, -100, 36, -36, 36, -36]);
    let found = scan_for_keystrokes(&s, 36, 0);
    assert_eq!(vec![1000, 1002, 1005], found.iter().map(|k| k.seq).collect::<Vec<i64>>());
    assert_eq!(vec![0, 20_000, 50_000], found.iter().map(|k| k.timestamp).collect::<Vec<i64>>());
    let s = infos(&[36, -36, 36, -36, 36, -36, -100, 20, -20]);
    let found = scan_for_keystrokes(&s, 36, 0);
    assert_eq!(Some(136), found[2].response_size);
}

#[test]
fn a_keystroke_needs_its_echo() {
    // The packet after the echo is 8 bytes larger: an arrow key follows.
    let s = infos(&[36, -36, 44, -80, 36, 5]);
    let found = scan_for_keystrokes(&s, 36, 0);
    assert_eq!(
        vec![key(KeystrokeType::Keystroke, 0), key(KeystrokeType::ArrowVertical, 2)],
        found
    );
    // Without the echo the larger packet behind makes no keystroke.
    assert!(scan_for_keystrokes(&infos(&[36, 5, 44, 1]), 36, 0).is_empty());
    let s = infos(&[36, -99, 44, -80, 36, 5]);
    assert_eq!(vec![key(KeystrokeType::ArrowVertical, 2)], scan_for_keystrokes(&s, 36, 0));
}

#[test]
fn a_horizontal_arrow_is_echoed_by_the_server() {
    // Echoed at its own size, and again at the keystroke size.
    let s = infos(&[44, -44, 44, -36, 36]);
    assert_eq!(
        vec![key(KeystrokeType::ArrowHorizontal, 0), key(KeystrokeType::ArrowHorizontal, 2)],
        scan_for_keystrokes(&s, 36, 0)
    );
    // A client packet of the same size is no echo.
    let s = infos(&[44, 44, -1, 1]);
    assert_eq!(vec![key(KeystrokeType::ArrowVertical, 0)], scan_for_keystrokes(&s, 36, 0));
}

#[test]
fn only_client_packets_are_keystrokes() {
    assert!(scan_for_keystrokes(&infos(&[0, 0, 0, 0, 0, 0]), 0, 0).is_empty());
    assert!(scan_for_keystrokes(&infos(&[-5, 20, -5, 20, -5, 20]), -5, 0).is_empty());
    // Whatever the size asked for, what is found was sent by the client.
    for size in [-40, -5, 0, 5, 36] {
        let s = infos(&[-5, 5, -5, 5, 0, 5, 36, -36, 36, -36, -40, 36, -36, 36, 1]);
        let found = scan_for_keystrokes(&s, size, 0);
        assert!(found.iter().all(|k| s[(k.seq - 1000) as usize].length > 0));
        assert!(found.windows(2).all(|w| w[0].seq < w[1].seq));
    }
}

#[test]
fn an_enter_needs_a_keystroke_before_it() {
    let s = infos(&[36, -36, -50, 36, -36, 36, -36, 5]);
    assert_eq!(vec![key(KeystrokeType::Keystroke, 3)], scan_for_keystrokes(&s, 36, 0));
}

#[test]
fn a_run_of_arrows_ends_at_a_plain_keystroke() {
    let s = infos(&[44, -36, 36, -36, 36, -36, 36, 9]);
    assert_eq!(
        vec![
            key(KeystrokeType::ArrowHorizontal, 0),
            key(KeystrokeType::Keystroke, 2),
            key(KeystrokeType::Keystroke, 4),
        ],
        scan_for_keystrokes(&s, 36, 0)
    );
}

#[test]
fn a_run_of_arrows_holds_arrows_and_unknown_keys() {
    let s = infos(&[52, -36, 52, -36, 36, -52, 36, -60, 40, -36, 36, -36, -9]);
    assert_eq!(
        vec![
            key(KeystrokeType::ArrowHorizontal, 0),
            key(KeystrokeType::ArrowHorizontal, 2),
            key(KeystrokeType::Unknown, 4),
            key(KeystrokeType::Unknown, 6),
        ],
        scan_for_keystrokes(&s, 36, 0)
    );
}

#[test]
fn short_captures_hold_no_keystrokes() {
    assert!(scan_for_keystrokes(&[], 36, 0).is_empty());
    assert!(scan_for_keystrokes(&infos(&[36, -36]), 36, 0).is_empty());
    assert!(scan_for_keystrokes(&infos(&[36, -36, 36]), 36, 5).is_empty());
    // Three packets are the least that hold a keystroke.
    assert_eq!(1, scan_for_keystrokes(&infos(&[36, -36, 36, 1]), 36, 0).len());
}

#[test]
fn the_scan_starts_at_the_login() {
    let s = infos(&[36, -36, 36, -36, 36, -36, 36, 5]);
    assert_eq!(3, scan_for_keystrokes(&s, 36, 0).len());
    assert_eq!(2, scan_for_keystrokes(&s, 36, 2).len());
    assert_eq!(2, scan_for_keystrokes(&s, 36, 1).len());
}

#[test]
fn the_login_is_the_first_packet_of_28_or_36_bytes_from_the_server() {
    assert_eq!(Some(2), find_successful_login(&infos(&[28, 36, -36, -28])));
    assert_eq!(Some(1), find_successful_login(&infos(&[-52, -28, -36])));
    assert_eq!(None, find_successful_login(&infos(&[28, 36, -52, -29])));
    assert_eq!(None, find_successful_login(&[]));
    let mut late = vec![10; 40];
    late.push(-28);
    assert_eq!(None, find_successful_login(&infos(&late)));
    late[39] = -36;
    assert_eq!(Some(39), find_successful_login(&infos(&late)));
}

#[test]
fn a_wrong_password_comes_before_the_right_one() {
    let s = infos(&[16, 44, -44, 68, -52, 84, -52, 84, -28, 100, -100]);
    let events = scan_login_data(&s, -52, 0, 8);
    assert_eq!(vec![6, 8], positions(&events));
    assert_eq!(Some(Event::WrongPassword.to_string()), events[0].description);
    assert_eq!(Some(Event::CorrectPassword.to_string()), events[1].description);
    assert_eq!(-52, events[0].length);
    assert_eq!(1006, events[0].seq);
}

#[test]
fn an_accepted_key_ends_the_scan_when_the_login_follows() {
    let s = infos(&[16, 44, -44, 68, -52, 200, -300, 600, -28, 100, -100]);
    let events = scan_login_data(&s, -52, 0, 8);
    assert_eq!(vec![5, 6], positions(&events));
    assert_eq!(Some("OfferECDSAKey".to_string()), events[0].description);
    assert_eq!(Some("AcceptedKey".to_string()), events[1].description);
}

#[test]
fn key_types_go_by_the_size_of_the_offer() {
    for (size, name) in [
        (492, "OfferRSAKey"),
        (500, "OfferRSAKey"),
        (140, "OfferED25519Key"),
        (148, "OfferED25519Key"),
        (188, "OfferECDSAKey"),
        (212, "OfferECDSAKey"),
    ] {
        let s = infos(&[16, 44, -44, 68, -52, size, -52, 84, -28, 1, 1]);
        let events = scan_login_data(&s, -52, 0, 8);
        assert_eq!(3, events.len());
        assert_eq!(Some(name.to_string()), events[0].description);
        assert_eq!(Some("RejectedKey".to_string()), events[1].description);
        assert_eq!(Some("CorrectPassword".to_string()), events[2].description);
    }
    for size in [491, 501, 139, 149, 187, 213] {
        let s = infos(&[16, 44, -44, 68, -52, size, -52, 84, -28, 1, 1]);
        let events = scan_login_data(&s, -52, 0, 8);
        assert_eq!(Some("WrongPassword".to_string()), events[0].description);
    }
}

#[test]
fn a_key_of_unknown_type_may_be_accepted() {
    let s = infos(&[1, 1, 1, 1, -52, 300, -60, 300, -28]);
    let events = scan_login_data(&s, -52, 0, 8);
    assert_eq!(vec![5, 6], positions(&events));
    assert_eq!(Some("OfferUnknownKey".to_string()), events[0].description);
    assert_eq!(Some("AcceptedKey".to_string()), events[1].description);
    // A correct password stands behind a prompt; nothing follows it.
    let s = infos(&[1, 1, 1, 1, -52, 300, -60, 300, -70, 84, -28, 84, -52, 84, -52]);
    let events = scan_login_data(&s, -52, 0, 10);
    let names: Vec<String> = events.iter().map(|p| p.description.clone().unwrap()).collect();
    assert_eq!(vec!["OfferUnknownKey", "AcceptedKey", "OfferUnknownKey", "AcceptedKey"], names);
    assert_eq!(vec![5, 6, 7, 8], positions(&events));
    // No step looks beyond the login.
    let events = scan_login_data(&s, -52, 0, 5);
    assert!(events.is_empty());
    let events = scan_login_data(&s, -52, 0, 7);
    assert_eq!(vec![5, 6], positions(&events));
    // An offer is made by the client.
    let s = infos(&[1, 1, 1, 1, -52, -300, -60, 84, -70, 1, -28]);
    assert_eq!(vec![7, 8], positions(&scan_login_data(&s, -52, 0, 10)));
}

#[test]
fn a_login_scan_beyond_the_capture_finds_nothing() {
    let s = infos(&[16, 44, -44, 68, -52, 84, -28]);
    assert!(scan_login_data(&s, -52, 3, 6).is_empty());
    assert!(scan_login_data(&s, -52, usize::MAX, 6).is_empty());
    assert!(scan_login_data(&[], -52, 0, 0).is_empty());
}

#[test]
fn without_new_keys_no_host_key_is_accepted() {
    let mut s = infos(&[10, -20, 30, -40]);
    assert_eq!(None, scan_for_host_key_accepts(&s, 3));
    // A New Keys message at the very start has no packet before it.
    s[0].message_code = Some(21);
    assert_eq!(None, scan_for_host_key_accepts(&s, 3));
    // The packet behind New Keys carries a code itself.
    s[2].message_code = Some(21);
    s[3].message_code = Some(5);
    assert_eq!(None, scan_for_host_key_accepts(&s, 3));
    s[3].message_code = None;
    let accepted = scan_for_host_key_accepts(&s, 3).unwrap();
    assert_eq!(1, accepted.index);
    assert_eq!(Some("Server hostkey accepted".to_string()), accepted.description);
}

#[test]
fn the_signature_of_a_reverse_tunnel_is_found() {
    // New Keys, the prompt four packets on, and the pattern of macOS.
    let mut mac = infos(&[16, 44, -44, 68, -52, 84, -28, 100, -200, 300, -100, 5]);
    mac[0].message_code = Some(21);
    assert_eq!(Some(100_000), scan_for_reverse_session_r_option(&mac, -52));
    // Without New Keys there is nothing to anchor the search.
    mac[0].message_code = Some(20);
    assert_eq!(None, scan_for_reverse_session_r_option(&mac, -52));

    // The pattern of Ubuntu.
    let mut ubuntu = infos(&[16, 44, -44, 68, -52, 84, -28, 100, 100, -200, -100, 5, 5]);
    ubuntu[0].message_code = Some(21);
    assert_eq!(Some(100_000), scan_for_reverse_session_r_option(&ubuntu, -52));

    // A failed login first: the search goes on at the second prompt.
    let mut retry = infos(&[16, 44, -44, 68, -52, 84, -52, 84, -28, 100, -200, 300, -100, 5]);
    retry[0].message_code = Some(21);
    assert_eq!(Some(100_000), scan_for_reverse_session_r_option(&retry, -52));
    assert_eq!(None, scan_for_reverse_session_r_option(&Vec::new(), -52));
}

#[test]
fn the_start_of_a_reverse_tunnel_has_to_fit() {
    let mut mac = infos(&[16, 44, -44, 68, -52, 84, -28, 100, -200, 300, -100, 5]);
    assert!(check_reverse_session(&mac, -52));
    mac[0].message_code = Some(21);
    assert!(check_reverse_session(&mac, -52));
    mac[0].timestamp = i64::MIN;
    assert!(!check_reverse_session(&mac, -52));
    mac[10].timestamp = -1;
    assert!(check_reverse_session(&mac, -52));
    assert_eq!(Some(i64::MAX), scan_for_reverse_session_r_option(&mac, -52));
    assert!(check_reverse_session(&Vec::new(), -52));
}

#[test]
fn half_sizes_round_towards_zero() {
    assert_eq!(36, half_size(72));
    assert_eq!(36, half_size(73));
    assert_eq!(0, half_size(1));
    assert_eq!(0, half_size(0));
    assert_eq!(-36, half_size(-73));
    assert_eq!(-1073741824, half_size(i32::MIN));
}

/// A session with chaff at keystroke size 72: two returns, and a pause
/// in the chaff before packet 9.
fn chaff_capture() -> Vec<PacketInfo> {
    let mut s = infos(&[
        36, -36, 36, -36, 72, -36, -100, 36, -36, 36, -36, 72, -36, -50, 36, -36, 5,
    ]);
    for p in s.iter_mut().skip(9) {
        p.timestamp += 100_000;
    }
    s
}

#[test]
fn returns_are_fat_packets_before_two_server_packets() {
    let s = chaff_capture();
    assert_eq!(vec![4, 11], find_returns(&s, 72, 0));
    assert_eq!(vec![11], find_returns(&s, 72, 5));
    assert!(find_returns(&s, 36, 0).is_empty());
    assert!(find_returns(&[], 72, 0).is_empty());
}

#[test]
fn a_gap_is_a_pause_of_35_ms_in_the_chaff() {
    let s = chaff_capture();
    assert_eq!(vec![9], find_chaff_gap(&s, &[4, 11], 72));
    // At the usual pace of 10 ms a packet no pause is found.
    let even = infos(&lengths(&s));
    assert!(find_chaff_gap(&even, &[4, 11], 72).is_empty());
    // A pause has to exceed 35 ms: exactly 35 ms is none, 1 µs more is one.
    let mut edge = infos(&lengths(&s));
    for p in edge.iter_mut().skip(9) {
        p.timestamp += 15_000;
    }
    assert!(find_chaff_gap(&edge, &[4], 72).is_empty());
    for p in edge.iter_mut().skip(9) {
        p.timestamp += 1;
    }
    assert_eq!(vec![9], find_chaff_gap(&edge, &[4], 72));
    assert!(find_chaff_gap(&s, &[], 72).is_empty());
    assert!(find_chaff_gap(&s, &[100], 72).is_empty());
}

#[test]
fn chaff_is_dropped_and_real_keystrokes_stay() {
    let s = chaff_capture();
    let kept = drop_chaff(&s, &[4, 11], &[9], 72, 0);
    assert_eq!(vec![0, 1, 4, 5, 6, 11, 12, 13], positions(&kept));
    assert_eq!(s[4], kept[2]);

    // A slim keystroke at the gap is kept with its echo, and so are fat
    // packets on the way to it.
    let mut t = infos(&[
        36, -36, 36, -36, 72, -36, -36, -500, 36, -36, 72, -36, 36, -36, 36, -36, 72, -36, -36, -300,
        36, -36, 36, -36,
    ]);
    for p in t.iter_mut().skip(12) {
        p.timestamp += 50_000;
    }
    assert_eq!(vec![4, 16], find_returns(&t, 72, 0));
    assert_eq!(vec![12], find_chaff_gap(&t, &[4, 16], 72));
    let kept = drop_chaff(&t, &[4, 16], &[12], 72, 0);
    assert_eq!(vec![0, 1, 4, 5, 6, 7, 10, 11, 12, 13, 16, 17, 18, 19], positions(&kept));
}

#[test]
fn without_a_slim_packet_nothing_is_kept() {
    let s = infos(&[72, -36, -100, 72, -36, 5]);
    assert!(drop_chaff(&s, &[0], &[], 72, 0).is_empty());
    assert!(drop_chaff(&[], &[], &[], 72, 0).is_empty());
}

#[test]
fn obfuscated_keystrokes_are_classified_at_half_size() {
    let s = infos(&[8, -8, 8, -8, 16, -8, -100, 8, -8, 5]);
    assert_eq!(vec![4], find_returns(&s, 16, 0));
    assert!(find_chaff_gap(&s, &[4], 16).is_empty());
    let kept = drop_chaff(&s, &[4], &[], 16, 0);
    assert_eq!(vec![0, 1, 4, 5, 6], positions(&kept));
    let found = scan_for_obfuscated_keystrokes(&s, 16, 0);
    assert_eq!(
        vec![key(KeystrokeType::Keystroke, 0), key(KeystrokeType::ArrowHorizontal, 4)],
        found
    );
    assert_eq!(scan_for_keystrokes(&kept, 8, 0), found);

    let c = chaff_capture();
    let rets = find_returns(&c, 72, 0);
    let gaps = find_chaff_gap(&c, &rets, 72);
    let kept = drop_chaff(&c, &rets, &gaps, 72, 0);
    assert_eq!(scan_for_keystrokes(&kept, 36, 0), scan_for_obfuscated_keystrokes(&c, 72, 0));
}

#[test]
fn an_echo_is_put_behind_its_keystroke() {
    let mut s = infos(&[36, 36, 100, -36, -44, 36, -20, 36, -52]);
    let ordered = order_keystrokes(&mut s, 36);
    assert!(s.is_empty());
    assert_eq!(9, ordered.len());
    assert_eq!(vec![0, 3, 1, 4, 2, 5, 8, 6, 7], positions(&ordered));
}

#[test]
fn a_keystroke_without_echo_stays_alone() {
    // The echo lies 11 packets behind the keystroke: out of reach.
    let mut far = vec![36];
    far.extend([7; 10]);
    far.push(-36);
    let mut s = infos(&far);
    let ordered = order_keystrokes(&mut s, 36);
    assert_eq!((0..12).collect::<Vec<usize>>(), positions(&ordered));
    // Ten packets behind it is within reach.
    far.remove(1);
    let mut s = infos(&far);
    let ordered = order_keystrokes(&mut s, 36);
    assert_eq!(vec![0, 10, 1, 2, 3, 4, 5, 6, 7, 8, 9], positions(&ordered));
    // A keystroke at the very end.
    let mut s = infos(&[-36, 36]);
    assert_eq!(vec![0, 1], positions(&order_keystrokes(&mut s, 36)));
    let mut s = Vec::new();
    assert!(order_keystrokes(&mut s, 36).is_empty());
}

#[test]
fn behind_a_fat_packet_one_chaff_echo_is_dropped() {
    let mut slim = infos(&[36, 50, -36]);
    assert_eq!(vec![36, -36, 50], lengths(&order_obfuscated_keystrokes(&mut slim, 72)));
    assert!(slim.is_empty());

    let mut plain = infos(&[72, -36, -36, 10]);
    assert_eq!(vec![0, 1, 3], positions(&order_obfuscated_keystrokes(&mut plain, 72)));

    let mut padded_behind = infos(&[72, -36, -44, 10]);
    assert_eq!(vec![0, 2, 3], positions(&order_obfuscated_keystrokes(&mut padded_behind, 72)));

    let mut padded = infos(&[72, -52, -36, 5]);
    assert_eq!(vec![0, 1, 3], positions(&order_obfuscated_keystrokes(&mut padded, 72)));

    let mut answer = infos(&[72, -36, -100, -200, 36, -36]);
    assert_eq!(
        vec![0, 1, 2, 3, 4, 5],
        positions(&order_obfuscated_keystrokes(&mut answer, 72))
    );

    // What is no chaff echo of the server stays.
    let mut client_behind = infos(&[72, -36, 99]);
    assert_eq!(vec![0, 1, 2], positions(&order_obfuscated_keystrokes(&mut client_behind, 72)));
    let mut other_behind = infos(&[72, -36, -99, 5]);
    assert_eq!(vec![0, 1, 2, 3], positions(&order_obfuscated_keystrokes(&mut other_behind, 72)));
    let mut padded_chaff = infos(&[72, -36, 5, -44]);
    assert_eq!(vec![0, 3, 2], positions(&order_obfuscated_keystrokes(&mut padded_chaff, 72)));

    let mut stranded = infos(&[72, 5]);
    assert_eq!(vec![0, 1], positions(&order_obfuscated_keystrokes(&mut stranded, 72)));

    let mut last = infos(&[5, 72, -36]);
    assert_eq!(vec![0, 1, 2], positions(&order_obfuscated_keystrokes(&mut last, 72)));
}
