//! What holds of every input, tried on chosen ones; and the helpers.
use sshniff::analyser::containers::{
    Event, IpLayer, Keystroke, KeystrokeType, Packet, PacketInfo, SshLayer, TcpLayer,
};
use sshniff::analyser::session::{
    check_latencies, decimal_text, make_relative, process_keystrokes, timeframe,
};
use sshniff::analyser::utils::{
    create_size_matrix, find_common_algorithm, get_md5_hash, get_message_code, is_obfuscated,
    is_server_packet, order_keystrokes, order_obfuscated_keystrokes, to_chars,
    KEYSTROKE_UPPER_BOUND,
};

fn stroke(kind: KeystrokeType, timestamp: i64) -> Keystroke {
    Keystroke { k_type: kind, timestamp, response_size: None, seq: timestamp / 10 }
}

fn enter(timestamp: i64, response: u128) -> Keystroke {
    Keystroke {
        k_type: KeystrokeType::Enter,
        timestamp,
        response_size: Some(response),
        seq: timestamp / 10,
    }
}

fn tcp_packet(len: u32, srcport: u32, dstport: u32) -> Packet {
    Packet {
        timestamp_micros: 77,
        ip: None,
        tcp: Some(TcpLayer { seq: 5, len, srcport, dstport }),
        ssh: None,
    }
}

fn info(index: usize, length: i32) -> PacketInfo {
    PacketInfo {
        index,
        seq: index as i64,
        length,
        timestamp: index as i64,
        from_server: length < 0,
        message_code: None,
        description: None,
    }
}

/// A list of lengths that changes from call to call, without chance.
fn mixed(seed: u64, n: usize) -> Vec<PacketInfo> {
    let sizes = [36, -36, -44, -52, 44, 72, -72, 18, -18, 100, -100, 36, -36];
    let mut state = seed;
    (0..n)
        .map(|i| {
            state = state.wrapping_mul(6364136223846793005).wrapping_add(1442695040888963407);
            info(i, sizes[(state >> 33) as usize % sizes.len()])
        })
        .collect()
}

#[test]
fn reordering_keeps_every_packet() {
    for seed in 0..50 {
        for n in [0, 1, 2, 5, 13, 40] {
            let captured = mixed(seed, n);
            let mut work = captured.clone();
            let ordered = order_keystrokes(&mut work, 36);
            assert!(work.is_empty());
            assert_eq!(captured.len(), ordered.len());
            let mut seen: Vec<usize> = ordered.iter().map(|p| p.index).collect();
            seen.sort();
            assert_eq!((0..n).collect::<Vec<usize>>(), seen);
        }
    }
}

#[test]
fn reordering_with_chaff_never_adds_packets() {
    for seed in 0..50 {
        for n in [0, 1, 2, 5, 13, 40] {
            let captured = mixed(seed, n);
            let mut work = captured.clone();
            let ordered = order_obfuscated_keystrokes(&mut work, 72);
            assert!(work.is_empty());
            assert!(ordered.len() <= captured.len());
            let mut seen: Vec<usize> = ordered.iter().map(|p| p.index).collect();
            seen.sort();
            seen.dedup();
            assert_eq!(ordered.len(), seen.len());
            // What left is chaff: an echo of a slim packet from the server,
            // and no more of them than there are fat packets.
            let left: Vec<&PacketInfo> =
                captured.iter().filter(|p| !seen.contains(&p.index)).collect();
            assert!(left.iter().all(|p| [-36, -44, -52].contains(&p.length)));
            assert!(left.len() <= captured.iter().filter(|p| p.length == 72).count());
        }
    }
}

#[test]
fn sequences_are_a_partition_of_the_keystrokes() {
    let flat = vec![
        stroke(KeystrokeType::Keystroke, 100),
        stroke(KeystrokeType::Keystroke, 250),
        enter(400, 1576),
        enter(1000, 3),
        stroke(KeystrokeType::Tab, 1600),
        stroke(KeystrokeType::Delete, 1700),
    ];
    let grouped = process_keystrokes(flat.clone());
    assert_eq!(3, grouped.len());
    let sizes: Vec<usize> = grouped.iter().map(|g| g.len()).collect();
    assert_eq!(vec![3, 1, 2], sizes);
    let joined: Vec<Keystroke> = grouped.iter().flatten().cloned().collect();
    assert_eq!(flat.len(), joined.len());
    for (a, b) in joined.iter().zip(flat.iter()) {
        assert_eq!(a.k_type, b.k_type);
        assert_eq!(a.response_size, b.response_size);
        assert_eq!(a.seq, b.seq);
    }
    for (i, group) in grouped.iter().enumerate() {
        assert!(!group.is_empty());
        for k in &group[..group.len() - 1] {
            assert_ne!(KeystrokeType::Enter, k.k_type);
        }
        if i + 1 < grouped.len() {
            assert_eq!(KeystrokeType::Enter, group.last().unwrap().k_type);
        }
    }
    assert!(process_keystrokes(Vec::new()).is_empty());
}

#[test]
fn latencies_are_relative_to_the_keystroke_before() {
    let flat = vec![
        stroke(KeystrokeType::Keystroke, 100),
        stroke(KeystrokeType::Keystroke, 250),
        enter(400, 0),
        stroke(KeystrokeType::Keystroke, 1000),
        stroke(KeystrokeType::Keystroke, 900),
    ];
    let grouped = process_keystrokes(flat);
    let latencies: Vec<Vec<i64>> =
        grouped.iter().map(|g| g.iter().map(|k| k.timestamp).collect()).collect();
    // Nothing leaks from one sequence into the next; a clock that ran
    // backwards gives a negative latency.
    assert_eq!(vec![vec![0, 150, 150], vec![0, -100]], latencies);
}

#[test]
fn one_sequence_is_made_relative() {
    let mut sequence = vec![enter(i64::MAX, 9)];
    make_relative(&mut sequence);
    assert_eq!(
        vec![Keystroke {
            k_type: KeystrokeType::Enter,
            timestamp: 0,
            response_size: Some(9),
            seq: i64::MAX / 10,
        }],
        sequence
    );
    let mut wide = vec![
        stroke(KeystrokeType::Keystroke, -4),
        stroke(KeystrokeType::Keystroke, i64::MAX - 4),
        stroke(KeystrokeType::Keystroke, -5),
    ];
    make_relative(&mut wide);
    assert_eq!(
        vec![0, i64::MAX, i64::MIN],
        wide.iter().map(|k| k.timestamp).collect::<Vec<i64>>()
    );
}

#[test]
fn latencies_that_do_not_fit_are_seen() {
    assert!(check_latencies(&Vec::new()));
    assert!(check_latencies(&vec![stroke(KeystrokeType::Keystroke, i64::MIN)]));
    let apart = vec![
        stroke(KeystrokeType::Keystroke, i64::MIN),
        stroke(KeystrokeType::Keystroke, i64::MAX),
    ];
    assert!(!check_latencies(&apart));
    // Across an Enter no latency is taken.
    let parted = vec![enter(i64::MIN, 0), stroke(KeystrokeType::Keystroke, i64::MAX)];
    assert!(check_latencies(&parted));
    let edge = vec![stroke(KeystrokeType::Keystroke, -1), stroke(KeystrokeType::Keystroke, i64::MAX)];
    assert!(!check_latencies(&edge));
    let fits = vec![stroke(KeystrokeType::Keystroke, 0), stroke(KeystrokeType::Keystroke, i64::MAX)];
    assert!(check_latencies(&fits));
    let down = vec![stroke(KeystrokeType::Keystroke, 0), stroke(KeystrokeType::Keystroke, i64::MIN)];
    assert!(check_latencies(&down));
    let below = vec![stroke(KeystrokeType::Keystroke, 1), stroke(KeystrokeType::Keystroke, i64::MIN)];
    assert!(!check_latencies(&below));
}

#[test]
fn one_text_has_one_fingerprint() {
    let text = "curve25519-sha256;aes128-ctr;hmac-sha1;none";
    assert_eq!(get_md5_hash(text.to_string()), get_md5_hash(text.to_string()));
    assert_ne!(get_md5_hash(text.to_string()), get_md5_hash("curve25519-sha256".to_string()));
}

#[test]
fn fingerprints_are_md5_in_lowercase_hex() {
    assert_eq!("d41d8cd98f00b204e9800998ecf8427e", get_md5_hash(String::new()));
    assert_eq!("5eb63bbbe01eeed093cb22bb8f5acdc3", get_md5_hash("hello world".to_string()));
    assert_eq!("0cc175b9c0f1b6a831c399e269772661", get_md5_hash("a".to_string()));
    // Text beyond ASCII is hashed in UTF-8.
    assert_eq!("66ddcd97cfdeabb2f6fb8a999b4bc76f", get_md5_hash("é".to_string()));
    for text in ["", "a", "kex;enc;mac;none", "é"] {
        let hash = get_md5_hash(text.to_string());
        assert_eq!(32, hash.chars().count());
        assert!(hash.chars().all(|c| matches!(c, '0'..='9' | 'a'..='f')));
    }
}

#[test]
fn the_negotiated_algorithm_is_the_first_mutual_one() {
    assert_eq!(Some("b".to_string()), find_common_algorithm("a,b,c", "c,b"));
    assert_eq!(Some("c".to_string()), find_common_algorithm("c,b", "a,b,c"));
    assert_eq!(None, find_common_algorithm("a,b", "c,d"));
    assert_eq!(None, find_common_algorithm("aes128", "aes128-ctr"));
    assert_eq!(None, find_common_algorithm("aes128-ctr", "aes128"));
    assert_eq!(
        Some("aes128-ctr".to_string()),
        find_common_algorithm("chacha20,aes128-ctr", "aes128-ctr")
    );
    // An empty list is one empty entry.
    assert_eq!(Some(String::new()), find_common_algorithm("", ""));
    assert_eq!(Some(String::new()), find_common_algorithm("a,", "b,,c"));
    assert_eq!(None, find_common_algorithm("", "a"));
    assert_eq!(None, find_common_algorithm("a", ""));
    assert_eq!(Some("ü".to_string()), find_common_algorithm("ä,ü", "ö,ü"));
}

#[test]
fn chaff_comes_with_releases_9_5_to_9_8() {
    assert!(is_obfuscated("SSH-2.0-OpenSSH_9.6", "SSH-2.0-OpenSSH_9.5p1 Debian"));
    assert!(is_obfuscated("SSH-2.0-OpenSSH_9.7", "SSH-2.0-OpenSSH_9.8"));
    assert!(!is_obfuscated("SSH-2.0-OpenSSH_9.6", "SSH-2.0-OpenSSH_8.4p1 Raspbian-5+deb11u3"));
    assert!(!is_obfuscated("SSH-2.0-OpenSSH_9.4", "SSH-2.0-OpenSSH_9.6"));
    assert!(!is_obfuscated("SSH-2.0-OpenSSH_9.9", "SSH-2.0-OpenSSH_9.9"));
    assert!(!is_obfuscated("", ""));
    assert!(!is_obfuscated("9.", "9.5"));
    assert!(is_obfuscated("9.5", "x9.8"));
    assert!(is_obfuscated("99.69", "19.75"));
}

#[test]
fn the_server_holds_the_lower_port() {
    assert!(is_server_packet(&tcp_packet(10, 22, 50502)));
    assert!(!is_server_packet(&tcp_packet(10, 50502, 22)));
    assert!(!is_server_packet(&tcp_packet(10, 22, 22)));
}

#[test]
fn a_message_code_is_read_from_the_ssh_layer() {
    let mut packet = tcp_packet(10, 22, 50502);
    let mut ssh = SshLayer {
        message_code: Some(21),
        protocol: None,
        kex_algorithms: None,
        encryption_algorithms_client_to_server: None,
        mac_algorithms_client_to_server: None,
        compression_algorithms_client_to_server: None,
        encryption_algorithms_server_to_client: None,
        mac_algorithms_server_to_client: None,
        compression_algorithms_server_to_client: None,
    };
    packet.ssh = Some(ssh.clone());
    assert_eq!(Some(21), get_message_code(&packet));
    ssh.message_code = None;
    packet.ssh = Some(ssh);
    assert_eq!(None, get_message_code(&packet));
}

#[test]
fn a_projection_folds_the_direction_into_the_length() {
    let mut from_server = tcp_packet(52, 22, 50502);
    from_server.ip = Some(IpLayer { src: "a".to_string(), dst: "b".to_string() });
    let info = PacketInfo::new(&from_server, 4, Some("prompt".to_string())).unwrap();
    assert_eq!(
        PacketInfo {
            index: 4,
            seq: 5,
            length: -52,
            timestamp: 77,
            from_server: true,
            message_code: None,
            description: Some("prompt".to_string()),
        },
        info
    );
    let from_client = PacketInfo::new(&tcp_packet(52, 50502, 22), 0, None).unwrap();
    assert_eq!(52, from_client.length);
    assert!(!from_client.from_server);
    let largest = PacketInfo::new(&tcp_packet(i32::MAX as u32, 22, 23), 0, None).unwrap();
    assert_eq!(-i32::MAX, largest.length);
    assert_eq!(info, info.duplicate());
    let labelled = from_client.with_description("First login prompt");
    assert_eq!(Some("First login prompt".to_string()), labelled.description);
    assert_eq!(from_client.length, labelled.length);
    assert_eq!(from_client.index, labelled.index);
}

#[test]
fn a_size_matrix_keeps_order_and_number() {
    let packets = vec![tcp_packet(1, 50502, 22), tcp_packet(2, 22, 50502), tcp_packet(0, 22, 50502)];
    let matrix = create_size_matrix(&packets).unwrap();
    assert_eq!(vec![1, -2, 0], matrix.iter().map(|p| p.length).collect::<Vec<i32>>());
    assert_eq!(vec![0, 1, 2], matrix.iter().map(|p| p.index).collect::<Vec<usize>>());
    assert!(matrix[2].from_server);
    assert!(matrix.iter().all(|p| p.description.is_none()));
    assert!(create_size_matrix(&[]).unwrap().is_empty());
}

#[test]
fn events_are_named_as_they_are_written() {
    let names: Vec<String> = [
        Event::WrongPassword,
        Event::CorrectPassword,
        Event::OfferRSAKey,
        Event::OfferECDSAKey,
        Event::OfferED25519Key,
        Event::OfferUnknownKey,
        Event::RejectedKey,
        Event::AcceptedKey,
    ]
    .iter()
    .map(|e| e.to_string())
    .collect();
    assert_eq!(
        vec![
            "WrongPassword",
            "CorrectPassword",
            "OfferRSAKey",
            "OfferECDSAKey",
            "OfferED25519Key",
            "OfferUnknownKey",
            "RejectedKey",
            "AcceptedKey"
        ],
        names
    );
}

#[test]
fn ports_are_written_in_decimal() {
    assert_eq!("0", decimal_text(0));
    assert_eq!("9", decimal_text(9));
    assert_eq!("10", decimal_text(10));
    assert_eq!("22", decimal_text(22));
    assert_eq!("50502", decimal_text(50502));
    assert_eq!("4294967295", decimal_text(u32::MAX));
    assert_eq!("1000000", decimal_text(1_000_000));
}

#[test]
fn a_text_is_its_characters() {
    assert_eq!(vec!['a', ',', 'ß', '😀'], to_chars("a,ß😀"));
    assert!(to_chars("").is_empty());
}

#[test]
fn a_timeframe_needs_both_ends() {
    assert_eq!(
        Ok(("a".to_string(), "b".to_string())),
        timeframe(Some("a".to_string()), Some("b".to_string()))
    );
    assert!(timeframe(None, Some("b".to_string())).is_err());
    assert!(timeframe(Some("a".to_string()), None).is_err());
    assert!(timeframe(None, None).is_err());
}

#[test]
fn the_tolerance_of_an_echo_is_16_bytes() {
    assert_eq!(16, KEYSTROKE_UPPER_BOUND);
    // An echo 16 bytes larger is still an echo, one of 17 more is none.
    let mut s = vec![info(0, 36), info(1, -53), info(2, -52)];
    let ordered = order_keystrokes(&mut s, 36);
    assert_eq!(vec![0, 2, 1], ordered.iter().map(|p| p.index).collect::<Vec<usize>>());
}
