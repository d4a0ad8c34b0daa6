//! Whole sessions, built packet by packet, analysed from end to end.
use sshniff::analyser::containers::{
    AnalysisError, Event, IpLayer, KeystrokeType, Packet, SshLayer, TcpLayer,
};
use sshniff::analyser::scan::{
    find_successful_login, scan_for_host_key_accepts, scan_for_keystrokes,
    scan_for_reverse_session_r_option, scan_login_data,
};
use sshniff::analyser::session::{
    alt_find_keystroke_size, analyse, find_meta_hassh, find_meta_protocol, find_meta_size,
    get_start_and_end,
};
use sshniff::analyser::utils::{create_size_matrix, order_keystrokes};

const CLIENT_IP: &str = "192.168.0.212";
const SERVER_IP: &str = "192.168.0.45";
const CLIENT_PORT: u32 = 50502;
const SERVER_PORT: u32 = 22;
const START: i64 = 1_700_000_000_000_000;

const CLIENT_KEX: &str = "sntrup761x25519-sha512@openssh.com,curve25519-sha256,curve25519-sha256@libssh.org,ecdh-sha2-nistp256,ecdh-sha2-nistp384,ecdh-sha2-nistp521,diffie-hellman-group-exchange-sha256,diffie-hellman-group16-sha512,diffie-hellman-group18-sha512,diffie-hellman-group14-sha256,ext-info-c,kex-strict-c-v00@openssh.com";
const SERVER_KEX: &str = "curve25519-sha256,curve25519-sha256@libssh.org,ecdh-sha2-nistp256,ecdh-sha2-nistp384,ecdh-sha2-nistp521,diffie-hellman-group-exchange-sha256,diffie-hellman-group16-sha512,diffie-hellman-group18-sha512,diffie-hellman-group14-sha256,kex-strict-s-v00@openssh.com";
const ENCRYPTION: &str = "chacha20-poly1305@openssh.com,aes128-ctr,aes192-ctr,aes256-ctr,aes128-gcm@openssh.com,aes256-gcm@openssh.com";
const MAC: &str = "umac-64-etm@openssh.com,umac-128-etm@openssh.com,hmac-sha2-256-etm@openssh.com,hmac-sha2-512-etm@openssh.com,hmac-sha1-etm@openssh.com,umac-64@openssh.com,umac-128@openssh.com,hmac-sha2-256,hmac-sha2-512,hmac-sha1";
const CLIENT_COMPRESSION: &str = "none,zlib@openssh.com,zlib";
const SERVER_COMPRESSION: &str = "none,zlib@openssh.com";

fn bare_ssh() -> SshLayer {
    SshLayer {
        message_code: None,
        protocol: None,
        kex_algorithms: None,
        encryption_algorithms_client_to_server: None,
        mac_algorithms_client_to_server: None,
        compression_algorithms_client_to_server: None,
        encryption_algorithms_server_to_client: None,
        mac_algorithms_server_to_client: None,
        compression_algorithms_server_to_client: None,
    }
}

fn coded(code: u32) -> SshLayer {
    let mut ssh = bare_ssh();
    ssh.message_code = Some(code);
    ssh
}

fn banner(text: &str) -> SshLayer {
    let mut ssh = bare_ssh();
    ssh.protocol = Some(text.to_string());
    ssh
}

fn client_kex_init() -> SshLayer {
    let mut ssh = coded(20);
    ssh.kex_algorithms = Some(CLIENT_KEX.to_string());
    ssh.encryption_algorithms_client_to_server = Some(ENCRYPTION.to_string());
    ssh.mac_algorithms_client_to_server = Some(MAC.to_string());
    ssh.compression_algorithms_client_to_server = Some(CLIENT_COMPRESSION.to_string());
    ssh
}

fn server_kex_init() -> SshLayer {
    let mut ssh = coded(20);
    ssh.kex_algorithms = Some(SERVER_KEX.to_string());
    ssh.encryption_algorithms_server_to_client = Some(ENCRYPTION.to_string());
    ssh.mac_algorithms_server_to_client = Some(MAC.to_string());
    ssh.compression_algorithms_server_to_client = Some(SERVER_COMPRESSION.to_string());
    ssh
}

/// A stream under construction: sequence numbers and capture times are
/// carried along as in a real connection.
struct Stream {
    packets: Vec<Packet>,
    client_seq: i64,
    server_seq: i64,
}

impl Stream {
    fn new() -> Stream {
        Stream { packets: Vec::new(), client_seq: 1, server_seq: 1 }
    }

    fn push(&mut self, from_client: bool, len: u32, ssh: SshLayer) {
        let timestamp_micros = START + 10_000 * self.packets.len() as i64;
        let (seq, src, dst, srcport, dstport) = if from_client {
            (self.client_seq, CLIENT_IP, SERVER_IP, CLIENT_PORT, SERVER_PORT)
        } else {
            (self.server_seq, SERVER_IP, CLIENT_IP, SERVER_PORT, CLIENT_PORT)
        };
        if from_client {
            self.client_seq += len as i64;
        } else {
            self.server_seq += len as i64;
        }
        self.packets.push(Packet {
            timestamp_micros,
            ip: Some(IpLayer { src: src.to_string(), dst: dst.to_string() }),
            tcp: Some(TcpLayer { seq, len, srcport, dstport }),
            ssh: Some(ssh),
        });
    }

    fn client(&mut self, len: u32) {
        self.push(true, len, bare_ssh());
    }

    fn server(&mut self, len: u32) {
        self.push(false, len, bare_ssh());
    }

    /// A keystroke and its echo.
    fn key(&mut self, len: u32, echo: u32) {
        self.client(len);
        self.server(echo);
    }
}

/// Handshake and login of a session with keystroke size 36 and prompt
/// size -52: an RSA key that is accepted but not used, an ED25519 key
/// that is rejected, then the password. 23 packets.
fn login(stream: &mut Stream) {
    stream.push(true, 21, banner("SSH-2.0-OpenSSH_9.6"));
    stream.push(false, 42, banner("SSH-2.0-OpenSSH_8.4p1 Raspbian-5+deb11u3"));
    stream.push(true, 1536, client_kex_init());
    stream.push(false, 1056, server_kex_init());
    stream.push(true, 48, coded(30));
    stream.push(false, 452, coded(31));
    stream.push(false, 80, coded(31));
    stream.push(true, 16, coded(21));
    stream.client(44);
    stream.server(44);
    stream.client(68);
    stream.server(52);
    stream.client(496);
    stream.server(436);
    stream.client(144);
    stream.server(52);
    stream.client(84);
    stream.server(28);
    stream.server(604);
    stream.client(112);
    stream.client(460);
    stream.server(108);
    stream.server(76);
}

/// The session "ls -al", "id", "exit". The echoes of "a" and "l" were
/// captured behind both keystrokes.
fn lsal_stream() -> Vec<Packet> {
    let mut s = Stream::new();
    login(&mut s);
    for _ in 0..4 {
        s.key(36, 36);
    }
    s.client(36);
    s.client(36);
    s.server(36);
    s.server(36);
    s.key(36, 36);
    s.server(1500);
    s.server(76);
    s.key(36, 36);
    s.key(36, 36);
    s.key(36, 36);
    s.server(92);
    s.server(76);
    for _ in 0..4 {
        s.key(36, 36);
    }
    s.key(36, 36);
    s.server(44);
    s.server(100);
    s.client(60);
    s.server(60);
    s.client(32);
    s.packets
}

/// A session in which the cursor is moved back into the command with
/// the arrow keys.
fn arrow_stream() -> Vec<Packet> {
    let mut s = Stream::new();
    login(&mut s);
    for _ in 0..8 {
        s.key(36, 36);
    }
    for _ in 0..7 {
        s.key(44, 36);
    }
    s.key(36, 44);
    s.key(36, 44);
    s.key(36, 36);
    s.server(200);
    s.server(76);
    for _ in 0..4 {
        s.key(36, 36);
    }
    s.key(36, 36);
    s.server(44);
    s.server(100);
    s.client(60);
    s.server(60);
    s.client(32);
    s.packets
}

#[test]
fn test_meta_sizes() {
    let stream = lsal_stream();
    let meta_size = find_meta_size(&stream).unwrap();
    let newkeys = &meta_size[0];
    let keysize = &meta_size[1];
    let prompt = &meta_size[2];

    // newkeys sequence number
    assert_eq!(1606, newkeys.seq);
    // keystroke size
    assert_eq!(36, keysize.length - 8);
    // Prompt size
    assert_eq!(-52, prompt.length);
}

#[test]
fn test_hassh() {
    // hassh and hassh_server
    let stream = lsal_stream();
    let meta_hassh = find_meta_hassh(&stream).unwrap();
    let hassh = meta_hassh[0].clone();
    let hassh_server = meta_hassh[1].clone();
    assert_eq!("aae6b9604f6f3356543709a376d7f657", hassh);
    assert_eq!("779664e66160bf75999f091fce5edb5a", hassh_server);
}

#[test]
fn test_protocol() {
    // Protocols and source/destination
    let stream = lsal_stream();
    let meta_protocol = find_meta_protocol(&stream).unwrap();
    let c_proto = meta_protocol[0].clone();
    let s_proto = meta_protocol[1].clone();
    let src = format!("{}:{}", meta_protocol[2], meta_protocol[3]);
    let dst = format!("{}:{}", meta_protocol[4], meta_protocol[5]);
    assert_eq!("SSH-2.0-OpenSSH_9.6", c_proto);
    assert_eq!("SSH-2.0-OpenSSH_8.4p1 Raspbian-5+deb11u3", s_proto);
    assert_eq!("192.168.0.212:50502", src);
    assert_eq!("192.168.0.45:22", dst);
}

#[test]
fn test_ordering() {
    // Ordered packets are as many as before sorting
    let stream = lsal_stream();
    let mut size_matrix = create_size_matrix(&stream).unwrap();
    let original_size = size_matrix.len();
    let ordered = order_keystrokes(&mut size_matrix, 36);
    assert_eq!(original_size, ordered.len());
}

#[test]
fn test_reverse_r() {
    // Needs ordered packets
    let stream = lsal_stream();
    let mut size_matrix = create_size_matrix(&stream).unwrap();
    let ordered = order_keystrokes(&mut size_matrix, 36);

    // No -R was used
    let reverse_r = scan_for_reverse_session_r_option(&ordered, -52);
    assert!(reverse_r.is_none());
}

#[test]
fn test_login() {
    // Needs ordered packets
    let stream = lsal_stream();
    let mut size_matrix = create_size_matrix(&stream).unwrap();
    let ordered = order_keystrokes(&mut size_matrix, 36);

    // One login attempt- login successful
    let login_index = find_successful_login(&ordered);
    assert!(login_index.is_some());

    // Server login prompt preceding successful login
    let logged_in_at = &ordered[login_index.unwrap()];
    assert_eq!(2215, logged_in_at.seq);
}

#[test]
fn test_keystrokes() {
    // Needs ordered packets
    let stream = lsal_stream();
    let mut size_matrix = create_size_matrix(&stream).unwrap();
    let ordered = order_keystrokes(&mut size_matrix, 36);

    let keystrokes = scan_for_keystrokes(&ordered, 36, 20);
    assert_eq!(15, keystrokes.len());
}

#[test]
fn test_arrows() {
    // Needs ordered packets
    let stream = arrow_stream();
    let mut size_matrix = create_size_matrix(&stream).unwrap();
    let ordered = order_keystrokes(&mut size_matrix, 36);

    let keystrokes = scan_for_keystrokes(&ordered, 36, 20);
    let mut typevec: Vec<KeystrokeType> = Vec::new();
    for keystroke in &keystrokes {
        typevec.push(keystroke.k_type.clone());
    }

    assert_eq!(
        vec![
            KeystrokeType::Keystroke,
            KeystrokeType::Keystroke,
            KeystrokeType::Keystroke,
            KeystrokeType::Keystroke,
            KeystrokeType::Keystroke,
            KeystrokeType::Keystroke,
            KeystrokeType::Keystroke,
            KeystrokeType::Keystroke,
            KeystrokeType::ArrowHorizontal,
            KeystrokeType::ArrowHorizontal,
            KeystrokeType::ArrowHorizontal,
            KeystrokeType::ArrowHorizontal,
            KeystrokeType::ArrowHorizontal,
            KeystrokeType::ArrowHorizontal,
            KeystrokeType::ArrowHorizontal,
            KeystrokeType::Unknown,
            KeystrokeType::Unknown,
            KeystrokeType::Enter,
            KeystrokeType::Keystroke,
            KeystrokeType::Keystroke,
            KeystrokeType::Keystroke,
            KeystrokeType::Keystroke,
            KeystrokeType::Enter
        ],
        typevec
    );
    assert_eq!(23, keystrokes.len());
}

#[test]
fn test_key_login() {
    // Needs ordered packets
    let stream = lsal_stream();
    let mut size_matrix = create_size_matrix(&stream).unwrap();
    let ordered = order_keystrokes(&mut size_matrix, 36);

    let key_log = scan_login_data(&ordered, -52, 7, 17);
    let events: Vec<String> = vec![
        key_log[0].description.clone().unwrap(),
        key_log[1].description.clone().unwrap(),
        key_log[2].description.clone().unwrap(),
        key_log[3].description.clone().unwrap(),
        key_log[4].description.clone().unwrap(),
    ];
    assert_eq!(
        events,
        vec![
            Event::OfferRSAKey.to_string(),
            Event::AcceptedKey.to_string(),
            Event::OfferED25519Key.to_string(),
            Event::RejectedKey.to_string(),
            Event::CorrectPassword.to_string()
        ]
    );
}

#[test]
fn login_events_point_at_their_packets() {
    let stream = lsal_stream();
    let mut size_matrix = create_size_matrix(&stream).unwrap();
    let ordered = order_keystrokes(&mut size_matrix, 36);
    let key_log = scan_login_data(&ordered, -52, 7, 17);
    assert_eq!(5, key_log.len());
    let at: Vec<usize> = key_log.iter().map(|p| p.index).collect();
    assert_eq!(vec![12, 13, 14, 15, 17], at);
    assert_eq!(496, key_log[0].length);
    assert_eq!(-28, key_log[4].length);
}

#[test]
fn the_echoes_captured_late_are_put_behind_their_keystrokes() {
    let stream = lsal_stream();
    let mut size_matrix = create_size_matrix(&stream).unwrap();
    let ordered = order_keystrokes(&mut size_matrix, 36);
    assert!(size_matrix.is_empty());
    let at: Vec<usize> = ordered.iter().map(|p| p.index).collect();
    let mut expected: Vec<usize> = (0..stream.len()).collect();
    expected.swap(32, 33);
    assert_eq!(expected, at);
    assert_eq!(vec![36, -36, 36, -36], ordered[31..35].iter().map(|p| p.length).collect::<Vec<i32>>());
}

#[test]
fn host_key_acceptance_is_the_packet_before_new_keys() {
    let stream = lsal_stream();
    let mut size_matrix = create_size_matrix(&stream).unwrap();
    let ordered = order_keystrokes(&mut size_matrix, 36);
    let accepted = scan_for_host_key_accepts(&ordered, 17).unwrap();
    assert_eq!(6, accepted.index);
    assert_eq!(-80, accepted.length);
    assert_eq!(Some("Server hostkey accepted".to_string()), accepted.description);
    // The scan stops at the login.
    assert!(scan_for_host_key_accepts(&ordered, 7).is_none());
}

#[test]
fn the_fallback_search_wants_four_client_packets_of_one_length() {
    // Keystrokes and echoes take turns: no four client packets in a row.
    assert_eq!(0, alt_find_keystroke_size(&lsal_stream()));
    assert_eq!(0, alt_find_keystroke_size(&[]));

    // Typed faster than the server echoes.
    let mut s = Stream::new();
    login(&mut s);
    for _ in 0..4 {
        s.client(40);
    }
    for _ in 0..4 {
        s.server(40);
    }
    s.client(7);
    assert_eq!(40, alt_find_keystroke_size(&s.packets));
    // The run has to lie behind packet 20.
    assert_eq!(40, alt_find_keystroke_size(&s.packets[2..]));
    assert_eq!(0, alt_find_keystroke_size(&s.packets[3..]));
    // Four server packets of one length are no run, nor are three client packets.
    assert_eq!(0, alt_find_keystroke_size(&s.packets[..26]));
    s.packets[24].tcp.as_mut().unwrap().len = 41;
    assert_eq!(0, alt_find_keystroke_size(&s.packets));
}

#[test]
fn the_fallback_size_wins_over_the_packet_behind_new_keys() {
    let mut s = Stream::new();
    login(&mut s);
    for _ in 0..4 {
        s.client(40);
    }
    for _ in 0..4 {
        s.server(40);
    }
    s.client(7);
    assert_eq!(40, analyse(0, &s.packets, true).unwrap().keystroke_size);
}

#[test]
fn start_and_end_are_dates_in_utc() {
    let stream = lsal_stream();
    assert_eq!(62, stream.len());
    let (start, end) = get_start_and_end(&stream).unwrap();
    assert_eq!("2023-11-14 22:13:20", start);
    assert_eq!("2023-11-14 22:13:20", end);
    let mut long = stream.clone();
    long[61].timestamp_micros = START + 3_600_000_000 + 7_000_000;
    let (_, end) = get_start_and_end(&long).unwrap();
    assert_eq!("2023-11-14 23:13:27", end);
    let mut epoch = stream.clone();
    epoch[0].timestamp_micros = 0;
    assert_eq!("1970-01-01 00:00:00", get_start_and_end(&epoch).unwrap().0);
}

#[test]
fn the_whole_session_is_analysed() {
    let stream = lsal_stream();
    let session = analyse(3, &stream, false).unwrap();
    assert_eq!(3, session.stream);
    assert_eq!(7, session.new_keys_at);
    assert_eq!(36, session.keystroke_size);
    assert!(session.keystroke_size > 0);
    assert_eq!(-52, session.prompt_size);
    assert_eq!("SSH-2.0-OpenSSH_9.6", session.protocols.0);
    assert_eq!("SSH-2.0-OpenSSH_8.4p1 Raspbian-5+deb11u3", session.protocols.1);
    assert_eq!("192.168.0.212:50502", session.src);
    assert_eq!("192.168.0.45:22", session.dst);
    assert_eq!("aae6b9604f6f3356543709a376d7f657", session.hassh_c);
    assert_eq!("779664e66160bf75999f091fce5edb5a", session.hassh_s);
    assert_eq!("curve25519-sha256", session.algorithms.0);
    assert_eq!("chacha20-poly1305@openssh.com", session.algorithms.1);
    assert_eq!("umac-64-etm@openssh.com", session.algorithms.2);
    assert_eq!("none", session.algorithms.3);
    assert_eq!(17, session.logged_in_at);
    assert_eq!("2023-11-14 22:13:20", session.start_utc);
    let timeline: Vec<(usize, String)> = session
        .results
        .iter()
        .map(|p| (p.index, p.description.clone().unwrap()))
        .collect();
    assert_eq!(
        vec![
            (6, "Server hostkey accepted".to_string()),
            (7, "New Keys (21)".to_string()),
            (8, "Keystroke Size Indicator".to_string()),
            (11, "First login prompt".to_string()),
            (12, "OfferRSAKey".to_string()),
            (13, "AcceptedKey".to_string()),
            (14, "OfferED25519Key".to_string()),
            (15, "RejectedKey".to_string()),
            (17, "CorrectPassword".to_string()),
        ],
        timeline
    );
    let lengths: Vec<usize> = session.keystroke_data.iter().map(|s| s.len()).collect();
    assert_eq!(vec![7, 3, 5], lengths);
    for sequence in &session.keystroke_data {
        assert_eq!(0, sequence[0].timestamp);
        assert_eq!(KeystrokeType::Enter, sequence.last().unwrap().k_type);
    }
    // The keystrokes lie 20 ms apart, but for the two that were captured
    // back to back; the Enter follows 30 ms behind the last of them.
    let latencies: Vec<i64> = session.keystroke_data[0].iter().map(|k| k.timestamp).collect();
    assert_eq!(vec![0, 20_000, 20_000, 20_000, 20_000, 10_000, 30_000], latencies);
    // Every keystroke carries the sequence number of its own packet.
    let numbers: Vec<i64> = session.keystroke_data[1].iter().map(|k| k.seq).collect();
    assert_eq!(
        vec![stream[39].tcp.as_ref().unwrap().seq, stream[41].tcp.as_ref().unwrap().seq, stream[43].tcp.as_ref().unwrap().seq],
        numbers
    );
    // The response of an Enter is all that the server sent behind it.
    assert_eq!(Some(1612), session.keystroke_data[0][6].response_size);
    assert_eq!(Some(204), session.keystroke_data[1][2].response_size);
    assert_eq!(Some(180), session.keystroke_data[2][4].response_size);
    assert_eq!(None, session.keystroke_data[0][0].response_size);
}

#[test]
fn metadata_alone_leaves_the_keystrokes_out() {
    let session = analyse(0, &lsal_stream(), true).unwrap();
    assert!(session.keystroke_data.is_empty());
    assert_eq!(9, session.results.len());
    assert_eq!(36, session.keystroke_size);
}

#[test]
fn a_session_without_packets_cannot_be_analysed() {
    assert_eq!(Err(AnalysisError::EmptyStream), analyse(0, &[], false).map(|s| s.stream));
}
