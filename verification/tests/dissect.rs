//! Reading packets from the text of their fields.
use sshniff::analyser::dissect::{
    dissect, dissect_packet, parse_i64, parse_u32, DissectError, Field, RawIp, RawPacket, RawSsh,
    RawTcp,
};
use sshniff::analyser::session::decimal_text;

fn some(text: &str) -> Option<String> {
    Some(text.to_string())
}

fn raw_ssh() -> RawSsh {
    RawSsh {
        message_code: some("20"),
        protocol: some("SSH-2.0-OpenSSH_9.6"),
        kex_algorithms: some("curve25519-sha256"),
        encryption_algorithms_client_to_server: some("aes128-ctr"),
        mac_algorithms_client_to_server: some("hmac-sha1"),
        compression_algorithms_client_to_server: some("none"),
        encryption_algorithms_server_to_client: None,
        mac_algorithms_server_to_client: None,
        compression_algorithms_server_to_client: None,
    }
}

fn raw() -> RawPacket {
    RawPacket {
        timestamp_micros: Some(1_700_000_000_000_000),
        ip: Some(RawIp { src: some("192.168.0.212"), dst: some("192.168.0.45") }),
        tcp: Some(RawTcp {
            seq: some("1606"),
            len: some("16"),
            srcport: some("50502"),
            dstport: some("22"),
        }),
        ssh: Some(raw_ssh()),
    }
}

#[test]
fn numbers_are_read_from_decimal_text() {
    assert_eq!(Some(0), parse_u32("0"));
    assert_eq!(Some(7), parse_u32("007"));
    assert_eq!(Some(50502), parse_u32("50502"));
    assert_eq!(Some(5), parse_u32("+5"));
    assert_eq!(Some(u32::MAX), parse_u32("4294967295"));
    assert_eq!(Some(u32::MAX), parse_u32("0000000000000000000000004294967295"));
    for text in
        ["", "+", "-", "-0", "-5", "4294967296", "99999999999999999999999", "5 ", " 5", "5a", "0x10", "+-5", "++5", "٣"]
    {
        assert_eq!(None, parse_u32(text));
    }
    assert_eq!(Some(0), parse_i64("-0"));
    assert_eq!(Some(-1606), parse_i64("-1606"));
    assert_eq!(Some(1606), parse_i64("+1606"));
    assert_eq!(Some(i64::MAX), parse_i64("9223372036854775807"));
    assert_eq!(Some(i64::MIN), parse_i64("-9223372036854775808"));
    assert_eq!(Some(i64::MIN + 1), parse_i64("-9223372036854775807"));
    for text in ["", "+", "-", "--5", "9223372036854775808", "-9223372036854775809", "1.5", "1e3"] {
        assert_eq!(None, parse_i64(text));
    }
}

#[test]
fn numbers_are_read_as_the_standard_library_reads_them() {
    let texts = [
        "", "0", "-0", "+0", "12", "-12", "+12", "4294967295", "4294967296", "-4294967295",
        "9223372036854775807", "9223372036854775808", "-9223372036854775808",
        "-9223372036854775809", "00012", "+", "-", "1 ", "a", "1a", "+-1", "18446744073709551616",
    ];
    for text in texts {
        assert_eq!(text.parse::<u32>().ok(), parse_u32(text));
        assert_eq!(text.parse::<i64>().ok(), parse_i64(text));
    }
}

#[test]
fn a_number_written_out_reads_back() {
    for n in [0, 1, 9, 10, 22, 99, 100, 50502, 1_000_000, u32::MAX - 1, u32::MAX] {
        assert_eq!(Some(n), parse_u32(&decimal_text(n)));
        assert_eq!(n.to_string(), decimal_text(n));
    }
}

#[test]
fn a_packet_is_read_field_by_field() {
    let packet = dissect_packet(&raw()).unwrap();
    assert_eq!(1_700_000_000_000_000, packet.timestamp_micros);
    let tcp = packet.tcp.unwrap();
    assert_eq!((1606, 16, 50502, 22), (tcp.seq, tcp.len, tcp.srcport, tcp.dstport));
    let ip = packet.ip.unwrap();
    assert_eq!(("192.168.0.212", "192.168.0.45"), (ip.src.as_str(), ip.dst.as_str()));
    let ssh = packet.ssh.unwrap();
    assert_eq!(Some(20), ssh.message_code);
    assert_eq!(some("SSH-2.0-OpenSSH_9.6"), ssh.protocol);
    assert_eq!(some("curve25519-sha256"), ssh.kex_algorithms);
    assert_eq!(some("aes128-ctr"), ssh.encryption_algorithms_client_to_server);
    assert_eq!(some("hmac-sha1"), ssh.mac_algorithms_client_to_server);
    assert_eq!(some("none"), ssh.compression_algorithms_client_to_server);
    assert_eq!(None, ssh.encryption_algorithms_server_to_client);
    assert_eq!(None, ssh.mac_algorithms_server_to_client);
    assert_eq!(None, ssh.compression_algorithms_server_to_client);
}

#[test]
fn a_layer_may_be_missing() {
    let mut bare = raw();
    bare.ip = None;
    bare.tcp = None;
    bare.ssh = None;
    let packet = dissect_packet(&bare).unwrap();
    assert!(packet.ip.is_none() && packet.tcp.is_none() && packet.ssh.is_none());
    let mut plain = raw();
    plain.ssh.as_mut().unwrap().message_code = None;
    assert_eq!(None, dissect_packet(&plain).unwrap().ssh.unwrap().message_code);
}

#[test]
fn a_field_that_is_missing_is_named() {
    let cases: Vec<(Field, fn(&mut RawPacket))> = vec![
        (Field::Timestamp, |p| p.timestamp_micros = None),
        (Field::TcpSeq, |p| p.tcp.as_mut().unwrap().seq = None),
        (Field::TcpLen, |p| p.tcp.as_mut().unwrap().len = None),
        (Field::TcpSrcPort, |p| p.tcp.as_mut().unwrap().srcport = None),
        (Field::TcpDstPort, |p| p.tcp.as_mut().unwrap().dstport = None),
        (Field::IpSrc, |p| p.ip.as_mut().unwrap().src = None),
        (Field::IpDst, |p| p.ip.as_mut().unwrap().dst = None),
    ];
    for (field, spoil) in cases {
        let mut packet = raw();
        spoil(&mut packet);
        assert_eq!(Err(DissectError::Missing(field)), dissect_packet(&packet).map(|p| p.timestamp_micros));
    }
}

#[test]
fn a_field_that_is_no_number_is_named() {
    let cases: Vec<(Field, fn(&mut RawPacket))> = vec![
        (Field::TcpSeq, |p| p.tcp.as_mut().unwrap().seq = some("1606.5")),
        (Field::TcpLen, |p| p.tcp.as_mut().unwrap().len = some("-16")),
        (Field::TcpSrcPort, |p| p.tcp.as_mut().unwrap().srcport = some("")),
        (Field::TcpDstPort, |p| p.tcp.as_mut().unwrap().dstport = some("ssh")),
        (Field::SshMessageCode, |p| p.ssh.as_mut().unwrap().message_code = some("4294967296")),
    ];
    for (field, spoil) in cases {
        let mut packet = raw();
        spoil(&mut packet);
        assert_eq!(
            Err(DissectError::Malformed(field)),
            dissect_packet(&packet).map(|p| p.timestamp_micros)
        );
    }
}

#[test]
fn the_first_fault_is_told() {
    let mut packet = raw();
    packet.ssh.as_mut().unwrap().message_code = some("x");
    packet.ip.as_mut().unwrap().dst = None;
    assert_eq!(
        Err(DissectError::Missing(Field::IpDst)),
        dissect_packet(&packet).map(|p| p.timestamp_micros)
    );
    packet.tcp.as_mut().unwrap().dstport = None;
    packet.tcp.as_mut().unwrap().len = some("x");
    assert_eq!(
        Err(DissectError::Malformed(Field::TcpLen)),
        dissect_packet(&packet).map(|p| p.timestamp_micros)
    );
    packet.timestamp_micros = None;
    assert_eq!(
        Err(DissectError::Missing(Field::Timestamp)),
        dissect_packet(&packet).map(|p| p.timestamp_micros)
    );
}

#[test]
fn a_stream_is_read_in_order() {
    let mut second = raw();
    second.tcp.as_mut().unwrap().seq = some("1622");
    let stream = vec![raw(), second.clone(), raw()];
    let packets = dissect(&stream).unwrap();
    let seqs: Vec<i64> = packets.iter().map(|p| p.tcp.as_ref().unwrap().seq).collect();
    assert_eq!(vec![1606, 1622, 1606], seqs);
    assert!(dissect(&[]).unwrap().is_empty());
    let mut bad = raw();
    bad.tcp.as_mut().unwrap().len = None;
    let mut worse = raw();
    worse.timestamp_micros = None;
    assert_eq!(
        Err(DissectError::Missing(Field::TcpLen)),
        dissect(&[raw(), bad, worse]).map(|p| p.len())
    );
}
