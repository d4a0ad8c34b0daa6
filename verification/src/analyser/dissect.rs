//! From the fields of a dissected packet as text to the typed packet that
//! the analysis reads: what has to be there, and how numbers are written.
use super::containers::{IpLayer, Packet, SshLayer, TcpLayer};
use super::utils::to_chars;
use vstd::prelude::*;
use vstd::string::*;

verus! {

/// The TCP fields of a packet as the dissector names and writes them.
#[derive(Clone, Debug)]
pub struct RawTcp {
    /// tcp.seq
    pub seq: Option<String>,
    /// tcp.len
    pub len: Option<String>,
    /// tcp.srcport
    pub srcport: Option<String>,
    /// tcp.dstport
    pub dstport: Option<String>,
}

/// The IP fields of a packet as the dissector names and writes them.
#[derive(Clone, Debug)]
pub struct RawIp {
    /// ip.src
    pub src: Option<String>,
    /// ip.dst
    pub dst: Option<String>,
}

/// The SSH fields of a packet as the dissector names and writes them.
#[derive(Clone, Debug)]
pub struct RawSsh {
    /// ssh.message_code
    pub message_code: Option<String>,
    /// ssh.protocol
    pub protocol: Option<String>,
    /// ssh.kex_algorithms
    pub kex_algorithms: Option<String>,
    /// ssh.encryption_algorithms_client_to_server
    pub encryption_algorithms_client_to_server: Option<String>,
    /// ssh.mac_algorithms_client_to_server
    pub mac_algorithms_client_to_server: Option<String>,
    /// ssh.compression_algorithms_client_to_server
    pub compression_algorithms_client_to_server: Option<String>,
    /// ssh.encryption_algorithms_server_to_client
    pub encryption_algorithms_server_to_client: Option<String>,
    /// ssh.mac_algorithms_server_to_client
    pub mac_algorithms_server_to_client: Option<String>,
    /// ssh.compression_algorithms_server_to_client
    pub compression_algorithms_server_to_client: Option<String>,
}

/// A packet as the dissector hands it over: layers that may be missing,
/// and in each layer fields that may be missing, every value as text.
#[derive(Clone, Debug)]
pub struct RawPacket {
    /// Capture time in microseconds since the Unix epoch.
    pub timestamp_micros: Option<i64>,
    /// The layer named "ip".
    pub ip: Option<RawIp>,
    /// The layer named "tcp".
    pub tcp: Option<RawTcp>,
    /// The layer named "ssh".
    pub ssh: Option<RawSsh>,
}

/// The fields that a packet cannot be read without.
#[derive(Clone, Copy, Debug, PartialEq, Eq, Structural)]
pub enum Field {
    Timestamp,
    TcpSeq,
    TcpLen,
    TcpSrcPort,
    TcpDstPort,
    IpSrc,
    IpDst,
    SshMessageCode,
}

/// Why a packet cannot be read.
#[derive(Clone, Copy, Debug, PartialEq, Eq, Structural)]
pub enum DissectError {
    /// A layer is there, but not this field of it; or the packet has no
    /// capture time.
    Missing(Field),
    /// The field does not hold a number of its range.
    Malformed(Field),
}

/// The value of a decimal digit.
pub open spec fn digit_value(c: char) -> Option<int> {
    if c == '0' {
        Some(0)
    } else if c == '1' {
        Some(1)
    } else if c == '2' {
        Some(2)
    } else if c == '3' {
        Some(3)
    } else if c == '4' {
        Some(4)
    } else if c == '5' {
        Some(5)
    } else if c == '6' {
        Some(6)
    } else if c == '7' {
        Some(7)
    } else if c == '8' {
        Some(8)
    } else if c == '9' {
        Some(9)
    } else {
        None
    }
}

/// The value of a text of decimal digits; `None` for an empty text and
/// for one that holds anything else.
pub open spec fn digits_value(s: Seq<char>) -> Option<int>
    decreases s.len(),
{
    if s.len() == 0 {
        None
    } else if s.len() == 1 {
        digit_value(s[0])
    } else {
        match (digits_value(s.drop_last()), digit_value(s.last())) {
            (Some(value), Some(digit)) => Some(10 * value + digit),
            _ => None,
        }
    }
}

/// The value of a number written in decimal, after a sign or without.
pub open spec fn number_value(s: Seq<char>) -> Option<int> {
    if s.len() > 0 && s[0] == '-' {
        match digits_value(s.skip(1)) {
            Some(value) => Some(-value),
            None => None,
        }
    } else if s.len() > 0 && s[0] == '+' {
        digits_value(s.skip(1))
    } else {
        digits_value(s)
    }
}

/// What a text holds as `u32`: a number without minus sign, up to
/// `u32::MAX`.
pub open spec fn parsed_u32(s: Seq<char>) -> Option<u32> {
    match number_value(s) {
        Some(value) => if s[0] != '-' && value <= u32::MAX {
            Some(value as u32)
        } else {
            None
        },
        None => None,
    }
}

/// What a text holds as `i64`: a number from `i64::MIN` to `i64::MAX`.
pub open spec fn parsed_i64(s: Seq<char>) -> Option<i64> {
    match number_value(s) {
        Some(value) => if i64::MIN <= value <= i64::MAX {
            Some(value as i64)
        } else {
            None
        },
        None => None,
    }
}

/// The digits of a text are worth at least as much as any of its
/// beginnings, and a text of digits begins with digits.
pub proof fn lemma_digits_grow(s: Seq<char>, n: int)
    requires
        1 <= n <= s.len(),
        digits_value(s) is Some,
    ensures
        digits_value(s.take(n)) is Some,
        0 <= digits_value(s.take(n))->0 <= digits_value(s)->0,
    decreases s.len(),
{
    if n == s.len() {
        assert(s.take(n) == s);
        lemma_digits_positive(s);
    } else {
        assert(s.drop_last().take(n) == s.take(n));
        lemma_digits_grow(s.drop_last(), n);
    }
}

/// The value of a text of digits is not negative.
pub proof fn lemma_digits_positive(s: Seq<char>)
    requires
        digits_value(s) is Some,
    ensures
        digits_value(s)->0 >= 0,
    decreases s.len(),
{
    if s.len() > 1 {
        lemma_digits_positive(s.drop_last());
    }
}

/// The value of a decimal digit.
fn read_digit(c: char) -> (value: Option<u8>)
    ensures
        match digit_value(c) {
            Some(d) => value == Some(d as u8) && 0 <= d <= 9,
            None => value is None,
        },
{
    if c == '0' {
        Some(0)
    } else if c == '1' {
        Some(1)
    } else if c == '2' {
        Some(2)
    } else if c == '3' {
        Some(3)
    } else if c == '4' {
        Some(4)
    } else if c == '5' {
        Some(5)
    } else if c == '6' {
        Some(6)
    } else if c == '7' {
        Some(7)
    } else if c == '8' {
        Some(8)
    } else if c == '9' {
        Some(9)
    } else {
        None
    }
}

/// The value of the digits of `text` from `start` on, if they are digits
/// and worth no more than `limit`.
fn read_digits(text: &Vec<char>, start: usize, limit: u64) -> (value: Option<u64>)
    requires
        start <= text@.len(),
        limit <= 0x8000_0000_0000_0000,
    ensures
        match digits_value(text@.skip(start as int)) {
            Some(v) => if v <= limit {
                value is Some && value->0 == v
            } else {
                value is None
            },
            None => value is None,
        },
        value matches Some(found) ==> found <= limit,
{
    let len = text.len();
    let ghost s = text@.skip(start as int);
    if start >= len {
        return None;
    }
    let mut value: u64 = 0;
    let mut i: usize = start;
    while i < len
        invariant
            len == text@.len(),
            start <= i <= len,
            start < len,
            s == text@.skip(start as int),
            limit <= 0x8000_0000_0000_0000,
            value <= limit,
            i == start ==> value == 0,
            i > start ==> digits_value(s.take(i - start)) == Some(value as int),
        decreases len - i,
    {
        let ghost upto = s.take(i + 1 - start);
        proof {
            assert(upto.last() == text@[i as int]);
            if i > start {
                assert(upto.drop_last() == s.take(i - start));
            }
        }
        match read_digit(text[i]) {
            None => {
                proof {
                    if digits_value(s) is Some {
                        lemma_digits_grow(s, i + 1 - start);
                    }
                }
                return None;
            },
            Some(digit) => {
                let next: u128 = 10 * (value as u128) + (digit as u128);
                assert(digits_value(upto) == Some(next as int));
                if next > limit as u128 {
                    proof {
                        if digits_value(s) is Some {
                            lemma_digits_grow(s, i + 1 - start);
                        }
                    }
                    return None;
                }
                value = next as u64;
            },
        }
        i += 1;
    }
    assert(s.take(len - start) == s);
    Some(value)
}

/// Reads a number up to `u32::MAX`, written in decimal with or without a
/// plus sign.
pub fn parse_u32(text: &str) -> (value: Option<u32>)
    ensures
        value == parsed_u32(text@),
{
    let chars = to_chars(text);
    if chars.len() > 0 && chars[0] == '-' {
        return None;
    }
    let start: usize = if chars.len() > 0 && chars[0] == '+' {
        1
    } else {
        0
    };
    assert(chars@.skip(0) == chars@);
    match read_digits(&chars, start, 0xffff_ffff) {
        Some(value) => Some(value as u32),
        None => None,
    }
}

/// Reads a number of the range of `i64`, written in decimal with or
/// without a sign.
pub fn parse_i64(text: &str) -> (value: Option<i64>)
    ensures
        value == parsed_i64(text@),
{
    let chars = to_chars(text);
    assert(chars@.skip(0) == chars@);
    if chars.len() > 0 && chars[0] == '-' {
        match read_digits(&chars, 1, 0x8000_0000_0000_0000) {
            Some(value) => {
                if value == 0x8000_0000_0000_0000 {
                    Some(i64::MIN)
                } else {
                    Some(-(value as i64))
                }
            },
            None => {
                proof {
                    if digits_value(chars@.skip(1)) is Some {
                        lemma_digits_positive(chars@.skip(1));
                    }
                }
                None
            },
        }
    } else {
        let start: usize = if chars.len() > 0 && chars[0] == '+' {
            1
        } else {
            0
        };
        match read_digits(&chars, start, 0x7fff_ffff_ffff_ffff) {
            Some(value) => Some(value as i64),
            None => {
                proof {
                    if digits_value(chars@.skip(start as int)) is Some {
                        lemma_digits_positive(chars@.skip(start as int));
                    }
                }
                None
            },
        }
    }
}

/// The number that a field holds, which has to be there.
pub open spec fn field_u32(text: Option<String>, field: Field) -> Result<u32, DissectError> {
    match text {
        None => Err(DissectError::Missing(field)),
        Some(t) => match parsed_u32(t@) {
            Some(value) => Ok(value),
            None => Err(DissectError::Malformed(field)),
        },
    }
}

/// The typed TCP layer, or what is wrong with the first field at fault,
/// in the order sequence number, length, source port, destination port.
pub open spec fn typed_tcp(raw: RawTcp) -> Result<TcpLayer, DissectError> {
    if raw.seq is None {
        Err(DissectError::Missing(Field::TcpSeq))
    } else if parsed_i64(raw.seq->0@) is None {
        Err(DissectError::Malformed(Field::TcpSeq))
    } else if field_u32(raw.len, Field::TcpLen) is Err {
        Err(field_u32(raw.len, Field::TcpLen)->Err_0)
    } else if field_u32(raw.srcport, Field::TcpSrcPort) is Err {
        Err(field_u32(raw.srcport, Field::TcpSrcPort)->Err_0)
    } else if field_u32(raw.dstport, Field::TcpDstPort) is Err {
        Err(field_u32(raw.dstport, Field::TcpDstPort)->Err_0)
    } else {
        Ok(
            TcpLayer {
                seq: parsed_i64(raw.seq->0@)->0,
                len: field_u32(raw.len, Field::TcpLen)->Ok_0,
                srcport: field_u32(raw.srcport, Field::TcpSrcPort)->Ok_0,
                dstport: field_u32(raw.dstport, Field::TcpDstPort)->Ok_0,
            },
        )
    }
}

/// The typed IP layer, which needs both addresses.
pub open spec fn typed_ip(raw: RawIp) -> Result<IpLayer, DissectError> {
    if raw.src is None {
        Err(DissectError::Missing(Field::IpSrc))
    } else if raw.dst is None {
        Err(DissectError::Missing(Field::IpDst))
    } else {
        Ok(IpLayer { src: raw.src->0, dst: raw.dst->0 })
    }
}

/// The typed SSH layer: the message code, if any, has to be a number;
/// every text is kept as it is.
pub open spec fn typed_ssh(raw: RawSsh) -> Result<SshLayer, DissectError> {
    if raw.message_code is Some && parsed_u32(raw.message_code->0@) is None {
        Err(DissectError::Malformed(Field::SshMessageCode))
    } else {
        Ok(
            SshLayer {
                message_code: match raw.message_code {
                    Some(code) => parsed_u32(code@),
                    None => None,
                },
                protocol: raw.protocol,
                kex_algorithms: raw.kex_algorithms,
                encryption_algorithms_client_to_server: raw.encryption_algorithms_client_to_server,
                mac_algorithms_client_to_server: raw.mac_algorithms_client_to_server,
                compression_algorithms_client_to_server: raw.compression_algorithms_client_to_server,
                encryption_algorithms_server_to_client: raw.encryption_algorithms_server_to_client,
                mac_algorithms_server_to_client: raw.mac_algorithms_server_to_client,
                compression_algorithms_server_to_client: raw.compression_algorithms_server_to_client,
            },
        )
    }
}

/// The typed packet, or what is wrong with the first part at fault, in
/// the order capture time, TCP layer, IP layer, SSH layer. A layer that
/// is missing stays missing; a layer that is there has to be well formed.
pub open spec fn typed_packet(raw: RawPacket) -> Result<Packet, DissectError> {
    if raw.timestamp_micros is None {
        Err(DissectError::Missing(Field::Timestamp))
    } else if raw.tcp is Some && typed_tcp(raw.tcp->0) is Err {
        Err(typed_tcp(raw.tcp->0)->Err_0)
    } else if raw.ip is Some && typed_ip(raw.ip->0) is Err {
        Err(typed_ip(raw.ip->0)->Err_0)
    } else if raw.ssh is Some && typed_ssh(raw.ssh->0) is Err {
        Err(typed_ssh(raw.ssh->0)->Err_0)
    } else {
        Ok(
            Packet {
                timestamp_micros: raw.timestamp_micros->0,
                ip: match raw.ip {
                    Some(ip) => Some(typed_ip(ip)->Ok_0),
                    None => None,
                },
                tcp: match raw.tcp {
                    Some(tcp) => Some(typed_tcp(tcp)->Ok_0),
                    None => None,
                },
                ssh: match raw.ssh {
                    Some(ssh) => Some(typed_ssh(ssh)->Ok_0),
                    None => None,
                },
            },
        )
    }
}

/// Reads a field that holds a number up to `u32::MAX`.
fn read_u32(text: &Option<String>, field: Field) -> (result: Result<u32, DissectError>)
    ensures
        result == field_u32(*text, field),
{
    match text {
        None => Err(DissectError::Missing(field)),
        Some(t) => match parse_u32(t.as_str()) {
            Some(value) => Ok(value),
            None => Err(DissectError::Malformed(field)),
        },
    }
}

/// A copy of an optional text.
fn copy_text(text: &Option<String>) -> (copy: Option<String>)
    ensures
        copy == *text,
{
    match text {
        Some(t) => Some(t.clone()),
        None => None,
    }
}

/// Reads the TCP layer.
fn read_tcp(raw: &RawTcp) -> (result: Result<TcpLayer, DissectError>)
    ensures
        result == typed_tcp(*raw),
{
    let seq = match &raw.seq {
        None => {
            return Err(DissectError::Missing(Field::TcpSeq));
        },
        Some(text) => match parse_i64(text.as_str()) {
            Some(seq) => seq,
            None => {
                return Err(DissectError::Malformed(Field::TcpSeq));
            },
        },
    };
    let len = match read_u32(&raw.len, Field::TcpLen) {
        Ok(len) => len,
        Err(e) => {
            return Err(e);
        },
    };
    let srcport = match read_u32(&raw.srcport, Field::TcpSrcPort) {
        Ok(port) => port,
        Err(e) => {
            return Err(e);
        },
    };
    let dstport = match read_u32(&raw.dstport, Field::TcpDstPort) {
        Ok(port) => port,
        Err(e) => {
            return Err(e);
        },
    };
    Ok(TcpLayer { seq, len, srcport, dstport })
}

/// Reads the IP layer.
fn read_ip(raw: &RawIp) -> (result: Result<IpLayer, DissectError>)
    ensures
        result == typed_ip(*raw),
{
    match (&raw.src, &raw.dst) {
        (None, _) => Err(DissectError::Missing(Field::IpSrc)),
        (Some(_), None) => Err(DissectError::Missing(Field::IpDst)),
        (Some(src), Some(dst)) => Ok(IpLayer { src: src.clone(), dst: dst.clone() }),
    }
}

/// Reads the SSH layer.
fn read_ssh(raw: &RawSsh) -> (result: Result<SshLayer, DissectError>)
    ensures
        result == typed_ssh(*raw),
{
    let message_code = match &raw.message_code {
        None => None,
        Some(text) => match parse_u32(text.as_str()) {
            Some(code) => Some(code),
            None => {
                return Err(DissectError::Malformed(Field::SshMessageCode));
            },
        },
    };
    Ok(
        SshLayer {
            message_code,
            protocol: copy_text(&raw.protocol),
            kex_algorithms: copy_text(&raw.kex_algorithms),
            encryption_algorithms_client_to_server: copy_text(
                &raw.encryption_algorithms_client_to_server,
            ),
            mac_algorithms_client_to_server: copy_text(&raw.mac_algorithms_client_to_server),
            compression_algorithms_client_to_server: copy_text(
                &raw.compression_algorithms_client_to_server,
            ),
            encryption_algorithms_server_to_client: copy_text(
                &raw.encryption_algorithms_server_to_client,
            ),
            mac_algorithms_server_to_client: copy_text(&raw.mac_algorithms_server_to_client),
            compression_algorithms_server_to_client: copy_text(
                &raw.compression_algorithms_server_to_client,
            ),
        },
    )
}

/// Reads one packet: checks that the fields of every layer are there and
/// turns the numbers among them from text into values. See
/// `typed_packet`.
pub fn dissect_packet(raw: &RawPacket) -> (result: Result<Packet, DissectError>)
    ensures
        result == typed_packet(*raw),
{
    let timestamp_micros = match raw.timestamp_micros {
        Some(time) => time,
        None => {
            return Err(DissectError::Missing(Field::Timestamp));
        },
    };
    let tcp = match &raw.tcp {
        None => None,
        Some(layer) => match read_tcp(layer) {
            Ok(tcp) => Some(tcp),
            Err(e) => {
                return Err(e);
            },
        },
    };
    let ip = match &raw.ip {
        None => None,
        Some(layer) => match read_ip(layer) {
            Ok(ip) => Some(ip),
            Err(e) => {
                return Err(e);
            },
        },
    };
    let ssh = match &raw.ssh {
        None => None,
        Some(layer) => match read_ssh(layer) {
            Ok(ssh) => Some(ssh),
            Err(e) => {
                return Err(e);
            },
        },
    };
    Ok(Packet { timestamp_micros, ip, tcp, ssh })
}

/// The position of the first packet, from `i` on, that cannot be read.
pub open spec fn first_unreadable(raw: Seq<RawPacket>, i: int) -> Option<int>
    decreases raw.len() - i,
{
    if i < 0 || i >= raw.len() {
        None
    } else if typed_packet(raw[i]) is Err {
        Some(i)
    } else {
        first_unreadable(raw, i + 1)
    }
}

/// The packets of a stream, read one by one.
pub open spec fn typed_stream(raw: Seq<RawPacket>) -> Seq<Packet> {
    Seq::new(raw.len(), |i: int| typed_packet(raw[i])->Ok_0)
}

/// Reads the packets of a stream, keeping their order. Fails at the
/// first packet that cannot be read.
pub fn dissect(raw: &[RawPacket]) -> (result: Result<Vec<Packet>, DissectError>)
    ensures
        match first_unreadable(raw@, 0) {
            Some(i) => result is Err && result->Err_0 == typed_packet(raw@[i])->Err_0,
            None => result is Ok && result->Ok_0@ == typed_stream(raw@),
        },
{
    let mut packets: Vec<Packet> = Vec::new();
    let mut i: usize = 0;
    while i < raw.len()
        invariant
            i <= raw@.len(),
            first_unreadable(raw@, i as int) == first_unreadable(raw@, 0),
            packets@.len() == i,
            forall|j: int| 0 <= j < i ==> #[trigger] packets@[j] == typed_packet(raw@[j])->Ok_0,
        decreases raw@.len() - i,
    {
        match dissect_packet(&raw[i]) {
            Ok(packet) => {
                packets.push(packet);
            },
            Err(e) => {
                return Err(e);
            },
        }
        i += 1;
    }
    assert(packets@ == typed_stream(raw@));
    Ok(packets)
}

} // verus!
