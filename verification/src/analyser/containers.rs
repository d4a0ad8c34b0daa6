//! Data types shared by the scanners: dissected packets as they are handed
//! in, directed packets as the classifiers read them, and the events and
//! keystrokes that come out.
use vstd::prelude::*;
use vstd::string::*;

verus! {

/// Transport fields of a dissected packet.
#[derive(Clone, Debug)]
pub struct TcpLayer {
    /// tcp.seq
    pub seq: i64,
    /// tcp.len, the payload length in bytes
    pub len: u32,
    /// tcp.srcport
    pub srcport: u32,
    /// tcp.dstport
    pub dstport: u32,
}

/// Network fields of a dissected packet.
#[derive(Clone, Debug)]
pub struct IpLayer {
    /// ip.src
    pub src: String,
    /// ip.dst
    pub dst: String,
}

/// SSH fields of a dissected packet. Every field is optional: which of
/// them a packet carries depends on the message it holds.
#[derive(Clone, Debug)]
pub struct SshLayer {
    /// ssh.message_code
    pub message_code: Option<u32>,
    /// ssh.protocol, the version banner
    pub protocol: Option<String>,
    /// ssh.kex_algorithms
    pub kex_algorithms: Option<String>,
    /// ssh.encryption_algorithms_client_to_server
    pub encryption_algorithms_client_to_server: Option<String>,
    /// ssh.mac_algorithms_client_to_server
    pub mac_algorithms_client_to_server: Option<String>,
    /// ssh.compression_algorithms_client_to_server
    pub compression_algorithms_client_to_server: Option<String>,
    /// ssh.encryption_algorithms_server_to_client
    pub encryption_algorithms_server_to_client: Option<String>,
    /// ssh.mac_algorithms_server_to_client
    pub mac_algorithms_server_to_client: Option<String>,
    /// ssh.compression_algorithms_server_to_client
    pub compression_algorithms_server_to_client: Option<String>,
}

/// One dissected packet of a TCP stream, as the packet dissector hands it
/// over. A layer that the dissector did not find is `None`.
#[derive(Clone, Debug)]
pub struct Packet {
    /// Capture time in microseconds since the Unix epoch.
    pub timestamp_micros: i64,
    /// The IP layer, if any.
    pub ip: Option<IpLayer>,
    /// The TCP layer, if any.
    pub tcp: Option<TcpLayer>,
    /// The SSH layer, if any.
    pub ssh: Option<SshLayer>,
}

/// Everything that can stop the analysis of a stream.
#[derive(Clone, Copy, Debug, PartialEq, Eq, Structural)]
pub enum AnalysisError {
    /// The stream holds no packet.
    EmptyStream,
    /// A capture time lies outside the range of calendar dates.
    TimestampOutOfRange,
    /// A packet has no TCP layer.
    TcpLayerNotFound,
    /// A TCP payload length does not fit a signed directional length.
    TcpLengthTooLarge,
    /// A packet in the scanned window has no SSH layer.
    SshLayerNotFound,
    /// A banner packet has no IP layer.
    IpLayerNotFound,
    /// No New Keys message within the first 50 packets.
    NewKeysNotFound,
    /// Fewer than four packets follow the New Keys message.
    NotEnoughPackets,
    /// The two packets after New Keys differ in length.
    NewKeysSizeMismatch,
    /// A key exchange init message lists no key exchange algorithms.
    KexAlgorithmsNotFound,
    /// A key exchange init message lists no encryption algorithms.
    EncryptionAlgorithmsNotFound,
    /// A key exchange init message lists no MAC algorithms.
    MacAlgorithmsNotFound,
    /// A key exchange init message lists no compression algorithms.
    CompressionAlgorithmsNotFound,
    /// No key exchange init message from the client.
    ClientHasshNotFound,
    /// No key exchange init message from the server.
    ServerHasshNotFound,
    /// Client and server share no key exchange algorithm.
    NoCommonKex,
    /// Client and server share no encryption algorithm.
    NoCommonEncryption,
    /// Client and server share no compression algorithm.
    NoCommonCompression,
    /// No version banner from the client.
    ClientProtocolNotFound,
    /// No version banner from the server.
    ServerProtocolNotFound,
    /// The calibrated keystroke size is zero or negative.
    KeystrokeSizeNotPositive,
    /// The calibrated keystroke size does not fit a directional length.
    KeystrokeSizeOutOfRange,
    /// No authentication success packet among the 40 behind New Keys.
    LoginNotFound,
    /// Two keystrokes of one sequence lie further apart than a latency can hold.
    LatencyOutOfRange,
}

/// Inferred category of a keystroke.
#[derive(Clone, Copy, Debug, PartialEq, Eq, Structural)]
pub enum KeystrokeType {
    /// Regular keystroke.
    Keystroke,
    /// Backspace or delete.
    Delete,
    /// Tab completion.
    Tab,
    /// Return.
    Enter,
    /// Left or right arrow key.
    ArrowHorizontal,
    /// Up or down arrow key.
    ArrowVertical,
    /// Either a delete or a retyped character.
    Unknown,
}

/// One classified keystroke.
#[derive(Clone, Copy, Debug, PartialEq, Eq)]
pub struct Keystroke {
    /// Inferred type of keystroke.
    pub k_type: KeystrokeType,
    /// Capture time in microseconds; after grouping, the latency to the
    /// previous keystroke of the same sequence.
    pub timestamp: i64,
    /// Bytes the server returned; `Some` only for `Enter`.
    pub response_size: Option<u128>,
    /// tcp.seq
    pub seq: i64,
}

/// What the login scan looks for before a successful login.
#[derive(Clone, Copy, Debug, PartialEq, Eq, Structural)]
pub enum Event {
    WrongPassword,
    CorrectPassword,
    OfferRSAKey,
    OfferECDSAKey,
    OfferED25519Key,
    OfferUnknownKey,
    RejectedKey,
    AcceptedKey,
}

impl Event {
    /// The event's name, as it is written into a packet's description.
    pub open spec fn name(self) -> Seq<char> {
        match self {
            Event::WrongPassword => "WrongPassword"@,
            Event::CorrectPassword => "CorrectPassword"@,
            Event::OfferRSAKey => "OfferRSAKey"@,
            Event::OfferECDSAKey => "OfferECDSAKey"@,
            Event::OfferED25519Key => "OfferED25519Key"@,
            Event::OfferUnknownKey => "OfferUnknownKey"@,
            Event::RejectedKey => "RejectedKey"@,
            Event::AcceptedKey => "AcceptedKey"@,
        }
    }

    /// The event's name as text.
    pub fn to_string(&self) -> (text: String)
        ensures
            text@ == self.name(),
    {
        match self {
            Event::WrongPassword => String::from_str("WrongPassword"),
            Event::CorrectPassword => String::from_str("CorrectPassword"),
            Event::OfferRSAKey => String::from_str("OfferRSAKey"),
            Event::OfferECDSAKey => String::from_str("OfferECDSAKey"),
            Event::OfferED25519Key => String::from_str("OfferED25519Key"),
            Event::OfferUnknownKey => String::from_str("OfferUnknownKey"),
            Event::RejectedKey => String::from_str("RejectedKey"),
            Event::AcceptedKey => String::from_str("AcceptedKey"),
        }
    }
}

/// A packet with its direction folded into the sign of its length:
/// positive from client to server, negative from server to client.
#[derive(Clone, Debug, PartialEq, Eq)]
pub struct PacketInfo {
    /// Position in the stream the packet was taken from.
    pub index: usize,
    /// tcp.seq
    pub seq: i64,
    /// tcp.len, negated for a packet that the server sent.
    pub length: i32,
    /// Capture time in microseconds since the Unix epoch.
    pub timestamp: i64,
    /// Whether the server sent the packet.
    pub from_server: bool,
    /// ssh.message_code, where the packet carries one.
    pub message_code: Option<u32>,
    /// Label that a scan attached for later display.
    pub description: Option<String>,
}

/// Whether the server sent a packet with these TCP fields: the client
/// holds the higher, ephemeral port.
pub open spec fn sent_by_server(tcp: TcpLayer) -> bool {
    tcp.dstport > tcp.srcport
}

/// The message code of a packet, `None` where it has no SSH layer or the
/// layer has no code.
pub open spec fn message_code_of(packet: Packet) -> Option<u32> {
    match packet.ssh {
        Some(ssh) => ssh.message_code,
        None => None,
    }
}

/// The view of an optional text.
pub open spec fn text_of(text: Option<String>) -> Option<Seq<char>> {
    match text {
        Some(t) => Some(t@),
        None => None,
    }
}

impl PacketInfo {
    /// Whether a packet can be projected: it has a TCP layer whose length
    /// fits the signed length.
    pub open spec fn projectable(packet: Packet) -> bool {
        packet.tcp is Some && packet.tcp->0.len <= i32::MAX
    }

    /// The error that projecting `packet` gives.
    pub open spec fn projection_error(packet: Packet) -> AnalysisError {
        if packet.tcp is None {
            AnalysisError::TcpLayerNotFound
        } else {
            AnalysisError::TcpLengthTooLarge
        }
    }

    /// The signed length of a projectable packet.
    pub open spec fn directed_length(packet: Packet) -> int {
        if sent_by_server(packet.tcp->0) {
            -(packet.tcp->0.len as int)
        } else {
            packet.tcp->0.len as int
        }
    }

    /// The projection of a projectable packet found at `index`, without a
    /// description.
    pub open spec fn projection(packet: Packet, index: usize) -> PacketInfo {
        PacketInfo {
            index,
            seq: packet.tcp->0.seq,
            length: Self::directed_length(packet) as i32,
            timestamp: packet.timestamp_micros,
            from_server: sent_by_server(packet.tcp->0),
            message_code: message_code_of(packet),
            description: None,
        }
    }

    /// `self` is the projection of `packet`, found at `index`; the
    /// description is left open.
    pub open spec fn projects(self, packet: Packet, index: usize) -> bool {
        &&& Self::projectable(packet)
        &&& self.index == index
        &&& self.seq == packet.tcp->0.seq
        &&& self.length == Self::directed_length(packet)
        &&& self.timestamp == packet.timestamp_micros
        &&& self.from_server == sent_by_server(packet.tcp->0)
        &&& self.message_code == message_code_of(packet)
    }

    /// The description as a sequence of characters.
    pub open spec fn label(self) -> Option<Seq<char>> {
        text_of(self.description)
    }

    /// `self` and `other` agree on everything but the description.
    pub open spec fn same_packet(self, other: PacketInfo) -> bool {
        &&& self.index == other.index
        &&& self.seq == other.seq
        &&& self.length == other.length
        &&& self.timestamp == other.timestamp
        &&& self.from_server == other.from_server
        &&& self.message_code == other.message_code
    }

    /// `self` is `other` with the description replaced by `text`.
    pub open spec fn relabels(self, other: PacketInfo, text: Seq<char>) -> bool {
        self.same_packet(other) && self.label() == Some(text)
    }

    /// Projects a dissected packet found at `index`. The length is negated
    /// when the server sent the packet. Fails on a packet without a TCP
    /// layer, or with a length beyond `i32::MAX`.
    pub fn new(packet: &Packet, index: usize, description: Option<String>) -> (result: Result<
        PacketInfo,
        AnalysisError,
    >)
        ensures
            result is Ok <==> Self::projectable(*packet),
            result matches Ok(info) ==> info.projects(*packet, index) && info.description
                == description,
            result matches Err(e) ==> e == Self::projection_error(*packet),
    {
        match &packet.tcp {
            None => Err(AnalysisError::TcpLayerNotFound),
            Some(tcp) => {
                if tcp.len > 0x7fff_ffff {
                    return Err(AnalysisError::TcpLengthTooLarge);
                }
                let from_server = tcp.dstport > tcp.srcport;
                let magnitude: i32 = tcp.len as i32;
                let length: i32 = if from_server {
                    -magnitude
                } else {
                    magnitude
                };
                let message_code = match &packet.ssh {
                    Some(ssh) => ssh.message_code,
                    None => None,
                };
                Ok(
                    PacketInfo {
                        index,
                        seq: tcp.seq,
                        length,
                        timestamp: packet.timestamp_micros,
                        from_server,
                        message_code,
                        description,
                    },
                )
            },
        }
    }

    /// A copy of this packet.
    pub fn duplicate(&self) -> (copy: PacketInfo)
        ensures
            copy == *self,
    {
        PacketInfo {
            index: self.index,
            seq: self.seq,
            length: self.length,
            timestamp: self.timestamp,
            from_server: self.from_server,
            message_code: self.message_code,
            description: match &self.description {
                Some(text) => Some(text.clone()),
                None => None,
            },
        }
    }

    /// A copy of this packet that carries `text` as its description.
    pub fn with_description(&self, text: &str) -> (labelled: PacketInfo)
        ensures
            labelled.relabels(*self, text@),
    {
        PacketInfo {
            index: self.index,
            seq: self.seq,
            length: self.length,
            timestamp: self.timestamp,
            from_server: self.from_server,
            message_code: self.message_code,
            description: Some(String::from_str(text)),
        }
    }
}

} // verus!
