//! Decisions of the capture loop: which connection to follow and what its
//! segments yield.
use std::sync::atomic::{AtomicBool, Ordering};
use std::sync::Arc;
use vstd::prelude::*;
use crate::frame::GamePacket;
use crate::reassembler::{
    drain, empty_stream, extract, observe, seq_after, StreamModel, TCPReassembler, SEQ_MODULUS,
};
use crate::signature::{identifies_game, is_login, has_signature_anywhere, scan_for_signature};

verus! {

/// One direction of one TCP connection.
#[derive(Debug, Clone, Copy, PartialEq, Eq, Structural)]
pub struct GameServer {
    pub source_ip: u32,
    pub source_port: u16,
    pub dest_ip: u32,
    pub dest_port: u16,
}

impl GameServer {
    pub fn new(source_ip: u32, source_port: u16, dest_ip: u32, dest_port: u16) -> (r: GameServer)
        ensures
            r == (GameServer { source_ip, source_port, dest_ip, dest_port }),
    {
        GameServer { source_ip, source_port, dest_ip, dest_port }
    }
}

/// The TCP fields that the capture loop reads from one IPv4 datagram.
#[derive(Debug)]
pub struct TcpSegment {
    pub source_ip: u32,
    pub source_port: u16,
    pub dest_ip: u32,
    pub dest_port: u16,
    pub sequence: u32,
    pub payload: Vec<u8>,
}

impl TcpSegment {
    pub open spec fn endpoint(&self) -> GameServer {
        GameServer {
            source_ip: self.source_ip,
            source_port: self.source_port,
            dest_ip: self.dest_ip,
            dest_port: self.dest_port,
        }
    }

    pub open spec fn fields(&self) -> (u32, u16, u32, u16, u32, Seq<u8>) {
        (
            self.source_ip,
            self.source_port,
            self.dest_ip,
            self.dest_port,
            self.sequence,
            self.payload@,
        )
    }
}

#[verifier::external_type_specification]
#[verifier::external_body]
pub struct ExSliceError(etherparse::err::packet::SliceError);

/// How an IP datagram slices: `None` where its headers are invalid,
/// `Some(None)` where it is not an unfragmented IPv4 datagram carrying TCP,
/// else its source address and port, destination address and port,
/// sequence number and TCP payload.
pub uninterp spec fn sliced_tcp(datagram: Seq<u8>) -> Option<
    Option<(u32, u16, u32, u16, u32, Seq<u8>)>,
>;

/// Relies on etherparse::SlicedPacket::from_ip, with the IPv4 header's
/// source and destination and the TCP slice's ports, sequence number and
/// payload: the result depends on the datagram's bytes alone.
#[verifier::external_body]
fn slice_ipv4_tcp(datagram: &[u8]) -> (r: Result<
    Option<TcpSegment>,
    etherparse::err::packet::SliceError,
>)
    ensures
        match r {
            Ok(Some(s)) => sliced_tcp(datagram@) == Some(Some(s.fields())),
            Ok(None) => sliced_tcp(datagram@) == Some(
                None::<(u32, u16, u32, u16, u32, Seq<u8>)>,
            ),
            Err(_) => sliced_tcp(datagram@) is None,
        },
{
    let sliced = etherparse::SlicedPacket::from_ip(datagram)?;
    Ok(match (sliced.net, sliced.transport) {
        (Some(etherparse::NetSlice::Ipv4(ip)), Some(etherparse::TransportSlice::Tcp(tcp))) => Some(TcpSegment {
            source_ip: u32::from_be_bytes(ip.header().source()),
            source_port: tcp.source_port(),
            dest_ip: u32::from_be_bytes(ip.header().destination()),
            dest_port: tcp.destination_port(),
            sequence: tcp.sequence_number(),
            payload: tcp.payload().to_vec(),
        }),
        _ => None,
    })
}

/// Parses an IP datagram down to its TCP segment, where it is an
/// unfragmented IPv4 datagram carrying TCP.
pub fn parse_tcp_segment(datagram: &[u8]) -> (r: Option<TcpSegment>)
    ensures
        match r {
            Some(s) => sliced_tcp(datagram@) == Some(Some(s.fields())),
            None => sliced_tcp(datagram@) is None || sliced_tcp(datagram@) == Some(
                None::<(u32, u16, u32, u16, u32, Seq<u8>)>,
            ),
        },
{
    match slice_ipv4_tcp(datagram) {
        Ok(s) => s,
        Err(_) => None,
    }
}

/// Every whole frame at the front of `d`, in stream order, and what is left
/// once no more can be taken.
pub open spec fn extract_all(d: Seq<u8>) -> (Seq<Seq<u8>>, Seq<u8>)
    decreases d.len(),
{
    match extract(d).0 {
        Some(f) => if extract(d).1.len() < d.len() {
            let rest = extract_all(extract(d).1);
            (seq![f] + rest.0, rest.1)
        } else {
            (seq![f], extract(d).1)
        },
        None => (Seq::empty(), extract(d).1),
    }
}

/// The bytes of each frame of `v`.
pub open spec fn frame_views(v: Seq<Vec<u8>>) -> Seq<Seq<u8>> {
    v.map_values(|f: Vec<u8>| f@)
}

/// The reassembler's state just after a connection is locked by a segment
/// at `seq` of `len` bytes.
pub open spec fn locked_stream(seq: u32, len: nat) -> StreamModel {
    empty_stream(Some(seq_after(seq as usize, len)))
}

/// What one TCP segment of connection `ep`, at `seq`, does to the followed
/// connection and the stream, and the frames it completes.
pub open spec fn capture_step(
    known: Option<GameServer>,
    stream: StreamModel,
    ep: GameServer,
    seq: u32,
    payload: Seq<u8>,
) -> (Option<GameServer>, StreamModel, Seq<Seq<u8>>) {
    if payload.len() == 0 {
        (known, stream, Seq::empty())
    } else {
        match known {
            None => if identifies_game(payload) {
                (Some(ep), locked_stream(seq, payload.len()), Seq::empty())
            } else {
                (known, stream, Seq::empty())
            },
            Some(k) => if k == ep {
                let s = drain(observe(stream, seq as usize, payload));
                (known, StreamModel { data: extract_all(s.data).1, ..s }, extract_all(s.data).0)
            } else {
                (known, stream, Seq::empty())
            },
        }
    }
}

/// The state of the capture loop.
pub struct CaptureState {
    /// The connection being followed, once one has been identified.
    pub known_server: Option<GameServer>,
    pub reassembler: TCPReassembler,
}

impl CaptureState {
    pub open spec fn well_formed(&self) -> bool {
        self.reassembler.well_formed()
    }

    pub fn new() -> (r: CaptureState)
        ensures
            r.well_formed(),
            r.known_server is None,
            r.reassembler@ == empty_stream(None),
    {
        CaptureState { known_server: None, reassembler: TCPReassembler::new() }
    }

    /// Handles one TCP segment and returns the frames it completes, in
    /// stream order. Until a connection is locked, a non-empty segment that
    /// carries the service signature or is a login segment locks its
    /// connection and is not itself part of the stream. Once locked, the
    /// non-empty segments of that connection are reassembled and every other
    /// segment is ignored.
    #[verifier::loop_isolation(false)]
    pub fn handle_segment(&mut self, seg: TcpSegment) -> (frames: Vec<Vec<u8>>)
        requires
            old(self).well_formed(),
        ensures
            final(self).well_formed(),
            (final(self).known_server, final(self).reassembler@, frame_views(frames@)) == capture_step(
                old(self).known_server,
                old(self).reassembler@,
                seg.endpoint(),
                seg.sequence,
                seg.payload@,
            ),
    {
        let mut frames: Vec<Vec<u8>> = Vec::new();
        if seg.payload.len() == 0 {
            return frames;
        }
        let endpoint = GameServer::new(seg.source_ip, seg.source_port, seg.dest_ip, seg.dest_port);
        match self.known_server {
            None => {
                if PacketCapture::check_game_signature(seg.payload.as_slice())
                    || PacketCapture::check_login_packet(seg.payload.as_slice()) {
                    self.known_server = Some(endpoint);
                    let next = ((seg.sequence as u64 + seg.payload.len() as u64 % SEQ_MODULUS) % SEQ_MODULUS) as usize;
                    assert(next == seq_after(seg.sequence as usize, seg.payload@.len())) by {
                        vstd::arithmetic::div_mod::lemma_add_mod_noop(seg.sequence as int, seg.payload@.len() as int, SEQ_MODULUS as int);
                        vstd::arithmetic::div_mod::lemma_small_mod(seg.sequence as nat, SEQ_MODULUS as nat);
                    }
                    self.reassembler.clear(next);
                    assert(self.reassembler@ == locked_stream(seg.sequence, seg.payload@.len()));
                }
                frames
            },
            Some(known) => {
                if known != endpoint {
                    return frames;
                }
                let ghost payload = seg.payload@;
                self.reassembler.add_packet(seg.sequence as usize, seg.payload);
                self.reassembler.reassemble();
                let ghost s = self.reassembler@;
                loop
                    invariant
                        self.known_server == old(self).known_server,
                        self.reassembler.well_formed(),
                        self.reassembler@.next == s.next,
                        self.reassembler@.pending == s.pending,
                        frame_views(frames@) + extract_all(self.reassembler@.data).0
                            == extract_all(s.data).0,
                        extract_all(self.reassembler@.data).1 == extract_all(s.data).1,
                    decreases self.reassembler@.data.len(),
                {
                    let ghost d = self.reassembler@.data;
                    let ghost before = frame_views(frames@);
                    match self.reassembler.extract_packet() {
                        Some(f) => {
                            assert(extract(d).1.len() < d.len());
                            frames.push(f);
                            assert(frame_views(frames@) =~= before.push(extract(d).0->Some_0));
                        },
                        None => {
                            assert(extract_all(d).0 =~= Seq::<Seq<u8>>::empty());
                            assert(self.reassembler@.data == extract_all(s.data).1);
                            assert(frame_views(frames@) =~= extract_all(s.data).0);
                            return frames;
                        },
                    }
                }
            },
        }
    }

    /// Handles one captured IP datagram: what is not an unfragmented IPv4
    /// datagram carrying TCP is ignored.
    pub fn handle_datagram(&mut self, datagram: &[u8]) -> (frames: Vec<Vec<u8>>)
        requires
            old(self).well_formed(),
        ensures
            final(self).well_formed(),
            (final(self).known_server, final(self).reassembler@, frame_views(frames@)) == match sliced_tcp(datagram@) {
                Some(Some((sip, sport, dip, dport, seq, payload))) => capture_step(
                    old(self).known_server,
                    old(self).reassembler@,
                    GameServer { source_ip: sip, source_port: sport, dest_ip: dip, dest_port: dport },
                    seq,
                    payload,
                ),
                _ => (old(self).known_server, old(self).reassembler@, Seq::empty()),
            },
    {
        match parse_tcp_segment(datagram) {
            Some(seg) => self.handle_segment(seg),
            None => {
                let frames: Vec<Vec<u8>> = Vec::new();
                assert(frame_views(frames@) =~= Seq::empty());
                frames
            },
        }
    }
}

/// The message that selects the traffic to capture: every TCP/IP packet
/// that does not stay on the loopback interface.
pub fn create_windivert_filter() -> (r: String)
    ensures
        r@ == "!loopback && ip && tcp"@,
{
    "!loopback && ip && tcp".to_owned()
}

/// Relies on Arc::clone: a second handle to the same shared value.
#[verifier::external_body]
fn share_flag(flag: &Arc<AtomicBool>) -> (r: Arc<AtomicBool>)
    ensures
        r == *flag,
{
    Arc::clone(flag)
}

/// The run flag that the capture worker polls once per packet.
pub struct PacketCapture {
    running: Arc<AtomicBool>,
}

impl PacketCapture {
    /// The shared run flag.
    pub closed spec fn flag(&self) -> Arc<AtomicBool> {
        self.running
    }

    pub fn new() -> (r: PacketCapture) {
        PacketCapture { running: Arc::new(AtomicBool::new(false)) }
    }

    /// A handle to the run flag, shared with the capture worker.
    pub fn get_running(&self) -> (r: Arc<AtomicBool>)
        ensures
            r == self.flag(),
    {
        share_flag(&self.running)
    }

    /// Asks the capture worker to stop at its next packet.
    pub fn stop(self) {
        self.running.store(false, Ordering::SeqCst);
    }

    /// Whether the service signature occurs at any offset of `payload`.
    pub fn check_game_signature(payload: &[u8]) -> (r: bool)
        ensures
            r == has_signature_anywhere(payload@),
    {
        scan_for_signature(payload)
    }

    /// Whether `payload` is exactly a login segment.
    pub fn check_login_packet(payload: &[u8]) -> (r: bool)
        ensures
            r == is_login(payload@),
    {
        GamePacket::is_login_packet(payload)
    }
}

} // verus!
