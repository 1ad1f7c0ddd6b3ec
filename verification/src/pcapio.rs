//! Captures: frames with their times and original lengths.

use core::time::Duration;
use vstd::prelude::*;

verus! {

/// The header of a classic pcap file, `pcap_file::pcap::PcapHeader`. Carried
/// through unread.
#[verifier::external_type_specification]
#[verifier::external_body]
pub struct ExPcapHeader(pcap_file::pcap::PcapHeader);

pub struct OwnedPacket {
    pub ts: Duration,
    pub orig_len: u32,
    pub data: Vec<u8>,
}

pub struct Capture {
    pub header: pcap_file::pcap::PcapHeader,
    pub packets: Vec<OwnedPacket>,
}

/// What a captured packet holds.
#[verifier::ext_equal]
pub struct PacketModel {
    pub ts: Duration,
    pub orig_len: u32,
    pub data: Seq<u8>,
}

impl View for OwnedPacket {
    type V = PacketModel;

    open spec fn view(&self) -> PacketModel {
        PacketModel { ts: self.ts, orig_len: self.orig_len, data: self.data@ }
    }
}

impl PacketModel {
    /// The packet with other bytes.
    pub open spec fn with_data(self, data: Seq<u8>) -> PacketModel {
        PacketModel { ts: self.ts, orig_len: self.orig_len, data }
    }
}

/// What a capture's packets hold, in order.
impl View for Capture {
    type V = Seq<PacketModel>;

    open spec fn view(&self) -> Seq<PacketModel> {
        self.packets@.map_values(|p: OwnedPacket| p@)
    }
}

/// The frames of a capture.
pub open spec fn frames(c: Seq<PacketModel>) -> Seq<Seq<u8>> {
    c.map_values(|p: PacketModel| p.data)
}

/// What the bytes of a pcap file hold, or what is wrong with them: whether it is the
/// file's header that is, and what the reader says.
pub uninterp spec fn pcap_of(bytes: Seq<u8>) -> Result<Seq<PacketModel>, (bool, Seq<char>)>;

/// The bytes of a pcap file that holds packets, or what is wrong with them.
pub uninterp spec fn pcap_bytes(packets: Seq<PacketModel>) -> Result<Seq<u8>, Seq<char>>;

/// Two captures hold the same frames of the same original lengths.
pub open spec fn same_frames(a: Seq<PacketModel>, b: Seq<PacketModel>) -> bool {
    &&& a.len() == b.len()
    &&& forall|i: int|
        0 <= i < a.len() ==> (#[trigger] a[i]).data == b[i].data && a[i].orig_len == b[i].orig_len
}

/// No packet was longer on the wire than a file can say.
pub open spec fn lengths_fit(packets: Seq<PacketModel>) -> bool {
    forall|i: int| 0 <= i < packets.len() ==> (#[trigger] packets[i]).orig_len <= 65535
}

/// `pcap_file::pcap::PcapReader` over bytes: `new`, and `next_packet` until there is
/// none. The packets, or what is wrong, depend on the bytes alone, and the bytes that
/// a writer gave read back as its frames. Nothing is said of the file's header, which
/// is carried along, nor of the times of packets read back.
#[verifier::external_body]
fn pcap_read(bytes: &[u8]) -> (r: Result<Capture, (bool, String)>)
    ensures
        match r {
            Ok(c) => pcap_of(bytes@) == Ok::<Seq<PacketModel>, (bool, Seq<char>)>(c@),
            Err(e) => pcap_of(bytes@) == Err::<Seq<PacketModel>, (bool, Seq<char>)>((e.0, e.1@)),
        },
        forall|ps: Seq<PacketModel>|
            (#[trigger] pcap_bytes(ps)) is Ok && pcap_bytes(ps)->Ok_0 == bytes@ && lengths_fit(ps)
                ==> r is Ok && same_frames(r->Ok_0@, ps),
{
    let mut rdr = pcap_file::pcap::PcapReader::new(bytes).map_err(|e| (true, e.to_string()))?;
    let header = rdr.header();
    let mut packets = Vec::new();
    while let Some(next) = rdr.next_packet() {
        let p = next.map_err(|e| (false, e.to_string()))?;
        packets.push(
            OwnedPacket { ts: p.timestamp, orig_len: p.orig_len, data: p.data.into_owned() },
        );
    }
    Ok(Capture { header, packets })
}

/// `pcap_file::pcap::PcapWriter` into bytes: `with_header` with the default header,
/// which is a canonical classic Ethernet, microsecond-resolution one, and
/// `write_packet` for each packet. The bytes, or what is wrong, depend on the packets
/// alone.
#[verifier::external_body]
fn pcap_write(packets: &Vec<OwnedPacket>) -> (r: Result<Vec<u8>, String>)
    ensures
        match r {
            Ok(b) => pcap_bytes(packets@.map_values(|p: OwnedPacket| p@)) == Ok::<
                Seq<u8>,
                Seq<char>,
            >(b@),
            Err(e) => pcap_bytes(packets@.map_values(|p: OwnedPacket| p@)) == Err::<
                Seq<u8>,
                Seq<char>,
            >(e@),
        },
{
    let header = pcap_file::pcap::PcapHeader::default();
    let mut wtr = pcap_file::pcap::PcapWriter::with_header(Vec::new(), header).map_err(
        |e| e.to_string(),
    )?;
    for p in packets {
        let pkt = pcap_file::pcap::PcapPacket::new(p.ts, p.orig_len, &p.data);
        wtr.write_packet(&pkt).map_err(|e| e.to_string())?;
    }
    Ok(wtr.into_writer())
}

/// What is said of a file that cannot be read.
pub open spec fn read_fault(name: Seq<char>, e: (bool, Seq<char>)) -> Seq<char> {
    (if e.0 {
        "pcap header "@
    } else {
        "pcap packet in "@
    }) + name + ": "@ + e.1
}

/// The capture of a file that the reader read, or what is said of it.
pub fn read_outcome(name: &str, outcome: Result<Capture, (bool, String)>) -> (r: Result<
    Capture,
    String,
>)
    ensures
        match outcome {
            Ok(c) => r == Ok::<Capture, String>(c),
            Err(e) => r matches Err(s) && s@ == read_fault(name@, (e.0, e.1@)),
        },
{
    match outcome {
        Ok(c) => Ok(c),
        Err((header, e)) => {
            let mut s = if header {
                "pcap header ".to_owned()
            } else {
                "pcap packet in ".to_owned()
            };
            s.append(name);
            s.append(": ");
            s.append(e.as_str());
            Err(s)
        },
    }
}

/// Read a capture from the bytes of a file, which goes by a name.
pub fn read(name: &str, bytes: &[u8]) -> (r: Result<Capture, String>)
    ensures
        match pcap_of(bytes@) {
            Ok(ps) => r matches Ok(c) && c@ == ps,
            Err(e) => r matches Err(s) && s@ == read_fault(name@, e),
        },
        forall|ps: Seq<PacketModel>|
            (#[trigger] pcap_bytes(ps)) is Ok && pcap_bytes(ps)->Ok_0 == bytes@ && lengths_fit(ps)
                ==> r is Ok && same_frames(r->Ok_0@, ps),
{
    read_outcome(name, pcap_read(bytes))
}

/// The bytes of a file, which goes by a name, that holds a capture's packets under a
/// canonical header, whatever header the capture has.
pub fn write(name: &str, cap: &Capture) -> (r: Result<Vec<u8>, String>)
    ensures
        match pcap_bytes(cap@) {
            Ok(b) => r matches Ok(v) && v@ == b,
            Err(e) => r matches Err(s) && s@ == "pcap write "@ + name@ + ": "@ + e,
        },
{
    match pcap_write(&cap.packets) {
        Ok(b) => Ok(b),
        Err(e) => {
            let mut s = "pcap write ".to_owned();
            s.append(name);
            s.append(": ");
            s.append(e.as_str());
            Err(s)
        },
    }
}

/// How many of `more` items fit beside those that are there.
pub open spec fn room_for(have: nat, more: nat, max: nat) -> nat {
    if have >= max {
        0
    } else if more <= max - have {
        more
    } else {
        (max - have) as nat
    }
}

/// Append a capture's packets to another, up to a total of `max`.
pub fn append_bounded(into: &mut Capture, from: Capture, max: usize)
    ensures
        final(into).header == old(into).header,
        final(into)@ == old(into)@ + from@.take(
            room_for(old(into)@.len(), from@.len(), max as nat) as int,
        ),
{
    let ghost all = from@;
    let ghost items = from.packets@;
    let ghost n0 = into@.len();
    let ghost start = into@;
    proof {
        assert(start + all.take(0) =~= start);
    }
    let packets = from.packets;
    for p in it: packets
        invariant
            it.seq() == items,
            all == items.map_values(|p: OwnedPacket| p@),
            start == old(into)@,
            n0 == start.len(),
            into.header == old(into).header,
            into.packets@.len() == n0 + room_for(n0, it.index() as nat, max as nat),
            into@ == start + all.take(room_for(n0, it.index() as nat, max as nat) as int),
    {
        let ghost n = it.index();
        let ghost before = into@;
        let ghost kept = into.packets@;
        if into.packets.len() < max {
            into.packets.push(p);
            proof {
                assert(room_for(n0, n as nat, max as nat) == n);
                assert(into@ =~= kept.map_values(|p: OwnedPacket| p@).push(all[n]));
                assert(into@ =~= start + all.take(n + 1));
            }
        }
    }
}

} // verus!
