//! Browser-session state: the range-reply pairing of JSON headers with
//! binary frames via a session-local message counter, and the periodic
//! snapshot payloads a session sends.

use vstd::prelude::*;
use vstd::bytes::{spec_u32_from_le_bytes, spec_u32_to_le_bytes, u32_to_le_bytes};
use crate::ChannelId;
use crate::registry::{SparklesAddress, UdpAddr, spec_addr_eq};
use crate::skipper::EventsSkipStats;
use crate::storage::StorageStats;

verus! {

/// A message addressed to one producer connection of the session.
#[derive(Debug, Clone)]
pub enum AddressedMessageFromServer {
    NewEventsHeader { channel_id: ChannelId, msg_id: u32, stats: EventsSkipStats },
    EventsFinished,
    ConnectionTimestamps { min: u64, max: u64, current: u64 },
}

/// A discovered producer group with its connection flag.
#[derive(Debug, Clone)]
pub struct DiscoveredClient {
    pub addresses: Vec<UdpAddr>,
    pub connected: bool,
}

/// A discovered trace file with its connection flag.
#[derive(Debug, Clone)]
pub struct DiscoveredFile {
    pub path: String,
    pub connected: bool,
}

/// The per-producer aggregate a session sends on its active-connections
/// ticker.
#[derive(Debug, Clone)]
pub struct ActiveConnectionInfo {
    pub id: u32,
    pub addr: SparklesAddress,
    pub stats: StorageStats,
    pub channel_names: Vec<(ChannelId, String)>,
    pub event_names: Vec<(ChannelId, Vec<(u16, String)>)>,
    pub online: bool,
}

/// The range-reply state of one browser session: `waiting` while a request
/// is outstanding, and a monotonically increasing message id that pairs each
/// JSON header with its binary follow-up.
#[derive(Debug, Clone, Copy)]
pub struct WsSessionState {
    pub last_msg_id: u32,
    pub waiting: bool,
    pub current_conn_id: u32,
}

impl WsSessionState {
    pub fn new() -> (r: Self)
        ensures
            r.last_msg_id == 0,
            !r.waiting,
            r.current_conn_id == 0,
    {
        WsSessionState { last_msg_id: 0, waiting: false, current_conn_id: 0 }
    }

    /// Starts waiting on a new range request; refused while one is already
    /// outstanding.
    pub fn begin_range_request(&mut self, conn_id: u32) -> (accepted: bool)
        ensures
            accepted == !old(self).waiting,
            final(self).waiting == true,
            final(self).current_conn_id == (if accepted {
                conn_id
            } else {
                old(self).current_conn_id
            }),
            final(self).last_msg_id == old(self).last_msg_id,
    {
        if self.waiting {
            false
        } else {
            self.waiting = true;
            self.current_conn_id = conn_id;
            true
        }
    }

    /// Wraps one received frame: a `NewEventsHeader` carrying the next
    /// message id, and the binary body extended with that id as a
    /// little-endian trailer. The trailer always equals the header's id.
    pub fn on_frame(
        &mut self,
        channel_id: ChannelId,
        data: Vec<u8>,
        stats: EventsSkipStats,
    ) -> (r: (u32, AddressedMessageFromServer, Vec<u8>))
        ensures
            r.0 == old(self).current_conn_id,
            r.1 == (AddressedMessageFromServer::NewEventsHeader {
                channel_id,
                msg_id: old(self).last_msg_id,
                stats,
            }),
            r.2@ == data@ + spec_u32_to_le_bytes(old(self).last_msg_id),
            final(self).last_msg_id == ((old(self).last_msg_id + 1) % 0x1_0000_0000) as u32,
            final(self).waiting == old(self).waiting,
            final(self).current_conn_id == old(self).current_conn_id,
    {
        let msg_id = self.last_msg_id;
        self.last_msg_id = self.last_msg_id.wrapping_add(1);
        let header = AddressedMessageFromServer::NewEventsHeader { channel_id, msg_id, stats };
        let mut bytes = data;
        let mut trailer = u32_to_le_bytes(msg_id);
        bytes.append(&mut trailer);
        (self.current_conn_id, header, bytes)
    }

    /// The reply channel closed: the session returns to idle and tells the
    /// client the range is complete.
    pub fn on_frames_finished(&mut self) -> (r: (u32, AddressedMessageFromServer))
        ensures
            r.0 == old(self).current_conn_id,
            r.1 is EventsFinished,
            final(self).waiting == false,
            final(self).last_msg_id == old(self).last_msg_id,
            final(self).current_conn_id == old(self).current_conn_id,
    {
        self.waiting = false;
        (self.current_conn_id, AddressedMessageFromServer::EventsFinished)
    }
}

/// Law (session pairing): the four trailer bytes of the binary frame built
/// by `on_frame` decode to exactly the message id its header carries.
pub proof fn lemma_session_pairing(data: Seq<u8>, msg_id: u32)
    ensures
        ({
            let framed = data + spec_u32_to_le_bytes(msg_id);
            &&& framed.len() == data.len() + 4
            &&& spec_u32_from_le_bytes(framed.subrange(data.len() as int, data.len() as int + 4))
                == msg_id
        }),
{
    vstd::bytes::lemma_auto_spec_u32_to_from_le_bytes();
    let framed = data + spec_u32_to_le_bytes(msg_id);
    assert(framed.subrange(data.len() as int, data.len() as int + 4) =~= spec_u32_to_le_bytes(msg_id));
}

/// Whether a group member is actively connected over UDP.
pub open spec fn group_member_active(active: Seq<SparklesAddress>, group: Seq<UdpAddr>) -> bool {
    exists|j: int, i: int|
        0 <= j < group.len() && 0 <= i < active.len() && spec_addr_eq(
            active[i],
            SparklesAddress::Udp(group[j]),
        )
}

/// Builds the discovery snapshot's client list: each discovered group is
/// flagged connected when any of its addresses has an active connection.
pub fn build_discovered_clients(
    discovered: &Vec<Vec<UdpAddr>>,
    active: &Vec<SparklesAddress>,
) -> (r: Vec<DiscoveredClient>)
    ensures
        r@.len() == discovered@.len(),
        forall|g: int|
            0 <= g < r@.len() ==> (#[trigger] r@[g]).addresses@ == discovered@[g]@ && r@[g].connected
                == group_member_active(active@, discovered@[g]@),
{
    let mut r: Vec<DiscoveredClient> = Vec::new();
    let mut g: usize = 0;
    while g < discovered.len()
        invariant
            0 <= g <= discovered@.len(),
            r@.len() == g,
            forall|w: int|
                0 <= w < g ==> (#[trigger] r@[w]).addresses@ == discovered@[w]@ && r@[w].connected
                    == group_member_active(active@, discovered@[w]@),
        decreases discovered@.len() - g,
    {
        let group = &discovered[g];
        let mut connected = false;
        let ghost gseq = group@;
        let mut j: usize = 0;
        while j < group.len()
            invariant
                0 <= j <= gseq.len() == group@.len(),
                gseq == group@,
                group@ == discovered@[g as int]@,
                g < discovered@.len(),
                connected ==> group_member_active(active@, gseq),
                !connected ==> forall|jj: int, i: int|
                    0 <= jj < j && 0 <= i < active@.len() ==> !spec_addr_eq(
                        #[trigger] active@[i],
                        SparklesAddress::Udp(#[trigger] gseq[jj]),
                    ),
            decreases gseq.len() - j,
        {
            let member = group[j];
            let mut i: usize = 0;
            while i < active.len()
                invariant
                    0 <= i <= active@.len(),
                    j < gseq.len(),
                    gseq[j as int] == member,
                    connected ==> group_member_active(active@, gseq),
                    !connected ==> forall|jj: int, w: int|
                        0 <= jj < j && 0 <= w < active@.len() ==> !spec_addr_eq(
                            #[trigger] active@[w],
                            SparklesAddress::Udp(#[trigger] gseq[jj]),
                        ),
                    !connected ==> forall|w: int|
                        0 <= w < i ==> !spec_addr_eq(
                            #[trigger] active@[w],
                            SparklesAddress::Udp(member),
                        ),
                decreases active@.len() - i,
            {
                if active[i].same_as(&SparklesAddress::Udp(member)) {
                    connected = true;
                }
                i = i + 1;
            }
            j = j + 1;
        }
        proof {
            if !connected {
                assert(!group_member_active(active@, gseq));
            }
        }
        let mut addresses: Vec<UdpAddr> = Vec::new();
        let mut k: usize = 0;
        while k < group.len()
            invariant
                0 <= k <= group@.len(),
                addresses@ == group@.take(k as int),
            decreases group@.len() - k,
        {
            proof {
                assert(group@.take(k as int + 1) =~= group@.take(k as int).push(
                    group@[k as int],
                ));
            }
            addresses.push(group[k]);
            k = k + 1;
        }
        proof {
            assert(group@.take(group@.len() as int) =~= group@);
        }
        r.push(DiscoveredClient { addresses, connected });
        g = g + 1;
    }
    r
}

/// Builds the discovery snapshot's file list: a file is flagged connected
/// when its path has an active file connection.
pub fn build_discovered_files(files: &Vec<String>, active: &Vec<SparklesAddress>) -> (r: Vec<
    DiscoveredFile,
>)
    ensures
        r@.len() == files@.len(),
        forall|k: int|
            0 <= k < r@.len() ==> (#[trigger] r@[k]).path@ == files@[k]@ && r@[k].connected == (
            exists|i: int|
                0 <= i < active@.len() && ((#[trigger] active@[i]) matches SparklesAddress::File(p)
                    && p@ == files@[k]@)),
{
    let mut r: Vec<DiscoveredFile> = Vec::new();
    let mut k: usize = 0;
    while k < files.len()
        invariant
            0 <= k <= files@.len(),
            r@.len() == k,
            forall|w: int|
                0 <= w < k ==> (#[trigger] r@[w]).path@ == files@[w]@ && r@[w].connected == (
                exists|i: int|
                    0 <= i < active@.len() && ((#[trigger] active@[i]) matches SparklesAddress::File(p)
                        && p@ == files@[w]@)),
        decreases files@.len() - k,
    {
        let path = &files[k];
        let mut connected = false;
        let mut i: usize = 0;
        while i < active.len()
            invariant
                0 <= i <= active@.len(),
                k < files@.len(),
                path@ == files@[k as int]@,
                connected == (exists|w: int|
                    0 <= w < i && ((#[trigger] active@[w]) matches SparklesAddress::File(p) && p@
                        == files@[k as int]@)),
            decreases active@.len() - i,
        {
            match &active[i] {
                SparklesAddress::File(p) => {
                    if *p == *path {
                        connected = true;
                        proof {
                            assert((active@[i as int]) matches SparklesAddress::File(pp) && pp@
                                == files@[k as int]@);
                        }
                    }
                },
                SparklesAddress::Udp(_) => {},
            }
            i = i + 1;
        }
        r.push(DiscoveredFile { path: path.clone(), connected });
        k = k + 1;
    }
    r
}

} // verus!
