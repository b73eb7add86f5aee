//! The shared connection directory: producer and browser connections with
//! monotonically dispensed ids, the disconnected set behind the `online`
//! flag, and the manager's arbitration of connect requests.

use vstd::prelude::*;

verus! {

/// A producer's UDP endpoint as plain values: an IPv4 address and a port.
#[derive(Debug, Clone, Copy, PartialEq, Eq, Structural)]
pub struct UdpAddr {
    pub ip: u32,
    pub port: u16,
}

/// Where a producer's bytes come from: a UDP endpoint or a trace file.
#[derive(Debug, Clone)]
pub enum SparklesAddress {
    Udp(UdpAddr),
    File(String),
}

/// Value equality of addresses, over the file path's characters.
pub open spec fn spec_addr_eq(a: SparklesAddress, b: SparklesAddress) -> bool {
    match (a, b) {
        (SparklesAddress::Udp(x), SparklesAddress::Udp(y)) => x == y,
        (SparklesAddress::File(p), SparklesAddress::File(q)) => p@ == q@,
        _ => false,
    }
}

impl SparklesAddress {
    pub fn same_as(&self, other: &Self) -> (r: bool)
        ensures
            r == spec_addr_eq(*self, *other),
    {
        match (self, other) {
            (SparklesAddress::Udp(x), SparklesAddress::Udp(y)) => x == y,
            (SparklesAddress::File(p), SparklesAddress::File(q)) => *p == *q,
            _ => false,
        }
    }

    pub fn duplicate(&self) -> (r: Self)
        ensures
            spec_addr_eq(*self, r),
    {
        match self {
            SparklesAddress::Udp(x) => SparklesAddress::Udp(*x),
            SparklesAddress::File(p) => SparklesAddress::File(p.clone()),
        }
    }
}

/// An address is (value-)present in a list.
pub open spec fn addr_in(active: Seq<SparklesAddress>, a: SparklesAddress) -> bool {
    exists|i: int| 0 <= i < active.len() && spec_addr_eq(#[trigger] active[i], a)
}

/// The registry's shared state: active producer connections with their
/// addresses, browser session ids, the ids marked disconnected, and the two
/// id counters. Ids are never reused within a run.
pub struct RegistryState {
    pub producers: Vec<(u32, SparklesAddress)>,
    pub ws_ids: Vec<u32>,
    pub disconnected: Vec<u32>,
    pub next_producer_id: u32,
    pub next_ws_id: u32,
}

impl RegistryState {
    /// Dispensed ids are unique and below the counters.
    pub open spec fn wf(&self) -> bool {
        &&& forall|a: int, b: int|
            0 <= a < b < self.producers@.len() ==> (#[trigger] self.producers@[a]).0 != (
            #[trigger] self.producers@[b]).0
        &&& forall|a: int|
            0 <= a < self.producers@.len() ==> (#[trigger] self.producers@[a]).0
                < self.next_producer_id
        &&& forall|a: int, b: int|
            0 <= a < b < self.ws_ids@.len() ==> (#[trigger] self.ws_ids@[a]) != (
            #[trigger] self.ws_ids@[b])
        &&& forall|a: int| 0 <= a < self.ws_ids@.len() ==> (#[trigger] self.ws_ids@[a]) < self.next_ws_id
    }

    pub fn new() -> (r: Self)
        ensures
            r.wf(),
            r.producers@.len() == 0,
            r.ws_ids@.len() == 0,
            r.disconnected@.len() == 0,
            r.next_producer_id == 0,
            r.next_ws_id == 0,
    {
        RegistryState {
            producers: Vec::new(),
            ws_ids: Vec::new(),
            disconnected: Vec::new(),
            next_producer_id: 0,
            next_ws_id: 0,
        }
    }

    /// Registers a producer connection under a fresh id.
    pub fn new_sparkles_connection(&mut self, addr: SparklesAddress) -> (id: u32)
        requires
            old(self).wf(),
            old(self).next_producer_id < u32::MAX,
        ensures
            final(self).wf(),
            id == old(self).next_producer_id,
            final(self).next_producer_id == old(self).next_producer_id + 1,
            final(self).producers@ == old(self).producers@.push((id, addr)),
            final(self).ws_ids == old(self).ws_ids,
            final(self).disconnected == old(self).disconnected,
            final(self).next_ws_id == old(self).next_ws_id,
    {
        let id = self.next_producer_id;
        self.next_producer_id = self.next_producer_id + 1;
        self.producers.push((id, addr));
        proof {
            assert(self.producers@[old(self).producers@.len() as int].0 == id);
        }
        id
    }

    /// Registers a browser session under a fresh id.
    pub fn new_ws_connection(&mut self) -> (id: u32)
        requires
            old(self).wf(),
            old(self).next_ws_id < u32::MAX,
        ensures
            final(self).wf(),
            id == old(self).next_ws_id,
            final(self).next_ws_id == old(self).next_ws_id + 1,
            final(self).ws_ids@ == old(self).ws_ids@.push(id),
            final(self).producers == old(self).producers,
            final(self).disconnected == old(self).disconnected,
            final(self).next_producer_id == old(self).next_producer_id,
    {
        let id = self.next_ws_id;
        self.next_ws_id = self.next_ws_id + 1;
        self.ws_ids.push(id);
        proof {
            assert(self.ws_ids@[old(self).ws_ids@.len() as int] == id);
        }
        id
    }

    /// The producer's address, if the id is registered.
    pub fn sparkles_connection_addr(&self, id: u32) -> (r: Option<SparklesAddress>)
        ensures
            match r {
                Some(addr) => exists|i: int|
                    0 <= i < self.producers@.len() && (#[trigger] self.producers@[i]).0 == id
                        && spec_addr_eq(self.producers@[i].1, addr),
                None => forall|i: int|
                    0 <= i < self.producers@.len() ==> (#[trigger] self.producers@[i]).0 != id,
            },
    {
        let mut i: usize = 0;
        let n = self.producers.len();
        while i < n
            invariant
                0 <= i <= n == self.producers@.len(),
                forall|a: int| 0 <= a < i ==> (#[trigger] self.producers@[a]).0 != id,
            decreases n - i,
        {
            if self.producers[i].0 == id {
                let addr = self.producers[i].1.duplicate();
                proof {
                    assert((self.producers@[i as int]).0 == id);
                }
                return Some(addr);
            }
            i = i + 1;
        }
        None
    }

    /// Marks a producer connection disconnected; its data stays queryable
    /// and its `online` flag turns false.
    pub fn mark_connection_disconnected(&mut self, id: u32)
        ensures
            final(self).producers == old(self).producers,
            final(self).ws_ids == old(self).ws_ids,
            final(self).next_producer_id == old(self).next_producer_id,
            final(self).next_ws_id == old(self).next_ws_id,
            final(self).disconnected@.contains(id),
            forall|x: u32|
                #[trigger] final(self).disconnected@.contains(x) <==> (old(
                    self,
                ).disconnected@.contains(x) || x == id),
    {
        let mut i: usize = 0;
        let n = self.disconnected.len();
        while i < n
            invariant
                0 <= i <= n == self.disconnected@.len(),
                *self == *old(self),
                forall|a: int| 0 <= a < i ==> (#[trigger] self.disconnected@[a]) != id,
            decreases n - i,
        {
            if self.disconnected[i] == id {
                proof {
                    assert(self.disconnected@.contains(id));
                    assert forall|x: u32| #[trigger] self.disconnected@.contains(x) implies (old(
                        self,
                    ).disconnected@.contains(x) || x == id) by {}
                }
                return ;
            }
            i = i + 1;
        }
        let ghost d0 = self.disconnected@;
        self.disconnected.push(id);
        proof {
            assert(self.disconnected@[d0.len() as int] == id);
            assert forall|x: u32| #[trigger] self.disconnected@.contains(x) implies (d0.contains(x)
                || x == id) by {
                let w = choose|w: int| 0 <= w < self.disconnected@.len() && self.disconnected@[w] == x;
                if w < d0.len() {
                    assert(d0[w] == x);
                }
            }
            assert forall|x: u32| d0.contains(x) || x == id implies #[trigger] self
                .disconnected@.contains(x) by {
                if d0.contains(x) {
                    let w = choose|w: int| 0 <= w < d0.len() && d0[w] == x;
                    assert(self.disconnected@[w] == x);
                }
            }
        }
    }

    /// Removes a producer connection from the directory (handle dropped).
    pub fn remove_sparkles_connection(&mut self, id: u32)
        requires
            old(self).wf(),
        ensures
            final(self).wf(),
            final(self).ws_ids == old(self).ws_ids,
            final(self).disconnected == old(self).disconnected,
            final(self).next_producer_id == old(self).next_producer_id,
            final(self).next_ws_id == old(self).next_ws_id,
            forall|i: int|
                0 <= i < final(self).producers@.len() ==> (#[trigger] final(self).producers@[i]).0
                    != id && old(self).producers@.contains(final(self).producers@[i]),
    {
        let mut i: usize = 0;
        let n = self.producers.len();
        while i < n
            invariant
                0 <= i <= n == self.producers@.len(),
                *self == *old(self),
                old(self).wf(),
                forall|a: int| 0 <= a < i ==> (#[trigger] self.producers@[a]).0 != id,
            decreases n - i,
        {
            if self.producers[i].0 == id {
                let ghost p0 = self.producers@;
                self.producers.remove(i);
                proof {
                    assert(self.producers@ =~= p0.subrange(0, i as int) + p0.subrange(
                        i as int + 1,
                        p0.len() as int,
                    ));
                    assert(p0[i as int].0 == id);
                    assert forall|w: int|
                        0 <= w < self.producers@.len() implies (#[trigger] self.producers@[w]).0
                        != id && p0.contains(self.producers@[w]) by {
                        let wo: int = if w < i {
                            w
                        } else {
                            w + 1
                        };
                        assert(self.producers@[w] == p0[wo]);
                        if wo < i {
                            assert(p0[wo].0 != p0[i as int].0);
                        } else {
                            assert(p0[i as int].0 != p0[wo].0);
                        }
                        assert(p0.contains(p0[wo]));
                    }
                    assert forall|a: int, b: int|
                        0 <= a < b < self.producers@.len() implies (
                    #[trigger] self.producers@[a]).0 != (#[trigger] self.producers@[b]).0 by {
                        let ao: int = if a < i {
                            a
                        } else {
                            a + 1
                        };
                        let bo: int = if b < i {
                            b
                        } else {
                            b + 1
                        };
                        assert(self.producers@[a] == p0[ao]);
                        assert(self.producers@[b] == p0[bo]);
                    }
                    assert forall|w: int|
                        0 <= w < self.producers@.len() implies (#[trigger] self.producers@[w]).0
                        < self.next_producer_id by {
                        if w < i {
                            assert(self.producers@[w] == p0[w]);
                        } else {
                            assert(self.producers@[w] == p0[w + 1]);
                        }
                    }
                }
                return ;
            }
            i = i + 1;
        }
    }

    /// Removes a browser session from the directory (handle dropped).
    pub fn remove_ws_connection(&mut self, id: u32)
        requires
            old(self).wf(),
        ensures
            final(self).wf(),
            final(self).producers == old(self).producers,
            final(self).disconnected == old(self).disconnected,
            final(self).next_producer_id == old(self).next_producer_id,
            final(self).next_ws_id == old(self).next_ws_id,
            forall|i: int|
                0 <= i < final(self).ws_ids@.len() ==> (#[trigger] final(self).ws_ids@[i]) != id
                    && old(self).ws_ids@.contains(final(self).ws_ids@[i]),
    {
        let mut i: usize = 0;
        let n = self.ws_ids.len();
        while i < n
            invariant
                0 <= i <= n == self.ws_ids@.len(),
                *self == *old(self),
                old(self).wf(),
                forall|a: int| 0 <= a < i ==> (#[trigger] self.ws_ids@[a]) != id,
            decreases n - i,
        {
            if self.ws_ids[i] == id {
                let ghost w0 = self.ws_ids@;
                self.ws_ids.remove(i);
                proof {
                    assert(self.ws_ids@ =~= w0.subrange(0, i as int) + w0.subrange(
                        i as int + 1,
                        w0.len() as int,
                    ));
                    assert(w0[i as int] == id);
                    assert forall|w: int|
                        0 <= w < self.ws_ids@.len() implies (#[trigger] self.ws_ids@[w]) != id
                        && w0.contains(self.ws_ids@[w]) by {
                        let wo: int = if w < i {
                            w
                        } else {
                            w + 1
                        };
                        assert(self.ws_ids@[w] == w0[wo]);
                        if wo < i {
                            assert(w0[wo] != w0[i as int]);
                        } else {
                            assert(w0[i as int] != w0[wo]);
                        }
                        assert(w0.contains(w0[wo]));
                    }
                    assert forall|a: int, b: int|
                        0 <= a < b < self.ws_ids@.len() implies (#[trigger] self.ws_ids@[a]) != (
                    #[trigger] self.ws_ids@[b]) by {
                        let ao: int = if a < i {
                            a
                        } else {
                            a + 1
                        };
                        let bo: int = if b < i {
                            b
                        } else {
                            b + 1
                        };
                        assert(self.ws_ids@[a] == w0[ao]);
                        assert(self.ws_ids@[b] == w0[bo]);
                    }
                    assert forall|w: int|
                        0 <= w < self.ws_ids@.len() implies (#[trigger] self.ws_ids@[w])
                        < self.next_ws_id by {
                        if w < i {
                            assert(self.ws_ids@[w] == w0[w]);
                        } else {
                            assert(self.ws_ids@[w] == w0[w + 1]);
                        }
                    }
                }
                return ;
            }
            i = i + 1;
        }
    }

    /// Every producer connection with its id, address, and `online` flag:
    /// online exactly when the id was never marked disconnected.
    pub fn all_sparkles_connections(&self) -> (r: Vec<(u32, SparklesAddress, bool)>)
        ensures
            r@.len() == self.producers@.len(),
            forall|i: int|
                0 <= i < r@.len() ==> (#[trigger] r@[i]).0 == self.producers@[i].0 && spec_addr_eq(
                    self.producers@[i].1,
                    r@[i].1,
                ) && r@[i].2 == !self.disconnected@.contains(self.producers@[i].0),
    {
        let mut r: Vec<(u32, SparklesAddress, bool)> = Vec::new();
        let mut i: usize = 0;
        let n = self.producers.len();
        while i < n
            invariant
                0 <= i <= n == self.producers@.len(),
                r@.len() == i,
                forall|w: int|
                    0 <= w < i ==> (#[trigger] r@[w]).0 == self.producers@[w].0 && spec_addr_eq(
                        self.producers@[w].1,
                        r@[w].1,
                    ) && r@[w].2 == !self.disconnected@.contains(self.producers@[w].0),
            decreases n - i,
        {
            let (id, addr) = &self.producers[i];
            let mut seen = false;
            let mut d: usize = 0;
            let m = self.disconnected.len();
            while d < m
                invariant
                    0 <= d <= m == self.disconnected@.len(),
                    i < self.producers@.len(),
                    *id == self.producers@[i as int].0,
                    seen == (exists|w: int|
                        0 <= w < d && (#[trigger] self.disconnected@[w])
                            == self.producers@[i as int].0),
                decreases m - d,
            {
                if self.disconnected[d] == *id {
                    seen = true;
                }
                d = d + 1;
            }
            proof {
                if seen {
                    assert(self.disconnected@.contains(self.producers@[i as int].0));
                } else {
                    if self.disconnected@.contains(self.producers@[i as int].0) {
                        let w = choose|w: int|
                            0 <= w < self.disconnected@.len() && self.disconnected@[w]
                                == self.producers@[i as int].0;
                        assert(false);
                    }
                }
            }
            r.push((*id, addr.duplicate(), !seen));
            i = i + 1;
        }
        r
    }

    /// Producer connections as (id, address) pairs.
    pub fn active_sparkles_connections(&self) -> (r: Vec<(u32, SparklesAddress)>)
        ensures
            r@.len() == self.producers@.len(),
            forall|i: int|
                0 <= i < r@.len() ==> (#[trigger] r@[i]).0 == self.producers@[i].0 && spec_addr_eq(
                    self.producers@[i].1,
                    r@[i].1,
                ),
    {
        let mut r: Vec<(u32, SparklesAddress)> = Vec::new();
        let mut i: usize = 0;
        let n = self.producers.len();
        while i < n
            invariant
                0 <= i <= n == self.producers@.len(),
                r@.len() == i,
                forall|w: int|
                    0 <= w < i ==> (#[trigger] r@[w]).0 == self.producers@[w].0 && spec_addr_eq(
                        self.producers@[w].1,
                        r@[w].1,
                    ),
            decreases n - i,
        {
            let (id, addr) = &self.producers[i];
            r.push((*id, addr.duplicate()));
            i = i + 1;
        }
        r
    }
}

/// The manager's verdict on a connect request.
#[derive(Debug, Clone, Copy, PartialEq, Eq, Structural)]
pub enum ConnectDecision {
    Accept,
    AlreadyConnected,
    AlreadyConnectedToClient,
}

/// The first discovery group containing the endpoint, or -1.
pub open spec fn first_group_with(groups: Seq<Seq<UdpAddr>>, u: UdpAddr) -> int
    decreases groups.len(),
{
    if groups.len() == 0 {
        -1
    } else if groups[0].contains(u) {
        0
    } else {
        let r = first_group_with(groups.drop_first(), u);
        if r < 0 {
            -1
        } else {
            1 + r
        }
    }
}

/// The decision `decide_connect` must reach: an address that is already
/// active is refused; a UDP address whose discovery group already has an
/// active member is refused as a duplicate client; anything else is
/// accepted.
pub open spec fn spec_connect_decision(
    active: Seq<SparklesAddress>,
    groups: Seq<Seq<UdpAddr>>,
    addr: SparklesAddress,
) -> ConnectDecision {
    if addr_in(active, addr) {
        ConnectDecision::AlreadyConnected
    } else {
        match addr {
            SparklesAddress::Udp(u) => {
                let g = first_group_with(groups, u);
                if g >= 0 && crate::session::group_member_active(active, groups[g]) {
                    ConnectDecision::AlreadyConnectedToClient
                } else {
                    ConnectDecision::Accept
                }
            },
            SparklesAddress::File(_) => ConnectDecision::Accept,
        }
    }
}

proof fn lemma_first_group_found(groups: Seq<Seq<UdpAddr>>, u: UdpAddr, g: int)
    requires
        0 <= g < groups.len(),
        groups[g].contains(u),
        forall|w: int| 0 <= w < g ==> !(#[trigger] groups[w]).contains(u),
    ensures
        first_group_with(groups, u) == g,
    decreases groups.len(),
{
    if groups[0].contains(u) {
        assert(g == 0);
    } else {
        let rest = groups.drop_first();
        assert(rest[g - 1] == groups[g]);
        assert forall|w: int| 0 <= w < g - 1 implies !(#[trigger] rest[w]).contains(u) by {
            assert(rest[w] == groups[w + 1]);
        }
        lemma_first_group_found(rest, u, g - 1);
    }
}

proof fn lemma_first_group_missing(groups: Seq<Seq<UdpAddr>>, u: UdpAddr)
    requires
        forall|w: int| 0 <= w < groups.len() ==> !(#[trigger] groups[w]).contains(u),
    ensures
        first_group_with(groups, u) == -1,
    decreases groups.len(),
{
    if groups.len() > 0 {
        let rest = groups.drop_first();
        assert forall|w: int| 0 <= w < rest.len() implies !(#[trigger] rest[w]).contains(u) by {
            assert(rest[w] == groups[w + 1]);
        }
        lemma_first_group_missing(rest, u);
    }
}

/// Arbitrates a connect request against the active connections and the
/// current discovery snapshot, exactly as `spec_connect_decision` says.
pub fn decide_connect(
    active: &Vec<SparklesAddress>,
    groups: &Vec<Vec<UdpAddr>>,
    addr: &SparklesAddress,
) -> (r: ConnectDecision)
    ensures
        r == spec_connect_decision(
            active@,
            groups@.map(|_i: int, g: Vec<UdpAddr>| g@),
            *addr,
        ),
{
    let ghost gs = groups@.map(|_i: int, g: Vec<UdpAddr>| g@);
    let mut i: usize = 0;
    let n = active.len();
    while i < n
        invariant
            0 <= i <= n == active@.len(),
            forall|w: int| 0 <= w < i ==> !spec_addr_eq(#[trigger] active@[w], *addr),
        decreases n - i,
    {
        if active[i].same_as(addr) {
            proof {
                assert(addr_in(active@, *addr));
            }
            return ConnectDecision::AlreadyConnected;
        }
        i = i + 1;
    }
    proof {
        assert(!addr_in(active@, *addr));
    }
    let u: UdpAddr = match addr {
        SparklesAddress::Udp(u) => *u,
        SparklesAddress::File(_) => {
            return ConnectDecision::Accept;
        },
    };
    // Find the first discovery group holding this endpoint.
    let mut g: usize = 0;
    let m = groups.len();
    let mut found: Option<usize> = None;
    while g < m && found.is_none()
        invariant
            0 <= g <= m == groups@.len(),
            gs == groups@.map(|_i: int, gg: Vec<UdpAddr>| gg@),
            gs.len() == m,
            match found {
                Some(f) => f < m && gs[f as int].contains(u) && (forall|w: int|
                    0 <= w < f ==> !(#[trigger] gs[w]).contains(u)),
                None => forall|w: int| 0 <= w < g ==> !(#[trigger] gs[w]).contains(u),
            },
        decreases m - g + (if found.is_none() { 1int } else { 0int }),
    {
        let group = &groups[g];
        let mut j: usize = 0;
        let mut has = false;
        while j < group.len()
            invariant
                0 <= j <= group@.len(),
                g < groups@.len(),
                gs == groups@.map(|_i: int, gg: Vec<UdpAddr>| gg@),
                group@ == gs[g as int],
                has == (exists|w: int| 0 <= w < j && #[trigger] group@[w] == u),
            decreases group@.len() - j,
        {
            if group[j] == u {
                has = true;
            }
            j = j + 1;
        }
        proof {
            if has {
                assert(gs[g as int].contains(u));
            } else if gs[g as int].contains(u) {
                let w = choose|w: int| 0 <= w < gs[g as int].len() && gs[g as int][w] == u;
                assert(false);
            }
        }
        if has {
            found = Some(g);
        } else {
            g = g + 1;
        }
    }
    match found {
        Some(f) => {
            proof {
                lemma_first_group_found(gs, u, f as int);
            }
            // Any member of this group already actively connected?
            let group = &groups[f];
            let mut j: usize = 0;
            let mut conflict = false;
            while j < group.len()
                invariant
                    0 <= j <= group@.len(),
                    f < groups@.len(),
                    gs == groups@.map(|_i: int, gg: Vec<UdpAddr>| gg@),
                    group@ == gs[f as int],
                    conflict ==> crate::session::group_member_active(active@, gs[f as int]),
                    !conflict ==> forall|jj: int, w: int|
                        0 <= jj < j && 0 <= w < active@.len() ==> !spec_addr_eq(
                            #[trigger] active@[w],
                            SparklesAddress::Udp(#[trigger] group@[jj]),
                        ),
                decreases group@.len() - j,
            {
                let member = group[j];
                let mut w: usize = 0;
                while w < active.len()
                    invariant
                        0 <= w <= active@.len(),
                        j < group@.len(),
                        group@[j as int] == member,
                        conflict ==> crate::session::group_member_active(active@, gs[f as int]),
                        f < groups@.len(),
                        gs == groups@.map(|_i: int, gg: Vec<UdpAddr>| gg@),
                        group@ == gs[f as int],
                        !conflict ==> forall|jj: int, x: int|
                            0 <= jj < j && 0 <= x < active@.len() ==> !spec_addr_eq(
                                #[trigger] active@[x],
                                SparklesAddress::Udp(#[trigger] group@[jj]),
                            ),
                        !conflict ==> forall|x: int|
                            0 <= x < w ==> !spec_addr_eq(
                                #[trigger] active@[x],
                                SparklesAddress::Udp(member),
                            ),
                    decreases active@.len() - w,
                {
                    if active[w].same_as(&SparklesAddress::Udp(member)) {
                        conflict = true;
                    }
                    w = w + 1;
                }
                j = j + 1;
            }
            proof {
                if !conflict {
                    assert(!crate::session::group_member_active(active@, gs[f as int]));
                }
            }
            if conflict {
                ConnectDecision::AlreadyConnectedToClient
            } else {
                ConnectDecision::Accept
            }
        },
        None => {
            proof {
                lemma_first_group_missing(gs, u);
            }
            ConnectDecision::Accept
        },
    }
}

} // verus!
