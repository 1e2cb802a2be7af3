//! The Windows side of the lookup: the host bitmask test, the conversion of
//! socket-address records, the walk over the adapter records that the IP
//! helper API fills in, and the decisions of its buffer-size retry loop.
use vstd::prelude::*;
use crate::ip::{IpAddress, IpModel, models, opt_model, join_octets};

verus! {

/// Bit of the runtime host-OS bitmask that marks a Windows host
/// (the others: Linux 1, bare metal 2, XNU 8, OpenBSD 16, FreeBSD 32, NetBSD 64).
pub const HOST_WINDOWS: i32 = 4;

/// Address family "unspecified": ask for both IPv4 and IPv6 records.
pub const AF_UNSPEC: u32 = 0;

/// The IPv4 address family.
pub const AF_INET: u16 = 2;

/// The IPv6 address family as Windows numbers it (not the POSIX 10).
pub const AF_INET6: u16 = 23;

/// The call succeeded.
pub const ERROR_SUCCESS: u32 = 0;

/// The buffer was too small; the size it needs has been written back.
pub const ERROR_BUFFER_OVERFLOW: u32 = 111;

/// Query flag: leave out the unicast addresses.
pub const GAA_FLAG_SKIP_UNICAST: u32 = 0x0001;

/// Query flag: leave out the anycast addresses.
pub const GAA_FLAG_SKIP_ANYCAST: u32 = 0x0002;

/// Query flag: leave out the multicast addresses.
pub const GAA_FLAG_SKIP_MULTICAST: u32 = 0x0004;

/// Query flag: leave out the adapters' friendly names.
pub const GAA_FLAG_SKIP_FRIENDLY_NAME: u32 = 0x0020;

/// The flags of the adapter query: skip everything but the DNS servers.
pub const GAA_FLAGS: u32 = GAA_FLAG_SKIP_UNICAST | GAA_FLAG_SKIP_ANYCAST | GAA_FLAG_SKIP_MULTICAST
    | GAA_FLAG_SKIP_FRIENDLY_NAME;

/// The size of the first buffer offered to the adapter query (15 KB, as the
/// API's documentation recommends).
pub const INITIAL_BUFFER_SIZE: u32 = 15 * 1024;

/// How many times the adapter query is made before giving up on a buffer
/// size that keeps growing.
pub const MAX_ATTEMPTS: u32 = 3;

/// Whether the runtime host-OS bitmask names a Windows host.
pub fn is_windows(hostos: i32) -> (r: bool)
    ensures
        r == (hostos & HOST_WINDOWS != 0),
{
    (hostos & HOST_WINDOWS) != 0
}

// ---------------------------------------------------------------------------
// Socket-address records.
// ---------------------------------------------------------------------------
/// The address family in the first two bytes of a socket-address record,
/// read little-endian, as every Windows host stores it.
pub open spec fn sockaddr_family(b: Seq<u8>) -> int {
    b[0] + b[1] * 256
}

/// The address in a socket-address record of `len` bytes, the first of them
/// `b`: an IPv4 record (family 2, at least 8 bytes) holds the address at bytes
/// 4..8; an IPv6 record (family 23, at least 28 bytes) holds it at bytes
/// 8..24, each group high byte first.
pub open spec fn sockaddr_address(b: Option<Seq<u8>>, len: int) -> Option<IpModel> {
    match b {
        None => None,
        Some(b) => if len < 2 {
            None
        } else if sockaddr_family(b) == AF_INET {
            if len < 8 {
                None
            } else {
                Some(IpModel::V4(b.subrange(4, 8)))
            }
        } else if sockaddr_family(b) == AF_INET6 {
            if len < 28 {
                None
            } else {
                Some(
                    IpModel::V6(
                        Seq::new(8, |i: int| join_octets(b[8 + 2 * i], b[9 + 2 * i])),
                    ),
                )
            }
        } else {
            None
        },
    }
}

/// Whether a record of `len` bytes lies within `b`.
pub open spec fn record_fits(b: Option<Seq<u8>>, len: int) -> bool {
    b matches Some(b) ==> len <= b.len()
}

/// The address in a socket-address record; `None` when the record is absent,
/// too short for its family, or of another family.
pub fn sockaddr_to_ip(sa: Option<&[u8]>, len: i32) -> (r: Option<IpAddress>)
    requires
        record_fits(
            match sa {
                Some(b) => Some(b@),
                None => None,
            },
            len as int,
        ),
    ensures
        opt_model(r) == sockaddr_address(
            match sa {
                Some(b) => Some(b@),
                None => None,
            },
            len as int,
        ),
{
    let b = match sa {
        None => {
            return None;
        },
        Some(b) => b,
    };
    if len < 2 {
        return None;
    }
    let family: u16 = (b[0] as u16) + (b[1] as u16) * 256;
    if family == AF_INET {
        if len < 8 {
            return None;
        }
        let o = [b[4], b[5], b[6], b[7]];
        assert(o@ =~= b@.subrange(4, 8));
        Some(IpAddress::V4(o))
    } else if family == AF_INET6 {
        if len < 28 {
            return None;
        }
        let mut g: [u16; 8] = [0; 8];
        let mut i: usize = 0;
        while i < 8
            invariant
                i <= 8,
                28 <= b@.len(),
                forall|j: int| 0 <= j < i ==> g@[j] == join_octets(b@[8 + 2 * j], b@[9 + 2 * j]),
            decreases 8 - i,
        {
            g[i] = (b[8 + 2 * i] as u16) * 256 + (b[9 + 2 * i] as u16);
            i = i + 1;
        }
        assert(g@ =~= Seq::new(8, |i: int| join_octets(b@[8 + 2 * i], b@[9 + 2 * i])));
        Some(IpAddress::V6(g))
    } else {
        None
    }
}

// ---------------------------------------------------------------------------
// The adapter records.
// ---------------------------------------------------------------------------
/// One DNS-server record of an adapter: the bytes of its socket-address
/// record, if the record is present, and the length the record claims.
pub struct DnsServerRecord {
    pub sockaddr: Option<Vec<u8>>,
    pub length: i32,
}

/// One adapter record: its DNS-server records, in list order.
pub struct AdapterRecord {
    pub dns_servers: Vec<DnsServerRecord>,
}

impl DnsServerRecord {
    /// The bytes of the record, as a sequence.
    pub open spec fn bytes(&self) -> Option<Seq<u8>> {
        match self.sockaddr {
            Some(v) => Some(v@),
            None => None,
        }
    }

    /// The address the record holds, if any.
    pub open spec fn address(&self) -> Option<IpModel> {
        sockaddr_address(self.bytes(), self.length as int)
    }

    /// The record's claimed length lies within its bytes.
    pub open spec fn wf(&self) -> bool {
        record_fits(self.bytes(), self.length as int)
    }
}

/// The addresses that a list of DNS-server records holds, in order.
pub open spec fn servers_addresses(records: Seq<DnsServerRecord>) -> Seq<IpModel>
    decreases records.len(),
{
    if records.len() == 0 {
        Seq::empty()
    } else {
        servers_addresses(records.drop_last()) + match records.last().address() {
            Some(a) => seq![a],
            None => Seq::empty(),
        }
    }
}

/// The addresses that a list of adapters holds: adapter by adapter, and
/// within each in the order of its DNS-server list.
pub open spec fn adapters_addresses(adapters: Seq<AdapterRecord>) -> Seq<IpModel>
    decreases adapters.len(),
{
    if adapters.len() == 0 {
        Seq::empty()
    } else {
        adapters_addresses(adapters.drop_last()) + servers_addresses(
            adapters.last().dns_servers@,
        )
    }
}

/// Every record of every adapter is well formed.
pub open spec fn adapters_wf(adapters: Seq<AdapterRecord>) -> bool {
    forall|i: int, j: int|
        0 <= i < adapters.len() && 0 <= j < adapters[i].dns_servers@.len()
            ==> #[trigger] adapters[i].dns_servers@[j].wf()
}

/// The DNS-server addresses of the adapters, adapter by adapter and within
/// each in list order; records that hold no address are skipped.
pub fn walk(adapters: &Vec<AdapterRecord>) -> (r: Vec<IpAddress>)
    requires
        adapters_wf(adapters@),
    ensures
        models(r@) == adapters_addresses(adapters@),
{
    let mut out: Vec<IpAddress> = Vec::new();
    let mut i: usize = 0;
    while i < adapters.len()
        invariant
            i <= adapters@.len(),
            adapters_wf(adapters@),
            models(out@) == adapters_addresses(adapters@.take(i as int)),
        decreases adapters@.len() - i,
    {
        let servers = &adapters[i].dns_servers;
        let ghost before = out@;
        let mut j: usize = 0;
        while j < servers.len()
            invariant
                i < adapters@.len(),
                j <= servers@.len(),
                servers == adapters@[i as int].dns_servers,
                adapters_wf(adapters@),
                models(out@) == models(before) + servers_addresses(servers@.take(j as int)),
            decreases servers@.len() - j,
        {
            let rec = &servers[j];
            assert(rec.wf());
            let found = match &rec.sockaddr {
                Some(v) => sockaddr_to_ip(Some(v.as_slice()), rec.length),
                None => sockaddr_to_ip(None, rec.length),
            };
            let ghost prev = out@;
            assert(servers@.take(j + 1).drop_last() =~= servers@.take(j as int));
            match found {
                Some(a) => {
                    out.push(a);
                    assert(models(out@) =~= models(prev) + seq![a@]);
                },
                None => {},
            }
            j = j + 1;
        }
        assert(servers@.take(servers@.len() as int) =~= servers@);
        assert(adapters@.take(i + 1).drop_last() =~= adapters@.take(i as int));
        i = i + 1;
    }
    assert(adapters@.take(adapters@.len() as int) =~= adapters@);
    out
}

/// The addresses of two runs of adapters, one run after the other, are
/// those of the first run followed by those of the second.
pub proof fn lemma_adapters_concat(a: Seq<AdapterRecord>, b: Seq<AdapterRecord>)
    ensures
        adapters_addresses(a + b) == adapters_addresses(a) + adapters_addresses(b),
    decreases b.len(),
{
    if b.len() == 0 {
        assert(a + b =~= a);
        assert(adapters_addresses(a) + Seq::<IpModel>::empty() =~= adapters_addresses(a));
    } else {
        lemma_adapters_concat(a, b.drop_last());
        assert((a + b).drop_last() =~= a + b.drop_last());
        assert((a + b).last() == b.last());
        assert(adapters_addresses(a) + adapters_addresses(b.drop_last()) + servers_addresses(
            b.last().dns_servers@,
        ) =~= adapters_addresses(a) + (adapters_addresses(b.drop_last()) + servers_addresses(
            b.last().dns_servers@,
        )));
    }
}

/// The addresses of two runs of DNS-server records, one run after the
/// other, are those of the first run followed by those of the second: how
/// many came before never changes what a record contributes.
pub proof fn lemma_servers_concat(a: Seq<DnsServerRecord>, b: Seq<DnsServerRecord>)
    ensures
        servers_addresses(a + b) == servers_addresses(a) + servers_addresses(b),
    decreases b.len(),
{
    if b.len() == 0 {
        assert(a + b =~= a);
        assert(servers_addresses(a) + Seq::<IpModel>::empty() =~= servers_addresses(a));
    } else {
        lemma_servers_concat(a, b.drop_last());
        assert((a + b).drop_last() =~= a + b.drop_last());
        assert((a + b).last() == b.last());
        let tail = match b.last().address() {
            Some(x) => seq![x],
            None => Seq::<IpModel>::empty(),
        };
        assert(servers_addresses(a) + servers_addresses(b.drop_last()) + tail
            =~= servers_addresses(a) + (servers_addresses(b.drop_last()) + tail));
    }
}

/// One DNS-server record contributes its address, if it holds one, and
/// nothing else; so a record holding an address always appears.
pub proof fn lemma_servers_single(x: DnsServerRecord)
    ensures
        servers_addresses(seq![x]) == match x.address() {
            Some(a) => seq![a],
            None => Seq::<IpModel>::empty(),
        },
{
    let e = Seq::<DnsServerRecord>::empty();
    assert(seq![x].drop_last() =~= e);
    assert(servers_addresses(e) == Seq::<IpModel>::empty());
    assert(seq![x].last() == x);
    let tail = match x.address() {
        Some(a) => seq![a],
        None => Seq::<IpModel>::empty(),
    };
    assert(servers_addresses(seq![x]) == servers_addresses(e) + tail);
    assert(Seq::<IpModel>::empty() + tail =~= tail);
}

/// The number of addresses is the number of records that hold one.
pub proof fn lemma_servers_count(records: Seq<DnsServerRecord>)
    ensures
        servers_addresses(records).len() == records.filter(
            |x: DnsServerRecord| x.address() is Some,
        ).len(),
    decreases records.len(),
{
    reveal_with_fuel(Seq::filter, 1);
    if records.len() > 0 {
        lemma_servers_count(records.drop_last());
    }
}

/// One adapter contributes the addresses of its DNS-server records.
pub proof fn lemma_adapters_single(a: AdapterRecord)
    ensures
        adapters_addresses(seq![a]) == servers_addresses(a.dns_servers@),
{
    let e = Seq::<AdapterRecord>::empty();
    assert(seq![a].drop_last() =~= e);
    assert(adapters_addresses(e) == Seq::<IpModel>::empty());
    assert(seq![a].last() == a);
    assert(adapters_addresses(seq![a]) == adapters_addresses(e) + servers_addresses(
        a.dns_servers@,
    ));
    assert(Seq::<IpModel>::empty() + servers_addresses(a.dns_servers@) =~= servers_addresses(
        a.dns_servers@,
    ));
}

/// An IPv6 record (family 23, stored low byte first, and at least 28 bytes)
/// holds the address whose eight groups are written at bytes 8..24 in
/// network order, each group high byte first.
pub proof fn lemma_ipv6_record(b: Seq<u8>, len: int, g: Seq<u16>)
    requires
        g.len() == 8,
        28 <= len <= b.len(),
        b[0] == 23,
        b[1] == 0,
        forall|i: int| 0 <= i < 8 ==> b[8 + 2 * i] == #[trigger] g[i] / 256 && b[9 + 2 * i] == g[i]
            % 256,
    ensures
        sockaddr_address(Some(b), len) == Some(IpModel::V6(g)),
{
    let m = Seq::new(8, |i: int| join_octets(b[8 + 2 * i], b[9 + 2 * i]));
    assert forall|i: int| 0 <= i < 8 implies m[i] == g[i] by {
        assert(b[8 + 2 * i] == g[i] / 256);
        assert(b[9 + 2 * i] == g[i] % 256);
        assert((g[i] / 256) * 256 + g[i] % 256 == g[i]);
    }
    assert(m =~= g);
}

/// An IPv4 record (family 2, stored low byte first, and at least 8 bytes)
/// holds the address written at bytes 4..8.
pub proof fn lemma_ipv4_record(b: Seq<u8>, len: int, o: Seq<u8>)
    requires
        o.len() == 4,
        8 <= len <= b.len(),
        b[0] == 2,
        b[1] == 0,
        forall|i: int| 0 <= i < 4 ==> b[4 + i] == #[trigger] o[i],
    ensures
        sockaddr_address(Some(b), len) == Some(IpModel::V4(o)),
{
    assert(b.subrange(4, 8) =~= o);
}

// ---------------------------------------------------------------------------
// The retry loop of the adapter query.
// ---------------------------------------------------------------------------
/// What to do after one adapter query.
#[derive(Clone, Copy, Debug, PartialEq, Eq)]
pub enum QueryStep {
    /// The buffer holds the adapter records: walk them.
    Walk,
    /// Query again with a buffer of this many bytes.
    Retry { buffer_size: u32 },
    /// The query failed with this system error code.
    Failed { code: u32 },
    /// The buffer was still too small after the last attempt.
    SizeKeptGrowing,
}

/// The decision after attempt number `attempt` (counting from 0) of the
/// adapter query returned `rc`, having written back the buffer size `size`.
pub fn after_query(attempt: u32, rc: u32, size: u32) -> (r: QueryStep)
    requires
        attempt < MAX_ATTEMPTS,
    ensures
        rc == ERROR_SUCCESS ==> r == QueryStep::Walk,
        rc == ERROR_BUFFER_OVERFLOW && attempt + 1 < MAX_ATTEMPTS ==> r == (QueryStep::Retry {
            buffer_size: size,
        }),
        rc == ERROR_BUFFER_OVERFLOW && attempt + 1 == MAX_ATTEMPTS ==> r
            == QueryStep::SizeKeptGrowing,
        rc != ERROR_SUCCESS && rc != ERROR_BUFFER_OVERFLOW ==> r == (QueryStep::Failed { code: rc }),
{
    if rc == ERROR_SUCCESS {
        QueryStep::Walk
    } else if rc == ERROR_BUFFER_OVERFLOW {
        if attempt + 1 < MAX_ATTEMPTS {
            QueryStep::Retry { buffer_size: size }
        } else {
            QueryStep::SizeKeptGrowing
        }
    } else {
        QueryStep::Failed { code: rc }
    }
}

} // verus!
