//! The decisions of a kill request that do not touch the operating system:
//! which protocol is meant, which processes get a signal, what is reported,
//! and how a socket's local port is read from the raw value the system gives.

use vstd::prelude::*;

use crate::port::{KillResult, Signal};
use crate::text::chars_of;

verus! {

/// The transport protocol whose sockets are searched.
#[derive(Debug, Clone, Copy, PartialEq, Eq, Structural)]
pub enum Protocol {
    Tcp,
    Udp,
}

/// The protocol a command-line name stands for: `tcp` or `udp`, exactly.
pub open spec fn protocol_named(name: Seq<char>) -> Option<Protocol> {
    if name == seq!['t', 'c', 'p'] {
        Some(Protocol::Tcp)
    } else if name == seq!['u', 'd', 'p'] {
        Some(Protocol::Udp)
    } else {
        None
    }
}

impl Protocol {
    /// The protocol named `name`, or the message that refuses it.
    pub fn from_name(name: &str) -> (r: Result<Protocol, String>)
        ensures
            match r {
                Ok(p) => protocol_named(name@) == Some(p),
                Err(msg) => protocol_named(name@) is None && msg@ == "unsupported protocol: "@
                    + name@,
            },
    {
        let v = chars_of(name);
        if v.len() == 3 && v[0] == 't' && v[1] == 'c' && v[2] == 'p' {
            assert(v@ =~= seq!['t', 'c', 'p']);
            Ok(Protocol::Tcp)
        } else if v.len() == 3 && v[0] == 'u' && v[1] == 'd' && v[2] == 'p' {
            assert(v@ =~= seq!['u', 'd', 'p']);
            Ok(Protocol::Udp)
        } else {
            assert(v@ != seq!['t', 'c', 'p'] && v@ != seq!['u', 'd', 'p']) by {
                if v@ =~= seq!['t', 'c', 'p'] || v@ =~= seq!['u', 'd', 'p'] {
                    assert(v@.len() == 3);
                }
            }
            let mut msg = "unsupported protocol: ".to_owned();
            msg.append(name);
            Err(msg)
        }
    }

    /// The Linux tables that list this protocol's IPv4 and IPv6 sockets.
    pub fn proc_net_tables(self) -> (r: (&'static str, &'static str))
        ensures
            self == Protocol::Tcp ==> r.0@ == "/proc/net/tcp"@ && r.1@ == "/proc/net/tcp6"@,
            self == Protocol::Udp ==> r.0@ == "/proc/net/udp"@ && r.1@ == "/proc/net/udp6"@,
    {
        match self {
            Protocol::Tcp => ("/proc/net/tcp", "/proc/net/tcp6"),
            Protocol::Udp => ("/proc/net/udp", "/proc/net/udp6"),
        }
    }
}

/// What a kill request does once the processes on the port are known.
pub struct KillPlan {
    /// The processes to signal, in order.
    pub targets: Vec<u32>,
    pub signal: Signal,
    /// What the request reports once the signals are sent.
    pub result: KillResult,
}

/// Every process found is reported; it is signalled unless this is a dry run.
pub fn plan_kill(port: u16, pids: Vec<u32>, dry_run: bool, sig: Signal) -> (plan: KillPlan)
    ensures
        plan.targets@ == (if dry_run {
            Seq::<u32>::empty()
        } else {
            pids@
        }),
        plan.signal == sig,
        plan.result.port == port,
        plan.result.pids@ == pids@,
        plan.result.error is None,
{
    let targets = if dry_run {
        Vec::new()
    } else {
        pids.clone()
    };
    assert(dry_run ==> targets@ =~= Seq::<u32>::empty());
    KillPlan { targets, signal: sig, result: KillResult { port, pids, error: None } }
}

impl KillResult {
    /// The report of a port whose lookup failed with `message`.
    pub fn failed(port: u16, message: String) -> (r: KillResult)
        ensures
            r.port == port,
            r.pids@ == Seq::<u32>::empty(),
            r.error == Some(message),
    {
        KillResult { port, pids: Vec::new(), error: Some(message) }
    }
}

/// A 16-bit value with its two bytes exchanged.
pub open spec fn swap_bytes(x: u16) -> u16 {
    ((x % 256) * 256 + x / 256) as u16
}

/// A value stored in network (big-endian) byte order, read on this machine:
/// unchanged where the machine is big-endian, with its bytes exchanged where
/// it is little-endian. `endianness()` is the machine's one byte order.
pub open spec fn from_network_order(x: u16) -> u16 {
    if vstd::endian::endianness() == vstd::endian::Endian::Big {
        x
    } else {
        swap_bytes(x)
    }
}

/// `u16::from_be`: converts `x` from big-endian to the machine's byte
/// order, a no-op on big-endian machines and a byte swap on little-endian
/// ones.
#[verifier::external_body]
fn u16_from_be(x: u16) -> (r: u16)
    ensures
        r == from_network_order(x),
{
    u16::from_be(x)
}

/// The port number in the low 16 bits of `raw`.
pub open spec fn raw_port(raw: u32) -> u16 {
    (raw % 0x10000) as u16
}

/// A raw field below 2^16 is its own port, and the bits above the low 16
/// never change the port.
pub proof fn lemma_raw_port_low_bits(raw: u32, high: u32)
    ensures
        raw < 0x10000 ==> raw_port(raw) == raw,
        raw < 0x10000 && high < 0x10000 ==> raw_port((high * 0x10000 + raw) as u32) == raw,
{
    if raw < 0x10000 && high < 0x10000 {
        assert((high * 0x10000 + raw) % 0x10000 == raw) by (nonlinear_arith)
            requires
                raw < 0x10000,
        ;
    }
}

/// The local port of a socket whose system record holds `raw`: the low 16
/// bits of `raw`, in network byte order.
pub fn local_port_from_raw(raw: u32) -> (r: u16)
    ensures
        r == from_network_order(raw_port(raw)),
{
    let low = (raw & 0xffff) as u16;
    assert(raw & 0xffff == raw % 0x10000) by (bit_vector);
    u16_from_be(low)
}

/// The processes that own a row of a socket table whose local port is
/// `port`; a row is its raw local-port field and its owner's process id.
pub open spec fn port_owners(rows: Seq<(u32, u32)>, port: u16) -> Set<u32> {
    Set::new(
        |pid: u32|
            exists|k: int|
                0 <= k < rows.len() && #[trigger] rows[k].1 == pid && from_network_order(
                    raw_port(rows[k].0),
                ) == port,
    )
}

/// Adds `pid` to `pids` unless it is there already.
pub fn add_pid(pids: &mut Vec<u32>, pid: u32)
    ensures
        final(pids)@ == (if old(pids)@.contains(pid) {
            old(pids)@
        } else {
            old(pids)@.push(pid)
        }),
        final(pids)@.to_set() == old(pids)@.to_set().insert(pid),
        old(pids)@.no_duplicates() ==> final(pids)@.no_duplicates(),
{
    let mut i: usize = 0;
    while i < pids.len()
        invariant
            i <= pids@.len(),
            pids@ == old(pids)@,
            forall|j: int| 0 <= j < i ==> pids@[j] != pid,
        decreases pids@.len() - i,
    {
        if pids[i] == pid {
            assert(pids@.to_set() =~= pids@.to_set().insert(pid));
            return;
        }
        i = i + 1;
    }
    pids.push(pid);
    proof {
        broadcast use vstd::seq_lib::group_seq_properties;

        assert(pids@.to_set() =~= old(pids)@.to_set().insert(pid));
    }
}

/// Adds to `pids` the owners of the rows of a socket table whose local port
/// is `port`; an owner already there is not added again.
pub fn collect_port_owners(rows: &Vec<(u32, u32)>, port: u16, pids: &mut Vec<u32>)
    ensures
        final(pids)@.to_set() == old(pids)@.to_set().union(port_owners(rows@, port)),
        old(pids)@.no_duplicates() ==> final(pids)@.no_duplicates(),
        forall|k: int|
            0 <= k < rows@.len() && from_network_order(raw_port(rows@[k].0)) == port
                ==> final(pids)@.contains(#[trigger] rows@[k].1),
        forall|p: u32|
            #[trigger] final(pids)@.contains(p) ==> old(pids)@.contains(p) || exists|k: int|
                0 <= k < rows@.len() && rows@[k].1 == p && from_network_order(
                    raw_port(rows@[k].0),
                ) == port,
{
    proof {
        lemma_port_owners(rows@, port);
    }
    for i in 0..rows.len()
        invariant
            pids@.to_set() == old(pids)@.to_set().union(port_owners(rows@.take(i as int), port)),
            old(pids)@.no_duplicates() ==> pids@.no_duplicates(),
    {
        let (raw, owner) = rows[i];
        let ghost before = pids@;
        if local_port_from_raw(raw) == port {
            add_pid(pids, owner);
        }
        assert(port_owners(rows@.take(i + 1), port) =~= if from_network_order(raw_port(raw))
            == port {
            port_owners(rows@.take(i as int), port).insert(owner)
        } else {
            port_owners(rows@.take(i as int), port)
        }) by {
            let a = rows@.take(i as int);
            let b = rows@.take(i + 1);
            assert forall|pid: u32| port_owners(b, port).contains(pid) implies (port_owners(
                a,
                port,
            ).contains(pid) || (pid == owner && from_network_order(raw_port(raw)) == port)) by {
                let k = choose|k: int|
                    0 <= k < b.len() && #[trigger] b[k].1 == pid && from_network_order(
                        raw_port(b[k].0),
                    ) == port;
                if k < i {
                    assert(a[k] == b[k]);
                }
            }
            assert forall|pid: u32| port_owners(a, port).contains(pid) implies port_owners(
                b,
                port,
            ).contains(pid) by {
                let k = choose|k: int|
                    0 <= k < a.len() && #[trigger] a[k].1 == pid && from_network_order(
                        raw_port(a[k].0),
                    ) == port;
                assert(b[k] == a[k]);
            }
            if from_network_order(raw_port(raw)) == port {
                assert(b[i as int].1 == owner);
                assert(port_owners(b, port).contains(owner));
            }
        }
    }
    assert(rows@.take(rows.len() as int) =~= rows@);
    assert forall|k: int|
        0 <= k < rows@.len() && from_network_order(raw_port(rows@[k].0)) == port implies pids@.contains(
        #[trigger] rows@[k].1,
    ) by {
        assert(pids@.to_set().contains(rows@[k].1));
    }
    assert forall|p: u32| #[trigger] pids@.contains(p) implies old(pids)@.contains(p) || exists|
        k: int,
    |
        0 <= k < rows@.len() && rows@[k].1 == p && from_network_order(raw_port(rows@[k].0))
            == port by {
        assert(pids@.to_set().contains(p));
        if !old(pids)@.contains(p) {
            assert(!old(pids)@.to_set().contains(p));
        }
    }
}

/// The owners of a port are exactly the owners of the rows (every row,
/// the last included) whose local port, read in network order, is the port.
pub proof fn lemma_port_owners(rows: Seq<(u32, u32)>, port: u16)
    ensures
        forall|k: int|
            0 <= k < rows.len() && from_network_order(raw_port(rows[k].0)) == port
                ==> port_owners(rows, port).contains(#[trigger] rows[k].1),
        forall|p: u32|
            #[trigger] port_owners(rows, port).contains(p) ==> exists|k: int|
                0 <= k < rows.len() && rows[k].1 == p && from_network_order(raw_port(rows[k].0))
                    == port,
{
    assert forall|k: int|
        0 <= k < rows.len() && from_network_order(raw_port(rows[k].0)) == port implies port_owners(
        rows,
        port,
    ).contains(#[trigger] rows[k].1) by {
        assert(rows[k].1 == rows[k].1);
    }
}

/// The kinds of socket record macOS reports.
#[derive(Debug, Clone, Copy, PartialEq, Eq, Structural)]
pub enum SocketKind {
    /// A TCP socket (`SocketInfoKind::Tcp`).
    Tcp,
    /// An internet socket that is not TCP (`SocketInfoKind::In`), such as UDP.
    In,
    Other,
}

/// The local port of a socket record if it belongs to `protocol`: TCP
/// records for TCP, plain internet records for UDP.
pub fn socket_port(kind: SocketKind, protocol: Protocol, raw: u32) -> (r: Option<u16>)
    ensures
        r is Some <==> (kind == SocketKind::Tcp && protocol == Protocol::Tcp) || (kind
            == SocketKind::In && protocol == Protocol::Udp),
        r matches Some(p) ==> p == from_network_order(raw_port(raw)),
{
    match (kind, protocol) {
        (SocketKind::Tcp, Protocol::Tcp) | (SocketKind::In, Protocol::Udp) => Some(
            local_port_from_raw(raw),
        ),
        _ => None,
    }
}

} // verus!
