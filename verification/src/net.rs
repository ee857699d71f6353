//! IPv4 addresses and CIDR networks, modelled as numeric ranges.
//!
//! A network `a.b.c.d/p` covers the block of `2^(32 - p)` consecutive
//! addresses obtained by aligning the base address down to a multiple of the
//! block size. Containment and overlap are defined over that range model,
//! and the executable checks are proved equivalent to it.

use vstd::arithmetic::div_mod::{lemma_fundamental_div_mod, lemma_mod_bound};
use vstd::arithmetic::power2::{
    lemma2_to64, lemma2_to64_rest, lemma_pow2_adds, lemma_pow2_pos, lemma_pow2_strictly_increases,
    pow2,
};
use vstd::bits::lemma_u64_shl_is_mul;
use vstd::prelude::*;

verus! {

/// An IPv4 address, stored as its 32-bit numeric value.
#[derive(Clone, Copy, PartialEq, Eq, Structural, Debug, Hash)]
pub struct Ipv4Addr {
    pub bits: u32,
}

impl Ipv4Addr {
    /// Builds the address `a.b.c.d`.
    pub fn from_octets(a: u8, b: u8, c: u8, d: u8) -> (r: Ipv4Addr)
        ensures
            r.bits == a * 0x1000000 + b * 0x10000 + c * 0x100 + d,
    {
        Ipv4Addr {
            bits: (a as u32) * 0x1000000 + (b as u32) * 0x10000 + (c as u32) * 0x100 + (d as u32),
        }
    }
}

/// An IPv4 CIDR network: a base address and a prefix length.
#[derive(Clone, Copy, PartialEq, Eq, Structural, Debug, Hash)]
pub struct Ipv4Network {
    pub addr: Ipv4Addr,
    pub prefix: u8,
}

impl Ipv4Network {
    /// A meaningful network has a prefix length of at most 32 bits.
    pub open spec fn wf(self) -> bool {
        self.prefix <= 32
    }

    /// How many addresses the network covers: `2^(32 - prefix)`.
    pub open spec fn block_size(self) -> int {
        pow2((32 - self.prefix) as nat) as int
    }

    /// The lowest covered address: the base aligned down to the block size.
    pub open spec fn lo(self) -> int {
        (self.addr.bits as int / self.block_size()) * self.block_size()
    }

    /// Does the network cover the address `ip`?
    pub open spec fn spec_contains(self, ip: Ipv4Addr) -> bool {
        self.lo() <= ip.bits < self.lo() + self.block_size()
    }

    /// Do the two networks share at least one address?
    pub open spec fn spec_overlaps(self, other: Ipv4Network) -> bool {
        exists|ip: Ipv4Addr| #[trigger] self.spec_contains(ip) && other.spec_contains(ip)
    }

    /// Is every address of this network also covered by `other`?
    pub open spec fn spec_covered_by(self, other: Ipv4Network) -> bool {
        forall|ip: Ipv4Addr| #[trigger] self.spec_contains(ip) ==> other.spec_contains(ip)
    }

    /// Builds a network from a base address and a prefix length.
    pub fn new(addr: Ipv4Addr, prefix: u8) -> (r: Ipv4Network)
        requires
            prefix <= 32,
        ensures
            r == (Ipv4Network { addr, prefix }),
            r.wf(),
    {
        Ipv4Network { addr, prefix }
    }

    /// The block size as a machine integer.
    fn block_size_u64(&self) -> (r: u64)
        requires
            self.wf(),
        ensures
            r == self.block_size(),
            1 <= r <= 0x1_0000_0000,
    {
        let sh: u64 = (32 - self.prefix) as u64;
        proof {
            lemma2_to64();
            lemma2_to64_rest();
            if sh < 32 {
                lemma_pow2_strictly_increases(sh as nat, 32);
            }
            lemma_pow2_pos(sh as nat);
            lemma_u64_shl_is_mul(1u64, sh);
        }
        1u64 << sh
    }

    /// The lowest covered address as a machine integer.
    fn lo_u64(&self) -> (r: u64)
        requires
            self.wf(),
        ensures
            r == self.lo(),
    {
        proof {
            self.lemma_lo_bounds();
        }
        let size = self.block_size_u64();
        let q = (self.addr.bits as u64) / size;
        q * size
    }

    /// Basic bounds on the covered range: it holds the base address and
    /// stays inside the 32-bit address space.
    pub proof fn lemma_lo_bounds(self)
        requires
            self.wf(),
        ensures
            0 <= self.lo() <= self.addr.bits,
            self.addr.bits < self.lo() + self.block_size(),
            self.lo() + self.block_size() <= 0x1_0000_0000,
            self.block_size() >= 1,
            self.spec_contains(self.addr),
    {
        let size = self.block_size();
        let a = self.addr.bits as int;
        let q = a / size;
        lemma_pow2_pos((32 - self.prefix) as nat);
        lemma_fundamental_div_mod(a, size);
        lemma_mod_bound(a, size);
        let m = pow2(self.prefix as nat) as int;
        lemma_pow2_adds((32 - self.prefix) as nat, self.prefix as nat);
        lemma2_to64();
        lemma_pow2_pos(self.prefix as nat);
        assert(size * m == 0x1_0000_0000);
        assert(q >= 0) by (nonlinear_arith)
            requires
                a >= 0,
                size > 0,
                a == size * q + a % size,
                0 <= a % size < size,
        ;
        assert(q * size <= a) by (nonlinear_arith)
            requires
                a == size * q + a % size,
                0 <= a % size,
        ;
        assert(a < q * size + size) by (nonlinear_arith)
            requires
                a == size * q + a % size,
                a % size < size,
        ;
        assert(q < m) by (nonlinear_arith)
            requires
                q * size <= a,
                a < size * m,
                size > 0,
                q >= 0,
        ;
        assert(q * size + size <= m * size) by (nonlinear_arith)
            requires
                q + 1 <= m,
                size > 0,
        ;
        assert(m * size == 0x1_0000_0000) by (nonlinear_arith)
            requires
                size * m == 0x1_0000_0000,
        ;
    }

    /// Does the network cover the address `ip`?
    pub fn contains(&self, ip: Ipv4Addr) -> (r: bool)
        requires
            self.wf(),
        ensures
            r == self.spec_contains(ip),
    {
        let lo = self.lo_u64();
        let size = self.block_size_u64();
        lo <= ip.bits as u64 && (ip.bits as u64) < lo + size
    }

    /// Two well-formed networks overlap exactly when each one's lowest
    /// address lies below the other's upper end: non-empty ranges intersect
    /// if and only if each starts before the other ends.
    pub proof fn lemma_overlap_condition(self, other: Ipv4Network)
        requires
            self.wf(),
            other.wf(),
        ensures
            self.spec_overlaps(other) <==> (self.lo() < other.lo() + other.block_size()
                && other.lo() < self.lo() + self.block_size()),
    {
        self.lemma_lo_bounds();
        other.lemma_lo_bounds();
        if self.lo() < other.lo() + other.block_size() && other.lo() < self.lo()
            + self.block_size() {
            let w = if self.lo() >= other.lo() {
                self.lo()
            } else {
                other.lo()
            };
            assert(0 <= w < 0x1_0000_0000);
            let wip = Ipv4Addr { bits: w as u32 };
            assert(self.spec_contains(wip));
            assert(other.spec_contains(wip));
        }
    }

    /// Do the two networks share at least one address?
    pub fn overlaps(&self, other: Ipv4Network) -> (r: bool)
        requires
            self.wf(),
            other.wf(),
        ensures
            r == self.spec_overlaps(other),
    {
        proof {
            self.lemma_lo_bounds();
            other.lemma_lo_bounds();
            self.lemma_overlap_condition(other);
        }
        let lo_a = self.lo_u64();
        let size_a = self.block_size_u64();
        let lo_b = other.lo_u64();
        let size_b = other.block_size_u64();
        lo_a < lo_b + size_b && lo_b < lo_a + size_a
    }
}

/// The network that covers exactly the one address `ip`.
pub open spec fn spec_host_net(ip: Ipv4Addr) -> Ipv4Network {
    Ipv4Network { addr: ip, prefix: 32 }
}

/// Builds the `/32` network that covers exactly the address `ip`.
pub fn host_net(ip: Ipv4Addr) -> (r: Ipv4Network)
    ensures
        r == spec_host_net(ip),
        r.wf(),
{
    Ipv4Network { addr: ip, prefix: 32 }
}

/// A `/32` network covers exactly its own address.
pub proof fn lemma_host_net_contains(ip: Ipv4Addr, x: Ipv4Addr)
    ensures
        spec_host_net(ip).spec_contains(x) <==> x == ip,
{
    let h = spec_host_net(ip);
    lemma2_to64();
    assert(h.block_size() == 1);
    assert(h.lo() == ip.bits as int / 1 * 1);
    assert(ip.bits as int / 1 == ip.bits as int);
    if h.spec_contains(x) {
        assert(x.bits == ip.bits);
        assert(x == ip);
    } else {
        if x == ip {
            h.lemma_lo_bounds();
        }
    }
}

/// A well-formed network overlaps the `/32` network of `ip` exactly when it
/// covers `ip` itself.
pub proof fn lemma_overlap_host_net(n: Ipv4Network, ip: Ipv4Addr)
    requires
        n.wf(),
    ensures
        n.spec_overlaps(spec_host_net(ip)) <==> n.spec_contains(ip),
{
    let h = spec_host_net(ip);
    if n.spec_overlaps(h) {
        let w = choose|w: Ipv4Addr| #[trigger] n.spec_contains(w) && h.spec_contains(w);
        lemma_host_net_contains(ip, w);
    }
    if n.spec_contains(ip) {
        lemma_host_net_contains(ip, ip);
        assert(n.spec_contains(ip) && h.spec_contains(ip));
    }
}

/// A network with a longer prefix whose base address the wider network
/// covers nests entirely inside it: aligned blocks of a smaller power of
/// two cannot straddle a larger one.
pub proof fn lemma_subnet_covered(narrow: Ipv4Network, wide: Ipv4Network)
    requires
        narrow.wf(),
        wide.wf(),
        narrow.prefix >= wide.prefix,
        wide.spec_contains(narrow.addr),
    ensures
        narrow.spec_covered_by(wide),
{
    narrow.lemma_lo_bounds();
    wide.lemma_lo_bounds();
    let a = narrow.addr.bits as int;
    let sn = narrow.block_size();
    let sw = wide.block_size();
    let ln = narrow.lo();
    let lw = wide.lo();
    let qn = a / sn;
    let qw = (wide.addr.bits as int) / sw;
    lemma_pow2_adds((32 - narrow.prefix) as nat, (narrow.prefix - wide.prefix) as nat);
    let k = pow2((narrow.prefix - wide.prefix) as nat) as int;
    lemma_pow2_pos((narrow.prefix - wide.prefix) as nat);
    assert(sw == sn * k);
    let m1 = qw * k;
    assert(lw == m1 * sn) by (nonlinear_arith)
        requires
            lw == qw * sw,
            sw == sn * k,
            m1 == qw * k,
    ;
    assert(ln + sn == (qn + 1) * sn) by (nonlinear_arith)
        requires
            ln == qn * sn,
    ;
    // the wider block starts no later: its start is the greatest multiple
    // of the narrow block size not above the shared base address
    assert(m1 < qn + 1) by (nonlinear_arith)
        requires
            m1 * sn == lw,
            lw <= a,
            a < ln + sn,
            ln + sn == (qn + 1) * sn,
            sn > 0,
    ;
    assert(lw <= ln) by (nonlinear_arith)
        requires
            m1 <= qn,
            lw == m1 * sn,
            ln == qn * sn,
            sn > 0,
    ;
    // and it ends no earlier, by the same argument at the upper end
    assert(lw + sw == (m1 + k) * sn) by (nonlinear_arith)
        requires
            lw == m1 * sn,
            sw == sn * k,
    ;
    assert(qn < m1 + k) by (nonlinear_arith)
        requires
            ln == qn * sn,
            ln <= a,
            a < lw + sw,
            lw + sw == (m1 + k) * sn,
            sn > 0,
    ;
    assert(ln + sn <= lw + sw) by (nonlinear_arith)
        requires
            qn + 1 <= m1 + k,
            ln + sn == (qn + 1) * sn,
            lw + sw == (m1 + k) * sn,
            sn > 0,
    ;
}

/// Overlap is not containment: whenever a narrowed query network still
/// overlaps a stored network, the wider query network it came from
/// overlaps it as well.
pub proof fn lemma_overlap_narrowing(stored: Ipv4Network, wide: Ipv4Network, narrow: Ipv4Network)
    requires
        narrow.spec_covered_by(wide),
        stored.spec_overlaps(narrow),
    ensures
        stored.spec_overlaps(wide),
{
    let w = choose|w: Ipv4Addr| #[trigger] stored.spec_contains(w) && narrow.spec_contains(w);
    assert(stored.spec_contains(w) && wide.spec_contains(w));
}

} // verus!
