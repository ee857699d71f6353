//! The lookup core: feed records, the immutable catalog, and the two
//! queries over it.
//!
//! A catalog is built once from a list of sources (one per feed file) and
//! never changes. `lookup_by_ip` returns the identities of every feed that
//! holds the address; `lookup_by_net` those of every feed whose stored
//! networks overlap the queried network or whose stored addresses fall in
//! it. Both return their results sorted by category, then name.

use crate::net::{
    lemma_host_net_contains, lemma_overlap_host_net, lemma_overlap_narrowing, spec_host_net,
    Ipv4Addr, Ipv4Network,
};
use crate::parse::{
    all_data_ok, category_of_lines, file_stem_of, first_bad_line, is_data_line,
    lemma_first_bad_line, lemma_parse_network_wf, line_is_blank, line_is_comment, line_ok,
    line_views,
    parse_ipv4, parse_ipv4_chars, parse_network_chars, spec_category, spec_file_stem,
    spec_ip_values, spec_net_values, spec_parse_ipv4, spec_parse_network,
};
use crate::text::{
    chars_of, lemma_lex_lt_asym, lemma_lex_lt_connected, lemma_lex_lt_irrefl, lemma_lex_lt_trans,
    lex_lt, str_eq, str_lt, vec_contains_char,
};
use rayon::iter::{IntoParallelRefIterator, ParallelIterator};
use vstd::prelude::*;
use vstd::relations::{sorted_by, total_ordering};
use vstd::seq_lib::lemma_sorted_unique;

verus! {

/// Why a feed could not be loaded.
#[derive(Debug)]
pub enum Error {
    /// The file-selection pattern was invalid. Reported by the discovery
    /// layer; the core itself never produces it.
    SourceDiscovery { pattern: String },
    /// A source file could not be opened or read. Reported by the read
    /// layer; the core itself never produces it.
    SourceRead { file: String },
    /// A data line of a source file is neither a valid network literal nor
    /// a valid address literal. Names the file, the one-based line number,
    /// and the line itself.
    SourceFormat { file: String, line_number: usize, line: String },
}

/// The externally visible identity of a feed: its category and its name.
#[derive(Debug, Clone, PartialEq, Eq)]
pub struct NetSetFeed {
    pub category: String,
    pub name: String,
}

impl NetSetFeed {
    /// The feed's label, written "category/name".
    pub fn label(&self) -> (r: String)
        ensures
            r@ == self.category@ + seq!['/'] + self.name@,
    {
        let sep = "/";
        proof {
            reveal_strlit("/");
            assert(sep@ =~= seq!['/']);
        }
        let mut s = self.category.clone();
        s.append(sep);
        s.append(self.name.as_str());
        s
    }
}

/// The contents of one feed file, handed to the core by whatever read the
/// file: the path it came from and its lines, without line terminators.
#[derive(Debug, Clone)]
pub struct FeedSource {
    pub path: String,
    pub lines: Vec<String>,
}

/// One loaded feed: its identity and its parsed networks and addresses.
#[derive(Debug, Clone)]
pub struct NetSet {
    pub feed: NetSetFeed,
    pub nets: Vec<Ipv4Network>,
    pub ips: Vec<Ipv4Addr>,
}

/// A uniform membership capability over the two container shapes a feed
/// holds: a list of networks and a list of addresses.
pub trait Lookup {
    /// When the container's contents are meaningful.
    spec fn lookup_wf(&self) -> bool;

    /// Does the container hold the address `ip`?
    spec fn spec_lookup_by_ip(&self, ip: Ipv4Addr) -> bool;

    /// Does the container meet the network `net` in at least one address?
    spec fn spec_lookup_by_net(&self, net: Ipv4Network) -> bool;

    fn lookup_by_ip(&self, ip: Ipv4Addr) -> (r: bool)
        requires
            self.lookup_wf(),
        ensures
            r == self.spec_lookup_by_ip(ip),
    ;

    fn lookup_by_net(&self, net: Ipv4Network) -> (r: bool)
        requires
            self.lookup_wf(),
            net.wf(),
        ensures
            r == self.spec_lookup_by_net(net),
    ;
}

impl Lookup for Vec<Ipv4Network> {
    open spec fn lookup_wf(&self) -> bool {
        forall|i: int| 0 <= i < self@.len() ==> (#[trigger] self@[i]).wf()
    }

    /// The address is in some stored network.
    open spec fn spec_lookup_by_ip(&self, ip: Ipv4Addr) -> bool {
        exists|i: int| 0 <= i < self@.len() && (#[trigger] self@[i]).spec_contains(ip)
    }

    /// Some stored network shares an address with `net`.
    open spec fn spec_lookup_by_net(&self, net: Ipv4Network) -> bool {
        exists|i: int| 0 <= i < self@.len() && (#[trigger] self@[i]).spec_overlaps(net)
    }

    fn lookup_by_ip(&self, ip: Ipv4Addr) -> (r: bool) {
        let mut i: usize = 0;
        while i < self.len()
            invariant
                i <= self@.len(),
                forall|j: int| 0 <= j < self@.len() ==> (#[trigger] self@[j]).wf(),
                forall|j: int| 0 <= j < i ==> !(#[trigger] self@[j]).spec_contains(ip),
            decreases self@.len() - i,
        {
            if self[i].contains(ip) {
                return true;
            }
            i = i + 1;
        }
        false
    }

    fn lookup_by_net(&self, net: Ipv4Network) -> (r: bool) {
        let mut i: usize = 0;
        while i < self.len()
            invariant
                i <= self@.len(),
                net.wf(),
                forall|j: int| 0 <= j < self@.len() ==> (#[trigger] self@[j]).wf(),
                forall|j: int| 0 <= j < i ==> !(#[trigger] self@[j]).spec_overlaps(net),
            decreases self@.len() - i,
        {
            if self[i].overlaps(net) {
                return true;
            }
            i = i + 1;
        }
        false
    }
}

impl Lookup for Vec<Ipv4Addr> {
    open spec fn lookup_wf(&self) -> bool {
        true
    }

    /// The address equals some stored address.
    open spec fn spec_lookup_by_ip(&self, ip: Ipv4Addr) -> bool {
        exists|i: int| 0 <= i < self@.len() && #[trigger] self@[i] == ip
    }

    /// Some stored address falls inside `net`.
    open spec fn spec_lookup_by_net(&self, net: Ipv4Network) -> bool {
        exists|i: int| 0 <= i < self@.len() && net.spec_contains(#[trigger] self@[i])
    }

    fn lookup_by_ip(&self, ip: Ipv4Addr) -> (r: bool) {
        let mut i: usize = 0;
        while i < self.len()
            invariant
                i <= self@.len(),
                forall|j: int| 0 <= j < i ==> #[trigger] self@[j] != ip,
            decreases self@.len() - i,
        {
            if self[i].bits == ip.bits {
                return true;
            }
            i = i + 1;
        }
        false
    }

    fn lookup_by_net(&self, net: Ipv4Network) -> (r: bool) {
        let mut i: usize = 0;
        while i < self.len()
            invariant
                i <= self@.len(),
                net.wf(),
                forall|j: int| 0 <= j < i ==> !net.spec_contains(#[trigger] self@[j]),
            decreases self@.len() - i,
        {
            if net.contains(self[i]) {
                return true;
            }
            i = i + 1;
        }
        false
    }
}

impl NetSet {
    /// Every stored network is well formed.
    pub open spec fn wf(self) -> bool {
        forall|i: int| 0 <= i < self.nets@.len() ==> (#[trigger] self.nets@[i]).wf()
    }

    /// The feed holds `ip`: in a network, or as a listed address.
    pub open spec fn spec_matches_ip(self, ip: Ipv4Addr) -> bool {
        self.nets.spec_lookup_by_ip(ip) || self.ips.spec_lookup_by_ip(ip)
    }

    /// The feed meets `net`: a stored network overlaps it, or a stored
    /// address falls inside it.
    pub open spec fn spec_matches_net(self, net: Ipv4Network) -> bool {
        self.nets.spec_lookup_by_net(net) || self.ips.spec_lookup_by_net(net)
    }

    /// Does the feed hold the address `ip`?
    pub fn matches_ip(&self, ip: Ipv4Addr) -> (r: bool)
        requires
            self.wf(),
        ensures
            r == self.spec_matches_ip(ip),
    {
        self.nets.lookup_by_ip(ip) || self.ips.lookup_by_ip(ip)
    }

    /// Does the feed meet the network `net`?
    pub fn matches_net(&self, net: Ipv4Network) -> (r: bool)
        requires
            self.wf(),
            net.wf(),
        ensures
            r == self.spec_matches_net(net),
    {
        self.nets.lookup_by_net(net) || self.ips.lookup_by_net(net)
    }
}

/// A loaded feed corresponds to its source: the name comes from the path,
/// the category from the header block, and the stored networks and
/// addresses are exactly the parsed data lines, in file order.
pub open spec fn feed_of_source(ns: NetSet, path: Seq<char>, ls: Seq<Seq<char>>) -> bool {
    &&& ns.feed.name@ == spec_file_stem(path)
    &&& ns.feed.category@ == spec_category(ls)
    &&& ns.nets@ == spec_net_values(ls)
    &&& ns.ips@ == spec_ip_values(ls)
}

/// A format error names the offending file and line: the first data line
/// that fails to parse, with its one-based line number.
pub open spec fn format_error_of(e: Error, path: Seq<char>, ls: Seq<Seq<char>>) -> bool {
    match e {
        Error::SourceFormat { file, line_number, line } => {
            &&& file@ == path
            &&& line_number == first_bad_line(ls) + 1
            &&& line@ == ls[first_bad_line(ls)]
        },
        _ => false,
    }
}

/// The strict loading contract: a source parses to a feed exactly when
/// every data line parses, and otherwise to the format error for the first
/// bad line.
pub open spec fn parse_matches(r: Result<NetSet, Error>, path: Seq<char>, ls: Seq<Seq<char>>) -> bool {
    match r {
        Ok(ns) => all_data_ok(ls) && feed_of_source(ns, path, ls),
        Err(e) => !all_data_ok(ls) && format_error_of(e, path, ls),
    }
}

/// Parses one feed source under the strict contract: the first data line
/// that is neither a valid network nor a valid address literal fails the
/// whole file.
pub fn parse_file(source: &FeedSource) -> (r: Result<NetSet, Error>)
    ensures
        parse_matches(r, source.path@, line_views(source.lines@)),
        r is Ok ==> r->Ok_0.wf(),
{
    let ghost ls = line_views(source.lines@);
    let name = file_stem_of(source.path.as_str());
    let category = category_of_lines(&source.lines);
    let mut nets: Vec<Ipv4Network> = Vec::new();
    let mut ips: Vec<Ipv4Addr> = Vec::new();
    let n: usize = source.lines.len();
    proof {
        reveal(Seq::filter);
        assert(spec_net_values(ls.take(0)) =~= Seq::<Ipv4Network>::empty());
        assert(spec_ip_values(ls.take(0)) =~= Seq::<Ipv4Addr>::empty());
    }
    let mut i: usize = 0;
    while i < n
        invariant
            i <= n == ls.len(),
            ls == line_views(source.lines@),
            forall|j: int| 0 <= j < i && is_data_line(#[trigger] ls[j]) ==> line_ok(ls[j]),
            nets@ == spec_net_values(ls.take(i as int)),
            ips@ == spec_ip_values(ls.take(i as int)),
            forall|k: int| 0 <= k < nets@.len() ==> (#[trigger] nets@[k]).wf(),
        decreases n - i,
    {
        let line = &source.lines[i];
        proof {
            reveal(Seq::filter);
            assert(ls.take(i + 1).drop_last() =~= ls.take(i as int));
            assert(ls.take(i + 1).last() == ls[i as int]);
        }
        if !line_is_comment(line.as_str()) && !line_is_blank(line.as_str()) {
            let cs = chars_of(line.as_str());
            if vec_contains_char(&cs, '/') {
                match parse_network_chars(&cs) {
                    Some(net) => {
                        proof {
                            lemma_parse_network_wf(ls[i as int]);
                            assert(spec_net_values(ls.take(i + 1)) =~= spec_net_values(
                                ls.take(i as int),
                            ).push(spec_parse_network(ls[i as int])->0));
                            assert(spec_ip_values(ls.take(i + 1)) =~= spec_ip_values(
                                ls.take(i as int),
                            ));
                        }
                        nets.push(net);
                    },
                    None => {
                        proof {
                            lemma_first_bad_line(ls);
                            assert(!line_ok(ls[i as int]));
                            assert(first_bad_line(ls) == i as int) by {
                                let fb = first_bad_line(ls);
                                assert(!all_data_ok(ls));
                                if fb < i as int {
                                    assert(line_ok(ls[fb]));
                                }
                            }
                        }
                        return Err(
                            Error::SourceFormat {
                                file: source.path.clone(),
                                line_number: i + 1,
                                line: line.clone(),
                            },
                        );
                    },
                }
            } else {
                match parse_ipv4_chars(&cs) {
                    Some(a) => {
                        proof {
                            assert(spec_ip_values(ls.take(i + 1)) =~= spec_ip_values(
                                ls.take(i as int),
                            ).push(spec_parse_ipv4(ls[i as int])->0));
                            assert(spec_net_values(ls.take(i + 1)) =~= spec_net_values(
                                ls.take(i as int),
                            ));
                        }
                        ips.push(a);
                    },
                    None => {
                        proof {
                            lemma_first_bad_line(ls);
                            assert(!line_ok(ls[i as int]));
                            assert(first_bad_line(ls) == i as int) by {
                                let fb = first_bad_line(ls);
                                assert(!all_data_ok(ls));
                                if fb < i as int {
                                    assert(line_ok(ls[fb]));
                                }
                            }
                        }
                        return Err(
                            Error::SourceFormat {
                                file: source.path.clone(),
                                line_number: i + 1,
                                line: line.clone(),
                            },
                        );
                    },
                }
            }
        } else {
            proof {
                assert(spec_net_values(ls.take(i + 1)) =~= spec_net_values(ls.take(i as int)));
                assert(spec_ip_values(ls.take(i + 1)) =~= spec_ip_values(ls.take(i as int)));
            }
        }
        i = i + 1;
    }
    proof {
        assert(ls.take(n as int) =~= ls);
    }
    Ok(NetSet { feed: NetSetFeed { category, name }, nets, ips })
}

/// The observable identity of a feed: the text of its category and name.
pub open spec fn id_view(f: NetSetFeed) -> (Seq<char>, Seq<char>) {
    (f.category@, f.name@)
}

/// The identities of a list of feed references.
pub open spec fn ids_of(s: Seq<&NetSetFeed>) -> Seq<(Seq<char>, Seq<char>)> {
    s.map_values(|f: &NetSetFeed| id_view(*f))
}

/// The output order of the queries: by category, then name, in the
/// lexicographic codepoint order.
pub open spec fn id_le(a: (Seq<char>, Seq<char>), b: (Seq<char>, Seq<char>)) -> bool {
    ||| lex_lt(a.0, b.0)
    ||| (a.0 == b.0 && (lex_lt(a.1, b.1) || a.1 == b.1))
}

/// The output order as a relation value.
pub open spec fn id_leq() -> spec_fn((Seq<char>, Seq<char>), (Seq<char>, Seq<char>)) -> bool {
    |a: (Seq<char>, Seq<char>), b: (Seq<char>, Seq<char>)| id_le(a, b)
}

/// The output order holds in at most one direction between distinct ids.
pub proof fn lemma_id_le_antisym(a: (Seq<char>, Seq<char>), b: (Seq<char>, Seq<char>))
    requires
        id_le(a, b),
        id_le(b, a),
    ensures
        a == b,
{
    lemma_lex_lt_asym(a.0, b.0);
    lemma_lex_lt_irrefl(a.0);
    lemma_lex_lt_irrefl(b.0);
    assert(a.0 == b.0);
    lemma_lex_lt_asym(a.1, b.1);
    assert(a.1 == b.1);
}

/// The output order is transitive.
pub proof fn lemma_id_le_trans(
    a: (Seq<char>, Seq<char>),
    b: (Seq<char>, Seq<char>),
    c: (Seq<char>, Seq<char>),
)
    requires
        id_le(a, b),
        id_le(b, c),
    ensures
        id_le(a, c),
{
    if lex_lt(a.0, b.0) && lex_lt(b.0, c.0) {
        lemma_lex_lt_trans(a.0, b.0, c.0);
    }
    if a.0 == b.0 && b.0 == c.0 {
        if lex_lt(a.1, b.1) && lex_lt(b.1, c.1) {
            lemma_lex_lt_trans(a.1, b.1, c.1);
        }
    }
}

/// Any two ids are ordered one way or the other.
pub proof fn lemma_id_le_total(a: (Seq<char>, Seq<char>), b: (Seq<char>, Seq<char>))
    ensures
        id_le(a, b) || id_le(b, a),
{
    lemma_lex_lt_connected(a.0, b.0);
    lemma_lex_lt_connected(a.1, b.1);
}

/// The output order is a total ordering.
pub proof fn lemma_id_le_total_ordering()
    ensures
        total_ordering(id_leq()),
{
    let leq = id_leq();
    assert forall|a: (Seq<char>, Seq<char>)| #[trigger] leq(a, a) by {
        lemma_id_le_total(a, a);
    }
    assert forall|a: (Seq<char>, Seq<char>), b: (Seq<char>, Seq<char>)|
        #[trigger] leq(a, b) && #[trigger] leq(b, a) implies a == b by {
        lemma_id_le_antisym(a, b);
    }
    assert forall|a: (Seq<char>, Seq<char>), b: (Seq<char>, Seq<char>), c: (Seq<char>, Seq<char>)|
        #[trigger] leq(a, b) && #[trigger] leq(b, c) implies leq(a, c) by {
        lemma_id_le_trans(a, b, c);
    }
    assert forall|a: (Seq<char>, Seq<char>), b: (Seq<char>, Seq<char>)|
        #[trigger] leq(a, b) || #[trigger] leq(b, a) by {
        lemma_id_le_total(a, b);
    }
}

/// Compares two feed identities in the output order.
fn feed_le(a: &NetSetFeed, b: &NetSetFeed) -> (r: bool)
    ensures
        r == id_le(id_view(*a), id_view(*b)),
{
    if str_lt(a.category.as_str(), b.category.as_str()) {
        true
    } else if str_eq(a.category.as_str(), b.category.as_str()) {
        str_lt(a.name.as_str(), b.name.as_str()) || str_eq(a.name.as_str(), b.name.as_str())
    } else {
        false
    }
}

/// Sorts feed references by category, then name. Keeps exactly the same
/// identities, as a multiset.
fn sort_feeds(v: &mut Vec<&NetSetFeed>)
    ensures
        final(v)@.len() == old(v)@.len(),
        ids_of(final(v)@).to_multiset() == ids_of(old(v)@).to_multiset(),
        sorted_by(ids_of(final(v)@), id_leq()),
{
    let ghost orig = v@;
    let n: usize = v.len();
    if n <= 1 {
        return;
    }
    let mut i: usize = 1;
    while i < n
        invariant
            1 <= i <= n == v@.len(),
            ids_of(v@).to_multiset() == ids_of(orig).to_multiset(),
            sorted_by(ids_of(v@).take(i as int), id_leq()),
        decreases n - i,
    {
        let x = v[i];
        let ghost a = ids_of(v@);
        let ghost xid = id_view(*x);
        let mut k: usize = 0;
        while k < i && feed_le(v[k], x)
            invariant
                k <= i < v@.len(),
                a == ids_of(v@),
                xid == id_view(*x),
                forall|j: int| 0 <= j < k ==> id_le(#[trigger] a[j], xid),
            decreases i - k,
        {
            k = k + 1;
        }
        let ghost s0 = v@;
        let y = v.remove(i);
        let ghost s1 = v@;
        v.insert(k, y);
        let ghost s2 = v@;
        proof {
            broadcast use vstd::seq_lib::group_to_multiset_ensures;
            broadcast use vstd::multiset::group_multiset_axioms;

            assert(y == x);
            assert(a[i as int] == xid);
            s0.remove_ensures(i as int);
            s1.insert_ensures(k as int, y);
            let a1 = ids_of(s1);
            let a2 = ids_of(s2);
            assert(a1 =~= a.remove(i as int)) by {
                a.remove_ensures(i as int);
                assert forall|j: int| 0 <= j < a1.len() implies a1[j] == a.remove(i as int)[j] by {
                    if j < i as int {
                        assert(s1[j] == s0[j]);
                    } else {
                        assert(s1[j] == s0[j + 1]);
                    }
                }
            }
            assert(a2 =~= a1.insert(k as int, xid)) by {
                a1.insert_ensures(k as int, xid);
                assert forall|j: int| 0 <= j < a2.len() implies a2[j] == a1.insert(k as int, xid)[j]
                by {
                    if j < k as int {
                        assert(s2[j] == s1[j]);
                    } else if j == k as int {
                        assert(s2[j] == y);
                    } else {
                        assert(s2[j] == s1[j - 1]);
                        assert(a1.insert(k as int, xid)[j] == a1[j - 1]);
                    }
                }
            }
            // the multiset of identities is unchanged by moving one element
            assert(a1.to_multiset() =~= a.to_multiset().remove(xid));
            assert(a2.remove(k as int) =~= a1) by {
                a2.remove_ensures(k as int);
                a1.insert_ensures(k as int, xid);
            }
            assert(a1.to_multiset() == a2.to_multiset().remove(a2[k as int]));
            assert(a2[k as int] == xid);
            assert(a.to_multiset().contains(xid)) by {
                assert(a.contains(xid));
            }
            assert(a2.to_multiset().contains(xid)) by {
                assert(a2.contains(xid));
            }
            assert(a2.to_multiset() =~= a.to_multiset());
            // the widened prefix is sorted: everything before the insertion
            // point stays below the moved id, everything after stays above
            if (k as int) < i as int {
                assert(!id_le(a[k as int], xid));
                lemma_id_le_total(a[k as int], xid);
            }
            assert forall|p: int, q: int| 0 <= p < q < i + 1 implies #[trigger] id_leq()(
                a2.take(i + 1)[p],
                a2.take(i + 1)[q],
            ) by {
                assert(a2.take(i + 1)[p] == a2[p]);
                assert(a2.take(i + 1)[q] == a2[q]);
                let old_p: int = if p < k as int {
                    p
                } else {
                    p - 1
                };
                let old_q: int = q - 1;
                if q < k as int {
                    assert(a2[p] == a[p] && a2[q] == a[q]);
                    assert(id_leq()(a.take(i as int)[p], a.take(i as int)[q]));
                } else if q == k as int {
                    assert(a2[q] == xid);
                    assert(a2[p] == a[p]);
                    assert(id_le(a[p], xid));
                } else if p == k as int {
                    assert(a2[p] == xid);
                    assert(a2[q] == a[old_q]);
                    assert(k as int <= old_q < i as int);
                    assert(id_le(xid, a[k as int]));
                    if old_q > k as int {
                        assert(id_leq()(a.take(i as int)[k as int], a.take(i as int)[old_q]));
                        lemma_id_le_trans(xid, a[k as int], a[old_q]);
                    }
                } else if p < k as int {
                    // q > k, p < k
                    assert(a2[p] == a[p]);
                    assert(a2[q] == a[old_q]);
                    if p < old_q {
                        assert(id_leq()(a.take(i as int)[p], a.take(i as int)[old_q]));
                    } else {
                        assert(p == old_q);
                        lemma_id_le_total(a[p], a[p]);
                    }
                } else {
                    // k < p < q
                    assert(a2[p] == a[old_p]);
                    assert(a2[q] == a[old_q]);
                    assert(id_leq()(a.take(i as int)[old_p], a.take(i as int)[old_q]));
                }
            }
            assert(sorted_by(a2.take(i + 1), id_leq()));
        }
        i = i + 1;
    }
    proof {
        assert(ids_of(v@).take(n as int) =~= ids_of(v@));
    }
}

/// The identities of the feeds that satisfy `pred`, in catalog order.
pub open spec fn matching_ids(feeds: Seq<NetSet>, pred: spec_fn(NetSet) -> bool) -> Seq<
    (Seq<char>, Seq<char>),
> {
    feeds.filter(pred).map_values(|n: NetSet| id_view(n.feed))
}

/// The identities of the feeds that hold the address `ip`.
pub open spec fn matching_ids_by_ip(feeds: Seq<NetSet>, ip: Ipv4Addr) -> Seq<
    (Seq<char>, Seq<char>),
> {
    matching_ids(feeds, |n: NetSet| n.spec_matches_ip(ip))
}

/// The identities of the feeds that meet the network `net`.
pub open spec fn matching_ids_by_net(feeds: Seq<NetSet>, net: Ipv4Network) -> Seq<
    (Seq<char>, Seq<char>),
> {
    matching_ids(feeds, |n: NetSet| n.spec_matches_net(net))
}

/// An identity is among the matching identities exactly when some feed
/// that satisfies the predicate carries it.
pub proof fn lemma_matching_ids_contains(
    feeds: Seq<NetSet>,
    pred: spec_fn(NetSet) -> bool,
    idv: (Seq<char>, Seq<char>),
)
    ensures
        matching_ids(feeds, pred).contains(idv) <==> exists|j: int|
            0 <= j < feeds.len() && pred(#[trigger] feeds[j]) && id_view(feeds[j].feed) == idv,
{
    let fs = feeds.filter(pred);
    let m = matching_ids(feeds, pred);
    if m.contains(idv) {
        let k = choose|k: int| 0 <= k < m.len() && m[k] == idv;
        assert(m[k] == id_view(fs[k].feed));
        feeds.lemma_filter_pred(pred, k);
        assert(fs.contains(fs[k]));
        feeds.lemma_filter_contains_rev(pred, fs[k]);
        let j = choose|j: int| 0 <= j < feeds.len() && feeds[j] == fs[k];
        assert(pred(feeds[j]) && id_view(feeds[j].feed) == idv);
    }
    if exists|j: int| 0 <= j < feeds.len() && pred(#[trigger] feeds[j]) && id_view(feeds[j].feed)
        == idv {
        let j = choose|j: int|
            0 <= j < feeds.len() && pred(#[trigger] feeds[j]) && id_view(feeds[j].feed) == idv;
        feeds.lemma_filter_contains(pred, j);
        let k = choose|k: int| 0 <= k < fs.len() && fs[k] == feeds[j];
        assert(m[k] == idv);
    }
}

/// Relies on rayon's `par_iter`, `map` and `collect`: the collected vector
/// holds `parse_file`'s result for each source, one per source, in source
/// order.
#[verifier::external_body]
fn par_parse(sources: &Vec<FeedSource>) -> (r: Vec<Result<NetSet, Error>>)
    ensures
        r@.len() == sources@.len(),
        forall|i: int|
            0 <= i < sources@.len() ==> parse_matches(
                #[trigger] r@[i],
                sources@[i].path@,
                line_views(sources@[i].lines@),
            ),
        forall|i: int| 0 <= i < r@.len() && r@[i] is Ok ==> (#[trigger] r@[i])->Ok_0.wf(),
{
    sources.par_iter().map(parse_file).collect()
}

/// Relies on rayon's `par_iter`, `filter`, `map` and `collect`: the
/// collected vector holds the identity of each feed the predicate accepts,
/// one occurrence per accepted feed.
#[verifier::external_body]
fn par_filter_by_ip<'a>(feeds: &'a Vec<NetSet>, ip: Ipv4Addr) -> (r: Vec<&'a NetSetFeed>)
    requires
        forall|i: int| 0 <= i < feeds@.len() ==> (#[trigger] feeds@[i]).wf(),
    ensures
        ids_of(r@).to_multiset() == matching_ids_by_ip(feeds@, ip).to_multiset(),
{
    feeds.par_iter().filter(|n: &&NetSet| n.matches_ip(ip)).map(|n: &NetSet| &n.feed).collect()
}

/// Relies on rayon's `par_iter`, `filter`, `map` and `collect`: the
/// collected vector holds the identity of each feed the predicate accepts,
/// one occurrence per accepted feed.
#[verifier::external_body]
fn par_filter_by_net<'a>(feeds: &'a Vec<NetSet>, net: Ipv4Network) -> (r: Vec<&'a NetSetFeed>)
    requires
        forall|i: int| 0 <= i < feeds@.len() ==> (#[trigger] feeds@[i]).wf(),
        net.wf(),
    ensures
        ids_of(r@).to_multiset() == matching_ids_by_net(feeds@, net).to_multiset(),
{
    feeds.par_iter().filter(|n: &&NetSet| n.matches_net(net)).map(|n: &NetSet| &n.feed).collect()
}

/// Does every data line of the source parse?
pub open spec fn source_ok(s: FeedSource) -> bool {
    all_data_ok(line_views(s.lines@))
}

/// Do all sources parse?
pub open spec fn sources_ok(srcs: Seq<FeedSource>) -> bool {
    forall|i: int| 0 <= i < srcs.len() ==> source_ok(#[trigger] srcs[i])
}

/// The catalog holds one feed per source, in source order, each loaded
/// from its source.
pub open spec fn catalog_of(data: Seq<NetSet>, srcs: Seq<FeedSource>) -> bool {
    &&& data.len() == srcs.len()
    &&& forall|i: int|
        0 <= i < srcs.len() ==> feed_of_source(
            #[trigger] data[i],
            srcs[i].path@,
            line_views(srcs[i].lines@),
        )
}

/// The catalog: the immutable set of all loaded feeds, queried as a whole.
#[derive(Debug, Clone)]
pub struct LookupSets {
    pub data: Vec<NetSet>,
}

impl LookupSets {
    /// Every feed of the catalog is well formed.
    pub open spec fn wf(self) -> bool {
        forall|i: int| 0 <= i < self.data@.len() ==> (#[trigger] self.data@[i]).wf()
    }

    /// Builds the catalog from every source, failing fast: if some source
    /// does not parse, the whole build returns the error of the first such
    /// source.
    pub fn new(sources: Vec<FeedSource>) -> (r: Result<LookupSets, Error>)
        ensures
            r is Ok <==> sources_ok(sources@),
            r is Ok ==> catalog_of(r->Ok_0.data@, sources@) && r->Ok_0.wf(),
            r is Err ==> exists|k: int|
                0 <= k < sources@.len() && !source_ok(#[trigger] sources@[k]) && (forall|j: int|
                    0 <= j < k ==> source_ok(#[trigger] sources@[j])) && format_error_of(
                    r->Err_0,
                    sources@[k].path@,
                    line_views(sources@[k].lines@),
                ),
    {
        let n: usize = sources.len();
        let mut work = par_parse(&sources);
        let ghost parsed0 = work@;
        let mut rev: Vec<Result<NetSet, Error>> = Vec::new();
        while work.len() > 0
            invariant
                work@.len() + rev@.len() == parsed0.len(),
                work@ == parsed0.take(work@.len() as int),
                forall|j: int|
                    0 <= j < rev@.len() ==> rev@[j] == parsed0[parsed0.len() - 1 - j],
            decreases work@.len(),
        {
            let x = work.pop().unwrap();
            rev.push(x);
            proof {
                assert(work@ =~= parsed0.take(work@.len() as int));
            }
        }
        let mut data: Vec<NetSet> = Vec::new();
        while rev.len() > 0
            invariant
                rev@.len() <= n == parsed0.len() == sources@.len(),
                forall|j: int|
                    0 <= j < rev@.len() ==> rev@[j] == parsed0[parsed0.len() - 1 - j],
                forall|i: int|
                    0 <= i < n ==> parse_matches(
                        #[trigger] parsed0[i],
                        sources@[i].path@,
                        line_views(sources@[i].lines@),
                    ),
                forall|i: int|
                    0 <= i < n && parsed0[i] is Ok ==> (#[trigger] parsed0[i])->Ok_0.wf(),
                data@.len() == n - rev@.len(),
                forall|j: int| 0 <= j < n - rev@.len() ==> source_ok(#[trigger] sources@[j]),
                forall|j: int|
                    0 <= j < data@.len() ==> feed_of_source(
                        #[trigger] data@[j],
                        sources@[j].path@,
                        line_views(sources@[j].lines@),
                    ) && data@[j].wf(),
            decreases rev@.len(),
        {
            let ghost k = n - rev@.len();
            let x = rev.pop().unwrap();
            proof {
                assert(x == parsed0[k as int]);
            }
            match x {
                Ok(ns) => {
                    data.push(ns);
                },
                Err(e) => {
                    proof {
                        assert(!source_ok(sources@[k as int]));
                    }
                    return Err(e);
                },
            }
        }
        Ok(LookupSets { data })
    }

    /// Builds the catalog from the sources that parse, skipping each
    /// source that does not and collecting its error: the best-effort
    /// policy, reported out of band.
    pub fn new_best_effort(sources: Vec<FeedSource>) -> (r: (LookupSets, Vec<Error>))
        ensures
            r.0.wf(),
            catalog_of(r.0.data@, sources@.filter(|s: FeedSource| source_ok(s))),
            ({
                let bad = sources@.filter(|s: FeedSource| !source_ok(s));
                &&& r.1@.len() == bad.len()
                &&& forall|i: int|
                    0 <= i < bad.len() ==> format_error_of(
                        #[trigger] r.1@[i],
                        bad[i].path@,
                        line_views(bad[i].lines@),
                    )
            }),
    {
        let n: usize = sources.len();
        let mut work = par_parse(&sources);
        let ghost parsed0 = work@;
        let mut rev: Vec<Result<NetSet, Error>> = Vec::new();
        while work.len() > 0
            invariant
                work@.len() + rev@.len() == parsed0.len(),
                work@ == parsed0.take(work@.len() as int),
                forall|j: int|
                    0 <= j < rev@.len() ==> rev@[j] == parsed0[parsed0.len() - 1 - j],
            decreases work@.len(),
        {
            let x = work.pop().unwrap();
            rev.push(x);
            proof {
                assert(work@ =~= parsed0.take(work@.len() as int));
            }
        }
        let mut data: Vec<NetSet> = Vec::new();
        let mut errors: Vec<Error> = Vec::new();
        proof {
            reveal(Seq::filter);
            assert(sources@.take(0).filter(|s: FeedSource| source_ok(s)) =~= Seq::<
                FeedSource,
            >::empty());
            assert(sources@.take(0).filter(|s: FeedSource| !source_ok(s)) =~= Seq::<
                FeedSource,
            >::empty());
        }
        while rev.len() > 0
            invariant
                rev@.len() <= n == parsed0.len() == sources@.len(),
                forall|j: int|
                    0 <= j < rev@.len() ==> rev@[j] == parsed0[parsed0.len() - 1 - j],
                forall|i: int|
                    0 <= i < n ==> parse_matches(
                        #[trigger] parsed0[i],
                        sources@[i].path@,
                        line_views(sources@[i].lines@),
                    ),
                forall|i: int|
                    0 <= i < n && parsed0[i] is Ok ==> (#[trigger] parsed0[i])->Ok_0.wf(),
                ({
                    let good = sources@.take(n - rev@.len()).filter(
                        |s: FeedSource| source_ok(s),
                    );
                    &&& data@.len() == good.len()
                    &&& forall|j: int|
                        0 <= j < good.len() ==> feed_of_source(
                            #[trigger] data@[j],
                            good[j].path@,
                            line_views(good[j].lines@),
                        ) && data@[j].wf()
                }),
                ({
                    let bad = sources@.take(n - rev@.len()).filter(
                        |s: FeedSource| !source_ok(s),
                    );
                    &&& errors@.len() == bad.len()
                    &&& forall|j: int|
                        0 <= j < bad.len() ==> format_error_of(
                            #[trigger] errors@[j],
                            bad[j].path@,
                            line_views(bad[j].lines@),
                        )
                }),
            decreases rev@.len(),
        {
            let ghost k = n - rev@.len();
            let ghost good0 = sources@.take(k as int).filter(|s: FeedSource| source_ok(s));
            let ghost bad0 = sources@.take(k as int).filter(|s: FeedSource| !source_ok(s));
            let x = rev.pop().unwrap();
            proof {
                assert(x == parsed0[k as int]);
                reveal(Seq::filter);
                assert(sources@.take(k + 1).drop_last() =~= sources@.take(k as int));
                assert(sources@.take(k + 1).last() == sources@[k as int]);
            }
            match x {
                Ok(ns) => {
                    proof {
                        assert(sources@.take(k + 1).filter(|s: FeedSource| source_ok(s))
                            =~= good0.push(sources@[k as int]));
                        assert(sources@.take(k + 1).filter(|s: FeedSource| !source_ok(s))
                            =~= bad0);
                    }
                    data.push(ns);
                },
                Err(e) => {
                    proof {
                        assert(sources@.take(k + 1).filter(|s: FeedSource| !source_ok(s))
                            =~= bad0.push(sources@[k as int]));
                        assert(sources@.take(k + 1).filter(|s: FeedSource| source_ok(s))
                            =~= good0);
                    }
                    errors.push(e);
                },
            }
        }
        proof {
            assert(sources@.take(n as int) =~= sources@);
        }
        (LookupSets { data }, errors)
    }

    /// All feeds that hold the address `ip`: their identities, sorted by
    /// category, then name, duplicates kept.
    #[must_use]
    pub fn lookup_by_ip(&self, ip: Ipv4Addr) -> (r: Vec<&NetSetFeed>)
        requires
            self.wf(),
        ensures
            ids_of(r@) == matching_ids_by_ip(self.data@, ip).sort_by(id_leq()),
            sorted_by(ids_of(r@), id_leq()),
            forall|idv: (Seq<char>, Seq<char>)|
                #[trigger] ids_of(r@).contains(idv) <==> exists|j: int|
                    0 <= j < self.data@.len() && (#[trigger] self.data@[j]).spec_matches_ip(ip)
                        && id_view(self.data@[j].feed) == idv,
    {
        let mut out = par_filter_by_ip(&self.data, ip);
        sort_feeds(&mut out);
        proof {
            broadcast use vstd::seq_lib::group_to_multiset_ensures;

            let m = matching_ids_by_ip(self.data@, ip);
            lemma_id_le_total_ordering();
            m.lemma_sort_by_ensures(id_leq());
            lemma_sorted_unique(ids_of(out@), m.sort_by(id_leq()), id_leq());
            assert(ids_of(out@) == m.sort_by(id_leq()));
            assert forall|idv: (Seq<char>, Seq<char>)| #[trigger] ids_of(out@).contains(idv)
                <==> exists|j: int|
                0 <= j < self.data@.len() && (#[trigger] self.data@[j]).spec_matches_ip(ip)
                    && id_view(self.data@[j].feed) == idv by {
                lemma_matching_ids_contains(self.data@, |n: NetSet| n.spec_matches_ip(ip), idv);
                assert(ids_of(out@).contains(idv) <==> ids_of(out@).to_multiset().count(idv) > 0);
                assert(m.contains(idv) <==> m.to_multiset().count(idv) > 0);
            }
        }
        out
    }

    /// All feeds that meet the network `net`: every feed with a stored
    /// network overlapping `net` or a stored address inside it, sorted by
    /// category, then name, duplicates kept.
    #[must_use]
    pub fn lookup_by_net(&self, net: Ipv4Network) -> (r: Vec<&NetSetFeed>)
        requires
            self.wf(),
            net.wf(),
        ensures
            ids_of(r@) == matching_ids_by_net(self.data@, net).sort_by(id_leq()),
            sorted_by(ids_of(r@), id_leq()),
            forall|idv: (Seq<char>, Seq<char>)|
                #[trigger] ids_of(r@).contains(idv) <==> exists|j: int|
                    0 <= j < self.data@.len() && (#[trigger] self.data@[j]).spec_matches_net(net)
                        && id_view(self.data@[j].feed) == idv,
    {
        let mut out = par_filter_by_net(&self.data, net);
        sort_feeds(&mut out);
        proof {
            broadcast use vstd::seq_lib::group_to_multiset_ensures;

            let m = matching_ids_by_net(self.data@, net);
            lemma_id_le_total_ordering();
            m.lemma_sort_by_ensures(id_leq());
            lemma_sorted_unique(ids_of(out@), m.sort_by(id_leq()), id_leq());
            assert(ids_of(out@) == m.sort_by(id_leq()));
            assert forall|idv: (Seq<char>, Seq<char>)| #[trigger] ids_of(out@).contains(idv)
                <==> exists|j: int|
                0 <= j < self.data@.len() && (#[trigger] self.data@[j]).spec_matches_net(net)
                    && id_view(self.data@[j].feed) == idv by {
                lemma_matching_ids_contains(self.data@, |n: NetSet| n.spec_matches_net(net), idv);
                assert(ids_of(out@).contains(idv) <==> ids_of(out@).to_multiset().count(idv) > 0);
                assert(m.contains(idv) <==> m.to_multiset().count(idv) > 0);
            }
        }
        out
    }

    /// Looks up an address given as text. The text must be a well-formed
    /// dotted-quad literal; the discovery of malformed input belongs to
    /// the caller.
    #[must_use]
    pub fn lookup_by_str(&self, ip: &str) -> (r: Vec<&NetSetFeed>)
        requires
            self.wf(),
            spec_parse_ipv4(ip@) is Some,
        ensures
            ids_of(r@) == matching_ids_by_ip(self.data@, spec_parse_ipv4(ip@)->0).sort_by(
                id_leq(),
            ),
    {
        match parse_ipv4(ip) {
            Some(a) => self.lookup_by_ip(a),
            None => Vec::new(),
        }
    }
}

/// A feed matches an address exactly when it matches the host network of
/// that address: the address query and the `/32` network query agree on
/// every feed.
pub proof fn lemma_matches_ip_is_host_net(n: NetSet, ip: Ipv4Addr)
    requires
        n.wf(),
    ensures
        n.spec_matches_ip(ip) == n.spec_matches_net(spec_host_net(ip)),
{
    let h = spec_host_net(ip);
    assert forall|i: int| 0 <= i < n.nets@.len() implies ((#[trigger] n.nets@[i]).spec_overlaps(h)
        <==> n.nets@[i].spec_contains(ip)) by {
        lemma_overlap_host_net(n.nets@[i], ip);
    }
    assert forall|i: int| 0 <= i < n.ips@.len() implies (h.spec_contains(#[trigger] n.ips@[i])
        <==> n.ips@[i] == ip) by {
        lemma_host_net_contains(ip, n.ips@[i]);
    }
}

/// Filtering with predicates that agree on every element gives the same
/// sequence.
proof fn lemma_filter_congruent<A>(s: Seq<A>, p: spec_fn(A) -> bool, q: spec_fn(A) -> bool)
    requires
        forall|i: int| 0 <= i < s.len() ==> (p(#[trigger] s[i]) <==> q(s[i])),
    ensures
        s.filter(p) == s.filter(q),
    decreases s.len(),
{
    reveal(Seq::filter);
    if s.len() > 0 {
        assert(p(s.last()) <==> q(s.last()));
        lemma_filter_congruent(s.drop_last(), p, q);
        assert(forall|i: int| 0 <= i < s.drop_last().len() ==> s.drop_last()[i] == s[i]);
    }
}

/// The catalog-level agreement of the two queries: looking up an address
/// returns the same identities as looking up its `/32` host network.
pub proof fn lemma_query_host_net(feeds: Seq<NetSet>, ip: Ipv4Addr)
    requires
        forall|i: int| 0 <= i < feeds.len() ==> (#[trigger] feeds[i]).wf(),
    ensures
        matching_ids_by_ip(feeds, ip) == matching_ids_by_net(feeds, spec_host_net(ip)),
{
    assert forall|i: int| 0 <= i < feeds.len() implies ((#[trigger] feeds[i]).spec_matches_ip(ip)
        <==> feeds[i].spec_matches_net(spec_host_net(ip))) by {
        lemma_matches_ip_is_host_net(feeds[i], ip);
    }
    lemma_filter_congruent(
        feeds,
        |n: NetSet| n.spec_matches_ip(ip),
        |n: NetSet| n.spec_matches_net(spec_host_net(ip)),
    );
}

/// Overlap, not containment: a feed that matches a narrowed query network
/// also matches every wider query network that covers the narrow one.
pub proof fn lemma_matches_net_narrowing(n: NetSet, wide: Ipv4Network, narrow: Ipv4Network)
    requires
        n.wf(),
        narrow.spec_covered_by(wide),
        n.spec_matches_net(narrow),
    ensures
        n.spec_matches_net(wide),
{
    if n.nets.spec_lookup_by_net(narrow) {
        let i = choose|i: int|
            0 <= i < n.nets@.len() && (#[trigger] n.nets@[i]).spec_overlaps(narrow);
        lemma_overlap_narrowing(n.nets@[i], wide, narrow);
    } else {
        let i = choose|i: int|
            0 <= i < n.ips@.len() && narrow.spec_contains(#[trigger] n.ips@[i]);
        assert(wide.spec_contains(n.ips@[i]));
    }
}

/// The catalog-level narrowing law: every identity returned for the
/// narrowed query network is also returned for the wider one.
pub proof fn lemma_query_narrowing(feeds: Seq<NetSet>, wide: Ipv4Network, narrow: Ipv4Network)
    requires
        forall|i: int| 0 <= i < feeds.len() ==> (#[trigger] feeds[i]).wf(),
        narrow.spec_covered_by(wide),
    ensures
        forall|idv: (Seq<char>, Seq<char>)|
            matching_ids_by_net(feeds, narrow).contains(idv) ==> matching_ids_by_net(
                feeds,
                wide,
            ).contains(idv),
{
    assert forall|idv: (Seq<char>, Seq<char>)|
        matching_ids_by_net(feeds, narrow).contains(idv) implies matching_ids_by_net(
        feeds,
        wide,
    ).contains(idv) by {
        lemma_matching_ids_contains(feeds, |n: NetSet| n.spec_matches_net(narrow), idv);
        lemma_matching_ids_contains(feeds, |n: NetSet| n.spec_matches_net(wide), idv);
        let j = choose|j: int|
            0 <= j < feeds.len() && (#[trigger] feeds[j]).spec_matches_net(narrow) && id_view(
                feeds[j].feed,
            ) == idv;
        lemma_matches_net_narrowing(feeds[j], wide, narrow);
    }
}

/// The two queries agree on addresses: against one catalog, the output of
/// the address query for `ip` and that of the network query for the `/32`
/// host network of `ip` carry the same identities in the same order.
pub proof fn lemma_query_by_ip_equals_host_net_query(
    feeds: Seq<NetSet>,
    ip: Ipv4Addr,
    r1: Seq<&NetSetFeed>,
    r2: Seq<&NetSetFeed>,
)
    requires
        forall|i: int| 0 <= i < feeds.len() ==> (#[trigger] feeds[i]).wf(),
        ids_of(r1) == matching_ids_by_ip(feeds, ip).sort_by(id_leq()),
        ids_of(r2) == matching_ids_by_net(feeds, spec_host_net(ip)).sort_by(id_leq()),
    ensures
        ids_of(r1) == ids_of(r2),
{
    lemma_query_host_net(feeds, ip);
}

/// A query against the empty catalog returns no identities, whatever the
/// predicate asks.
pub proof fn lemma_empty_catalog_queries_empty(pred: spec_fn(NetSet) -> bool)
    ensures
        matching_ids(Seq::<NetSet>::empty(), pred).sort_by(id_leq()) == Seq::<
            (Seq<char>, Seq<char>),
        >::empty(),
{
    broadcast use vstd::seq_lib::group_to_multiset_ensures;

    reveal(Seq::filter);
    assert(Seq::<NetSet>::empty().filter(pred) =~= Seq::<NetSet>::empty());
    let m = matching_ids(Seq::<NetSet>::empty(), pred);
    assert(m =~= Seq::<(Seq<char>, Seq<char>)>::empty());
    lemma_id_le_total_ordering();
    m.lemma_sort_by_ensures(id_leq());
    assert(m.sort_by(id_leq()).len() == m.sort_by(id_leq()).to_multiset().len());
    assert(m.sort_by(id_leq()) =~= Seq::<(Seq<char>, Seq<char>)>::empty());
}

/// Queries are deterministic: any two outputs whose identities equal the
/// sorted matching identities of one catalog and query are identical.
pub proof fn lemma_query_deterministic(
    r1: Seq<&NetSetFeed>,
    r2: Seq<&NetSetFeed>,
    m: Seq<(Seq<char>, Seq<char>)>,
)
    requires
        ids_of(r1) == m.sort_by(id_leq()),
        ids_of(r2) == m.sort_by(id_leq()),
    ensures
        ids_of(r1) == ids_of(r2),
{
}

} // verus!
