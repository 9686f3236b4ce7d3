//! Reading target lists: splitting an address list into entries, telling
//! networks, single addresses and host names apart, expanding networks into
//! their addresses, counting how many addresses a list stands for, and
//! finding the columns of a table that hold addresses.

use vstd::prelude::*;
use vstd::arithmetic::power2::{pow2, lemma_pow2_adds, lemma_pow2_pos, lemma_pow2_unfold, lemma2_to64};
use crate::net::{
    IpAddress, Network, network_from_text, address_from_text, address_text, parse_network,
    parse_address, format_address,
};
use vstd::string::StringExecFns;
use crate::text::{
    entries, split_entries, string_views, trim, chars_of, trim_bounds, string_of_range,
    lemma_entries_of_joined_lists,
};

verus! {

/// A network is expanded into its addresses only up to this many.
pub const MAX_EXPANDED: u128 = 65534;

/// One entry of an address list, as read.
#[derive(Debug, Clone, PartialEq, Eq)]
pub enum TargetEntry {
    /// The entry reads as a network (a lone address reads as a network of one).
    Network(Network),
    /// The entry reads as a single address but not as a network.
    Address(IpAddress),
    /// Any other entry: a host name, with the address that a name lookup
    /// gave for it, if any.
    Host(String, Option<IpAddress>),
}

/// Whether `e` is the reading of the entry text `text`: a network if
/// `ipnetwork` reads one, else a single address if the standard library
/// reads one, else a host name (with whatever a lookup found for it).
pub open spec fn entry_read_from(e: TargetEntry, text: Seq<char>) -> bool {
    match network_from_text(text) {
        Some(n) => e == TargetEntry::Network(n),
        None => match address_from_text(text) {
            Some(a) => e == TargetEntry::Address(a),
            None => e matches TargetEntry::Host(name, _) && name@ == text,
        },
    }
}

/// Whether `e` is a host name entry whose lookup has not been done.
pub open spec fn not_looked_up(e: TargetEntry) -> bool {
    e matches TargetEntry::Host(_, found) ==> found is None
}

/// The targets that one entry contributes, as (name, address) pairs: every
/// address of a network of at most `MAX_EXPANDED` addresses (none of a larger
/// one), named by its text; a single address named by its text; a host name
/// with the address that was found for it (nothing if none was).
pub open spec fn entry_targets(e: TargetEntry) -> Seq<(Seq<char>, IpAddress)> {
    match e {
        TargetEntry::Network(n) => if n.size() > MAX_EXPANDED {
            Seq::empty()
        } else {
            n.addresses().map_values(|ip: IpAddress| (address_text(ip), ip))
        },
        TargetEntry::Address(a) => seq![(address_text(a), a)],
        TargetEntry::Host(name, found) => match found {
            Some(a) => seq![(name@, a)],
            None => Seq::empty(),
        },
    }
}

/// The targets of all entries, in order.
pub open spec fn all_targets(es: Seq<TargetEntry>) -> Seq<(Seq<char>, IpAddress)>
    decreases es.len(),
{
    if es.len() == 0 {
        Seq::empty()
    } else {
        all_targets(es.drop_last()) + entry_targets(es.last())
    }
}

pub open spec fn target_views(v: Seq<(String, IpAddress)>) -> Seq<(Seq<char>, IpAddress)> {
    v.map_values(|p: (String, IpAddress)| (p.0@, p.1))
}

/// `u128` shifted left: `1 << k` is `2^k`.
proof fn lemma_one_shl(k: u128)
    requires
        k < 128,
    ensures
        (1u128 << k) as nat == pow2(k as nat),
    decreases k,
{
    if k == 0 {
        assert(1u128 << 0u128 == 1u128) by (bit_vector);
        lemma2_to64();
    } else {
        lemma_one_shl((k - 1) as u128);
        let j = (k - 1) as u128;
        assert((1u128 << k) == (1u128 << j) * 2) by (bit_vector)
            requires
                0 < k < 128,
                j == k - 1,
        ;
        lemma_pow2_unfold(k as nat);
    }
}

/// The number of addresses in a network.
pub fn network_ip_count(network: &Network) -> (r: u128)
    ensures
        r as nat == if network.size() > u128::MAX {
            u128::MAX as nat
        } else {
            network.size()
        },
{
    match network {
        Network::V4 { prefix, .. } => {
            let prefix = *prefix;
            if prefix >= 32 {
                proof {
                    lemma2_to64();
                }
                1
            } else {
                let k = (32 - prefix) as u128;
                proof {
                    lemma_one_shl(k);
                }
                1u128 << k
            }
        },
        Network::V6 { prefix, .. } => {
            let prefix = *prefix;
            if prefix >= 128 {
                proof {
                    lemma2_to64();
                }
                1
            } else if prefix == 0 {
                proof {
                    lemma2_to64();
                    lemma_pow2_adds(64, 64);
                }
                u128::MAX
            } else {
                let k = (128 - prefix) as u128;
                proof {
                    lemma_one_shl(k);
                }
                1u128 << k
            }
        },
    }
}

/// The lowest address of a block of `c` addresses containing `a`, in a range
/// of `c * q` addresses, leaves room for the whole block.
proof fn lemma_block_fits(a: nat, c: nat, q: nat)
    requires
        c > 0,
        a < c * q,
    ensures
        a - a % c == c * (a / c),
        (a - a % c) + c <= c * q,
{
    assert(a == c * (a / c) + a % c) by (nonlinear_arith)
        requires
            c > 0,
    ;
    assert(a / c < q) by (nonlinear_arith)
        requires
            c > 0,
            a < c * q,
            a == c * (a / c) + a % c,
            a % c >= 0,
    ;
    assert(c * (a / c) + c <= c * q) by (nonlinear_arith)
        requires
            c > 0,
            a / c < q,
            a / c >= 0,
    ;
}

/// The address space of each family holds whole networks: the network size
/// times the number of networks is `2^32` or `2^128`.
proof fn lemma_size_divides_space(n: Network)
    ensures
        n.size() > 0,
        n is V4 ==> n.size() * pow2((32 - n.host_bits()) as nat) == 0x1_0000_0000,
        n is V6 ==> n.size() * pow2((128 - n.host_bits()) as nat)
            == 0x1_0000_0000_0000_0000_0000_0000_0000_0000,
{
    lemma_pow2_pos(n.host_bits());
    lemma2_to64();
    lemma_pow2_adds(64, 64);
    match n {
        Network::V4 { .. } => {
            lemma_pow2_adds(n.host_bits(), (32 - n.host_bits()) as nat);
        },
        Network::V6 { .. } => {
            lemma_pow2_adds(n.host_bits(), (128 - n.host_bits()) as nat);
        },
    }
}

/// The (name, address) pairs of the first `k` addresses of a network.
pub open spec fn first_addresses(n: Network, k: int) -> Seq<(Seq<char>, IpAddress)> {
    Seq::new(k as nat, |j: int| (address_text(n.nth(j)), n.nth(j)))
}

/// Appends every address of a network that has `count` addresses, each
/// named by its text.
fn push_network_targets(out: &mut Vec<(String, IpAddress)>, network: &Network, count: u128)
    requires
        count == network.size(),
        count <= MAX_EXPANDED,
    ensures
        target_views(final(out)@) == target_views(old(out)@) + entry_targets(
            TargetEntry::Network(*network),
        ),
{
    let ghost start = target_views(out@);
    proof {
        lemma_size_divides_space(*network);
        assert(target_views(out@) =~= start + first_addresses(*network, 0));
    }
    match network {
        Network::V4 { addr, .. } => {
            let c = count as u32;
            proof {
                lemma_block_fits(*addr as nat, c as nat, pow2((32 - network.host_bits()) as nat));
            }
            let base = *addr - *addr % c;
            let mut k: u32 = 0;
            while k < c
                invariant
                    k <= c,
                    c == network.size(),
                    base == network.base(),
                    base + c <= 0x1_0000_0000,
                    network is V4,
                    target_views(out@) == start + first_addresses(*network, k as int),
                decreases c - k,
            {
                let ip = IpAddress::V4(base + k);
                let name = format_address(ip);
                let ghost prev = out@;
                out.push((name, ip));
                proof {
                    assert(network.nth(k as int) == ip);
                    assert(name@ == address_text(ip));
                    assert(target_views(out@) =~= target_views(prev).push((name@, ip)));
                    assert(target_views(out@) =~= start + first_addresses(*network, k + 1));
                }
                k = k + 1;
            }
        },
        Network::V6 { addr, .. } => {
            let c = count;
            proof {
                lemma_block_fits(*addr as nat, c as nat, pow2((128 - network.host_bits()) as nat));
            }
            let base = *addr - *addr % c;
            let mut k: u128 = 0;
            while k < c
                invariant
                    k <= c,
                    c == network.size(),
                    base == network.base(),
                    base + c <= 0x1_0000_0000_0000_0000_0000_0000_0000_0000,
                    network is V6,
                    target_views(out@) == start + first_addresses(*network, k as int),
                decreases c - k,
            {
                let ip = IpAddress::V6(base + k);
                let name = format_address(ip);
                let ghost prev = out@;
                out.push((name, ip));
                proof {
                    assert(network.nth(k as int) == ip);
                    assert(name@ == address_text(ip));
                    assert(target_views(out@) =~= target_views(prev).push((name@, ip)));
                    assert(target_views(out@) =~= start + first_addresses(*network, k + 1));
                }
                k = k + 1;
            }
        },
    }
    assert(first_addresses(*network, network.size() as int) =~= entry_targets(
        TargetEntry::Network(*network),
    ));
}

/// Reads one entry of an address list.
pub fn classify_entry(text: &str) -> (r: TargetEntry)
    ensures
        entry_read_from(r, text@),
        not_looked_up(r),
{
    if let Some(network) = parse_network(text) {
        TargetEntry::Network(network)
    } else if let Some(ip) = parse_address(text) {
        TargetEntry::Address(ip)
    } else {
        TargetEntry::Host(String::from_str(text), None)
    }
}

/// Splits an address list (one entry per line, or separated by commas or
/// semicolons) into its entries and reads each: a network in CIDR notation,
/// a single address, or a host name still to be looked up.
pub fn classify_entries(input: &str) -> (r: Vec<TargetEntry>)
    ensures
        r@.len() == entries(input@).len(),
        forall|i: int|
            0 <= i < r@.len() ==> entry_read_from(#[trigger] r@[i], entries(input@)[i])
                && not_looked_up(r@[i]),
{
    let texts = split_entries(input);
    let mut r: Vec<TargetEntry> = Vec::new();
    let mut i: usize = 0;
    while i < texts.len()
        invariant
            i <= texts@.len(),
            string_views(texts@) == entries(input@),
            r@.len() == i,
            forall|j: int|
                0 <= j < i ==> entry_read_from(#[trigger] r@[j], entries(input@)[j])
                    && not_looked_up(r@[j]),
        decreases texts@.len() - i,
    {
        assert(texts@[i as int]@ == entries(input@)[i as int]);
        let e = classify_entry(texts[i].as_str());
        r.push(e);
        i = i + 1;
    }
    r
}

/// Turns read entries into the list of targets to ping, as (name, address)
/// pairs: each network of at most `MAX_EXPANDED` addresses becomes all its
/// addresses from the lowest up, named by their text (a larger network is
/// left out); a single address is named by its text; a host name stays the
/// name of the address that was found for it, and is left out if none was.
pub fn parse_targets(entries: &Vec<TargetEntry>) -> (r: Vec<(String, IpAddress)>)
    ensures
        target_views(r@) == all_targets(entries@),
{
    let mut results: Vec<(String, IpAddress)> = Vec::new();
    let mut i: usize = 0;
    proof {
        assert(entries@.take(0) =~= Seq::<TargetEntry>::empty());
        assert(target_views(results@) =~= all_targets(entries@.take(0)));
    }
    while i < entries.len()
        invariant
            i <= entries@.len(),
            target_views(results@) == all_targets(entries@.take(i as int)),
        decreases entries@.len() - i,
    {
        proof {
            assert(entries@.take(i + 1).drop_last() =~= entries@.take(i as int));
            assert(entries@.take(i + 1).last() == entries@[i as int]);
        }
        let ghost prev = results@;
        match &entries[i] {
            TargetEntry::Network(network) => {
                let count = network_ip_count(network);
                if count <= MAX_EXPANDED {
                    push_network_targets(&mut results, network, count);
                } else {
                    assert(entry_targets(entries@[i as int]) =~= Seq::empty());
                    assert(target_views(results@) =~= target_views(prev) + entry_targets(entries@[i as int]));
                }
            },
            TargetEntry::Address(ip) => {
                let name = format_address(*ip);
                results.push((name, *ip));
                assert(target_views(results@) =~= target_views(prev) + entry_targets(entries@[i as int]));
            },
            TargetEntry::Host(name, found) => {
                match found {
                    Some(ip) => {
                        results.push((name.clone(), *ip));
                        assert(target_views(results@) =~= target_views(prev) + entry_targets(entries@[i as int]));
                    },
                    None => {
                        assert(target_views(results@) =~= target_views(prev) + entry_targets(entries@[i as int]));
                    },
                }
            },
        }
        i = i + 1;
    }
    proof {
        assert(entries@.take(entries@.len() as int) =~= entries@);
    }
    results
}

/// How many addresses one entry text counts for: the size of the network
/// that it reads as, or one for anything else.
pub open spec fn entry_count(text: Seq<char>) -> nat {
    match network_from_text(text) {
        Some(n) => n.size(),
        None => 1,
    }
}

/// The sum of the counts of the entry texts.
pub open spec fn total_count(ts: Seq<Seq<char>>) -> nat
    decreases ts.len(),
{
    if ts.len() == 0 {
        0
    } else {
        total_count(ts.drop_last()) + entry_count(ts.last())
    }
}

/// `n`, or the largest `usize` if it does not fit.
pub open spec fn saturated(n: nat) -> nat {
    if n > usize::MAX {
        usize::MAX as nat
    } else {
        n
    }
}

/// How many addresses one read entry counts for: the size of its network,
/// or one for anything else.
pub open spec fn entry_weight(e: TargetEntry) -> nat {
    match e {
        TargetEntry::Network(n) => n.size(),
        _ => 1,
    }
}

/// The sum of the weights of the entries.
pub open spec fn total_weight(es: Seq<TargetEntry>) -> nat
    decreases es.len(),
{
    if es.len() == 0 {
        0
    } else {
        total_weight(es.drop_last()) + entry_weight(es.last())
    }
}

/// Adds up how many addresses read entries stand for: a network its number
/// of addresses, anything else one; a sum that does not fit in `usize` is
/// the largest `usize`.
pub fn count_entries(entries: &Vec<TargetEntry>) -> (r: usize)
    ensures
        r == saturated(total_weight(entries@)),
{
    let ghost es = entries@;
    let mut count: usize = 0;
    let mut i: usize = 0;
    proof {
        assert(es.take(0) =~= Seq::<TargetEntry>::empty());
    }
    while i < entries.len()
        invariant
            i <= es.len(),
            es == entries@,
            count == saturated(total_weight(es.take(i as int))),
        decreases es.len() - i,
    {
        proof {
            assert(es.take(i + 1).drop_last() =~= es.take(i as int));
            assert(es.take(i + 1).last() == es[i as int]);
        }
        let addend: usize = match &entries[i] {
            TargetEntry::Network(network) => {
                let c = network_ip_count(network);
                if c <= usize::MAX as u128 {
                    c as usize
                } else {
                    usize::MAX
                }
            },
            _ => 1,
        };
        assert(addend == saturated(entry_weight(es[i as int])));
        count = count.saturating_add(addend);
        i = i + 1;
    }
    proof {
        assert(es.take(es.len() as int) =~= es);
    }
    count
}

proof fn lemma_weight_of_read_entries(es: Seq<TargetEntry>, ts: Seq<Seq<char>>, k: int)
    requires
        es.len() == ts.len(),
        0 <= k <= es.len(),
        forall|i: int| 0 <= i < es.len() ==> entry_read_from(#[trigger] es[i], ts[i]),
    ensures
        total_weight(es.take(k)) == total_count(ts.take(k)),
    decreases k,
{
    if k > 0 {
        lemma_weight_of_read_entries(es, ts, k - 1);
        assert(es.take(k).drop_last() =~= es.take(k - 1));
        assert(ts.take(k).drop_last() =~= ts.take(k - 1));
        assert(entry_read_from(es[k - 1], ts[k - 1]));
    }
}

/// The read entries of an address list count as its entry texts do.
proof fn lemma_read_entries_count(input: Seq<char>, es: Seq<TargetEntry>)
    requires
        es.len() == entries(input).len(),
        forall|i: int| 0 <= i < es.len() ==> entry_read_from(#[trigger] es[i], entries(input)[i]),
    ensures
        total_weight(es) == total_count(entries(input)),
{
    let ts = entries(input);
    lemma_weight_of_read_entries(es, ts, es.len() as int);
    assert(es.take(es.len() as int) =~= es);
    assert(ts.take(ts.len() as int) =~= ts);
}

/// Counts how many addresses an address list would expand to, for the
/// warning before a large run: each entry that reads as a network counts
/// its number of addresses, every other entry counts one; a count beyond
/// `usize` is the largest `usize`.
pub fn count_cidr_ips(input: &str) -> (r: usize)
    ensures
        r == saturated(total_count(entries(input@))),
{
    let es = classify_entries(input);
    proof {
        lemma_read_entries_count(input@, es@);
    }
    count_entries(&es)
}

/// The run is large enough to ask first when it stands for more than this
/// many addresses.
pub const WARN_ABOVE: usize = 1000;

/// Whether to ask before a run of `count` addresses: when it is over
/// `WARN_ABOVE` and the user has not already confirmed.
pub fn needs_ip_warning(count: usize, confirmed: bool) -> (r: bool)
    ensures
        r == (count > WARN_ABOVE && !confirmed),
{
    count > WARN_ABOVE && !confirmed
}

/// Only this many rows from the top of a table are looked at to decide
/// whether a column holds addresses.
pub const SAMPLE_ROWS: usize = 20;

/// Whether a table cell, trimmed, reads as an address or as a network.
pub open spec fn looks_like_address(cell: Seq<char>) -> bool {
    address_from_text(trim(cell)) is Some || network_from_text(trim(cell)) is Some
}

/// The number of rows looked at: the first `SAMPLE_ROWS`, or all if fewer.
pub open spec fn sample_size(rows: Seq<Vec<String>>) -> int {
    if rows.len() < SAMPLE_ROWS {
        rows.len() as int
    } else {
        SAMPLE_ROWS as int
    }
}

/// Among the first `n` rows, how many have a cell in column `col` that looks
/// like an address.
pub open spec fn address_hits(rows: Seq<Vec<String>>, col: int, n: int) -> nat
    decreases n,
{
    if n <= 0 {
        0
    } else {
        address_hits(rows, col, n - 1) + if col < rows[n - 1]@.len() && looks_like_address(
            rows[n - 1]@[col]@,
        ) {
            1nat
        } else {
            0nat
        }
    }
}

/// A column holds addresses when more than half of the sampled rows have
/// one there.
pub open spec fn is_address_column(rows: Seq<Vec<String>>, col: int) -> bool {
    let s = sample_size(rows);
    let h = address_hits(rows, col, s);
    h > 0 && h * 2 > s
}

/// The address columns among the first `m` headers, as (column index,
/// header) pairs in column order.
pub open spec fn address_columns(headers: Seq<String>, rows: Seq<Vec<String>>, m: int) -> Seq<
    (usize, Seq<char>),
>
    decreases m,
{
    if m <= 0 {
        Seq::empty()
    } else {
        address_columns(headers, rows, m - 1) + if is_address_column(rows, m - 1) {
            seq![((m - 1) as usize, headers[m - 1]@)]
        } else {
            Seq::empty()
        }
    }
}

pub open spec fn column_views(v: Seq<(usize, String)>) -> Seq<(usize, Seq<char>)> {
    v.map_values(|p: (usize, String)| (p.0, p.1@))
}

/// Whether a table cell, trimmed, reads as an address or as a network.
pub fn cell_looks_like_address(cell: &String) -> (b: bool)
    ensures
        b == looks_like_address(cell@),
{
    let cs = chars_of(cell.as_str());
    let (a, z) = trim_bounds(cs.as_slice());
    let trimmed = string_of_range(cs.as_slice(), a, z);
    parse_address(trimmed.as_str()).is_some() || parse_network(trimmed.as_str()).is_some()
}

/// Finds the columns of a table that hold IP addresses: a column does when,
/// among the first `SAMPLE_ROWS` rows (or all rows, if fewer), some have a
/// cell there that reads as an address or network, and these are more than
/// half of the rows looked at. Gives each such column's index and header.
pub fn find_ip_columns(headers: &[String], rows: &[Vec<String>]) -> (r: Vec<(usize, String)>)
    ensures
        column_views(r@) == address_columns(headers@, rows@, headers@.len() as int),
{
    let mut ip_cols: Vec<(usize, String)> = Vec::new();
    let sample = if rows.len() < SAMPLE_ROWS {
        rows.len()
    } else {
        SAMPLE_ROWS
    };
    let mut col_idx: usize = 0;
    while col_idx < headers.len()
        invariant
            col_idx <= headers@.len(),
            sample == sample_size(rows@),
            column_views(ip_cols@) == address_columns(headers@, rows@, col_idx as int),
        decreases headers@.len() - col_idx,
    {
        let mut ip_count: usize = 0;
        let mut k: usize = 0;
        while k < sample
            invariant
                k <= sample,
                sample == sample_size(rows@),
                sample <= rows@.len(),
                ip_count == address_hits(rows@, col_idx as int, k as int),
                ip_count <= k,
            decreases sample - k,
        {
            let row = &rows[k];
            if col_idx < row.len() {
                if cell_looks_like_address(&row[col_idx]) {
                    ip_count = ip_count + 1;
                }
            }
            k = k + 1;
        }
        let ghost prev = ip_cols@;
        if ip_count > 0 && ip_count * 2 > sample {
            ip_cols.push((col_idx, headers[col_idx].clone()));
            assert(column_views(ip_cols@) =~= column_views(prev).push((col_idx, headers@[col_idx as int]@)));
        }
        assert(column_views(ip_cols@) =~= address_columns(headers@, rows@, col_idx + 1));
        col_idx = col_idx + 1;
    }
    ip_cols
}


proof fn lemma_all_targets_concat(p: Seq<TargetEntry>, q: Seq<TargetEntry>)
    ensures
        all_targets(p + q) == all_targets(p) + all_targets(q),
    decreases q.len(),
{
    if q.len() == 0 {
        assert(p + q =~= p);
        assert(all_targets(p) + all_targets(q) =~= all_targets(p));
    } else {
        lemma_all_targets_concat(p, q.drop_last());
        assert((p + q).drop_last() =~= p + q.drop_last());
        assert((p + q).last() == q.last());
        assert(all_targets(p) + all_targets(q.drop_last()) + entry_targets(q.last()) =~= all_targets(
            p,
        ) + (all_targets(q.drop_last()) + entry_targets(q.last())));
    }
}

proof fn lemma_total_count_concat(p: Seq<Seq<char>>, q: Seq<Seq<char>>)
    ensures
        total_count(p + q) == total_count(p) + total_count(q),
    decreases q.len(),
{
    if q.len() == 0 {
        assert(p + q =~= p);
    } else {
        lemma_total_count_concat(p, q.drop_last());
        assert((p + q).drop_last() =~= p + q.drop_last());
        assert((p + q).last() == q.last());
    }
}

/// Two address lists joined by a line end are read entry by entry as the
/// two lists are: the entries read from the joined list are those read from
/// the first list followed by those read from the second, the targets they
/// give are the targets of the first part followed by those of the second
/// (nothing is merged or dropped as a duplicate), and the count of the
/// joined list is the sum of the two counts.
pub proof fn lemma_targets_of_joined_lists(a: Seq<char>, b: Seq<char>, es: Seq<TargetEntry>)
    requires
        es.len() == entries(a + seq!['\n'] + b).len(),
        forall|i: int|
            0 <= i < es.len() ==> entry_read_from(#[trigger] es[i], entries(a + seq!['\n'] + b)[i]),
    ensures
        es.len() == entries(a).len() + entries(b).len(),
        forall|i: int|
            0 <= i < entries(a).len() ==> entry_read_from(#[trigger] es[i], entries(a)[i]),
        forall|i: int|
            0 <= i < entries(b).len() ==> entry_read_from(
                #[trigger] es[entries(a).len() + i],
                entries(b)[i],
            ),
        all_targets(es) == all_targets(es.take(entries(a).len() as int)) + all_targets(
            es.skip(entries(a).len() as int),
        ),
        total_count(entries(a + seq!['\n'] + b)) == total_count(entries(a)) + total_count(
            entries(b),
        ),
{
    lemma_entries_of_joined_lists(a, b);
    let k = entries(a).len() as int;
    let ab = entries(a + seq!['\n'] + b);
    assert forall|i: int| 0 <= i < entries(a).len() implies entry_read_from(
        #[trigger] es[i],
        entries(a)[i],
    ) by {
        assert(ab[i] == entries(a)[i]);
    }
    assert forall|i: int| 0 <= i < entries(b).len() implies entry_read_from(
        #[trigger] es[entries(a).len() + i],
        entries(b)[i],
    ) by {
        assert(ab[k + i] == entries(b)[i]);
    }
    assert(es =~= es.take(k) + es.skip(k));
    lemma_all_targets_concat(es.take(k), es.skip(k));
    lemma_total_count_concat(entries(a), entries(b));
}

/// Whether an entry gives all the addresses it counts for: a network of at
/// most `MAX_EXPANDED` addresses, a single address, or a host name for which
/// an address was found.
pub open spec fn fully_expanded(e: TargetEntry) -> bool {
    match e {
        TargetEntry::Network(n) => n.size() <= MAX_EXPANDED,
        TargetEntry::Address(_) => true,
        TargetEntry::Host(_, found) => found is Some,
    }
}

proof fn lemma_targets_match_count_upto(ts: Seq<Seq<char>>, es: Seq<TargetEntry>, k: int)
    requires
        es.len() == ts.len(),
        0 <= k <= es.len(),
        forall|i: int| 0 <= i < es.len() ==> entry_read_from(#[trigger] es[i], ts[i]),
    ensures
        all_targets(es.take(k)).len() <= total_count(ts.take(k)),
        all_targets(es.take(k)).len() == total_count(ts.take(k)) <==> forall|i: int|
            0 <= i < k ==> fully_expanded(#[trigger] es[i]),
    decreases k,
{
    if k > 0 {
        lemma_targets_match_count_upto(ts, es, k - 1);
        assert(es.take(k).drop_last() =~= es.take(k - 1));
        assert(ts.take(k).drop_last() =~= ts.take(k - 1));
        let e = es[k - 1];
        let t = ts[k - 1];
        assert(entry_read_from(e, t));
        assert(entry_targets(e).len() <= entry_count(t));
        assert(entry_targets(e).len() == entry_count(t) <==> fully_expanded(e)) by {
            match e {
                TargetEntry::Network(n) => {
                    lemma_pow2_pos(n.host_bits());
                },
                _ => {},
            }
        }
        if forall|i: int| 0 <= i < k ==> fully_expanded(#[trigger] es[i]) {
            assert(fully_expanded(es[k - 1]));
        }
    }
}

/// The targets of a list never outnumber what `count_cidr_ips` counts for
/// it, and they number exactly that if and only if every entry gives all
/// its addresses: no network is over `MAX_EXPANDED` addresses and every host
/// name lookup found an address.
pub proof fn lemma_targets_match_count(input: Seq<char>, es: Seq<TargetEntry>)
    requires
        es.len() == entries(input).len(),
        forall|i: int| 0 <= i < es.len() ==> entry_read_from(#[trigger] es[i], entries(input)[i]),
    ensures
        all_targets(es).len() <= total_count(entries(input)),
        all_targets(es).len() == total_count(entries(input)) <==> forall|i: int|
            0 <= i < es.len() ==> fully_expanded(#[trigger] es[i]),
{
    lemma_targets_match_count_upto(entries(input), es, es.len() as int);
    assert(es.take(es.len() as int) =~= es);
    assert(entries(input).take(es.len() as int) =~= entries(input));
}

/// The addresses that a network expands to are exactly the addresses it
/// contains: an address value lies in the run from the lowest address over
/// `size` addresses if and only if it agrees with the network's address in
/// all prefix bits (same quotient by the size).
pub proof fn lemma_expansion_is_network(n: Network, v: nat)
    ensures
        (n.base() <= v < n.base() + n.size()) <==> (v / n.size() == n.addr_value() / n.size()),
{
    lemma_pow2_pos(n.host_bits());
    let c = n.size();
    let a = n.addr_value();
    assert(a == c * (a / c) + a % c && 0 <= a % c < c) by (nonlinear_arith)
        requires
            c > 0,
    ;
    assert(v == c * (v / c) + v % c && 0 <= v % c < c) by (nonlinear_arith)
        requires
            c > 0,
    ;
    let q = a / c;
    assert(n.base() == c * q);
    if v / c == q {
        assert(c * q <= v < c * q + c);
    }
    if c * q <= v < c * q + c {
        assert(v / c == q) by (nonlinear_arith)
            requires
                c > 0,
                c * q <= v < c * q + c,
                v == c * (v / c) + v % c,
                0 <= v % c < c,
        ;
    }
}

/// The cells of column `col`, trimmed, from the rows that have one there,
/// leaving out empty ones.
pub open spec fn column_entries(rows: Seq<Vec<String>>, col: int, n: int) -> Seq<Seq<char>>
    decreases n,
{
    if n <= 0 {
        Seq::empty()
    } else {
        let rest = column_entries(rows, col, n - 1);
        if col < rows[n - 1]@.len() && trim(rows[n - 1]@[col]@).len() > 0 {
            rest.push(trim(rows[n - 1]@[col]@))
        } else {
            rest
        }
    }
}

/// Takes the addresses of an imported table from the chosen column: each
/// row's cell there, trimmed, in row order; rows without the column and
/// empty cells are skipped.
pub fn extract_column_entries(rows: &[Vec<String>], col: usize) -> (r: Vec<String>)
    ensures
        string_views(r@) == column_entries(rows@, col as int, rows@.len() as int),
{
    let mut ips: Vec<String> = Vec::new();
    let mut i: usize = 0;
    while i < rows.len()
        invariant
            i <= rows@.len(),
            string_views(ips@) == column_entries(rows@, col as int, i as int),
        decreases rows@.len() - i,
    {
        let row = &rows[i];
        if col < row.len() {
            let cs = chars_of(row[col].as_str());
            let (a, z) = trim_bounds(cs.as_slice());
            if a < z {
                let cell = string_of_range(cs.as_slice(), a, z);
                let ghost prev = ips@;
                ips.push(cell);
                assert(string_views(ips@) =~= string_views(prev).push(cell@));
            }
        }
        i = i + 1;
    }
    ips
}

/// Whether a row has a cell in column `col` that reads as an address or
/// network.
pub open spec fn has_address_at(col: int) -> spec_fn(Vec<String>) -> bool {
    |row: Vec<String>|
        col < row@.len() && (address_from_text(trim(row@[col]@)) is Some || network_from_text(
            trim(row@[col]@),
        ) is Some)
}

/// The address hits of a column are the rows, among the first `n`, that
/// have a cell there reading as an address or network: their number,
/// counted over those rows alone.
pub proof fn lemma_address_hits_count_rows(rows: Seq<Vec<String>>, col: int, n: int)
    requires
        0 <= n <= rows.len(),
    ensures
        address_hits(rows, col, n) == rows_with_address(rows, col, n),
    decreases n,
{
    let pred = has_address_at(col);
    if n == 0 {
        rows.take(0).lemma_filter_len(pred);
    } else {
        lemma_address_hits_count_rows(rows, col, n - 1);
        assert(rows.take(n) =~= rows.take(n - 1).push(rows[n - 1]));
        rows.take(n - 1).lemma_filter_push(rows[n - 1], pred);
    }
}

proof fn lemma_address_columns_shape(headers: Seq<String>, rows: Seq<Vec<String>>, m: int)
    requires
        0 <= m <= headers.len(),
        headers.len() <= usize::MAX,
    ensures
        forall|k: int|
            0 <= k < address_columns(headers, rows, m).len() ==> {
                let e = #[trigger] address_columns(headers, rows, m)[k];
                &&& e.0 < m
                &&& e.1 == headers[e.0 as int]@
                &&& is_address_column(rows, e.0 as int)
            },
        forall|p: int, q: int|
            0 <= p < q < address_columns(headers, rows, m).len() ==> (#[trigger] address_columns(
                headers,
                rows,
                m,
            )[p]).0 < (#[trigger] address_columns(headers, rows, m)[q]).0,
        forall|c: int|
            0 <= c < m ==> (is_address_column(rows, c) <==> exists|k: int|
                0 <= k < address_columns(headers, rows, m).len() && (#[trigger] address_columns(
                    headers,
                    rows,
                    m,
                )[k]).0 == c),
    decreases m,
{
    if m > 0 {
        lemma_address_columns_shape(headers, rows, m - 1);
        let prev = address_columns(headers, rows, m - 1);
        let cur = address_columns(headers, rows, m);
        if is_address_column(rows, m - 1) {
            let e = ((m - 1) as usize, headers[m - 1]@);
            assert(cur =~= prev.push(e));
            assert(cur[prev.len() as int] == e);
            assert forall|c: int| 0 <= c < m implies (is_address_column(rows, c) <==> exists|k: int|
                0 <= k < cur.len() && (#[trigger] cur[k]).0 == c) by {
                if c < m - 1 {
                    if is_address_column(rows, c) {
                        let k = choose|k: int| 0 <= k < prev.len() && (#[trigger] prev[k]).0 == c;
                        assert(cur[k] == prev[k]);
                    }
                    if exists|k: int| 0 <= k < cur.len() && (#[trigger] cur[k]).0 == c {
                        let k = choose|k: int| 0 <= k < cur.len() && (#[trigger] cur[k]).0 == c;
                        assert(k < prev.len());
                        assert(cur[k] == prev[k]);
                    }
                } else {
                    assert(cur[prev.len() as int].0 == c);
                }
            }
            assert forall|p: int, q: int| 0 <= p < q < cur.len() implies (#[trigger] cur[p]).0 < (
            #[trigger] cur[q]).0 by {
                assert(cur[p] == prev[p]);
                if q < prev.len() {
                    assert(cur[q] == prev[q]);
                }
            }
            assert forall|k: int| 0 <= k < cur.len() implies {
                let e = #[trigger] cur[k];
                &&& e.0 < m
                &&& e.1 == headers[e.0 as int]@
                &&& is_address_column(rows, e.0 as int)
            } by {
                if k < prev.len() {
                    assert(cur[k] == prev[k]);
                }
            }
        } else {
            assert(cur =~= prev);
            assert forall|c: int| 0 <= c < m implies (is_address_column(rows, c) <==> exists|k: int|
                0 <= k < cur.len() && (#[trigger] cur[k]).0 == c) by {
                if c == m - 1 {
                    if exists|k: int| 0 <= k < cur.len() && (#[trigger] cur[k]).0 == c {
                        let k = choose|k: int| 0 <= k < cur.len() && (#[trigger] cur[k]).0 == c;
                        assert(prev[k].0 < m - 1);
                    }
                }
            }
        }
    }
}

/// How many of the first `n` rows have a cell in column `col` that reads as
/// an address or network.
pub open spec fn rows_with_address(rows: Seq<Vec<String>>, col: int, n: int) -> nat {
    rows.take(n).filter(has_address_at(col)).len()
}

/// Each column of a table is judged on its own: column `c` is among the
/// address columns if and only if some of the first 20 rows (all rows, if
/// fewer) have an address or network in it and these are more than half of
/// the rows looked at, whatever the other columns hold. Each listed column
/// comes with its own header, in increasing order, and nothing else is
/// listed.
pub proof fn lemma_address_columns_judged_alone(headers: Seq<String>, rows: Seq<Vec<String>>)
    requires
        headers.len() <= usize::MAX,
    ensures
        forall|c: int|
            #![trigger has_address_at(c)]
            0 <= c < headers.len() ==> ((exists|k: int|
                0 <= k < address_columns(headers, rows, headers.len() as int).len()
                    && (#[trigger] address_columns(headers, rows, headers.len() as int)[k]).0
                    == c) <==> ({
                ||| rows.len() < 20 && rows_with_address(rows, c, rows.len() as int) > 0
                    && rows_with_address(rows, c, rows.len() as int) * 2 > rows.len()
                ||| rows.len() >= 20 && rows_with_address(rows, c, 20) > 0
                    && rows_with_address(rows, c, 20) * 2 > 20
            })),
        forall|k: int|
            0 <= k < address_columns(headers, rows, headers.len() as int).len() ==> {
                let e = #[trigger] address_columns(headers, rows, headers.len() as int)[k];
                e.0 < headers.len() && e.1 == headers[e.0 as int]@
            },
        forall|p: int, q: int|
            0 <= p < q < address_columns(headers, rows, headers.len() as int).len() ==> (
            #[trigger] address_columns(headers, rows, headers.len() as int)[p]).0 < (
            #[trigger] address_columns(headers, rows, headers.len() as int)[q]).0,
{
    lemma_address_columns_shape(headers, rows, headers.len() as int);
    assert forall|c: int|
        #![trigger has_address_at(c)]
        0 <= c < headers.len() implies ((exists|k: int|
        0 <= k < address_columns(headers, rows, headers.len() as int).len()
            && (#[trigger] address_columns(headers, rows, headers.len() as int)[k]).0 == c) <==> ({
        ||| rows.len() < 20 && rows_with_address(rows, c, rows.len() as int) > 0
            && rows_with_address(rows, c, rows.len() as int) * 2 > rows.len()
        ||| rows.len() >= 20 && rows_with_address(rows, c, 20) > 0 && rows_with_address(rows, c, 20)
            * 2 > 20
    })) by {
        lemma_address_hits_count_rows(rows, c, sample_size(rows));
        if rows.len() < 20 {
            assert(sample_size(rows) == rows.len());
        } else {
            assert(sample_size(rows) == 20);
        }
        assert(is_address_column(rows, c) <==> address_hits(rows, c, sample_size(rows)) > 0
            && address_hits(rows, c, sample_size(rows)) * 2 > sample_size(rows));
    }
}

/// Every row of the table, wherever it stands, whose cell in the column is
/// not empty once trimmed gives that trimmed cell, in row order; no other
/// row gives anything.
pub proof fn lemma_column_entries_take_every_row(rows: Seq<Vec<String>>, col: int)
    ensures
        column_entries(rows, col, rows.len() as int) == rows.filter(
            |row: Vec<String>| col < row@.len() && trim(row@[col]@).len() > 0,
        ).map_values(|row: Vec<String>| trim(row@[col]@)),
{
    lemma_column_entries_upto(rows, col, rows.len() as int);
    assert(rows.take(rows.len() as int) =~= rows);
}

proof fn lemma_column_entries_upto(rows: Seq<Vec<String>>, col: int, n: int)
    requires
        0 <= n <= rows.len(),
    ensures
        column_entries(rows, col, n) == rows.take(n).filter(
            |row: Vec<String>| col < row@.len() && trim(row@[col]@).len() > 0,
        ).map_values(|row: Vec<String>| trim(row@[col]@)),
    decreases n,
{
    let pred = |row: Vec<String>| col < row@.len() && trim(row@[col]@).len() > 0;
    let f = |row: Vec<String>| trim(row@[col]@);
    if n == 0 {
        rows.take(0).lemma_filter_len(pred);
        assert(rows.take(0).filter(pred).map_values(f) =~= Seq::<Seq<char>>::empty());
    } else {
        lemma_column_entries_upto(rows, col, n - 1);
        assert(rows.take(n) =~= rows.take(n - 1).push(rows[n - 1]));
        rows.take(n - 1).lemma_filter_push(rows[n - 1], pred);
        let before = rows.take(n - 1).filter(pred);
        if pred(rows[n - 1]) {
            assert(rows.take(n).filter(pred) == before.push(rows[n - 1]));
            assert(before.push(rows[n - 1]).map_values(f) =~= before.map_values(f).push(
                f(rows[n - 1]),
            ));
        } else {
            assert(rows.take(n).filter(pred) == before);
        }
    }
}

} // verus!
