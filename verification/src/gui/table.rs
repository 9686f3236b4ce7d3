//! The result table: which column it is sorted by, in which direction, and
//! the sorting of the rows.

use vstd::prelude::*;
use crate::net::IpAddress;
use crate::ping::{PingStats, PingTarget};
use crate::text::chars_of;

verus! {

/// The columns of the result table.
#[derive(Debug, Clone, Copy, PartialEq, Eq, Structural)]
pub enum SortColumn {
    Index,
    Hostname,
    Ip,
    SuccessCount,
    FailCount,
    FailRate,
    TotalSent,
    LastRtt,
    MaxRtt,
    MinRtt,
    AvgRtt,
}

#[derive(Debug, Clone, Copy, PartialEq, Eq, Structural)]
pub enum SortOrder {
    Ascending,
    Descending,
}

/// Which column the table is sorted by, and in which direction.
#[derive(Debug, Clone, Copy, PartialEq, Eq, Structural)]
pub struct TableState {
    pub sort_column: SortColumn,
    pub sort_order: SortOrder,
}

/// The other direction.
pub open spec fn flipped(o: SortOrder) -> SortOrder {
    match o {
        SortOrder::Ascending => SortOrder::Descending,
        SortOrder::Descending => SortOrder::Ascending,
    }
}

impl TableState {
    /// The state after a click on the header of column `col`: the same
    /// column flips its direction, another column becomes the sort column in
    /// ascending order.
    pub open spec fn toggled(self, col: SortColumn) -> TableState {
        if self.sort_column == col {
            TableState { sort_column: col, sort_order: flipped(self.sort_order) }
        } else {
            TableState { sort_column: col, sort_order: SortOrder::Ascending }
        }
    }

    /// The mark after a column's header: an up triangle on the ascending
    /// sort column, a down triangle on the descending one, nothing elsewhere.
    pub open spec fn indicator(self, col: SortColumn) -> Seq<char> {
        if self.sort_column == col {
            match self.sort_order {
                SortOrder::Ascending => " ▲"@,
                SortOrder::Descending => " ▼"@,
            }
        } else {
            ""@
        }
    }

    pub fn toggle_sort(&mut self, col: SortColumn)
        ensures
            *final(self) == old(self).toggled(col),
    {
        if self.sort_column == col {
            self.sort_order = match self.sort_order {
                SortOrder::Ascending => SortOrder::Descending,
                SortOrder::Descending => SortOrder::Ascending,
            };
        } else {
            self.sort_column = col;
            self.sort_order = SortOrder::Ascending;
        }
    }

    pub fn sort_indicator(&self, col: SortColumn) -> (r: &str)
        ensures
            r@ == self.indicator(col),
    {
        if self.sort_column == col {
            match self.sort_order {
                SortOrder::Ascending => " ▲",
                SortOrder::Descending => " ▼",
            }
        } else {
            ""
        }
    }
}

impl Default for TableState {
    fn default() -> (r: TableState)
        ensures
            r == (TableState { sort_column: SortColumn::Index, sort_order: SortOrder::Ascending }),
    {
        TableState { sort_column: SortColumn::Index, sort_order: SortOrder::Ascending }
    }
}

/// Clicking the header of the sort column twice gives back the state before.
pub proof fn lemma_toggle_twice_restores(s: TableState)
    ensures
        s.toggled(s.sort_column).toggled(s.sort_column) == s,
{
}

/// After a click on any column's header, the table is sorted by that column.
pub proof fn lemma_toggle_selects_column(s: TableState, col: SortColumn)
    ensures
        s.toggled(col).sort_column == col,
        s.sort_column != col ==> s.toggled(col).sort_order == SortOrder::Ascending,
{
}

/// -1, 0 or 1 as `x` is negative, zero or positive.
pub open spec fn sign(x: int) -> int {
    if x < 0 {
        -1
    } else if x == 0 {
        0
    } else {
        1
    }
}

/// Lexicographic comparison by code point, the order of `String`'s `Ord`
/// (UTF-8 bytes compare as their code points do): -1, 0 or 1.
pub open spec fn compare_text(a: Seq<char>, b: Seq<char>) -> int
    decreases a.len(),
{
    if a.len() == 0 {
        if b.len() == 0 {
            0
        } else {
            -1
        }
    } else if b.len() == 0 {
        1
    } else if (a[0] as u32) < (b[0] as u32) {
        -1
    } else if (a[0] as u32) > (b[0] as u32) {
        1
    } else {
        compare_text(a.drop_first(), b.drop_first())
    }
}

/// The order of `IpAddr`: IPv4 before IPv6, each by numeric value.
pub open spec fn compare_ip(a: IpAddress, b: IpAddress) -> int {
    match (a, b) {
        (IpAddress::V4(x), IpAddress::V4(y)) => sign(x - y),
        (IpAddress::V4(_), IpAddress::V6(_)) => -1,
        (IpAddress::V6(_), IpAddress::V4(_)) => 1,
        (IpAddress::V6(x), IpAddress::V6(y)) => sign(x - y),
    }
}

/// The order of `Option<u64>`: `None` first, then by value.
pub open spec fn compare_opt(a: Option<u64>, b: Option<u64>) -> int {
    match (a, b) {
        (None, None) => 0,
        (None, Some(_)) => -1,
        (Some(_), None) => 1,
        (Some(x), Some(y)) => sign(x - y),
    }
}

/// The failure rate as a fraction: failures over pings sent, and 0/1 before
/// any ping.
pub open spec fn rate_num(s: PingStats) -> int {
    if s.total_sent == 0 {
        0
    } else {
        s.fail_count as int
    }
}

pub open spec fn rate_den(s: PingStats) -> int {
    if s.total_sent == 0 {
        1
    } else {
        s.total_sent as int
    }
}

/// Failure rates compared as exact fractions.
pub open spec fn compare_rate(a: PingStats, b: PingStats) -> int {
    sign(rate_num(a) * rate_den(b) - rate_num(b) * rate_den(a))
}

/// How two targets compare in a column, ascending: -1, 0 or 1.
pub open spec fn column_compare(col: SortColumn, a: PingTarget, b: PingTarget) -> int {
    match col {
        SortColumn::Index => sign(a.index - b.index),
        SortColumn::Hostname => compare_text(a.hostname@, b.hostname@),
        SortColumn::Ip => compare_ip(a.ip, b.ip),
        SortColumn::SuccessCount => sign(a.stats.success_count - b.stats.success_count),
        SortColumn::FailCount => sign(a.stats.fail_count - b.stats.fail_count),
        SortColumn::FailRate => compare_rate(a.stats, b.stats),
        SortColumn::TotalSent => sign(a.stats.total_sent - b.stats.total_sent),
        SortColumn::LastRtt => compare_opt(a.stats.last_rtt_us, b.stats.last_rtt_us),
        SortColumn::MaxRtt => sign(a.stats.max_rtt_us - b.stats.max_rtt_us),
        SortColumn::MinRtt => sign(a.stats.min_rtt_us - b.stats.min_rtt_us),
        SortColumn::AvgRtt => sign(a.stats.spec_avg_rtt_us() - b.stats.spec_avg_rtt_us()),
    }
}

/// How two targets compare under the table state: the column order, turned
/// round when descending.
pub open spec fn state_compare(state: TableState, a: PingTarget, b: PingTarget) -> int {
    match state.sort_order {
        SortOrder::Ascending => column_compare(state.sort_column, a, b),
        SortOrder::Descending => -column_compare(state.sort_column, a, b),
    }
}

proof fn lemma_compare_text_props(a: Seq<char>, b: Seq<char>, c: Seq<char>)
    ensures
        compare_text(a, b) == -compare_text(b, a),
        compare_text(a, b) <= 0 && compare_text(b, c) <= 0 ==> compare_text(a, c) <= 0,
        -1 <= compare_text(a, b) <= 1,
    decreases a.len(),
{
    if a.len() > 0 && b.len() > 0 && c.len() > 0 {
        lemma_compare_text_props(a.drop_first(), b.drop_first(), c.drop_first());
    } else if a.len() > 0 && b.len() > 0 {
        lemma_compare_text_props(a.drop_first(), b.drop_first(), c);
    }
}

proof fn lemma_compare_rate_props(a: PingStats, b: PingStats, c: PingStats)
    ensures
        compare_rate(a, b) == -compare_rate(b, a),
        compare_rate(a, b) <= 0 && compare_rate(b, c) <= 0 ==> compare_rate(a, c) <= 0,
{
    let (na, da) = (rate_num(a), rate_den(a));
    let (nb, db) = (rate_num(b), rate_den(b));
    let (nc, dc) = (rate_num(c), rate_den(c));
    if na * db <= nb * da && nb * dc <= nc * db {
        assert(na * dc <= nc * da) by (nonlinear_arith)
            requires
                da > 0,
                db > 0,
                dc > 0,
                na * db <= nb * da,
                nb * dc <= nc * db,
        ;
    }
}

/// Every column order is a total preorder: turning the arguments round
/// turns the result round, and "not after" is transitive.
pub proof fn lemma_column_compare_props(col: SortColumn, a: PingTarget, b: PingTarget, c: PingTarget)
    ensures
        column_compare(col, a, b) == -column_compare(col, b, a),
        column_compare(col, a, b) <= 0 && column_compare(col, b, c) <= 0 ==> column_compare(col, a, c) <= 0,
{
    match col {
        SortColumn::Hostname => lemma_compare_text_props(a.hostname@, b.hostname@, c.hostname@),
        SortColumn::FailRate => lemma_compare_rate_props(a.stats, b.stats, c.stats),
        _ => {},
    }
}

/// The order under a table state is a total preorder too.
pub proof fn lemma_state_compare_props(state: TableState, a: PingTarget, b: PingTarget, c: PingTarget)
    ensures
        state_compare(state, a, b) == -state_compare(state, b, a),
        state_compare(state, a, b) <= 0 && state_compare(state, b, c) <= 0 ==> state_compare(state, a, c) <= 0,
        state_compare(state, a, b) < 0 && state_compare(state, b, c) <= 0 ==> state_compare(state, a, c) < 0,
        state_compare(state, a, b) <= 0 && state_compare(state, b, c) < 0 ==> state_compare(state, a, c) < 0,
{
    lemma_column_compare_props(state.sort_column, a, b, c);
    lemma_column_compare_props(state.sort_column, c, b, a);
    lemma_column_compare_props(state.sort_column, b, c, a);
    lemma_column_compare_props(state.sort_column, c, a, b);
    lemma_column_compare_props(state.sort_column, a, c, b);
    lemma_column_compare_props(state.sort_column, b, a, c);
}

/// Whether text `a` comes before text `b` in dictionary order by code
/// point: where they first differ, `a` has the smaller character, or `a`
/// ends first.
pub open spec fn text_before(a: Seq<char>, b: Seq<char>) -> bool {
    exists|i: int|
        0 <= i <= a.len() && i <= b.len() && #[trigger] a.take(i) == b.take(i) && ((i == a.len()
            && i < b.len()) || (i < a.len() && i < b.len() && (a[i] as u32) < (b[i] as u32)))
}

proof fn lemma_compare_text_lexicographic(a: Seq<char>, b: Seq<char>)
    ensures
        compare_text(a, b) == 0 <==> a == b,
        compare_text(a, b) < 0 <==> text_before(a, b),
    decreases a.len(),
{
    if a.len() == 0 {
        assert(a.take(0) =~= b.take(0));
        if b.len() == 0 {
            assert(a =~= b);
        } else {
            assert(a != b);
        }
    } else if b.len() == 0 {
        assert(a != b);
    } else {
        let x = a[0] as u32;
        let y = b[0] as u32;
        assert(a.take(0) =~= b.take(0));
        if x < y {
            assert(a != b);
        } else if x > y {
            assert(a != b);
            if text_before(a, b) {
                let i = choose|i: int|
                    0 <= i <= a.len() && i <= b.len() && #[trigger] a.take(i) == b.take(i) && ((i
                        == a.len() && i < b.len()) || (i < a.len() && i < b.len() && (a[i] as u32)
                        < (b[i] as u32)));
                if i > 0 {
                    assert(a.take(i)[0] == b.take(i)[0]);
                }
            }
        } else {
            vstd::utf8::char_u32_cast(a[0], x);
            vstd::utf8::char_u32_cast(b[0], x);
            assert(a[0] == b[0]);
            let ta = a.drop_first();
            let tb = b.drop_first();
            lemma_compare_text_lexicographic(ta, tb);
            if ta == tb {
                assert forall|k: int| 0 <= k < a.len() implies #[trigger] a[k] == b[k] by {
                    if k > 0 {
                        assert(a[k] == ta[k - 1]);
                        assert(b[k] == tb[k - 1]);
                    }
                }
                assert(a =~= b);
            }
            if a == b {
                assert(ta =~= tb);
            }
            if text_before(ta, tb) {
                let j = choose|j: int|
                    0 <= j <= ta.len() && j <= tb.len() && #[trigger] ta.take(j) == tb.take(j) && ((j
                        == ta.len() && j < tb.len()) || (j < ta.len() && j < tb.len() && (ta[j] as u32)
                        < (tb[j] as u32)));
                assert forall|k: int| 0 <= k < j + 1 implies #[trigger] a.take(j + 1)[k] == b.take(j + 1)[k] by {
                    if k > 0 {
                        assert(ta.take(j)[k - 1] == tb.take(j)[k - 1]);
                    }
                }
                assert(a.take(j + 1) =~= b.take(j + 1));
                assert(text_before(a, b));
            }
            if text_before(a, b) {
                let i = choose|i: int|
                    0 <= i <= a.len() && i <= b.len() && #[trigger] a.take(i) == b.take(i) && ((i
                        == a.len() && i < b.len()) || (i < a.len() && i < b.len() && (a[i] as u32)
                        < (b[i] as u32)));
                assert(i > 0);
                assert forall|k: int| 0 <= k < i - 1 implies #[trigger] ta.take(i - 1)[k] == tb.take(i - 1)[k] by {
                    assert(a.take(i)[k + 1] == b.take(i)[k + 1]);
                }
                assert(ta.take(i - 1) =~= tb.take(i - 1));
                assert(text_before(ta, tb));
            }
        }
    }
}

/// Sorting in descending order is sorting in ascending order with every
/// pair of rows taken the other way round.
pub proof fn lemma_descending_reverses(col: SortColumn, a: PingTarget, b: PingTarget)
    ensures
        state_compare(TableState { sort_column: col, sort_order: SortOrder::Descending }, a, b)
            == state_compare(TableState { sort_column: col, sort_order: SortOrder::Ascending }, b, a),
{
    lemma_column_compare_props(col, a, b, a);
}

/// In ascending order each column orders rows by that column's own value:
/// the index; the host name in dictionary order by code point; the address,
/// IPv4 before IPv6 and each by value; the counts; the failure rate (failed
/// over sent, 0 before any ping); the last round trip, rows without one
/// first; the maximum, minimum and average round trips. A row comes first
/// exactly when its value is smaller, and two rows tie exactly when their
/// values are equal.
pub proof fn lemma_columns_order_by_their_values(col: SortColumn, a: PingTarget, b: PingTarget)
    ensures
        ({
            let c = state_compare(TableState { sort_column: col, sort_order: SortOrder::Ascending }, a, b);
            &&& col == SortColumn::Index ==> (c < 0 <==> a.index < b.index) && (c == 0 <==> a.index == b.index)
            &&& col == SortColumn::Hostname ==> (c < 0 <==> text_before(a.hostname@, b.hostname@))
                && (c == 0 <==> a.hostname@ == b.hostname@)
            &&& col == SortColumn::Ip ==> (c < 0 <==> match (a.ip, b.ip) {
                (IpAddress::V4(x), IpAddress::V4(y)) => x < y,
                (IpAddress::V4(_), IpAddress::V6(_)) => true,
                (IpAddress::V6(_), IpAddress::V4(_)) => false,
                (IpAddress::V6(x), IpAddress::V6(y)) => x < y,
            }) && (c == 0 <==> a.ip == b.ip)
            &&& col == SortColumn::SuccessCount ==> (c < 0 <==> a.stats.success_count < b.stats.success_count)
                && (c == 0 <==> a.stats.success_count == b.stats.success_count)
            &&& col == SortColumn::FailCount ==> (c < 0 <==> a.stats.fail_count < b.stats.fail_count)
                && (c == 0 <==> a.stats.fail_count == b.stats.fail_count)
            &&& col == SortColumn::TotalSent ==> (c < 0 <==> a.stats.total_sent < b.stats.total_sent)
                && (c == 0 <==> a.stats.total_sent == b.stats.total_sent)
            &&& col == SortColumn::FailRate ==> ({
                let (fa, sa) = if a.stats.total_sent == 0 {
                    (0int, 1int)
                } else {
                    (a.stats.fail_count as int, a.stats.total_sent as int)
                };
                let (fb, sb) = if b.stats.total_sent == 0 {
                    (0int, 1int)
                } else {
                    (b.stats.fail_count as int, b.stats.total_sent as int)
                };
                (c < 0 <==> fa * sb < fb * sa) && (c == 0 <==> fa * sb == fb * sa)
            })
            &&& col == SortColumn::LastRtt ==> (c < 0 <==> match (a.stats.last_rtt_us, b.stats.last_rtt_us) {
                (None, Some(_)) => true,
                (Some(x), Some(y)) => x < y,
                _ => false,
            }) && (c == 0 <==> a.stats.last_rtt_us == b.stats.last_rtt_us)
            &&& col == SortColumn::MaxRtt ==> (c < 0 <==> a.stats.max_rtt_us < b.stats.max_rtt_us)
                && (c == 0 <==> a.stats.max_rtt_us == b.stats.max_rtt_us)
            &&& col == SortColumn::MinRtt ==> (c < 0 <==> a.stats.min_rtt_us < b.stats.min_rtt_us)
                && (c == 0 <==> a.stats.min_rtt_us == b.stats.min_rtt_us)
            &&& col == SortColumn::AvgRtt ==> (c < 0 <==> a.stats.spec_avg_rtt_us() < b.stats.spec_avg_rtt_us())
                && (c == 0 <==> a.stats.spec_avg_rtt_us() == b.stats.spec_avg_rtt_us())
        }),
{
    lemma_compare_text_lexicographic(a.hostname@, b.hostname@);
}

fn sign_of_u64(a: u64, b: u64) -> (r: i8)
    ensures
        r == sign(a - b),
{
    if a < b {
        -1
    } else if a == b {
        0
    } else {
        1
    }
}

proof fn lemma_compare_text_skip(a: Seq<char>, b: Seq<char>, i: int)
    requires
        0 <= i < a.len(),
        i < b.len(),
        a[i] as u32 == b[i] as u32,
    ensures
        compare_text(a.skip(i), b.skip(i)) == compare_text(a.skip(i + 1), b.skip(i + 1)),
{
    assert(a.skip(i).drop_first() =~= a.skip(i + 1));
    assert(b.skip(i).drop_first() =~= b.skip(i + 1));
}

/// Compares two strings as `String`'s `Ord` does.
fn compare_strings(a: &String, b: &String) -> (r: i8)
    ensures
        r == compare_text(a@, b@),
{
    let x = chars_of(a.as_str());
    let y = chars_of(b.as_str());
    let mut i: usize = 0;
    proof {
        assert(x@.skip(0) =~= x@);
        assert(y@.skip(0) =~= y@);
    }
    while i < x.len() && i < y.len()
        invariant
            i <= x@.len(),
            i <= y@.len(),
            compare_text(a@, b@) == compare_text(x@.skip(i as int), y@.skip(i as int)),
            x@ == a@,
            y@ == b@,
        decreases x@.len() - i,
    {
        let cx = x[i] as u32;
        let cy = y[i] as u32;
        if cx < cy {
            return -1;
        }
        if cx > cy {
            return 1;
        }
        proof {
            lemma_compare_text_skip(x@, y@, i as int);
        }
        i = i + 1;
    }
    if i == x.len() && i == y.len() {
        0
    } else if i == x.len() {
        -1
    } else {
        1
    }
}

fn compare_ips(a: IpAddress, b: IpAddress) -> (r: i8)
    ensures
        r == compare_ip(a, b),
{
    match (a, b) {
        (IpAddress::V4(x), IpAddress::V4(y)) => if x < y {
            -1
        } else if x == y {
            0
        } else {
            1
        },
        (IpAddress::V4(_), IpAddress::V6(_)) => -1,
        (IpAddress::V6(_), IpAddress::V4(_)) => 1,
        (IpAddress::V6(x), IpAddress::V6(y)) => if x < y {
            -1
        } else if x == y {
            0
        } else {
            1
        },
    }
}

fn compare_opts(a: Option<u64>, b: Option<u64>) -> (r: i8)
    ensures
        r == compare_opt(a, b),
{
    match (a, b) {
        (None, None) => 0,
        (None, Some(_)) => -1,
        (Some(_), None) => 1,
        (Some(x), Some(y)) => sign_of_u64(x, y),
    }
}

fn rate_fraction(s: &PingStats) -> (r: (u128, u128))
    ensures
        r.0 == rate_num(*s),
        r.1 == rate_den(*s),
        r.0 <= u64::MAX,
        1 <= r.1 <= u64::MAX,
{
    if s.total_sent == 0 {
        (0, 1)
    } else {
        (s.fail_count as u128, s.total_sent as u128)
    }
}

fn compare_rates(a: &PingStats, b: &PingStats) -> (r: i8)
    ensures
        r == compare_rate(*a, *b),
{
    let (na, da) = rate_fraction(a);
    let (nb, db) = rate_fraction(b);
    proof {
        assert(na * db <= u64::MAX * u64::MAX) by (nonlinear_arith)
            requires
                na <= u64::MAX,
                db <= u64::MAX,
        ;
        assert(nb * da <= u64::MAX * u64::MAX) by (nonlinear_arith)
            requires
                nb <= u64::MAX,
                da <= u64::MAX,
        ;
    }
    let l = na * db;
    let r = nb * da;
    if l < r {
        -1
    } else if l == r {
        0
    } else {
        1
    }
}

/// Compares two targets under a table state.
pub fn compare_targets(state: &TableState, a: &PingTarget, b: &PingTarget) -> (r: i8)
    ensures
        r == state_compare(*state, *a, *b),
{
    let c: i8 = match state.sort_column {
        SortColumn::Index => if a.index < b.index {
            -1
        } else if a.index == b.index {
            0
        } else {
            1
        },
        SortColumn::Hostname => compare_strings(&a.hostname, &b.hostname),
        SortColumn::Ip => compare_ips(a.ip, b.ip),
        SortColumn::SuccessCount => sign_of_u64(a.stats.success_count, b.stats.success_count),
        SortColumn::FailCount => sign_of_u64(a.stats.fail_count, b.stats.fail_count),
        SortColumn::FailRate => compare_rates(&a.stats, &b.stats),
        SortColumn::TotalSent => sign_of_u64(a.stats.total_sent, b.stats.total_sent),
        SortColumn::LastRtt => compare_opts(a.stats.last_rtt_us, b.stats.last_rtt_us),
        SortColumn::MaxRtt => sign_of_u64(a.stats.max_rtt_us, b.stats.max_rtt_us),
        SortColumn::MinRtt => sign_of_u64(a.stats.min_rtt_us, b.stats.min_rtt_us),
        SortColumn::AvgRtt => sign_of_u64(a.stats.avg_rtt_us(), b.stats.avg_rtt_us()),
    };
    proof {
        lemma_cmp_bounds(state.sort_column, *a, *b);
    }
    match state.sort_order {
        SortOrder::Ascending => c,
        SortOrder::Descending => -c,
    }
}

proof fn lemma_cmp_bounds(col: SortColumn, a: PingTarget, b: PingTarget)
    ensures
        -1 <= column_compare(col, a, b) <= 1,
{
    if col == SortColumn::Hostname {
        lemma_compare_text_props(a.hostname@, b.hostname@, b.hostname@);
    }
}

/// How the targets at two positions of the target list compare under the
/// table state.
pub open spec fn index_compare(all: Seq<PingTarget>, state: TableState, x: usize, y: usize) -> int {
    state_compare(state, all[x as int], all[y as int])
}

/// Every index points into the target list.
pub open spec fn indices_in_range(all: Seq<PingTarget>, s: Seq<usize>) -> bool {
    forall|k: int| 0 <= k < s.len() ==> #[trigger] s[k] < all.len()
}

/// No index is followed by one whose target comes before it.
pub open spec fn indices_sorted(all: Seq<PingTarget>, state: TableState, s: Seq<usize>) -> bool {
    forall|p: int, q: int|
        0 <= p < q < s.len() ==> index_compare(all, state, #[trigger] s[p], #[trigger] s[q]) <= 0
}

/// The indices of `s`, in order, whose targets tie with the target of `w`.
pub open spec fn ties(all: Seq<PingTarget>, state: TableState, s: Seq<usize>, w: usize) -> Seq<usize>
    decreases s.len(),
{
    if s.len() == 0 {
        Seq::empty()
    } else {
        let rest = ties(all, state, s.drop_last(), w);
        if index_compare(all, state, s.last(), w) == 0 {
            rest.push(s.last())
        } else {
            rest
        }
    }
}

/// `r` is `s` sorted stably: the same indices, sorted, and indices whose
/// targets tie keep their order.
pub open spec fn stably_sorted(all: Seq<PingTarget>, state: TableState, s: Seq<usize>, r: Seq<usize>) -> bool {
    &&& indices_sorted(all, state, r)
    &&& r.to_multiset() == s.to_multiset()
    &&& forall|w: usize| #[trigger] ties(all, state, r, w) == ties(all, state, s, w)
}

proof fn lemma_ties_concat(all: Seq<PingTarget>, state: TableState, a: Seq<usize>, b: Seq<usize>, w: usize)
    ensures
        ties(all, state, a + b, w) == ties(all, state, a, w) + ties(all, state, b, w),
    decreases b.len(),
{
    if b.len() == 0 {
        assert(a + b =~= a);
        assert(ties(all, state, a, w) + ties(all, state, b, w) =~= ties(all, state, a, w));
    } else {
        lemma_ties_concat(all, state, a, b.drop_last(), w);
        assert((a + b).drop_last() =~= a + b.drop_last());
        assert((a + b).last() == b.last());
        if index_compare(all, state, b.last(), w) == 0 {
            assert(ties(all, state, a, w) + ties(all, state, b, w) =~= (ties(all, state, a, w)
                + ties(all, state, b.drop_last(), w)).push(b.last()));
        }
    }
}

proof fn lemma_ties_none(all: Seq<PingTarget>, state: TableState, s: Seq<usize>, w: usize)
    requires
        forall|k: int| 0 <= k < s.len() ==> index_compare(all, state, #[trigger] s[k], w) != 0,
    ensures
        ties(all, state, s, w) == Seq::<usize>::empty(),
    decreases s.len(),
{
    if s.len() > 0 {
        lemma_ties_none(all, state, s.drop_last(), w);
        assert(s.last() == s[s.len() - 1]);
    }
}

proof fn lemma_index_props(all: Seq<PingTarget>, state: TableState, x: usize, y: usize, z: usize)
    ensures
        index_compare(all, state, x, y) == -index_compare(all, state, y, x),
        index_compare(all, state, x, y) <= 0 && index_compare(all, state, y, z) <= 0
            ==> index_compare(all, state, x, z) <= 0,
        index_compare(all, state, x, y) < 0 && index_compare(all, state, y, z) <= 0
            ==> index_compare(all, state, x, z) < 0,
        index_compare(all, state, x, y) <= 0 && index_compare(all, state, y, z) < 0
            ==> index_compare(all, state, x, z) < 0,
{
    lemma_state_compare_props(state, all[x as int], all[y as int], all[z as int]);
}

/// Merges two stably sorted runs, `a` before `b`: on a tie the index from
/// `a` goes first.
fn merge(all: &[PingTarget], state: &TableState, a: Vec<usize>, b: Vec<usize>) -> (r: Vec<usize>)
    requires
        indices_in_range(all@, a@),
        indices_in_range(all@, b@),
        indices_sorted(all@, *state, a@),
        indices_sorted(all@, *state, b@),
    ensures
        indices_in_range(all@, r@),
        indices_sorted(all@, *state, r@),
        r@.to_multiset() == a@.to_multiset().add(b@.to_multiset()),
        forall|w: usize|
            #[trigger] ties(all@, *state, r@, w) == ties(all@, *state, a@, w) + ties(
                all@,
                *state,
                b@,
                w,
            ),
{
    broadcast use vstd::seq_lib::group_to_multiset_ensures;
    broadcast use vstd::multiset::group_multiset_axioms;
    let ghost st = *state;
    let ghost al = all@;
    let mut out: Vec<usize> = Vec::new();
    let mut i: usize = 0;
    let mut j: usize = 0;
    proof {
        assert(a@.take(0) =~= Seq::<usize>::empty());
        assert(b@.take(0) =~= Seq::<usize>::empty());
        assert forall|w: usize| #[trigger] ties(al, st, out@, w) == ties(al, st, a@.take(0), w) + ties(
            al,
            st,
            b@.take(0),
            w,
        ) by {
            assert(ties(al, st, a@.take(0), w) + ties(al, st, b@.take(0), w) =~= Seq::<usize>::empty());
        }
        assert(out@.to_multiset() =~= a@.take(0).to_multiset().add(b@.take(0).to_multiset()));
    }
    while i < a.len() || j < b.len()
        invariant
            i <= a@.len(),
            j <= b@.len(),
            st == *state,
            al == all@,
            indices_in_range(al, a@),
            indices_in_range(al, b@),
            indices_sorted(al, st, a@),
            indices_sorted(al, st, b@),
            indices_in_range(al, out@),
            indices_sorted(al, st, out@),
            out@.len() == i + j,
            out@.to_multiset() == a@.take(i as int).to_multiset().add(b@.take(j as int).to_multiset()),
            forall|w: usize|
                #[trigger] ties(al, st, out@, w) == ties(al, st, a@.take(i as int), w) + ties(
                    al,
                    st,
                    b@.take(j as int),
                    w,
                ),
            out@.len() > 0 && i < a@.len() ==> index_compare(al, st, out@.last(), a@[i as int]) <= 0,
            out@.len() > 0 && j < b@.len() ==> index_compare(al, st, out@.last(), b@[j as int]) <= 0,
            i < a@.len() ==> forall|k: int| 0 <= k < j ==> index_compare(al, st, #[trigger] b@[k], a@[i as int]) < 0,
        decreases a@.len() + b@.len() - i - j,
    {
        let take_a = if i == a.len() {
            false
        } else if j == b.len() {
            true
        } else {
            compare_targets(state, &all[a[i]], &all[b[j]]) <= 0
        };
        let ghost prev = out@;
        if take_a {
            let x = a[i];
            out.push(x);
            proof {
                assert(a@.take(i + 1) =~= a@.take(i as int).push(x));
                lemma_multiset_push(a@.take(i as int), x);
                assert(out@ =~= prev.push(x));
                lemma_multiset_push(prev, x);
                assert(out@.to_multiset() =~= a@.take(i + 1).to_multiset().add(
                    b@.take(j as int).to_multiset(),
                ));
                assert(a@.take(i + 1).drop_last() =~= a@.take(i as int));
                assert forall|p: int, q: int| 0 <= p < q < out@.len() implies index_compare(
                    al,
                    st,
                    #[trigger] out@[p],
                    #[trigger] out@[q],
                ) <= 0 by {
                    if q == out@.len() - 1 && p < q {
                        if p < prev.len() - 1 {
                            lemma_index_props(al, st, prev[p], prev.last(), x);
                        }
                    }
                }
                assert forall|w: usize| #[trigger] ties(al, st, out@, w) == ties(al, st, a@.take(i + 1), w)
                    + ties(al, st, b@.take(j as int), w) by {
                    if index_compare(al, st, x, w) == 0 {
                        assert forall|k: int| 0 <= k < b@.take(j as int).len() implies index_compare(
                            al,
                            st,
                            #[trigger] b@.take(j as int)[k],
                            w,
                        ) != 0 by {
                            lemma_index_props(al, st, b@[k], x, w);
                            lemma_index_props(al, st, x, w, b@[k]);
                        }
                        lemma_ties_none(al, st, b@.take(j as int), w);
                        assert(out@.drop_last() =~= prev);
                        assert(ties(al, st, out@, w) == ties(al, st, prev, w).push(x));
                        assert(ties(al, st, a@.take(i + 1), w) == ties(al, st, a@.take(i as int), w).push(x));
                        assert(ties(al, st, out@, w) =~= ties(al, st, a@.take(i + 1), w) + ties(al, st, b@.take(j as int), w));
                    } else {
                        assert(out@.drop_last() =~= prev);
                        assert(ties(al, st, out@, w) == ties(al, st, prev, w));
                        assert(ties(al, st, a@.take(i + 1), w) == ties(al, st, a@.take(i as int), w));
                    }
                }
                if i + 1 < a@.len() {
                    assert(index_compare(al, st, a@[i as int], a@[i + 1]) <= 0);
                    assert forall|k: int| 0 <= k < j implies index_compare(al, st, #[trigger] b@[k], a@[i + 1]) < 0 by {
                        lemma_index_props(al, st, b@[k], a@[i as int], a@[i + 1]);
                    }
                }
            }
            i = i + 1;
        } else {
            let y = b[j];
            out.push(y);
            proof {
                assert(b@.take(j + 1) =~= b@.take(j as int).push(y));
                lemma_multiset_push(b@.take(j as int), y);
                assert(out@ =~= prev.push(y));
                lemma_multiset_push(prev, y);
                assert(out@.to_multiset() =~= a@.take(i as int).to_multiset().add(
                    b@.take(j + 1).to_multiset(),
                ));
                if i < a@.len() {
                    lemma_index_props(al, st, a@[i as int], y, y);
                }
                assert forall|p: int, q: int| 0 <= p < q < out@.len() implies index_compare(
                    al,
                    st,
                    #[trigger] out@[p],
                    #[trigger] out@[q],
                ) <= 0 by {
                    if q == out@.len() - 1 && p < q {
                        if p < prev.len() - 1 {
                            lemma_index_props(al, st, prev[p], prev.last(), y);
                        }
                    }
                }
                assert forall|w: usize| #[trigger] ties(al, st, out@, w) == ties(al, st, a@.take(i as int), w)
                    + ties(al, st, b@.take(j + 1), w) by {
                    if index_compare(al, st, y, w) == 0 {
                        assert(out@.drop_last() =~= prev);
                        assert(b@.take(j + 1).drop_last() =~= b@.take(j as int));
                        assert(ties(al, st, out@, w) == ties(al, st, prev, w).push(y));
                        assert(ties(al, st, b@.take(j + 1), w) == ties(al, st, b@.take(j as int), w).push(y));
                        assert(ties(al, st, out@, w) =~= ties(al, st, a@.take(i as int), w) + ties(al, st, b@.take(j + 1), w));
                    } else {
                        assert(out@.drop_last() =~= prev);
                        assert(b@.take(j + 1).drop_last() =~= b@.take(j as int));
                        assert(ties(al, st, out@, w) == ties(al, st, prev, w));
                        assert(ties(al, st, b@.take(j + 1), w) == ties(al, st, b@.take(j as int), w));
                    }
                }
                if j + 1 < b@.len() {
                    assert(index_compare(al, st, b@[j as int], b@[j + 1]) <= 0);
                }
                if i < a@.len() {
                    assert forall|k: int| 0 <= k < j + 1 implies index_compare(al, st, #[trigger] b@[k], a@[i as int]) < 0 by {
                        if k == j {
                            lemma_index_props(al, st, y, a@[i as int], y);
                        }
                    }
                }
            }
            j = j + 1;
        }
    }
    proof {
        assert(a@.take(a@.len() as int) =~= a@);
        assert(b@.take(b@.len() as int) =~= b@);
    }
    out
}

proof fn lemma_multiset_push(s: Seq<usize>, x: usize)
    ensures
        s.push(x).to_multiset() == s.to_multiset().insert(x),
{
    broadcast use vstd::seq_lib::group_to_multiset_ensures;
}

/// Sorts indices stably by their targets under the table state.
fn merge_sort(all: &[PingTarget], state: &TableState, v: Vec<usize>) -> (r: Vec<usize>)
    requires
        indices_in_range(all@, v@),
    ensures
        indices_in_range(all@, r@),
        stably_sorted(all@, *state, v@, r@),
    decreases v@.len(),
{
    let n = v.len();
    if n <= 1 {
        return v;
    }
    let ghost whole = v@;
    let mid = n / 2;
    let mut left = v;
    let right = left.split_off(mid);
    proof {
        assert(whole =~= left@ + right@);
    }
    let l = merge_sort(all, state, left);
    let r = merge_sort(all, state, right);
    let m = merge(all, state, l, r);
    proof {
        broadcast use vstd::seq_lib::lemma_multiset_commutative;
        assert forall|w: usize| #[trigger] ties(all@, *state, m@, w) == ties(all@, *state, whole, w) by {
            lemma_ties_concat(all@, *state, left@, right@, w);
            assert(ties(all@, *state, l@, w) == ties(all@, *state, left@, w));
            assert(ties(all@, *state, r@, w) == ties(all@, *state, right@, w));
        }
    }
    m
}

/// Sorts the row order `targets` (positions in `all_targets`) by the table
/// state's column and direction. The sort is stable: rows whose targets tie
/// in that column keep their relative order.
pub fn sort_targets(targets: &mut [usize], all_targets: &[PingTarget], state: &TableState)
    requires
        indices_in_range(all_targets@, old(targets)@),
    ensures
        indices_in_range(all_targets@, final(targets)@),
        stably_sorted(all_targets@, *state, old(targets)@, final(targets)@),
{
    let n = targets.len();
    let mut v: Vec<usize> = Vec::new();
    let mut i: usize = 0;
    while i < n
        invariant
            i <= n,
            n == targets@.len(),
            v@ == targets@.take(i as int),
        decreases n - i,
    {
        v.push(targets[i]);
        assert(targets@.take(i + 1) =~= targets@.take(i as int).push(targets@[i as int]));
        i = i + 1;
    }
    assert(v@ =~= targets@);
    let sorted = merge_sort(all_targets, state, v);
    let ghost orig = targets@;
    assert(sorted@.len() == n) by {
        assert(sorted@.to_multiset().len() == orig.to_multiset().len());
        orig.to_multiset_ensures();
        sorted@.to_multiset_ensures();
    }
    let mut k: usize = 0;
    while k < n
        invariant
            k <= n,
            n == targets@.len(),
            sorted@.len() == n,
            forall|p: int| 0 <= p < k ==> targets@[p] == sorted@[p],
        decreases n - k,
    {
        targets[k] = sorted[k];
        k = k + 1;
    }
    assert(targets@ =~= sorted@);
}

proof fn lemma_sorted_agree(
    all: Seq<PingTarget>,
    state: TableState,
    r1: Seq<usize>,
    r2: Seq<usize>,
)
    requires
        indices_sorted(all, state, r1),
        indices_sorted(all, state, r2),
        r1.to_multiset() == r2.to_multiset(),
        forall|w: usize| #[trigger] ties(all, state, r1, w) == ties(all, state, r2, w),
    ensures
        r1 == r2,
    decreases r1.len(),
{
    broadcast use vstd::seq_lib::group_to_multiset_ensures;
    broadcast use vstd::multiset::group_multiset_axioms;
    r1.to_multiset_ensures();
    r2.to_multiset_ensures();
    assert(r1.len() == r2.len());
    if r1.len() == 0 {
        assert(r1 =~= r2);
    } else {
        let n = r1.len();
        let x = r1.last();
        let y = r2.last();
        // y occurs in r1, so it does not come after x; and the other way round.
        assert(r2.to_multiset().count(y) > 0) by {
            assert(r2.contains(y)) by {
                assert(r2[n - 1] == y);
            }
        }
        assert(r1.contains(y));
        let p = choose|p: int| 0 <= p < n && r1[p] == y;
        if p < n - 1 {
            assert(index_compare(all, state, r1[p], r1[n - 1]) <= 0);
        }
        lemma_index_props(all, state, y, x, y);
        lemma_index_props(all, state, x, x, x);
        assert(r1.to_multiset().count(x) > 0) by {
            assert(r1[n - 1] == x);
        }
        assert(r2.contains(x));
        let q = choose|q: int| 0 <= q < n && r2[q] == x;
        if q < n - 1 {
            assert(index_compare(all, state, r2[q], r2[n - 1]) <= 0);
        }
        lemma_index_props(all, state, x, y, x);
        assert(index_compare(all, state, y, x) == 0);
        // The last tie of x is x in r1 and y in r2.
        assert(ties(all, state, r1, x) == ties(all, state, r1.drop_last(), x).push(x));
        assert(ties(all, state, r2, x) == ties(all, state, r2.drop_last(), x).push(y));
        assert(ties(all, state, r1, x) == ties(all, state, r2, x));
        assert(ties(all, state, r1, x).last() == x);
        assert(ties(all, state, r2, x).last() == y);
        assert(x == y);
        let s1 = r1.drop_last();
        let s2 = r2.drop_last();
        assert(r1 =~= s1.push(x));
        assert(r2 =~= s2.push(x));
        assert(s1.to_multiset() =~= s2.to_multiset()) by {
            assert(r1.to_multiset() == s1.to_multiset().insert(x));
            assert(r2.to_multiset() == s2.to_multiset().insert(x));
            assert(s1.to_multiset() =~= r1.to_multiset().remove(x));
            assert(s2.to_multiset() =~= r2.to_multiset().remove(x));
        }
        assert forall|w: usize| #[trigger] ties(all, state, s1, w) == ties(all, state, s2, w) by {
            assert(ties(all, state, r1, w) == ties(all, state, r2, w));
            if index_compare(all, state, x, w) == 0 {
                assert(ties(all, state, s1, w) =~= ties(all, state, r1, w).drop_last());
                assert(ties(all, state, s2, w) =~= ties(all, state, r2, w).drop_last());
            }
        }
        lemma_sorted_agree(all, state, s1, s2);
    }
}

/// The stable sort of a row order is unique: two results that are both the
/// stable sort of the same rows are the same.
pub proof fn lemma_stable_sort_unique(
    all: Seq<PingTarget>,
    state: TableState,
    s: Seq<usize>,
    r1: Seq<usize>,
    r2: Seq<usize>,
)
    requires
        stably_sorted(all, state, s, r1),
        stably_sorted(all, state, s, r2),
    ensures
        r1 == r2,
{
    assert forall|w: usize| #[trigger] ties(all, state, r1, w) == ties(all, state, r2, w) by {
        assert(ties(all, state, r1, w) == ties(all, state, s, w));
        assert(ties(all, state, r2, w) == ties(all, state, s, w));
    }
    lemma_sorted_agree(all, state, r1, r2);
}

/// Sorting the rows a second time by the same column and direction leaves
/// them as they are.
pub proof fn lemma_sort_idempotent(
    all: Seq<PingTarget>,
    state: TableState,
    s: Seq<usize>,
    r: Seq<usize>,
    r2: Seq<usize>,
)
    requires
        stably_sorted(all, state, s, r),
        stably_sorted(all, state, r, r2),
    ensures
        r2 == r,
{
    assert forall|w: usize| #[trigger] ties(all, state, r2, w) == ties(all, state, r, w) by {
        assert(ties(all, state, r2, w) == ties(all, state, r, w));
    }
    lemma_sorted_agree(all, state, r2, r);
}

/// The status shown for a row: -1 before any ping, 0 when no ping failed, 2
/// when none succeeded, 1 when some did and some did not.
pub open spec fn spec_row_status(s: PingStats) -> int {
    if s.total_sent == 0 {
        -1
    } else if s.fail_count == 0 {
        0
    } else if s.success_count == 0 {
        2
    } else {
        1
    }
}

pub fn row_status(stats: &PingStats) -> (r: i32)
    ensures
        r == spec_row_status(*stats),
{
    if stats.total_sent == 0 {
        -1
    } else if stats.fail_count == 0 {
        0
    } else if stats.success_count == 0 {
        2
    } else {
        1
    }
}

} // verus!
