//! Rounds of measurements and what is computed from them.
use crate::double;
use crate::double::Double;
use crate::time::Duration;
use crate::config::ProbeConfig;
use crate::probe::dns::DnsProbe;
use crate::probe::exec::ExecProbe;
use crate::probe::http::HttpProbe;
use crate::probe::icmp::IcmpProbe;
use crate::probe::phoenix::PhoenixProbe;
use crate::probe::tcp::TcpProbe;
use crate::text;
use crate::text::{quoted, said, to_upper};
use vstd::arithmetic::power2::*;
use vstd::prelude::*;
use vstd::string::*;

pub mod dns;
pub mod exec;
pub mod http;
pub mod icmp;
pub mod phoenix;
pub mod tcp;

verus! {

/// An IP address.
#[derive(Clone, Copy, Debug, PartialEq, Eq, Structural)]
pub enum IpAddr {
    V4(u32),
    V6(u128),
}

impl IpAddr {
    pub fn is_ipv4(self) -> (r: bool)
        ensures
            r == (self is V4),
    {
        match self {
            IpAddr::V4(_) => true,
            IpAddr::V6(_) => false,
        }
    }

    /// Whether this is the address of no host.
    pub fn is_unspecified(self) -> (r: bool)
        ensures
            r == (self == IpAddr::V4(0) || self == IpAddr::V6(0)),
    {
        match self {
            IpAddr::V4(a) => a == 0,
            IpAddr::V6(a) => a == 0,
        }
    }
}

/// Result of one measurement round against a single target.
#[derive(Debug)]
pub struct RoundResult {
    /// Slash-separated path of the target in the config tree.
    pub target: String,
    pub host: String,
    pub addr: IpAddr,
    /// Wall-clock time the round started, since the epoch; None where the
    /// clock was set before it.
    pub started: Option<Duration>,
    pub sent: u32,
    /// RTTs of the replies that came back, in send order.
    pub rtts: Vec<Duration>,
}

/// A sorted sequence with one more span in its place.
pub open spec fn inserted(s: Seq<Duration>, d: Duration) -> Seq<Duration>
    decreases s.len(),
{
    if s.len() == 0 || s.last().nanos <= d.nanos {
        s.push(d)
    } else {
        inserted(s.drop_last(), d).push(s.last())
    }
}

/// The spans in ascending order.
pub open spec fn sorted(s: Seq<Duration>) -> Seq<Duration>
    decreases s.len(),
{
    if s.len() == 0 {
        Seq::empty()
    } else {
        inserted(sorted(s.drop_last()), s.last())
    }
}

pub open spec fn ascending(s: Seq<Duration>) -> bool {
    forall|i: int, j: int|
        0 <= i < j < s.len() ==> (#[trigger] s[i]).nanos <= (#[trigger] s[j]).nanos
}

/// The sum of the spans in nanoseconds.
pub open spec fn total(s: Seq<Duration>) -> nat
    decreases s.len(),
{
    if s.len() == 0 {
        0
    } else {
        total(s.drop_last()) + s.last().nanos as nat
    }
}

proof fn lemma_inserted(s: Seq<Duration>, d: Duration)
    requires
        ascending(s),
    ensures
        ascending(inserted(s, d)),
        inserted(s, d).len() == s.len() + 1,
        inserted(s, d).to_multiset() =~= s.to_multiset().insert(d),
        forall|i: int|
            0 <= i < inserted(s, d).len() ==> (#[trigger] inserted(s, d)[i]).nanos <= d.nanos || (
            s.len() > 0 && inserted(s, d)[i].nanos <= s.last().nanos),
    decreases s.len(),
{
    broadcast use vstd::seq_lib::group_to_multiset_ensures;

    if s.len() == 0 || s.last().nanos <= d.nanos {
        let r = s.push(d);
        assert forall|i: int, j: int| 0 <= i < j < r.len() implies (#[trigger] r[i]).nanos
            <= (#[trigger] r[j]).nanos by {
            if j == s.len() && s.len() > 0 && i < s.len() - 1 {
                assert(s[i].nanos <= s[s.len() - 1].nanos);
            }
        }
        assert forall|i: int| 0 <= i < r.len() implies (#[trigger] r[i]).nanos <= d.nanos by {
            if i < s.len() - 1 {
                assert(s[i].nanos <= s[s.len() - 1].nanos);
            }
        }
    } else {
        let t = s.drop_last();
        lemma_inserted(t, d);
        let u = inserted(t, d);
        let r = u.push(s.last());
        assert(t.push(s.last()) == s);
        assert(t.len() > 0 ==> t.last().nanos <= s.last().nanos) by {
            if t.len() > 0 {
                assert(s[t.len() - 1].nanos <= s[s.len() - 1].nanos);
            }
        }
        assert(r.to_multiset() =~= s.to_multiset().insert(d));
    }
}

proof fn lemma_sorted(s: Seq<Duration>)
    ensures
        ascending(sorted(s)),
        sorted(s).len() == s.len(),
        sorted(s).to_multiset() =~= s.to_multiset(),
    decreases s.len(),
{
    broadcast use vstd::seq_lib::group_to_multiset_ensures;

    if s.len() > 0 {
        lemma_sorted(s.drop_last());
        lemma_inserted(sorted(s.drop_last()), s.last());
        assert(s.drop_last().push(s.last()) == s);
    } else {
        assert(s == Seq::<Duration>::empty());
    }
}

/// The shortest span.
pub open spec fn least(s: Seq<Duration>) -> Option<Duration>
    decreases s.len(),
{
    if s.len() == 0 {
        None
    } else {
        match least(s.drop_last()) {
            Some(d) if d.nanos <= s.last().nanos => Some(d),
            _ => Some(s.last()),
        }
    }
}

/// The longest span.
pub open spec fn greatest(s: Seq<Duration>) -> Option<Duration>
    decreases s.len(),
{
    if s.len() == 0 {
        None
    } else {
        match greatest(s.drop_last()) {
            Some(d) if d.nanos >= s.last().nanos => Some(d),
            _ => Some(s.last()),
        }
    }
}

/// The span in the middle, or halfway between the two in the middle.
pub open spec fn middle(s: Seq<Duration>) -> Option<Duration> {
    let n = s.len() as int;
    if n == 0 {
        None
    } else if n % 2 == 1 {
        Some(s[n / 2])
    } else {
        Some(Duration { nanos: ((s[n / 2 - 1].nanos + s[n / 2].nanos) / 2) as u128 })
    }
}

impl RoundResult {
    /// What holds of every round that was measured: no more replies than
    /// pings, and a start that the clock can show.
    pub open spec fn wf(self) -> bool {
        &&& self.rtts@.len() <= u32::MAX
        &&& self.sent == 0 || self.rtts@.len() <= self.sent
        &&& self.started matches Some(d) ==> d.nanos / crate::time::NANOS_PER_SEC <= i64::MAX
    }

    /// Whether the sum of the reply times can be counted in nanoseconds.
    pub fn has_total(&self) -> (ok: bool)
        ensures
            ok == (total(self.rtts@) <= u128::MAX),
    {
        let mut sum: u128 = 0;
        let mut i: usize = 0;
        assert(self.rtts@.take(0) =~= Seq::empty());
        while i < self.rtts.len()
            invariant
                i <= self.rtts@.len(),
                sum == total(self.rtts@.take(i as int)),
            decreases self.rtts@.len() - i,
        {
            proof {
                assert(self.rtts@.take(i + 1).drop_last() == self.rtts@.take(i as int));
                assert(self.rtts@.take(i + 1).last() == self.rtts@[i as int]);
                lemma_total(self.rtts@, i + 1);
            }
            match sum.checked_add(self.rtts[i].nanos) {
                Some(next) => {
                    sum = next;
                },
                None => {
                    return false;
                },
            }
            i = i + 1;
        }
        assert(self.rtts@.take(i as int) == self.rtts@);
        true
    }

    /// Whole seconds from the epoch to the start.
    pub open spec fn start_secs(self) -> Option<nat> {
        match self.started {
            Some(d) => Some((d.nanos / crate::time::NANOS_PER_SEC) as nat),
            None => None,
        }
    }

    pub open spec fn loss(self) -> Double {
        if self.sent == 0 {
            Double { bits: 0 }
        } else {
            double::quotient(
                double::product(
                    double::of_int(100),
                    double::of_int((self.sent - self.rtts@.len()) as nat),
                ),
                double::of_int(self.sent as nat),
            )
        }
    }

    pub open spec fn middle(self) -> Option<Duration> {
        middle(sorted(self.rtts@))
    }

    /// Whether the round is one that can have been measured.
    pub fn is_valid(&self) -> (r: bool)
        ensures
            r == self.wf(),
    {
        let n: usize = self.rtts.len();
        let start_ok = match self.started {
            Some(d) => d.nanos / crate::time::NANOS_PER_SEC <= i64::MAX as u128,
            None => true,
        };
        n as u128 <= u32::MAX as u128 && (self.sent == 0 || n as u128 <= self.sent as u128)
            && start_ok
    }

    pub fn received(&self) -> (n: u32)
        requires
            self.wf(),
        ensures
            n == self.rtts@.len(),
    {
        self.rtts.len() as u32
    }

    /// The share of pings without a reply, in percent; 0 where none was sent.
    pub fn loss_pct(&self) -> (r: Double)
        requires
            self.wf(),
        ensures
            r == self.loss(),
    {
        if self.sent == 0 {
            return Double { bits: 0 };
        }
        let lost: u32 = self.sent - self.received();
        Double::from_u64(100).times(Double::from_u64(lost as u64)).over(
            Double::from_u64(self.sent as u64),
        )
    }

    /// RTTs sorted ascending — the layout the smoke store keeps.
    pub fn sorted_rtts(&self) -> (v: Vec<Duration>)
        ensures
            v@ == sorted(self.rtts@),
            ascending(v@),
            v@.to_multiset() == self.rtts@.to_multiset(),
    {
        let mut out: Vec<Duration> = Vec::new();
        let mut i: usize = 0;
        assert(self.rtts@.take(0) == Seq::<Duration>::empty());
        while i < self.rtts.len()
            invariant
                i <= self.rtts@.len(),
                out@ == sorted(self.rtts@.take(i as int)),
            decreases self.rtts@.len() - i,
        {
            assert(self.rtts@.take(i + 1).drop_last() == self.rtts@.take(i as int));
            insert_into(&mut out, self.rtts[i]);
            i = i + 1;
        }
        assert(self.rtts@.take(i as int) == self.rtts@);
        proof {
            lemma_sorted(self.rtts@);
        }
        out
    }

    /// The fastest reply.
    pub fn min(&self) -> (r: Option<Duration>)
        ensures
            r == least(self.rtts@),
            r is Some <==> self.rtts@.len() > 0,
            r matches Some(d) ==> self.rtts@.contains(d) && forall|i: int|
                0 <= i < self.rtts@.len() ==> d.nanos <= (#[trigger] self.rtts@[i]).nanos,
    {
        if self.rtts.len() == 0 {
            return None;
        }
        let mut best = self.rtts[0];
        let mut i: usize = 1;
        proof {
            assert(self.rtts@.take(1).drop_last() == Seq::<Duration>::empty());
            reveal_with_fuel(least, 2);
        }
        while i < self.rtts.len()
            invariant
                1 <= i <= self.rtts@.len(),
                self.rtts@.contains(best),
                least(self.rtts@.take(i as int)) == Some(best),
                forall|j: int| 0 <= j < i ==> best.nanos <= (#[trigger] self.rtts@[j]).nanos,
            decreases self.rtts@.len() - i,
        {
            assert(self.rtts@.take(i + 1).drop_last() == self.rtts@.take(i as int));
            if self.rtts[i].nanos < best.nanos {
                best = self.rtts[i];
            }
            i = i + 1;
        }
        assert(self.rtts@.take(i as int) == self.rtts@);
        Some(best)
    }

    /// The slowest reply.
    pub fn max(&self) -> (r: Option<Duration>)
        ensures
            r == greatest(self.rtts@),
            r is Some <==> self.rtts@.len() > 0,
            r matches Some(d) ==> self.rtts@.contains(d) && forall|i: int|
                0 <= i < self.rtts@.len() ==> d.nanos >= (#[trigger] self.rtts@[i]).nanos,
    {
        if self.rtts.len() == 0 {
            return None;
        }
        let mut best = self.rtts[0];
        let mut i: usize = 1;
        proof {
            assert(self.rtts@.take(1).drop_last() == Seq::<Duration>::empty());
            reveal_with_fuel(greatest, 2);
        }
        while i < self.rtts.len()
            invariant
                1 <= i <= self.rtts@.len(),
                self.rtts@.contains(best),
                greatest(self.rtts@.take(i as int)) == Some(best),
                forall|j: int| 0 <= j < i ==> best.nanos >= (#[trigger] self.rtts@[j]).nanos,
            decreases self.rtts@.len() - i,
        {
            assert(self.rtts@.take(i + 1).drop_last() == self.rtts@.take(i as int));
            if self.rtts[i].nanos > best.nanos {
                best = self.rtts[i];
            }
            i = i + 1;
        }
        assert(self.rtts@.take(i as int) == self.rtts@);
        Some(best)
    }

    /// The mean of the replies, to the nanosecond below.
    pub fn avg(&self) -> (r: Option<Duration>)
        requires
            total(self.rtts@) <= u128::MAX,
        ensures
            r is Some <==> self.rtts@.len() > 0,
            r matches Some(d) ==> d.nanos == total(self.rtts@) / self.rtts@.len(),
    {
        if self.rtts.len() == 0 {
            return None;
        }
        let mut sum: u128 = 0;
        let mut i: usize = 0;
        assert(self.rtts@.take(0) == Seq::<Duration>::empty());
        while i < self.rtts.len()
            invariant
                i <= self.rtts@.len(),
                total(self.rtts@) <= u128::MAX,
                sum == total(self.rtts@.take(i as int)),
            decreases self.rtts@.len() - i,
        {
            assert(self.rtts@.take(i + 1).drop_last() == self.rtts@.take(i as int));
            proof {
                lemma_total(self.rtts@, i + 1);
            }
            sum = sum + self.rtts[i].nanos;
            i = i + 1;
        }
        assert(self.rtts@.take(i as int) == self.rtts@);
        Some(Duration { nanos: sum / self.rtts.len() as u128 })
    }

    /// The span in the middle of the sorted replies, or halfway between the
    /// two in the middle.
    pub fn median(&self) -> (r: Option<Duration>)
        ensures
            r == self.middle(),
    {
        let s = self.sorted_rtts();
        let n: usize = s.len();
        if n == 0 {
            None
        } else if n % 2 == 1 {
            Some(s[n / 2])
        } else {
            let a: u128 = s[n / 2 - 1].nanos;
            let b: u128 = s[n / 2].nanos;
            Some(Duration { nanos: a / 2 + b / 2 + (a % 2 + b % 2) / 2 })
        }
    }

    /// Whole seconds from the epoch to the start; 0 where the clock was set
    /// before it.
    pub fn started_secs(&self) -> (r: i64)
        requires
            self.wf(),
        ensures
            r == (match self.start_secs() {
                Some(s) => s as int,
                None => 0,
            }),
    {
        match self.started {
            Some(d) => (d.nanos / crate::time::NANOS_PER_SEC) as i64,
            None => 0,
        }
    }
}

proof fn lemma_total(s: Seq<Duration>, k: int)
    requires
        0 <= k <= s.len(),
    ensures
        total(s.take(k)) <= total(s),
    decreases s.len() - k,
{
    if k < s.len() {
        lemma_total(s.drop_last(), k);
        assert(s.drop_last().take(k) == s.take(k));
    } else {
        assert(s.take(k) == s);
    }
}

// ---- laws of the statistics ----

/// So many of the spans meet a condition.
pub open spec fn how_many(s: Seq<Duration>, test: spec_fn(Duration) -> bool) -> nat {
    s.filter(test).len()
}

/// The span is the `k`th shortest, counted from one: fewer than `k` are
/// shorter, and `k` at least are no longer.
pub open spec fn kth_shortest(s: Seq<Duration>, k: int, x: Duration) -> bool {
    &&& s.contains(x)
    &&& how_many(s, |d: Duration| d.nanos < x.nanos) < k
    &&& k <= how_many(s, |d: Duration| d.nanos <= x.nanos)
}

/// The median stands in the middle of the replies. Of an odd number it is the
/// reply with as many before it as behind it; of an even number it lies between
/// the two in the middle, as far from the one as from the other to the
/// nanosecond. Half of the replies at least are no slower than it is when
/// rounded up, and half at least no faster than it is.
pub proof fn the_median_is_in_the_middle(r: RoundResult)
    ensures
        r.middle() is Some <==> r.rtts@.len() > 0,
        r.middle() matches Some(m) ==> {
            let n = r.rtts@.len();
            &&& n % 2 == 1 ==> kth_shortest(r.rtts@, n as int / 2 + 1, m)
            &&& n % 2 == 0 ==> exists|a: Duration, b: Duration|
                {
                    &&& #[trigger] kth_shortest(r.rtts@, n as int / 2, a)
                    &&& #[trigger] kth_shortest(r.rtts@, n as int / 2 + 1, b)
                    &&& a.nanos <= m.nanos <= b.nanos
                    &&& (m.nanos - a.nanos == b.nanos - m.nanos || m.nanos - a.nanos + 1
                        == b.nanos - m.nanos)
                }
            &&& 2 * how_many(r.rtts@, |d: Duration| d.nanos <= m.nanos + 1) >= n
            &&& 2 * how_many(r.rtts@, |d: Duration| d.nanos >= m.nanos) >= n
        },
{
    let s = r.rtts@;
    let t = sorted(s);
    let n = s.len() as int;
    lemma_sorted(s);
    if n > 0 {
        let m = r.middle()->0;
        if n % 2 == 1 {
            lemma_kth(s, n / 2 + 1);
        } else {
            lemma_kth(s, n / 2);
            lemma_kth(s, n / 2 + 1);
            let (a, b) = (t[n / 2 - 1], t[n / 2]);
            assert(a.nanos <= b.nanos);
            assert(kth_shortest(s, n / 2, a) && kth_shortest(s, n / 2 + 1, b));
        }
        let low = |d: Duration| d.nanos <= m.nanos + 1;
        let high = |d: Duration| d.nanos >= m.nanos;
        let half = if n % 2 == 1 {
            n / 2 + 1
        } else {
            n / 2
        };
        assert forall|i: int| 0 <= i < half implies low(#[trigger] t[i]) by {
            if i < half - 1 {
                assert(t[i].nanos <= t[half - 1].nanos);
            }
        }
        assert forall|i: int| n - half <= i < n implies high(#[trigger] t[i]) by {
            if i > n - half {
                assert(t[n - half].nanos <= t[i].nanos);
            }
        }
        lemma_filtered_sorted(s, low);
        lemma_filtered_sorted(s, high);
        lemma_first_filtered(t, low, half);
        lemma_last_filtered(t, high, half);
    }
}

/// The `k`th of the sorted spans is the `k`th shortest.
pub proof fn lemma_kth(s: Seq<Duration>, k: int)
    requires
        1 <= k <= s.len(),
    ensures
        kth_shortest(s, k, sorted(s)[k - 1]),
{
    broadcast use vstd::seq_lib::group_to_multiset_ensures;

    let t = sorted(s);
    lemma_sorted(s);
    let x = t[k - 1];
    assert(t.contains(x));
    assert(t.to_multiset().contains(x));
    assert(s.to_multiset().contains(x));
    let shorter = |d: Duration| d.nanos < x.nanos;
    let up_to = |d: Duration| d.nanos <= x.nanos;
    assert forall|i: int| 0 <= i < k implies up_to(#[trigger] t[i]) by {
        if i < k - 1 {
            assert(t[i].nanos <= t[k - 1].nanos);
        }
    }
    assert forall|i: int| k - 1 <= i < t.len() implies !shorter(#[trigger] t[i]) by {
        if i > k - 1 {
            assert(t[k - 1].nanos <= t[i].nanos);
        }
    }
    lemma_filtered_sorted(s, up_to);
    lemma_filtered_sorted(s, shorter);
    lemma_first_filtered(t, up_to, k);
    lemma_no_more_filtered(t, shorter, k - 1);
}

pub proof fn lemma_sorted_len(s: Seq<Duration>)
    ensures
        sorted(s).len() == s.len(),
{
    lemma_sorted(s);
}

/// Sorting changes no count.
proof fn lemma_filtered_sorted(s: Seq<Duration>, test: spec_fn(Duration) -> bool)
    ensures
        sorted(s).filter(test).len() == s.filter(test).len(),
    decreases s.len(),
{
    reveal(Seq::filter);
    if s.len() > 0 {
        lemma_filtered_sorted(s.drop_last(), test);
        lemma_filtered_inserted(sorted(s.drop_last()), s.last(), test);
    }
}

proof fn lemma_filtered_inserted(s: Seq<Duration>, d: Duration, test: spec_fn(Duration) -> bool)
    ensures
        inserted(s, d).filter(test).len() == s.filter(test).len() + (if test(d) {
            1int
        } else {
            0
        }),
    decreases s.len(),
{
    reveal(Seq::filter);
    if s.len() == 0 || s.last().nanos <= d.nanos {
        assert(s.push(d).drop_last() =~= s);
    } else {
        lemma_filtered_inserted(s.drop_last(), d, test);
        let u = inserted(s.drop_last(), d);
        assert(u.push(s.last()).drop_last() =~= u);
    }
}

proof fn lemma_first_filtered(t: Seq<Duration>, test: spec_fn(Duration) -> bool, k: int)
    requires
        0 <= k <= t.len(),
        forall|i: int| 0 <= i < k ==> test(#[trigger] t[i]),
    ensures
        t.filter(test).len() >= k,
    decreases t.len(),
{
    reveal(Seq::filter);
    if t.len() > 0 {
        let rest = t.drop_last();
        let fewer = if k < t.len() {
            k
        } else {
            k - 1
        };
        assert forall|i: int| 0 <= i < fewer implies test(#[trigger] rest[i]) by {
            assert(rest[i] == t[i]);
        }
        lemma_first_filtered(rest, test, fewer);
        if k == t.len() {
            assert(test(t[k - 1]));
        }
    }
}

proof fn lemma_last_filtered(t: Seq<Duration>, test: spec_fn(Duration) -> bool, k: int)
    requires
        0 <= k <= t.len(),
        forall|i: int| t.len() - k <= i < t.len() ==> test(#[trigger] t[i]),
    ensures
        t.filter(test).len() >= k,
    decreases t.len(),
{
    reveal(Seq::filter);
    if k > 0 {
        let rest = t.drop_last();
        assert forall|i: int| rest.len() - (k - 1) <= i < rest.len() implies test(
            #[trigger] rest[i],
        ) by {
            assert(rest[i] == t[i]);
        }
        lemma_last_filtered(rest, test, k - 1);
        assert(test(t[t.len() - 1]));
    }
}

proof fn lemma_no_more_filtered(t: Seq<Duration>, test: spec_fn(Duration) -> bool, k: int)
    requires
        0 <= k <= t.len(),
        forall|i: int| k <= i < t.len() ==> !test(#[trigger] t[i]),
    ensures
        t.filter(test).len() <= k,
    decreases t.len(),
{
    reveal(Seq::filter);
    if k < t.len() {
        let rest = t.drop_last();
        assert forall|i: int| k <= i < rest.len() implies !test(#[trigger] rest[i]) by {
            assert(rest[i] == t[i]);
        }
        lemma_no_more_filtered(rest, test, k);
        assert(!test(t[t.len() - 1]));
    } else {
        t.lemma_filter_len(test);
    }
}

/// The loss of a round is the percentage of its pings that got no reply, as
/// near as a double comes to it.
pub proof fn loss_is_the_share_without_a_reply(r: RoundResult)
    requires
        r.wf(),
        r.sent > 0,
    ensures
        !r.loss().nan(),
        !r.loss().negative(),
        double::nearest(
            (100 * (r.sent - r.rtts@.len()) * pow2(1074)) as nat,
            r.sent as nat,
            r.loss().abs_bits(),
        ),
{
    let lost = (r.sent - r.rtts@.len()) as nat;
    double::lemma_times_int(100, lost);
    double::lemma_ratio(100 * lost, r.sent as nat);
}

/// Sorting keeps every reply, each as often as it came, and puts the faster
/// before the slower.
pub proof fn sorting_keeps_every_reply(s: Seq<Duration>)
    ensures
        sorted(s).to_multiset() == s.to_multiset(),
        forall|i: int, j: int|
            0 <= i < j < sorted(s).len() ==> (#[trigger] sorted(s)[i]).nanos <= (
            #[trigger] sorted(s)[j]).nanos,
{
    lemma_sorted(s);
}

/// The total of some spans is that of its parts, and that of one span is the
/// span.
pub proof fn totals_add_up(a: Seq<Duration>, b: Seq<Duration>, d: Duration)
    ensures
        total(a + b) == total(a) + total(b),
        total(seq![d]) == d.nanos,
        total(Seq::empty()) == 0,
    decreases b.len(),
{
    reveal_with_fuel(total, 2);
    assert(seq![d].drop_last() =~= Seq::empty());
    if b.len() == 0 {
        assert(a + b =~= a);
    } else {
        totals_add_up(a, b.drop_last(), d);
        assert((a + b).drop_last() =~= a + b.drop_last());
    }
}

/// The fastest reply is one of the replies and none is faster; the slowest is
/// one of them and none is slower.
pub proof fn no_reply_is_out_of_bounds(s: Seq<Duration>)
    ensures
        least(s) is Some <==> s.len() > 0,
        greatest(s) is Some <==> s.len() > 0,
        least(s) matches Some(d) ==> s.contains(d) && forall|i: int|
            0 <= i < s.len() ==> d.nanos <= (#[trigger] s[i]).nanos,
        greatest(s) matches Some(d) ==> s.contains(d) && forall|i: int|
            0 <= i < s.len() ==> d.nanos >= (#[trigger] s[i]).nanos,
    decreases s.len(),
{
    if s.len() > 0 {
        let rest = s.drop_last();
        no_reply_is_out_of_bounds(rest);
        assert(s[s.len() - 1] == s.last());
        if rest.len() > 0 {
            let (a, b) = (least(rest)->0, greatest(rest)->0);
            let i = choose|i: int| 0 <= i < rest.len() && rest[i] == a;
            assert(s[i] == a);
            let j = choose|j: int| 0 <= j < rest.len() && rest[j] == b;
            assert(s[j] == b);
        }
        assert forall|i: int| 0 <= i < s.len() implies least(s)->0.nanos <= (#[trigger] s[i]).nanos
            && greatest(s)->0.nanos >= s[i].nanos by {
            if i < rest.len() {
                assert(rest[i] == s[i]);
            }
        }
    }
}

fn insert_into(v: &mut Vec<Duration>, d: Duration)
    ensures
        final(v)@ == inserted(old(v)@, d),
{
    let ghost start = v@;
    let mut i: usize = v.len();
    assert(start.take(i as int) == start);
    assert(inserted(start, d) == inserted(start.take(i as int), d) + start.skip(i as int));
    while i > 0 && v[i - 1].nanos > d.nanos
        invariant
            v@ == start,
            i <= start.len(),
            inserted(start, d) == inserted(start.take(i as int), d) + start.skip(i as int),
        decreases i,
    {
        let ghost t = start.take(i as int);
        assert(t.drop_last() == start.take(i - 1));
        assert(inserted(t, d) == inserted(start.take(i - 1), d).push(start[i - 1]));
        assert(inserted(start.take(i - 1), d).push(start[i - 1]) + start.skip(i as int) == inserted(
            start.take(i - 1),
            d,
        ) + start.skip(i - 1));
        i = i - 1;
    }
    v.insert(i, d);
    assert(inserted(start.take(i as int), d) == start.take(i as int).push(d));
    assert(start.insert(i as int, d) == start.take(i as int).push(d) + start.skip(i as int));
}

/// Where a round stands with the ping it is at.
#[derive(Clone, Copy, Debug, PartialEq, Eq, Structural)]
pub enum Phase {
    /// The next ping is not sent yet.
    Idle,
    /// Sent, no reply yet.
    Waiting,
    Answered,
}

/// A round in progress: one ping after the other, each with at most one reply.
#[derive(Debug)]
pub struct Round {
    /// Pings that the round counts as sent.
    pub pings: u32,
    /// The ping that the round is at.
    pub seq: u32,
    pub phase: Phase,
    /// No more pings: the connection is gone.
    pub over: bool,
    pub rtts: Vec<Duration>,
    pub timeout: Duration,
    pub interval: Duration,
}

/// What is left of a span after some time, if anything.
pub open spec fn left(span: Duration, elapsed: Duration) -> Option<Duration> {
    if elapsed.nanos < span.nanos {
        Some(Duration { nanos: (span.nanos - elapsed.nanos) as u128 })
    } else {
        None
    }
}

/// What is left of a span after some time, if anything.
pub fn remaining(span: Duration, elapsed: Duration) -> (r: Option<Duration>)
    ensures
        r == left(span, elapsed),
{
    if elapsed.nanos < span.nanos {
        Some(Duration { nanos: span.nanos - elapsed.nanos })
    } else {
        None
    }
}

/// How long to sleep out the rest of the inter-ping gap (skipped after the
/// last ping).
pub fn pace(elapsed: Duration, interval: Duration, last: bool) -> (r: Option<Duration>)
    ensures
        r == (if last {
            None
        } else {
            left(interval, elapsed)
        }),
{
    if last {
        None
    } else {
        remaining(interval, elapsed)
    }
}

impl Round {
    pub open spec fn wf(self) -> bool {
        &&& self.seq <= self.pings
        &&& self.phase != Phase::Idle ==> self.seq < self.pings
        &&& if self.phase == Phase::Answered {
            self.rtts@.len() <= self.seq + 1
        } else {
            self.rtts@.len() <= self.seq
        }
    }

    pub fn new(pings: u32, timeout: Duration, interval: Duration) -> (r: Round)
        ensures
            r.wf(),
            r.pings == pings,
            r.seq == 0,
            r.phase == Phase::Idle,
            !r.over,
            r.rtts@.len() == 0,
            r.timeout == timeout,
            r.interval == interval,
    {
        Round {
            pings,
            seq: 0,
            phase: Phase::Idle,
            over: false,
            rtts: Vec::new(),
            timeout,
            interval,
        }
    }

    /// The ping to send now; none when the round is through.
    pub fn ping(&mut self) -> (r: Option<u32>)
        requires
            old(self).wf(),
            old(self).phase == Phase::Idle,
        ensures
            final(self).wf(),
            if old(self).over || old(self).seq == old(self).pings {
                r is None && *final(self) == *old(self)
            } else {
                r == Some(old(self).seq) && *final(self) == (Round {
                    phase: Phase::Waiting,
                    ..*old(self)
                })
            },
    {
        if self.over || self.seq == self.pings {
            return None;
        }
        self.phase = Phase::Waiting;
        Some(self.seq)
    }

    /// How long to wait on for a reply to the ping sent `elapsed` ago; none
    /// when the ping is lost.
    pub fn patience(&self, elapsed: Duration) -> (r: Option<Duration>)
        ensures
            r == left(self.timeout, elapsed),
    {
        remaining(self.timeout, elapsed)
    }

    /// The reply came after `elapsed`.
    pub fn reply(&mut self, elapsed: Duration)
        requires
            old(self).wf(),
            old(self).phase == Phase::Waiting,
        ensures
            final(self).wf(),
            final(self).rtts@ == old(self).rtts@.push(elapsed),
            *final(self) == (Round {
                phase: Phase::Answered,
                rtts: final(self).rtts,
                ..*old(self)
            }),
    {
        self.rtts.push(elapsed);
        self.phase = Phase::Answered;
    }

    /// The connection died: the remaining pings are lost.
    pub fn give_up(&mut self)
        requires
            old(self).wf(),
        ensures
            final(self).wf(),
            *final(self) == (Round { over: true, ..*old(self) }),
    {
        self.over = true;
    }

    /// The ping is through, answered or lost; how long to sleep before the
    /// next one.
    pub fn pace(&mut self, elapsed: Duration) -> (r: Option<Duration>)
        requires
            old(self).wf(),
            old(self).phase != Phase::Idle,
        ensures
            final(self).wf(),
            *final(self) == (Round {
                phase: Phase::Idle,
                seq: (old(self).seq + 1) as u32,
                ..*old(self)
            }),
            r == (if old(self).seq + 1 == old(self).pings {
                None
            } else {
                left(old(self).interval, elapsed)
            }),
    {
        let last = self.seq + 1 == self.pings;
        self.seq = self.seq + 1;
        self.phase = Phase::Idle;
        pace(elapsed, self.interval, last)
    }

    /// The result of the round.
    pub fn finish(
        self,
        target: &str,
        host: &str,
        addr: IpAddr,
        started: Option<Duration>,
    ) -> (r: RoundResult)
        requires
            self.wf(),
        ensures
            r.target@ == target@,
            r.host@ == host@,
            r.addr == addr,
            r.started == started,
            r.sent == self.pings,
            r.rtts@ == self.rtts@,
            (started matches Some(d) ==> d.nanos / crate::time::NANOS_PER_SEC <= i64::MAX)
                ==> r.wf(),
    {
        RoundResult {
            target: target.to_owned(),
            host: host.to_owned(),
            addr,
            started,
            sent: self.pings,
            rtts: self.rtts,
        }
    }
}

/// What a round does after an event.
#[derive(Clone, Copy, Debug, PartialEq, Eq, Structural)]
pub enum Reaction {
    /// Not ours: wait on.
    KeepWaiting,
    /// Answered or lost: on to the next ping.
    NextPing,
    /// The round cannot go on.
    Stop,
}

/// What is wrong with a probe's parameters.
#[derive(Clone, Copy, Debug, PartialEq, Eq, Structural)]
pub enum ProbeError {
    /// The DNS query type is not supported.
    Qtype,
    /// The HTTP method is neither GET nor HEAD.
    Method,
    /// The URL starts with neither http:// nor https://.
    Url,
    /// The socket path does not start with '/'.
    SocketPath,
}

/// A configured probe instance, ready to run rounds.
#[derive(Debug)]
pub enum ProbeInstance {
    Icmp(IcmpProbe),
    Tcp(TcpProbe),
    Dns(DnsProbe),
    Http(HttpProbe),
    Exec(ExecProbe),
    Phoenix(PhoenixProbe),
}

/// What is wrong with a probe's parameters, if anything.
pub open spec fn probe_error(cfg: ProbeConfig) -> Option<ProbeError> {
    match cfg {
        ProbeConfig::Icmp(_) => None,
        ProbeConfig::Tcp(_) => None,
        ProbeConfig::Dns(c) => if dns::qtype_of(c.qtype@) is None {
            Some(ProbeError::Qtype)
        } else {
            None
        },
        ProbeConfig::Http(c) => http::config_error(c.method@, c.url@),
        ProbeConfig::Exec(_) => None,
        ProbeConfig::Phoenix(c) => if c.path@.len() == 0 || c.path@[0] != '/' {
            Some(ProbeError::SocketPath)
        } else {
            None
        },
    }
}

/// What is said of a probe's parameters.
pub open spec fn probe_text(e: ProbeError, cfg: ProbeConfig) -> Seq<char> {
    match (e, cfg) {
        (ProbeError::Qtype, ProbeConfig::Dns(c)) => "unsupported dns qtype "@ + text::debug_form(
            text::uppercased(c.qtype@),
        ) + " (A|NS|SOA|MX|TXT|AAAA)"@,
        (ProbeError::Method, ProbeConfig::Http(c)) => "unsupported http method "@
            + text::debug_form(text::uppercased(c.method@)) + " (GET|HEAD)"@,
        (ProbeError::Url, ProbeConfig::Http(c)) =>
            "http probe url must start with http:// or https:// (got "@ + text::debug_form(c.url@)
            + ")"@,
        (ProbeError::SocketPath, ProbeConfig::Phoenix(c)) =>
            "phoenix probe path must start with '/' (got "@ + text::debug_form(c.path@) + ")"@,
        _ => "bad probe settings"@,
    }
}

impl ProbeError {
    /// What to say of the parameters that it was found in.
    pub fn message(&self, cfg: &ProbeConfig) -> (r: String)
        ensures
            r@ == probe_text(*self, *cfg),
    {
        match (self, cfg) {
            (ProbeError::Qtype, ProbeConfig::Dns(c)) => said(
                "unsupported dns qtype ",
                quoted(to_upper(c.qtype.as_str()).as_str()).as_str(),
                " (A|NS|SOA|MX|TXT|AAAA)",
            ),
            (ProbeError::Method, ProbeConfig::Http(c)) => said(
                "unsupported http method ",
                quoted(to_upper(c.method.as_str()).as_str()).as_str(),
                " (GET|HEAD)",
            ),
            (ProbeError::Url, ProbeConfig::Http(c)) => said(
                "http probe url must start with http:// or https:// (got ",
                quoted(c.url.as_str()).as_str(),
                ")",
            ),
            (ProbeError::SocketPath, ProbeConfig::Phoenix(c)) => said(
                "phoenix probe path must start with '/' (got ",
                quoted(c.path.as_str()).as_str(),
                ")",
            ),
            _ => "bad probe settings".to_owned(),
        }
    }
}

impl ProbeInstance {
    /// The instance was made from these parameters.
    pub open spec fn of(self, cfg: ProbeConfig) -> bool {
        match (self, cfg) {
            (ProbeInstance::Icmp(p), ProbeConfig::Icmp(c)) => p.of(c),
            (ProbeInstance::Tcp(p), ProbeConfig::Tcp(c)) => p.of(c),
            (ProbeInstance::Dns(p), ProbeConfig::Dns(c)) => p.of(c),
            (ProbeInstance::Http(p), ProbeConfig::Http(c)) => p.of(c),
            (ProbeInstance::Exec(p), ProbeConfig::Exec(c)) => p.of(c),
            (ProbeInstance::Phoenix(p), ProbeConfig::Phoenix(c)) => p.of(c),
            _ => false,
        }
    }

    pub fn from_config(cfg: &ProbeConfig) -> (r: Result<ProbeInstance, ProbeError>)
        ensures
            match r {
                Ok(p) => probe_error(*cfg) is None && p.of(*cfg),
                Err(e) => probe_error(*cfg) == Some(e),
            },
    {
        match cfg {
            ProbeConfig::Icmp(c) => Ok(ProbeInstance::Icmp(IcmpProbe::new(c))),
            ProbeConfig::Tcp(c) => Ok(ProbeInstance::Tcp(TcpProbe::new(c))),
            ProbeConfig::Dns(c) => match DnsProbe::new(c) {
                Ok(p) => Ok(ProbeInstance::Dns(p)),
                Err(e) => Err(e),
            },
            ProbeConfig::Http(c) => match HttpProbe::new(c) {
                Ok(p) => Ok(ProbeInstance::Http(p)),
                Err(e) => Err(e),
            },
            ProbeConfig::Exec(c) => Ok(ProbeInstance::Exec(ExecProbe::new(c))),
            ProbeConfig::Phoenix(c) => match PhoenixProbe::new(c) {
                Ok(p) => Ok(ProbeInstance::Phoenix(p)),
                Err(e) => Err(e),
            },
        }
    }
}

/// What is left of a span and what has passed make up the span; nothing is left
/// once it has passed.
pub proof fn what_is_left_and_what_has_passed_make_the_span(span: Duration, elapsed: Duration)
    ensures
        match left(span, elapsed) {
            Some(d) => d.nanos > 0 && d.nanos + elapsed.nanos == span.nanos,
            None => elapsed.nanos >= span.nanos,
        },
{
}

/// A reply that none is faster than is the least, and one that none is slower
/// than is the greatest.
pub proof fn the_fastest_and_the_slowest(s: Seq<Duration>, lo: Duration, hi: Duration)
    requires
        s.contains(lo),
        s.contains(hi),
        forall|i: int| 0 <= i < s.len() ==> lo.nanos <= (#[trigger] s[i]).nanos <= hi.nanos,
    ensures
        least(s) == Some(lo),
        greatest(s) == Some(hi),
{
    no_reply_is_out_of_bounds(s);
    let (a, b) = (least(s)->0, greatest(s)->0);
    let (i, j) = (s.index_of(lo), s.index_of(hi));
    assert(a.nanos <= s[i].nanos && b.nanos >= s[j].nanos);
    let (k, l) = (s.index_of(a), s.index_of(b));
    assert(lo.nanos <= s[k].nanos && hi.nanos >= s[l].nanos);
}

} // verus!
