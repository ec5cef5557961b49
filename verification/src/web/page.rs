//! The status page.
use crate::decimal;
use crate::decimal::fixed_text;
use crate::double;
use crate::double::Double;
use crate::status;
use crate::status::{AdminError, Component, ComponentSnapshot, Incident, Severity, StatusEngine, uptime_days};
use crate::store::Store;
use crate::text;
use crate::text::{contains_text, decimal_i64, same};
use vstd::arithmetic::power2::*;
use vstd::prelude::*;
use vstd::string::*;

verus! {

// ---- times ----

/// The first second that `jiff::Timestamp` knows.
pub const FIRST_SECOND: i64 = -377_705_023_201;

/// The last second that `jiff::Timestamp` knows.
pub const LAST_SECOND: i64 = 253_402_207_200;

/// A second as `jiff::Zoned::strftime` writes it where the time zone is
/// `offset` seconds ahead of UTC and abbreviated `zone`.
pub uninterp spec fn zoned_text(ts: i64, offset: int, zone: Seq<char>, format: Seq<char>) -> Seq<
    char,
>;

/// The text is the second, written in some time zone. None is as far as 26
/// hours from UTC.
pub open spec fn reads_as(ts: i64, format: Seq<char>, s: Seq<char>) -> bool {
    exists|offset: int, zone: Seq<char>|
        -93_599 <= offset <= 93_599 && s == #[trigger] zoned_text(ts, offset, zone, format)
}

/// A second in the machine's time zone, written by
/// `jiff::Timestamp::from_second`, `jiff::Timestamp::to_zoned` and
/// `jiff::Zoned::strftime`. There is a text for the seconds that `Timestamp`
/// knows, and for no others. It is the second, written by the format at an
/// offset that `jiff::tz::Offset` can have; which offset and zone the machine
/// has is left open. These formats show of a time zone its offset and its
/// abbreviation alone, and no others are admitted.
#[verifier::external_body]
fn local_time(ts: i64, format: &str) -> (r: Option<String>)
    requires
        format@ == "%Y-%m-%d %H:%M %Z"@ || format@ == "%Y-%m-%d %H:%M:%S"@ || format@ == "%m-%d"@,
    ensures
        r is Some <==> FIRST_SECOND <= ts <= LAST_SECOND,
        r matches Some(s) ==> exists|offset: int, zone: Seq<char>|
            -93_599 <= offset <= 93_599 && s@ == #[trigger] zoned_text(ts, offset, zone, format@),
{
    match jiff::Timestamp::from_second(ts) {
        Ok(t) => Some(t.to_zoned(jiff::tz::TimeZone::system()).strftime(format).to_string()),
        Err(_) => None,
    }
}

/// A time to be read, or the bare seconds where there is no such time.
pub fn time_or_seconds(time: Option<String>, ts: i64) -> (r: String)
    ensures
        r@ == (match time {
            Some(t) => t@,
            None => text::signed_decimal(ts as int),
        }),
{
    match time {
        Some(t) => t,
        None => decimal_i64(ts),
    }
}

/// What a time reads as: to the minute in some time zone, or the bare seconds
/// where it is out of the calendar's reach.
pub open spec fn written_time(ts: i64, s: Seq<char>) -> bool {
    if FIRST_SECOND <= ts <= LAST_SECOND {
        reads_as(ts, "%Y-%m-%d %H:%M %Z"@, s)
    } else {
        s == text::signed_decimal(ts as int)
    }
}

/// "2024-01-31 13:37 CET"
pub fn fmt_ts(ts: i64) -> (r: String)
    ensures
        written_time(ts, r@),
{
    time_or_seconds(local_time(ts, "%Y-%m-%d %H:%M %Z"), ts)
}

/// "2024-01-31 13:37:00", where there is such a time.
pub fn fmt_second(ts: i64) -> (r: Option<String>)
    ensures
        r is Some <==> FIRST_SECOND <= ts <= LAST_SECOND,
        r matches Some(s) ==> reads_as(ts, "%Y-%m-%d %H:%M:%S"@, s@),
{
    local_time(ts, "%Y-%m-%d %H:%M:%S")
}

// ---- uptime bars ----

/// 99.5
pub const GOOD_BITS: u64 = 0x4058_e000_0000_0000;

/// 95
pub const FAIR_BITS: u64 = 0x4057_c000_0000_0000;

/// One day of a component.
#[derive(Debug)]
pub struct Bar {
    pub cls: &'static str,
    pub label: String,
}

/// `a >= b` as numbers.
pub open spec fn at_least(a: Double, b: Double) -> bool {
    b.less(a) || b.equals(a)
}

/// The look of a day.
pub open spec fn look(pct: Option<Double>) -> Seq<char> {
    match pct {
        None => ""@,
        Some(p) => if at_least(p, Double { bits: GOOD_BITS }) {
            "ok"@
        } else if at_least(p, Double { bits: FAIR_BITS }) {
            "warn"@
        } else {
            "bad"@
        },
    }
}

/// "01-31: 99.87% uptime"
pub open spec fn label_of(date: Seq<char>, pct: Option<Double>) -> Seq<char> {
    match pct {
        Some(p) => date + ": "@ + decimal::fixed(p, 2) + "% uptime"@,
        None => date + ": no data"@,
    }
}

fn reaches(a: Double, b: Double) -> (r: bool)
    ensures
        r == at_least(a, b),
{
    b.num_lt(a) || b.num_eq(a)
}

/// A day's bar; `date` is missing where there is no such day.
pub fn bar(date: Option<String>, pct: Option<Double>) -> (b: Bar)
    ensures
        b.cls@ == look(pct),
        b.label@ == label_of(
            match date {
                Some(d) => d@,
                None => Seq::empty(),
            },
            pct,
        ),
{
    let mut label = match date {
        Some(d) => d,
        None => String::new(),
    };
    let cls = match pct {
        None => {
            label.append(": no data");
            ""
        },
        Some(p) => {
            label.append(": ");
            label.append(fixed_text(p, 2).as_str());
            label.append("% uptime");
            if reaches(p, Double { bits: GOOD_BITS }) {
                "ok"
            } else if reaches(p, Double { bits: FAIR_BITS }) {
                "warn"
            } else {
                "bad"
            }
        },
    };
    Bar { cls, label }
}

/// The known days' availability, added up one by one, and how many there are.
pub open spec fn known_sum(days: Seq<(i64, Option<Double>)>) -> (Double, nat)
    decreases days.len(),
{
    if days.len() == 0 {
        (Double { bits: 0 }, 0)
    } else {
        let (sum, n) = known_sum(days.drop_last());
        match days.last().1 {
            Some(p) => (double::sum(sum, p), n + 1),
            None => (sum, n),
        }
    }
}

/// "99.87% uptime", the mean of the known days.
pub open spec fn uptime_text(days: Seq<(i64, Option<Double>)>) -> Seq<char> {
    let (sum, n) = known_sum(days);
    if n == 0 {
        "no data"@
    } else {
        decimal::fixed(double::quotient(sum, double::of_int(n)), 2) + "% uptime"@
    }
}

pub fn uptime_label(days: &Vec<(i64, Option<Double>)>) -> (r: String)
    ensures
        r@ == uptime_text(days@),
{
    let mut sum = Double { bits: 0 };
    let mut n: u64 = 0;
    let mut i: usize = 0;
    assert(days@.take(0) =~= Seq::empty());
    while i < days.len()
        invariant
            i <= days@.len(),
            n <= i,
            (sum, n as nat) == known_sum(days@.take(i as int)),
        decreases days@.len() - i,
    {
        assert(days@.take(i + 1).drop_last() == days@.take(i as int));
        assert(days@.take(i + 1).last() == days@[i as int]);
        match days[i].1 {
            Some(p) => {
                sum = sum.plus(p);
                n = n + 1;
            },
            None => {},
        }
        i = i + 1;
    }
    assert(days@.take(i as int) == days@);
    if n == 0 {
        return "no data".to_owned();
    }
    let mut s = fixed_text(sum.over(Double::from_u64(n)), 2);
    s.append("% uptime");
    s
}

/// The text is the date of a day in some time zone, or empty where the day is
/// out of the calendar's reach.
pub open spec fn dated(ts: i64, date: Seq<char>) -> bool {
    if FIRST_SECOND <= ts <= LAST_SECOND {
        reads_as(ts, "%m-%d"@, date)
    } else {
        date.len() == 0
    }
}

/// The bar tells of a day.
pub open spec fn tells(b: Bar, ts: i64, pct: Option<Double>) -> bool {
    &&& b.cls@ == look(pct)
    &&& exists|date: Seq<char>| #[trigger] dated(ts, date) && b.label@ == label_of(date, pct)
}

fn bars(days: &Vec<(i64, Option<Double>)>) -> (r: Vec<Bar>)
    ensures
        r@.len() == days@.len(),
        forall|i: int| 0 <= i < r@.len() ==> tells(#[trigger] r@[i], days@[i].0, days@[i].1),
{
    let mut out: Vec<Bar> = Vec::new();
    let mut i: usize = 0;
    while i < days.len()
        invariant
            i <= days@.len(),
            out@.len() == i,
            forall|j: int| 0 <= j < i ==> tells(#[trigger] out@[j], days@[j].0, days@[j].1),
        decreases days@.len() - i,
    {
        let (ts, pct) = days[i];
        let date = local_time(ts, "%m-%d");
        let ghost written: Seq<char> = if date is Some {
            date->0@
        } else {
            Seq::empty()
        };
        assert(dated(ts, written));
        let b = bar(date, pct);
        assert(tells(b, ts, pct));
        out.push(b);
        i = i + 1;
    }
    out
}

// ---- components ----

#[derive(Debug)]
pub struct ComponentView {
    pub key: String,
    pub name: String,
    pub status: Severity,
    pub group: String,
    pub bars: Vec<Bar>,
    pub uptime_label: String,
}

impl ComponentView {
    /// The view of a component.
    pub open spec fn of(
        self,
        c: Component,
        status: Severity,
        days: Seq<(i64, Option<Double>)>,
    ) -> bool {
        &&& self.key@ == c.key@
        &&& self.name@ == c.name@
        &&& self.group@ == c.group@
        &&& self.status == status
        &&& self.bars@.len() == days.len()
        &&& forall|i: int| 0 <= i < days.len() ==> tells(
            #[trigger] self.bars@[i],
            days[i].0,
            days[i].1,
        )
        &&& self.uptime_label@ == uptime_text(days)
    }
}

#[derive(Debug)]
pub struct GroupView {
    pub name: String,
    pub components: Vec<ComponentView>,
}

/// The place of the first group with this name, or their number.
pub open spec fn group_place(groups: Seq<(Seq<char>, Seq<int>)>, name: Seq<char>) -> int
    decreases groups.len(),
{
    if groups.len() == 0 || groups[0].0 == name {
        0
    } else {
        1 + group_place(groups.drop_first(), name)
    }
}

/// The components by their groups: the groups in the order of their first
/// component, the components of a group in their own order.
pub open spec fn grouped(components: Seq<Component>) -> Seq<(Seq<char>, Seq<int>)>
    decreases components.len(),
{
    if components.len() == 0 {
        Seq::empty()
    } else {
        let before = grouped(components.drop_last());
        let name = components.last().group@;
        let i = group_place(before, name);
        let place = components.len() - 1;
        if i < before.len() {
            before.update(i, (before[i].0, before[i].1.push(place)))
        } else {
            before.push((name, seq![place]))
        }
    }
}

proof fn lemma_group_place(groups: Seq<(Seq<char>, Seq<int>)>, name: Seq<char>, i: int)
    requires
        0 <= i <= groups.len(),
        forall|j: int| 0 <= j < i ==> (#[trigger] groups[j]).0 != name,
        i < groups.len() ==> groups[i].0 == name,
    ensures
        group_place(groups, name) == i,
    decreases groups.len(),
{
    if groups.len() > 0 && i > 0 {
        let rest = groups.drop_first();
        assert(groups[0].0 != name);
        assert forall|j: int| 0 <= j < i - 1 implies (#[trigger] rest[j]).0 != name by {
            assert(rest[j] == groups[j + 1]);
        }
        lemma_group_place(rest, name, i - 1);
    }
}

/// The availability of a component's days.
pub open spec fn days_of(
    store: Store,
    engine: StatusEngine,
    images: Seq<Vec<Option<&[u8]>>>,
    now: int,
    i: int,
) -> Seq<(i64, Option<Double>)> {
    status::uptimes(
        store,
        engine.components@[i].targets@,
        images[i]@,
        engine.history_days,
        now,
    )
}

/// The groups show the components of the engine.
pub open spec fn groups_show(
    groups: Seq<GroupView>,
    want: Seq<(Seq<char>, Seq<int>)>,
    store: Store,
    engine: StatusEngine,
    images: Seq<Vec<Option<&[u8]>>>,
    now: int,
) -> bool {
    &&& groups.len() == want.len()
    &&& forall|g: int|
        0 <= g < want.len() ==> group_shows(
            #[trigger] groups[g],
            want[g],
            store,
            engine,
            images,
            now,
        )
}

pub open spec fn group_shows(
    group: GroupView,
    want: (Seq<char>, Seq<int>),
    store: Store,
    engine: StatusEngine,
    images: Seq<Vec<Option<&[u8]>>>,
    now: int,
) -> bool {
    &&& group.name@ == want.0
    &&& group.components@.len() == want.1.len()
    &&& forall|k: int|
        0 <= k < want.1.len() ==> (#[trigger] group.components@[k]).of(
            engine.components@[want.1[k]],
            engine.comp_state@[want.1[k]],
            days_of(store, engine, images, now, want.1[k]),
        )
}

/// Every component's targets have their series, or none, in its list.
pub open spec fn images_fit(
    store: Store,
    engine: StatusEngine,
    images: Seq<Vec<Option<&[u8]>>>,
) -> bool {
    &&& images.len() == engine.components@.len()
    &&& forall|i: int|
        0 <= i < images.len() ==> {
            let own = (#[trigger] images[i])@;
            &&& own.len() == engine.components@[i].targets@.len()
            &&& own.len() <= u32::MAX
            &&& forall|j: int|
                0 <= j < own.len() ==> ((#[trigger] own[j]) matches Some(b) ==> store.layout.sized(
                    b@,
                ))
        }
}

/// Puts a component into its group.
fn add_to_group(
    groups: &mut Vec<GroupView>,
    v: ComponentView,
    Ghost(want): Ghost<Seq<(Seq<char>, Seq<int>)>>,
    Ghost(store): Ghost<Store>,
    Ghost(engine): Ghost<StatusEngine>,
    Ghost(images): Ghost<Seq<Vec<Option<&[u8]>>>>,
    Ghost(now): Ghost<int>,
    Ghost(place): Ghost<int>,
)
    requires
        groups_show(old(groups)@, want, store, engine, images, now),
        v.of(
            engine.components@[place],
            engine.comp_state@[place],
            days_of(store, engine, images, now, place),
        ),
    ensures
        ({
            let i = group_place(want, v.group@);
            let next = if i < want.len() {
                want.update(i, (want[i].0, want[i].1.push(place)))
            } else {
                want.push((v.group@, seq![place]))
            };
            groups_show(final(groups)@, next, store, engine, images, now)
        }),
{
    let ghost start = groups@;
    let ghost name = v.group@;
    let mut i: usize = 0;
    while i < groups.len() && !same(groups[i].name.as_str(), v.group.as_str())
        invariant
            groups@ == start,
            groups_show(start, want, store, engine, images, now),
            name == v.group@,
            i <= groups@.len(),
            forall|j: int| 0 <= j < i ==> (#[trigger] want[j]).0 != name,
        decreases groups@.len() - i,
    {
        assert(group_shows(groups@[i as int], want[i as int], store, engine, images, now));
        i = i + 1;
    }
    proof {
        if i < groups@.len() {
            assert(group_shows(groups@[i as int], want[i as int], store, engine, images, now));
        }
        lemma_group_place(want, name, i as int);
    }
    if i < groups.len() {
        let mut g = groups.remove(i);
        let ghost had = g.components@;
        assert(group_shows(g, want[i as int], store, engine, images, now));
        g.components.push(v);
        let ghost next = (want[i as int].0, want[i as int].1.push(place));
        assert forall|k: int| 0 <= k < next.1.len() implies (#[trigger] g.components@[k]).of(
            engine.components@[next.1[k]],
            engine.comp_state@[next.1[k]],
            days_of(store, engine, images, now, next.1[k]),
        ) by {
            if k < had.len() {
                assert(g.components@[k] == had[k]);
            }
        }
        assert(group_shows(g, next, store, engine, images, now));
        groups.insert(i, g);
        assert forall|j: int| 0 <= j < want.len() implies group_shows(
            #[trigger] groups@[j],
            want.update(i as int, next)[j],
            store,
            engine,
            images,
            now,
        ) by {
            if j != i {
                assert(groups@[j] == start[j]);
            }
        }
    } else {
        let group = v.group.clone();
        let mut components: Vec<ComponentView> = Vec::new();
        components.push(v);
        let g = GroupView { name: group, components };
        assert(group_shows(g, (name, seq![place]), store, engine, images, now));
        groups.push(g);
        assert forall|j: int| 0 <= j < groups@.len() implies group_shows(
            #[trigger] groups@[j],
            want.push((name, seq![place]))[j],
            store,
            engine,
            images,
            now,
        ) by {
            if j < want.len() {
                assert(groups@[j] == start[j]);
            }
        }
    }
}

/// The components by group, preserving config order.
fn group_components(
    store: &Store,
    engine: &StatusEngine,
    images: &Vec<Vec<Option<&[u8]>>>,
    now: i64,
) -> (groups: Vec<GroupView>)
    requires
        store.wf(),
        engine.wf(),
        images_fit(*store, *engine, images@),
        status::reaches(*store, engine.history_days, now as int),
    ensures
        groups_show(
            groups@,
            grouped(engine.components@),
            *store,
            *engine,
            images@,
            now as int,
        ),
{
    let ghost cs = engine.components@;
    let mut groups: Vec<GroupView> = Vec::new();
    let mut i: usize = 0;
    assert(cs.take(0) =~= Seq::empty());
    while i < engine.components.len()
        invariant
            store.wf(),
            engine.wf(),
            images_fit(*store, *engine, images@),
            status::reaches(*store, engine.history_days, now as int),
            cs == engine.components@,
            i <= cs.len(),
            groups_show(
                groups@,
                grouped(cs.take(i as int)),
                *store,
                *engine,
                images@,
                now as int,
            ),
        decreases cs.len() - i,
    {
        proof {
            assert(cs.take(i + 1).drop_last() == cs.take(i as int));
            assert(cs.take(i + 1).last() == cs[i as int]);
        }
        let c = &engine.components[i];
        assert(images@[i as int]@.len() == c.targets@.len());
        let days = uptime_days(store, &c.targets, &images[i], engine.history_days, now);
        let v = ComponentView {
            key: c.key.clone(),
            name: c.name.clone(),
            status: engine.comp_state[i],
            group: c.group.clone(),
            bars: bars(&days),
            uptime_label: uptime_label(&days),
        };
        add_to_group(
            &mut groups,
            v,
            Ghost(grouped(cs.take(i as int))),
            Ghost(*store),
            Ghost(*engine),
            Ghost(images@),
            Ghost(now as int),
            Ghost(i as int),
        );
        i = i + 1;
    }
    assert(cs.take(i as int) == cs);
    groups
}

// ---- incidents ----

#[derive(Debug)]
pub struct UpdateView {
    pub ts: i64,
    pub when: String,
    pub message: String,
}

#[derive(Debug)]
pub struct IncidentView {
    pub id: u64,
    pub component: String,
    pub title: String,
    pub status: &'static str,
    pub opened_at: i64,
    pub opened_human: String,
    pub resolved_at: Option<i64>,
    pub resolved_human: Option<String>,
    pub updates: Vec<UpdateView>,
}

impl IncidentView {
    /// The view of an incident.
    pub open spec fn of(self, i: Incident) -> bool {
        &&& self.id == i.id
        &&& self.component@ == i.component@
        &&& self.title@ == i.title@
        &&& self.status@ == (if i.resolved is Some {
            "resolved"@
        } else {
            "open"@
        })
        &&& self.opened_at == i.opened
        &&& written_time(i.opened, self.opened_human@)
        &&& self.resolved_at == i.resolved
        &&& match i.resolved {
            None => self.resolved_human is None,
            Some(ts) => self.resolved_human matches Some(s) && written_time(ts, s@),
        }
        &&& self.updates@.len() == i.updates@.len()
        &&& forall|k: int|
            0 <= k < i.updates@.len() ==> {
                &&& (#[trigger] self.updates@[k]).ts == i.updates@[k].ts
                &&& self.updates@[k].message@ == i.updates@[k].message@
                &&& written_time(i.updates@[k].ts, self.updates@[k].when@)
            }
    }
}

pub fn incident_view(i: &Incident) -> (v: IncidentView)
    ensures
        v.of(*i),
{
    let mut updates: Vec<UpdateView> = Vec::new();
    let mut k: usize = 0;
    while k < i.updates.len()
        invariant
            k <= i.updates@.len(),
            updates@.len() == k,
            forall|j: int|
                0 <= j < k ==> {
                    &&& (#[trigger] updates@[j]).ts == i.updates@[j].ts
                    &&& updates@[j].message@ == i.updates@[j].message@
                    &&& written_time(i.updates@[j].ts, updates@[j].when@)
                },
        decreases i.updates@.len() - k,
    {
        let u = &i.updates[k];
        updates.push(UpdateView { ts: u.ts, when: fmt_ts(u.ts), message: u.message.clone() });
        k = k + 1;
    }
    IncidentView {
        id: i.id,
        component: i.component.clone(),
        title: i.title.clone(),
        status: if i.resolved.is_some() {
            "resolved"
        } else {
            "open"
        },
        opened_at: i.opened,
        opened_human: fmt_ts(i.opened),
        resolved_at: i.resolved,
        resolved_human: match i.resolved {
            Some(ts) => Some(fmt_ts(ts)),
            None => None,
        },
        updates,
    }
}

/// The places of the incidents with one more, behind those opened no earlier.
pub open spec fn newest_first(
    incidents: Seq<Incident>,
    s: Seq<usize>,
    p: usize,
) -> Seq<usize>
    decreases s.len(),
{
    if s.len() == 0 || incidents[s.last() as int].opened >= incidents[p as int].opened {
        s.push(p)
    } else {
        newest_first(incidents, s.drop_last(), p).push(s.last())
    }
}

/// The places of the first `n` incidents, the newest first; of those opened
/// in the same second, in their own order.
pub open spec fn by_opening(incidents: Seq<Incident>, n: nat) -> Seq<usize>
    decreases n,
{
    if n == 0 {
        Seq::empty()
    } else {
        newest_first(incidents, by_opening(incidents, (n - 1) as nat), (n - 1) as usize)
    }
}

/// Those of the places whose incident was resolved, or was not.
pub open spec fn those(incidents: Seq<Incident>, places: Seq<usize>, resolved: bool) -> Seq<usize>
    decreases places.len(),
{
    if places.len() == 0 {
        Seq::empty()
    } else {
        let before = those(incidents, places.drop_last(), resolved);
        if (incidents[places.last() as int].resolved is Some) == resolved {
            before.push(places.last())
        } else {
            before
        }
    }
}

proof fn lemma_newest_first(incidents: Seq<Incident>, s: Seq<usize>, p: usize, i: int)
    requires
        0 <= i <= s.len(),
        forall|j: int|
            i <= j < s.len() ==> incidents[(#[trigger] s[j]) as int].opened
                < incidents[p as int].opened,
        i > 0 ==> incidents[s[i - 1] as int].opened >= incidents[p as int].opened,
    ensures
        newest_first(incidents, s, p) == s.insert(i, p),
    decreases s.len(),
{
    if i == s.len() {
        assert(s.insert(i, p) =~= s.push(p));
    } else {
        let rest = s.drop_last();
        assert(incidents[s[s.len() - 1] as int].opened < incidents[p as int].opened);
        assert forall|j: int| i <= j < rest.len() implies incidents[(
        #[trigger] rest[j]) as int].opened < incidents[p as int].opened by {
            assert(rest[j] == s[j]);
        }
        lemma_newest_first(incidents, rest, p, i);
        assert(s.insert(i, p) =~= rest.insert(i, p).push(s.last()));
    }
}

fn sort_incidents(incidents: &Vec<Incident>) -> (r: Vec<usize>)
    ensures
        r@ == by_opening(incidents@, incidents@.len()),
        forall|j: int| 0 <= j < r@.len() ==> (#[trigger] r@[j]) < incidents@.len(),
{
    let mut out: Vec<usize> = Vec::new();
    let mut p: usize = 0;
    assert(out@ =~= Seq::empty());
    while p < incidents.len()
        invariant
            p <= incidents@.len(),
            out@ == by_opening(incidents@, p as nat),
            forall|j: int| 0 <= j < out@.len() ==> (#[trigger] out@[j]) < incidents@.len(),
        decreases incidents@.len() - p,
    {
        let mut i: usize = out.len();
        while i > 0 && incidents[out[i - 1]].opened < incidents[p].opened
            invariant
                p < incidents@.len(),
                i <= out@.len(),
                forall|j: int| 0 <= j < out@.len() ==> (#[trigger] out@[j]) < incidents@.len(),
                forall|j: int|
                    i <= j < out@.len() ==> incidents@[(#[trigger] out@[j]) as int].opened
                        < incidents@[p as int].opened,
            decreases i,
        {
            i = i - 1;
        }
        let ghost had = out@;
        proof {
            lemma_newest_first(incidents@, had, p, i as int);
        }
        out.insert(i, p);
        assert forall|j: int| 0 <= j < out@.len() implies (#[trigger] out@[j])
            < incidents@.len() by {
            if j < i {
                assert(out@[j] == had[j]);
            } else if j > i {
                assert(out@[j] == had[j - 1]);
            }
        }
        p = p + 1;
    }
    out
}

/// How many resolved incidents the page shows.
pub const MAX_RESOLVED: usize = 10;

/// The views of the incidents at some places.
pub open spec fn views_of(
    views: Seq<IncidentView>,
    incidents: Seq<Incident>,
    places: Seq<usize>,
) -> bool {
    &&& views.len() == places.len()
    &&& forall|k: int|
        0 <= k < places.len() ==> (#[trigger] views[k]).of(incidents[places[k] as int])
}

proof fn lemma_those(incidents: Seq<Incident>, places: Seq<usize>, resolved: bool, n: int)
    requires
        0 <= n <= places.len(),
    ensures
        those(incidents, places.take(n), resolved).is_prefix_of(
            those(incidents, places, resolved),
        ),
    decreases places.len(),
{
    if n < places.len() {
        lemma_those(incidents, places.drop_last(), resolved, n);
        assert(places.drop_last().take(n) == places.take(n));
    } else {
        assert(places.take(n) == places);
    }
}

/// The views of those incidents that were resolved, or were not; `limit` of
/// them at most.
fn view_those(
    incidents: &Vec<Incident>,
    places: &Vec<usize>,
    resolved: bool,
    limit: usize,
) -> (r: Vec<IncidentView>)
    requires
        forall|j: int| 0 <= j < places@.len() ==> (#[trigger] places@[j]) < incidents@.len(),
    ensures
        ({
            let all = those(incidents@, places@, resolved);
            views_of(
                r@,
                incidents@,
                if all.len() > limit {
                    all.take(limit as int)
                } else {
                    all
                },
            )
        }),
{
    let mut out: Vec<IncidentView> = Vec::new();
    let mut k: usize = 0;
    let ghost all = those(incidents@, places@, resolved);
    assert(places@.take(0) =~= Seq::empty());
    while k < places.len() && out.len() < limit
        invariant
            forall|j: int| 0 <= j < places@.len() ==> (#[trigger] places@[j]) < incidents@.len(),
            k <= places@.len(),
            out@.len() <= limit,
            views_of(out@, incidents@, those(incidents@, places@.take(k as int), resolved)),
        decreases places@.len() - k,
    {
        assert(places@.take(k + 1).drop_last() == places@.take(k as int));
        assert(places@.take(k + 1).last() == places@[k as int]);
        let ghost part = those(incidents@, places@.take(k as int), resolved);
        let ghost had = out@;
        let i = &incidents[places[k]];
        if i.resolved.is_some() == resolved {
            out.push(incident_view(i));
            let ghost next = part.push(places@[k as int]);
            assert forall|j: int| 0 <= j < next.len() implies (#[trigger] out@[j]).of(
                incidents@[next[j] as int],
            ) by {
                if j < had.len() {
                    assert(out@[j] == had[j]);
                }
            }
        }
        k = k + 1;
    }
    proof {
        lemma_those(incidents@, places@, resolved, k as int);
        let part = those(incidents@, places@.take(k as int), resolved);
        if out@.len() == limit {
            assert(all.take(limit as int) =~= part);
            if all.len() <= limit {
                assert(all =~= part);
            }
        } else {
            assert(places@.take(k as int) == places@);
        }
    }
    out
}

// ---- the page ----

/// What the page and its JSON form show.
#[derive(Debug)]
pub struct StatusContext {
    pub title: String,
    pub updated: String,
    pub updated_at: i64,
    pub history_days: u32,
    pub overall: Severity,
    pub groups: Vec<GroupView>,
    pub open_incidents: Vec<IncidentView>,
    pub resolved_incidents: Vec<IncidentView>,
}

/// Shared context for the HTML page and status.json. For each component,
/// `images` holds the series of its targets.
pub fn status_context(
    store: &Store,
    engine: &StatusEngine,
    images: &Vec<Vec<Option<&[u8]>>>,
    now: i64,
) -> (c: StatusContext)
    requires
        store.wf(),
        engine.wf(),
        images_fit(*store, *engine, images@),
        status::reaches(*store, engine.history_days, now as int),
    ensures
        c.title@ == engine.title@,
        written_time(now, c.updated@),
        c.updated_at == now,
        c.history_days == engine.history_days,
        c.overall == status::worst(engine.comp_state@),
        groups_show(
            c.groups@,
            grouped(engine.components@),
            *store,
            *engine,
            images@,
            now as int,
        ),
        ({
            let incidents = engine.incidents.incidents@;
            let places = by_opening(incidents, incidents.len());
            let open = those(incidents, places, false);
            let resolved = those(incidents, places, true);
            &&& views_of(c.open_incidents@, incidents, open)
            &&& views_of(
                c.resolved_incidents@,
                incidents,
                if resolved.len() > MAX_RESOLVED {
                    resolved.take(MAX_RESOLVED as int)
                } else {
                    resolved
                },
            )
        }),
{
    let (overall, _) = engine.snapshot();
    let groups = group_components(store, engine, images, now);
    let incidents = engine.incidents();
    let places = sort_incidents(incidents);
    let open_incidents = view_those(incidents, &places, false, places.len());
    let resolved_incidents = view_those(incidents, &places, true, MAX_RESOLVED);
    proof {
        lemma_those_fewer(incidents@, places@, false);
    }
    StatusContext {
        title: engine.title.clone(),
        updated: fmt_ts(now),
        updated_at: now,
        history_days: engine.history_days,
        overall,
        groups,
        open_incidents,
        resolved_incidents,
    }
}

proof fn lemma_those_fewer(incidents: Seq<Incident>, places: Seq<usize>, resolved: bool)
    ensures
        those(incidents, places, resolved).len() <= places.len(),
    decreases places.len(),
{
    if places.len() > 0 {
        lemma_those_fewer(incidents, places.drop_last(), resolved);
    }
}

/// The components of some groups, one after the other.
pub open spec fn listed(groups: Seq<GroupView>) -> Seq<ComponentView>
    decreases groups.len(),
{
    if groups.len() == 0 {
        Seq::empty()
    } else {
        listed(groups.drop_last()) + groups.last().components@
    }
}

/// The JSON form lists the components without their groups' headings.
pub fn listed_components(groups: &Vec<GroupView>) -> (r: Vec<ComponentSnapshot>)
    ensures
        r@.len() == listed(groups@).len(),
        forall|i: int|
            0 <= i < r@.len() ==> {
                let v = listed(groups@)[i];
                &&& (#[trigger] r@[i]).key@ == v.key@
                &&& r@[i].name@ == v.name@
                &&& r@[i].group@ == v.group@
                &&& r@[i].status == v.status
            },
{
    let mut out: Vec<ComponentSnapshot> = Vec::new();
    let mut g: usize = 0;
    assert(groups@.take(0) =~= Seq::empty());
    while g < groups.len()
        invariant
            g <= groups@.len(),
            out@.len() == listed(groups@.take(g as int)).len(),
            forall|i: int|
                0 <= i < out@.len() ==> {
                    let v = listed(groups@.take(g as int))[i];
                    &&& (#[trigger] out@[i]).key@ == v.key@
                    &&& out@[i].name@ == v.name@
                    &&& out@[i].group@ == v.group@
                    &&& out@[i].status == v.status
                },
        decreases groups@.len() - g,
    {
        proof {
            assert(groups@.take(g + 1).drop_last() == groups@.take(g as int));
            assert(groups@.take(g + 1).last() == groups@[g as int]);
        }
        let components = &groups[g].components;
        let ghost before = listed(groups@.take(g as int));
        let ghost after = listed(groups@.take(g + 1));
        let mut k: usize = 0;
        while k < components.len()
            invariant
                k <= components@.len(),
                after == before + components@,
                out@.len() == before.len() + k,
                forall|i: int|
                    0 <= i < out@.len() ==> {
                        let v = after[i];
                        &&& (#[trigger] out@[i]).key@ == v.key@
                        &&& out@[i].name@ == v.name@
                        &&& out@[i].group@ == v.group@
                        &&& out@[i].status == v.status
                    },
            decreases components@.len() - k,
        {
            let v = &components[k];
            assert(after[before.len() + k] == *v);
            out.push(
                ComponentSnapshot {
                    key: v.key.clone(),
                    name: v.name.clone(),
                    group: v.group.clone(),
                    status: v.status,
                },
            );
            k = k + 1;
        }
        g = g + 1;
    }
    assert(groups@.take(g as int) == groups@);
    out
}

// ---- administration ----

/// The status that a refused administrative request is answered with, by what
/// is said of it.
pub open spec fn admin_code(message: Seq<char>) -> u16 {
    if text::has_text(message, "Token"@) || text::has_text(message, "disabled"@) {
        401
    } else {
        400
    }
}

pub fn admin_status(message: &str) -> (r: u16)
    ensures
        r == admin_code(message@),
{
    if contains_text(message, "Token") || contains_text(message, "disabled") {
        401
    } else {
        400
    }
}

/// A text that starts with `head`, goes on with digits alone and does not
/// hold `pat` in its head does not hold `pat`.
proof fn lemma_not_in(head: Seq<char>, n: nat, pat: Seq<char>)
    requires
        pat.len() > 1,
        !('0' <= pat[0] <= '9'),
        !('0' <= pat[1] <= '9'),
        forall|i: int|
            0 <= i < head.len() ==> (#[trigger] head[i]) != pat[0] || (i + 1 < head.len()
                && head[i + 1] != pat[1]) || i + 1 == head.len(),
    ensures
        !text::has_text(head + text::decimal(n), pat),
{
    let s = head + text::decimal(n);
    text::lemma_decimal_digits(n);
    if text::has_text(s, pat) {
        let i = choose|i: int| 0 <= i <= s.len() && text::starts_with(#[trigger] s.skip(i), pat);
        let t = s.skip(i).take(pat.len() as int);
        assert(t == pat);
        assert(t[0] == s[i]);
        assert(t[1] == s[i + 1]);
        if i >= head.len() {
            assert(s[i] == text::decimal(n)[i - head.len()]);
        } else {
            assert(s[i] == head[i]);
            if i + 1 >= head.len() {
                assert(s[i + 1] == text::decimal(n)[i + 1 - head.len()]);
            } else {
                assert(s[i + 1] == head[i + 1]);
            }
        }
    }
}

/// Without the right token a request is answered 401; with it, one about an
/// incident that is not there is answered 400.
pub proof fn tokens_are_asked_for(e: AdminError)
    ensures
        admin_code(e.text()) == (match e {
            AdminError::Disabled => 401,
            AdminError::BadToken => 401,
            AdminError::NoIncident(_) => 400,
            AdminError::NoOpenIncident(_) => 400u16,
        }),
{
    reveal_strlit("Token");
    reveal_strlit("disabled");
    match e {
        AdminError::Disabled => {
            reveal_strlit("incident administration is disabled (no status.admin_token configured)");
            let m = e.text();
            assert(m.skip(27).take("disabled"@.len() as int) =~= "disabled"@);
            assert(text::starts_with(m.skip(27), "disabled"@));
        },
        AdminError::BadToken => {
            reveal_strlit("bad or missing X-Dabping-Token");
            let m = e.text();
            assert(m.skip(25).take("Token"@.len() as int) =~= "Token"@);
            assert(text::starts_with(m.skip(25), "Token"@));
        },
        AdminError::NoIncident(id) => {
            reveal_strlit("no incident #");
            lemma_not_in("no incident #"@, id as nat, "Token"@);
            lemma_not_in("no incident #"@, id as nat, "disabled"@);
        },
        AdminError::NoOpenIncident(id) => {
            reveal_strlit("no open incident #");
            lemma_not_in("no open incident #"@, id as nat, "Token"@);
            lemma_not_in("no open incident #"@, id as nat, "disabled"@);
        },
    }
}

// ---- laws ----

/// Each component stands in one group, that of its name, and once there. No two
/// groups have a name in common, none is empty, and the components of each are
/// in their own order.
pub proof fn each_component_is_in_one_group(components: Seq<Component>)
    ensures
        ({
            let groups = grouped(components);
            &&& forall|c: int|
                0 <= c < components.len() ==> exists|g: int, k: int|
                    {
                        &&& 0 <= g < groups.len()
                        &&& 0 <= k < groups[g].1.len()
                        &&& #[trigger] groups[g].1[k] == c
                        &&& groups[g].0 == (#[trigger] components[c]).group@
                    }
            &&& forall|g: int, k: int|
                0 <= g < groups.len() && 0 <= k < groups[g].1.len() ==> {
                    let c = #[trigger] groups[g].1[k];
                    &&& 0 <= c < components.len()
                    &&& components[c].group@ == groups[g].0
                }
            &&& forall|g: int, h: int|
                0 <= g < h < groups.len() ==> (#[trigger] groups[g]).0 != (#[trigger] groups[h]).0
            &&& forall|g: int| 0 <= g < groups.len() ==> (#[trigger] groups[g]).1.len() > 0
            &&& forall|g: int, k: int, l: int|
                0 <= g < groups.len() && 0 <= k < l < groups[g].1.len() ==> (
                #[trigger] groups[g].1[k]) < (#[trigger] groups[g].1[l])
        }),
    decreases components.len(),
{
    if components.len() > 0 {
        let rest = components.drop_last();
        each_component_is_in_one_group(rest);
        let before = grouped(rest);
        let groups = grouped(components);
        let name = components.last().group@;
        let at = group_place(before, name);
        let place = components.len() - 1;
        lemma_group_found(before, name);
        assert forall|c: int| 0 <= c < components.len() implies exists|g: int, k: int|
            {
                &&& 0 <= g < groups.len()
                &&& 0 <= k < groups[g].1.len()
                &&& #[trigger] groups[g].1[k] == c
                &&& groups[g].0 == (#[trigger] components[c]).group@
            } by {
            if c == place {
                let k = groups[at].1.len() - 1;
                assert(groups[at].1[k] == c);
            } else {
                assert(rest[c] == components[c]);
                let (g, k) = choose|g: int, k: int|
                    {
                        &&& 0 <= g < before.len()
                        &&& 0 <= k < before[g].1.len()
                        &&& #[trigger] before[g].1[k] == c
                        &&& before[g].0 == rest[c].group@
                    };
                assert(groups[g].1[k] == c);
            }
        }
        assert forall|g: int, k: int|
            0 <= g < groups.len() && 0 <= k < groups[g].1.len() implies {
            let c = #[trigger] groups[g].1[k];
            &&& 0 <= c < components.len()
            &&& components[c].group@ == groups[g].0
        } by {
            if g < before.len() && k < before[g].1.len() {
                let c = before[g].1[k];
                assert(groups[g].1[k] == c);
                assert(rest[c] == components[c]);
            } else {
                assert(g == at);
            }
        }
        assert forall|g: int, k: int, l: int|
            0 <= g < groups.len() && 0 <= k < l < groups[g].1.len() implies (
        #[trigger] groups[g].1[k]) < (#[trigger] groups[g].1[l]) by {
            if g < before.len() {
                assert(groups[g].1[k] == before[g].1[k]);
                if l < before[g].1.len() {
                    assert(groups[g].1[l] == before[g].1[l]);
                }
            }
        }
    }
}

proof fn lemma_group_found(groups: Seq<(Seq<char>, Seq<int>)>, name: Seq<char>)
    ensures
        ({
            let i = group_place(groups, name);
            &&& 0 <= i <= groups.len()
            &&& i < groups.len() ==> groups[i].0 == name
            &&& forall|j: int| 0 <= j < i ==> (#[trigger] groups[j]).0 != name
        }),
    decreases groups.len(),
{
    if groups.len() > 0 && groups[0].0 != name {
        let rest = groups.drop_first();
        lemma_group_found(rest, name);
        let i = group_place(groups, name);
        assert forall|j: int| 0 <= j < i implies (#[trigger] groups[j]).0 != name by {
            if j > 0 {
                assert(rest[j - 1] == groups[j]);
            }
        }
    }
}

/// One incident is shown before another: it was opened later or, in the same
/// second, entered first.
pub open spec fn shown_before(incidents: Seq<Incident>, a: usize, b: usize) -> bool {
    let (x, y) = (incidents[a as int], incidents[b as int]);
    x.opened > y.opened || (x.opened == y.opened && a < b)
}

/// These places are those of the incidents of one kind, each once, the newest
/// first.
pub open spec fn newest_once(
    incidents: Seq<Incident>,
    places: Seq<usize>,
    kind: spec_fn(Incident) -> bool,
) -> bool {
    &&& forall|p: usize|
        #[trigger] places.contains(p) <==> p < incidents.len() && kind(incidents[p as int])
    &&& forall|i: int, j: int|
        0 <= i < j < places.len() ==> shown_before(
            incidents,
            #[trigger] places[i],
            #[trigger] places[j],
        )
}

/// The incidents are shown the newest first, each of them once: among the open
/// ones while it is open, then among the resolved.
pub proof fn incidents_are_shown_once_newest_first(incidents: Seq<Incident>)
    requires
        incidents.len() <= usize::MAX,
    ensures
        ({
            let places = by_opening(incidents, incidents.len());
            &&& newest_once(incidents, places, |i: Incident| true)
            &&& newest_once(
                incidents,
                those(incidents, places, false),
                |i: Incident| i.resolved is None,
            )
            &&& newest_once(
                incidents,
                those(incidents, places, true),
                |i: Incident| i.resolved is Some,
            )
        }),
{
    let places = by_opening(incidents, incidents.len());
    lemma_by_opening(incidents, incidents.len());
    lemma_those_of(incidents, places, false);
    lemma_those_of(incidents, places, true);
}

proof fn lemma_by_opening(incidents: Seq<Incident>, n: nat)
    requires
        n <= incidents.len() <= usize::MAX,
    ensures
        ({
            let s = by_opening(incidents, n);
            &&& forall|p: usize| #[trigger] s.contains(p) <==> p < n
            &&& forall|i: int, j: int|
                0 <= i < j < s.len() ==> shown_before(
                    incidents,
                    #[trigger] s[i],
                    #[trigger] s[j],
                )
        }),
    decreases n,
{
    if n > 0 {
        let p = (n - 1) as usize;
        let before = by_opening(incidents, (n - 1) as nat);
        lemma_by_opening(incidents, (n - 1) as nat);
        let s = by_opening(incidents, n);
        let k = lemma_put_in(incidents, before, p);
        assert(s[k] == p);
        assert forall|q: usize| #[trigger] s.contains(q) <==> q < n by {
            if q < p {
                assert(before.contains(q));
                let i = choose|i: int| 0 <= i < before.len() && before[i] == q;
                assert(s[if i < k { i } else { i + 1 }] == q);
            }
            if s.contains(q) && q != p {
                let i = choose|i: int| 0 <= i < s.len() && s[i] == q;
                assert(before[if i < k { i } else { i - 1 }] == q);
                assert(before.contains(q));
            }
        }
        assert forall|i: int, j: int| 0 <= i < j < s.len() implies shown_before(
            incidents,
            #[trigger] s[i],
            #[trigger] s[j],
        ) by {
            let x = if i < k { i } else { i - 1 };
            let y = if j < k { j } else { j - 1 };
            if i != k && j != k {
                assert(s[i] == before[x] && s[j] == before[y]);
            } else if j == k {
                assert(s[i] == before[i]);
                assert(before.contains(before[i]));
                assert(before[k - 1] == before[k - 1]);
                if i < k - 1 {
                    assert(shown_before(incidents, before[i], before[k - 1]));
                }
            } else {
                assert(s[j] == before[y]);
            }
        }
    }
}

/// A place is put in behind the last one opened no earlier.
proof fn lemma_put_in(incidents: Seq<Incident>, s: Seq<usize>, p: usize) -> (k: int)
    ensures
        0 <= k <= s.len(),
        newest_first(incidents, s, p) == s.insert(k, p),
        k > 0 ==> incidents[s[k - 1] as int].opened >= incidents[p as int].opened,
        forall|j: int|
            k <= j < s.len() ==> incidents[(#[trigger] s[j]) as int].opened
                < incidents[p as int].opened,
    decreases s.len(),
{
    if s.len() == 0 || incidents[s.last() as int].opened >= incidents[p as int].opened {
        assert(s.push(p) =~= s.insert(s.len() as int, p));
        s.len() as int
    } else {
        let rest = s.drop_last();
        let k = lemma_put_in(incidents, rest, p);
        assert(rest.insert(k, p).push(s.last()) =~= s.insert(k, p));
        assert forall|j: int| k <= j < s.len() implies incidents[(#[trigger] s[j]) as int].opened
            < incidents[p as int].opened by {
            if j < rest.len() {
                assert(rest[j] == s[j]);
            }
        }
        k
    }
}

proof fn lemma_those_of(incidents: Seq<Incident>, places: Seq<usize>, resolved: bool)
    requires
        forall|i: int, j: int|
            0 <= i < j < places.len() ==> shown_before(
                incidents,
                #[trigger] places[i],
                #[trigger] places[j],
            ),
    ensures
        ({
            let s = those(incidents, places, resolved);
            &&& forall|p: usize| #[trigger]
                s.contains(p) <==> places.contains(p) && (incidents[p as int].resolved is Some)
                    == resolved
            &&& forall|i: int, j: int|
                0 <= i < j < s.len() ==> shown_before(
                    incidents,
                    #[trigger] s[i],
                    #[trigger] s[j],
                )
        }),
    decreases places.len(),
{
    if places.len() > 0 {
        let rest = places.drop_last();
        let last = places.last();
        assert forall|i: int, j: int| 0 <= i < j < rest.len() implies shown_before(
            incidents,
            #[trigger] rest[i],
            #[trigger] rest[j],
        ) by {
            assert(shown_before(incidents, places[i], places[j]));
        }
        lemma_those_of(incidents, rest, resolved);
        let before = those(incidents, rest, resolved);
        let s = those(incidents, places, resolved);
        assert forall|p: usize| #[trigger]
            s.contains(p) <==> places.contains(p) && (incidents[p as int].resolved is Some)
                == resolved by {
            if places.contains(p) {
                let i = choose|i: int| 0 <= i < places.len() && places[i] == p;
                if i < rest.len() {
                    assert(rest[i] == p);
                    assert(rest.contains(p));
                }
            }
            if rest.contains(p) {
                let i = choose|i: int| 0 <= i < rest.len() && rest[i] == p;
                assert(places[i] == p);
            }
            if before.contains(p) {
                let i = choose|i: int| 0 <= i < before.len() && before[i] == p;
                assert(s[i] == p);
            }
            if s.contains(p) {
                let i = choose|i: int| 0 <= i < s.len() && s[i] == p;
                if i < before.len() {
                    assert(before[i] == p);
                    assert(before.contains(p));
                } else {
                    assert(places[places.len() - 1] == p);
                }
            }
            if p == last && (incidents[last as int].resolved is Some) == resolved {
                assert(s[s.len() - 1] == p);
            }
        }
        assert forall|i: int, j: int| 0 <= i < j < s.len() implies shown_before(
            incidents,
            #[trigger] s[i],
            #[trigger] s[j],
        ) by {
            assert(s[i] == before[i]);
            if j < before.len() {
                assert(s[j] == before[j]);
            } else {
                assert(before.contains(before[i]));
                let k = choose|k: int| 0 <= k < rest.len() && rest[k] == before[i];
                assert(places[k] == before[i] && places[places.len() - 1] == s[j]);
            }
        }
    }
}

/// A day looks well from 99.5% on, fair from 95% on, and bad below; a day
/// without data has no look.
pub proof fn days_look_as_they_were(p: Double)
    ensures
        ({
            let one = pow2(1074) as int;
            &&& !p.nan() && 2 * p.value() >= 199 * one ==> look(Some(p)) == "ok"@
            &&& !p.nan() && 95 * one <= p.value() && 2 * p.value() < 199 * one ==> look(Some(p))
                == "warn"@
            &&& !p.nan() && p.value() < 95 * one ==> look(Some(p)) == "bad"@
            &&& p.nan() ==> look(Some(p)) == "bad"@
            &&& look(None) == ""@
        }),
{
    lemma2_to64();
    lemma2_to64_rest();
    lemma_pow2_adds(46, 1028);
    let q = pow2(1028) as int;
    let one = pow2(1074) as int;
    assert(one == 0x4000_0000_0000 * q);
    let good = Double { bits: GOOD_BITS };
    let fair = Double { bits: FAIR_BITS };
    assert(double::exponent(GOOD_BITS as nat) == 1028);
    assert(double::exponent(FAIR_BITS as nat) == 1028);
    assert(good.value() == 0x18_e000_0000_0000 * q);
    assert(fair.value() == 0x17_c000_0000_0000 * q);
}

/// The sum of the known days grows by a day that is known, and by no other.
pub proof fn only_known_days_count(days: Seq<(i64, Option<Double>)>, ts: i64, p: Double)
    ensures
        known_sum(days.push((ts, None))) == known_sum(days),
        known_sum(days.push((ts, Some(p)))).1 == known_sum(days).1 + 1,
        known_sum(days.push((ts, Some(p)))).0 == double::sum(known_sum(days).0, p),
        known_sum(Seq::empty()).1 == 0,
        known_sum(Seq::empty()).0.value() == 0,
{
    assert(days.push((ts, None)).drop_last() =~= days);
    assert(days.push((ts, Some(p))).drop_last() =~= days);
    double::lemma_zero();
}

/// The groups stand in the order of their first components.
pub proof fn groups_stand_in_the_order_of_their_first(components: Seq<Component>)
    ensures
        forall|g: int, h: int|
            0 <= g < h < grouped(components).len() ==> (#[trigger] grouped(components)[g]).1[0] < (
            #[trigger] grouped(components)[h]).1[0],
    decreases components.len(),
{
    if components.len() > 0 {
        let rest = components.drop_last();
        groups_stand_in_the_order_of_their_first(rest);
        each_component_is_in_one_group(rest);
        let before = grouped(rest);
        let all = grouped(components);
        lemma_group_found(before, components.last().group@);
        assert forall|g: int, h: int| 0 <= g < h < all.len() implies (#[trigger] all[g]).1[0] < (
        #[trigger] all[h]).1[0] by {
            assert(before[g].1.len() > 0);
            assert(all[g].1[0] == before[g].1[0]);
            let first = before[g].1[0];
            assert(0 <= first < rest.len());
            if h < before.len() {
                assert(before[h].1.len() > 0);
                assert(all[h].1[0] == before[h].1[0]);
            }
        }
    }
}

} // verus!
