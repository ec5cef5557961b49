//! InfluxDB line protocol. Lines are batched and posted to the configured
//! write endpoint every `flush_secs` or 1000 lines, whichever comes first.
use crate::decimal;
use crate::decimal::fixed_text;
use crate::probe;
use crate::probe::RoundResult;
use crate::text;
use crate::text::{chars_of, concat, decimal_u128, decimal_u64};
use crate::time::Duration;
use vstd::prelude::*;
use vstd::string::*;

verus! {

pub const MAX_BATCH: usize = 1000;

/// A tag's value by the line protocol: `,`, `=` and ` ` get a backslash.
pub open spec fn escaped_tag(s: Seq<char>) -> Seq<char>
    decreases s.len(),
{
    if s.len() == 0 {
        Seq::empty()
    } else {
        let c = s.last();
        let before = escaped_tag(s.drop_last());
        if c == ',' || c == '=' || c == ' ' {
            before.push('\\').push(c)
        } else {
            before.push(c)
        }
    }
}

pub fn esc_tag(s: &str) -> (r: String)
    ensures
        r@ == escaped_tag(s@),
{
    let chars = chars_of(s);
    let ghost all = s@;
    let mut out = String::new();
    let mut i: usize = 0;
    assert(all.take(0) =~= Seq::empty());
    while i < chars.len()
        invariant
            chars@ == all,
            i <= all.len(),
            out@ == escaped_tag(all.take(i as int)),
        decreases all.len() - i,
    {
        assert(all.take(i + 1).drop_last() == all.take(i as int));
        assert(all.take(i + 1).last() == all[i as int]);
        let c = chars[i];
        if c == ',' || c == '=' || c == ' ' {
            out.push('\\');
        }
        out.push(c);
        i = i + 1;
    }
    assert(all.take(i as int) == all);
    out
}

/// Nanoseconds from the epoch to a round's start.
pub open spec fn stamp(r: RoundResult) -> nat {
    match r.started {
        Some(d) => d.nanos as nat,
        None => 0,
    }
}

/// ",name=value" for a span in seconds, nothing where there is none.
pub open spec fn span_field(name: Seq<char>, v: Option<Duration>) -> Seq<char> {
    match v {
        Some(d) => ","@ + name + "="@ + decimal::fixed(d.secs(), 6),
        None => Seq::empty(),
    }
}

pub open spec fn fields_of(r: RoundResult) -> Seq<char> {
    "loss="@ + decimal::fixed(r.loss(), 3) + ",sent="@ + text::decimal(r.sent as nat) + "i,recv="@
        + text::decimal(r.rtts@.len()) + "i"@ + span_field("median"@, r.middle()) + span_field(
        "min"@,
        probe::least(r.rtts@),
    ) + span_field("max"@, probe::greatest(r.rtts@))
}

/// "measurement,target=…,host=… fields ns\n"
pub open spec fn line_of(measurement: Seq<char>, r: RoundResult) -> Seq<char> {
    escaped_tag(measurement) + ",target="@ + escaped_tag(r.target@) + ",host="@ + escaped_tag(
        r.host@,
    ) + " "@ + fields_of(r) + " "@ + text::decimal(stamp(r)) + "\n"@
}

fn push_field(out: &mut String, name: &str, v: Option<Duration>)
    ensures
        final(out)@ == old(out)@ + span_field(name@, v),
{
    let ghost start = out@;
    match v {
        Some(d) => {
            out.append(",");
            out.append(name);
            out.append("=");
            out.append(fixed_text(d.as_secs_f64(), 6).as_str());
        },
        None => {},
    }
    assert(out@ =~= start + span_field(name@, v));
}

fn fields(r: &RoundResult) -> (s: String)
    requires
        r.wf(),
    ensures
        s@ == fields_of(*r),
{
    let mut out = "loss=".to_owned();
    out.append(fixed_text(r.loss_pct(), 3).as_str());
    out.append(",sent=");
    out.append(decimal_u64(r.sent as u64).as_str());
    out.append("i,recv=");
    out.append(decimal_u64(r.received() as u64).as_str());
    out.append("i");
    push_field(&mut out, "median", r.median());
    push_field(&mut out, "min", r.min());
    push_field(&mut out, "max", r.max());
    assert(out@ =~= fields_of(*r));
    out
}

pub fn format_line(measurement: &str, r: &RoundResult) -> (s: String)
    requires
        r.wf(),
    ensures
        s@ == line_of(measurement@, *r),
{
    let ns: u128 = match r.started {
        Some(d) => d.nanos,
        None => 0,
    };
    let mut out = esc_tag(measurement);
    out.append(",target=");
    out.append(esc_tag(r.target.as_str()).as_str());
    out.append(",host=");
    out.append(esc_tag(r.host.as_str()).as_str());
    out.append(" ");
    out.append(fields(r).as_str());
    out.append(" ");
    out.append(decimal_u128(ns).as_str());
    out.append("\n");
    assert(out@ =~= line_of(measurement@, *r));
    out
}

/// The `Authorization` header of a write.
pub fn authorization(token: &str) -> (r: String)
    ensures
        r@ == "Token "@ + token@,
{
    let mut s = "Token ".to_owned();
    s.append(token);
    s
}

/// Seconds between two writes; one at least.
pub fn flush_interval(flush_secs: u64) -> (r: u64)
    ensures
        r == (if flush_secs == 0 {
            1u64
        } else {
            flush_secs
        }),
{
    if flush_secs == 0 {
        1
    } else {
        flush_secs
    }
}

/// The lines that were not posted yet.
#[derive(Debug)]
pub struct Batch {
    pub lines: Vec<String>,
}

impl Batch {
    /// Fewer lines than a full batch.
    pub open spec fn wf(self) -> bool {
        self.lines@.len() < MAX_BATCH
    }

    pub fn new() -> (b: Batch)
        ensures
            b.wf(),
            b.lines@.len() == 0,
    {
        Batch { lines: Vec::new() }
    }

    /// What is posted, and how many lines it holds; nothing where there is
    /// nothing to post. Whether or not the write succeeds the batch is gone —
    /// measurement won't backlog.
    pub fn flush(&mut self) -> (r: Option<(String, usize)>)
        ensures
            final(self).lines@.len() == 0,
            match r {
                None => old(self).lines@.len() == 0,
                Some((body, n)) => {
                    &&& n == old(self).lines@.len() > 0
                    &&& body@ == text::concatenated(text::texts(old(self).lines@))
                },
            },
    {
        if self.lines.len() == 0 {
            return None;
        }
        let body = concat(&self.lines);
        let n: usize = self.lines.len();
        self.lines.clear();
        Some((body, n))
    }

    /// Takes in a line; a full batch is to be posted at once.
    pub fn add_line(&mut self, line: String) -> (r: Option<(String, usize)>)
        requires
            old(self).wf(),
        ensures
            final(self).wf(),
            ({
                let all = old(self).lines@.push(line);
                if all.len() < MAX_BATCH {
                    r is None && final(self).lines@ == all
                } else {
                    &&& final(self).lines@.len() == 0
                    &&& r matches Some((body, n)) && n == MAX_BATCH && body@
                        == text::concatenated(text::texts(all))
                }
            }),
    {
        self.lines.push(line);
        if self.lines.len() >= MAX_BATCH {
            self.flush()
        } else {
            None
        }
    }
}

/// A tag is escaped character by character: commas, equals signs and spaces get
/// a backslash before them, and nothing else is changed.
pub proof fn tags_are_escaped_character_by_character(a: Seq<char>, b: Seq<char>, c: char)
    ensures
        escaped_tag(a + b) == escaped_tag(a) + escaped_tag(b),
        escaped_tag(seq![c]) == (if seq![',', '=', ' '].contains(c) {
            seq!['\\', c]
        } else {
            seq![c]
        }),
{
    lemma_escaped_tag_of_both(a, b);
    let special = seq![',', '=', ' '];
    assert(special[0] == ',' && special[1] == '=' && special[2] == ' ');
    let s = seq![c];
    assert(s.last() == c);
    assert(s.drop_last() =~= Seq::empty());
    reveal_with_fuel(escaped_tag, 2);
    assert(escaped_tag(s.drop_last()) =~= Seq::empty());
}

proof fn lemma_escaped_tag_of_both(a: Seq<char>, b: Seq<char>)
    ensures
        escaped_tag(a + b) == escaped_tag(a) + escaped_tag(b),
    decreases b.len(),
{
    if b.len() == 0 {
        assert(a + b =~= a);
        assert(escaped_tag(a) + escaped_tag(b) =~= escaped_tag(a));
    } else {
        lemma_escaped_tag_of_both(a, b.drop_last());
        assert((a + b).drop_last() =~= a + b.drop_last());
        assert((a + b).last() == b.last());
        assert(escaped_tag(a + b) =~= escaped_tag(a) + escaped_tag(b));
    }
}

/// A round with replies has the fields of its median, its fastest and its
/// slowest reply behind its counts, in seconds; one without has its counts
/// alone.
pub proof fn an_answered_round_has_all_fields(
    r: RoundResult,
    lo: Duration,
    mid: Duration,
    hi: Duration,
)
    requires
        r.rtts@.contains(lo),
        r.rtts@.contains(hi),
        forall|i: int|
            0 <= i < r.rtts@.len() ==> lo.nanos <= (#[trigger] r.rtts@[i]).nanos <= hi.nanos,
        r.middle() == Some(mid),
    ensures
        fields_of(r) == "loss="@ + decimal::fixed(r.loss(), 3) + ",sent="@ + text::decimal(
            r.sent as nat,
        ) + "i,recv="@ + text::decimal(r.rtts@.len()) + "i"@ + (","@ + "median"@ + "="@
            + decimal::fixed(mid.secs(), 6)) + (","@ + "min"@ + "="@ + decimal::fixed(
            lo.secs(),
            6,
        )) + (","@ + "max"@ + "="@ + decimal::fixed(hi.secs(), 6)),
{
    probe::the_fastest_and_the_slowest(r.rtts@, lo, hi);
}

} // verus!
