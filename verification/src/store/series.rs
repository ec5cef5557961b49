//! One target's series: an image of fixed size holding round-robin archives.
//!
//! Layout (all integers little-endian, all floats binary64, F = pings + 2),
//! in 8-byte words:
//!
//! ```text
//! file header (8 words):
//!   0  magic "DABPING1"
//!   1  step (seconds)
//!   2  pings (low half), number of archives (high half)
//!   3  last_update (unix ts of the newest PDP)
//!   4  1 where the newest PDP is that of second 0; else 0
//!   5  reserved
//! per archive header (4 + 2F words):
//!   0  cf (low half: 0 avg, 1 min, 2 max), steps (high half)
//!   1  rows
//!   2  xff
//!   3  acc_window_start (i64::MIN = no window in progress)
//!   4  acc_vals (F: running sum, or running min/max)
//!   4+F  acc_counts (F: known PDPs per field this window)
//! per archive data: rows × row, row (1 + F words):
//!   0  ts (window start; the row is valid iff ts matches its slot's time)
//!   1  fields (F: loss%, median, ping_1..ping_N sorted; NaN = unknown)
//! ```
//!
//! Slot index is a pure function of time: `(ts / period) % rows`, so writes
//! are O(1) and a torn row is self-invalidating via its ts field.
use crate::double;
use crate::double::{Double, NAN_BITS, ONE_BITS};
use crate::store::{Cf, RraSpec};
use vstd::arithmetic::div_mod::*;
use vstd::arithmetic::power2::*;
use vstd::bytes::*;
use vstd::prelude::*;
use vstd::slice::*;

verus! {

/// "DABPING1"
pub const MAGIC: u64 = 0x3147_4e49_5042_4144;

pub const EMPTY_WINDOW: i64 = i64::MIN;

/// Refuse to materialize absurd fetches (e.g. a year of 1s data).
pub const MAX_FETCH_POINTS: u64 = 1_000_000;

/// How many seconds an archive may reach back: what 64 bits count.
pub const HORIZON: i64 = 0x7fff_ffff_ffff_ffff;

/// Words of the file header.
pub const FILE_HEADER: usize = 8;

/// Words of an archive header before the accumulators.
pub const ARCHIVE_HEADER: usize = 4;

/// Where one archive lies in the image, in words.
#[derive(Clone, Copy, Debug, PartialEq, Eq, Structural)]
pub struct Geom {
    pub cf: Cf,
    pub steps: u32,
    pub rows: u64,
    pub xff: Double,
    pub header: usize,
    pub data: usize,
}

/// The layout of a target's series.
#[derive(Debug)]
pub struct TargetSeries {
    pub step: u64,
    /// F = pings + 2
    pub fields: usize,
    pub archives: Vec<Geom>,
}

/// Which part of an existing image does not match the configuration.
#[derive(Clone, Copy, Debug, PartialEq, Eq, Structural)]
pub enum Mismatch {
    /// The size of the image.
    Size,
    /// The magic: not a series image.
    Magic,
    Step,
    Pings,
    /// The number of archives.
    Count,
    /// The archive table.
    Table,
}

/// What is said of a file that does not match the layout.
pub open spec fn mismatch_text(what: Mismatch, file: Seq<char>) -> Seq<char> {
    let changed = |s: Seq<char>|
        file + ": existing series file does not match the config ("@ + s
            + " changed); move the file away or restore the config"@;
    match what {
        Mismatch::Size => file
            + ": file size does not match the configured layout — the step/pings/rra config changed; move the file away or restore the config"@,
        Mismatch::Magic => changed("magic — not a dabping series file?"@),
        Mismatch::Step => changed("database.step"@),
        Mismatch::Pings => changed("database.pings"@),
        Mismatch::Count => changed("rra count"@),
        Mismatch::Table => changed("rra table"@),
    }
}

impl Mismatch {
    /// What to say of the file.
    pub fn message(&self, file: &str) -> (r: String)
        ensures
            r@ == mismatch_text(*self, file@),
    {
        let mut m = file.to_owned();
        let what = match self {
            Mismatch::Size => {
                m.append(
                    ": file size does not match the configured layout — the step/pings/rra config changed; move the file away or restore the config",
                );
                return m;
            },
            Mismatch::Magic => "magic — not a dabping series file?",
            Mismatch::Step => "database.step",
            Mismatch::Pings => "database.pings",
            Mismatch::Count => "rra count",
            Mismatch::Table => "rra table",
        };
        m.append(": existing series file does not match the config (");
        m.append(what);
        m.append(" changed); move the file away or restore the config");
        m
    }
}

/// Why a fetch is refused.
#[derive(Clone, Copy, Debug, PartialEq, Eq, Structural)]
pub enum FetchError {
    /// No archive can serve the consolidation function.
    NoArchive,
    /// The range holds this many points.
    TooMany(u64),
}

/// One stored row.
#[verifier::ext_equal]
pub struct Row {
    pub ts: int,
    pub vals: Seq<Double>,
}

/// What an image holds of one archive: the window in progress and the rows.
#[verifier::ext_equal]
pub struct Archive {
    pub window: int,
    pub vals: Seq<Double>,
    pub counts: Seq<Double>,
    pub rows: Seq<Row>,
}

/// The little-endian word at word position `k`.
pub open spec fn word(image: Seq<u8>, k: int) -> u64 {
    spec_u64_from_le_bytes(image.subrange(8 * k, 8 * k + 8))
}

/// A word as a signed integer.
pub open spec fn as_signed(w: u64) -> int {
    if w < 0x8000_0000_0000_0000 {
        w as int
    } else {
        w - 0x1_0000_0000_0000_0000
    }
}

/// A signed integer as a word.
pub open spec fn as_word(v: int) -> u64 {
    if v < 0 {
        (v + 0x1_0000_0000_0000_0000) as u64
    } else {
        v as u64
    }
}

/// The start of the period that a time falls into.
pub open spec fn aligned(t: int, period: int) -> int {
    (t / period) * period
}

/// The row that a window goes to.
pub open spec fn slot(w: int, period: int, rows: int) -> int {
    (as_word(w / period) as int) % rows
}

impl Geom {
    /// Seconds per row.
    pub open spec fn period(self, step: u64) -> int {
        step * self.steps
    }

    pub open spec fn fits(self, step: u64) -> bool {
        &&& self.steps > 0
        &&& self.rows > 0
        &&& self.rows * self.period(step) <= HORIZON
    }

    /// How many primary data points a window must know: `(1 - xff) * steps`.
    pub open spec fn min_known(self) -> Double {
        double::product(
            double::sum(Double { bits: ONE_BITS }, double::negated(self.xff)),
            double::of_int(self.steps as nat),
        )
    }
}

/// What an accumulator starts from.
pub open spec fn initial(cf: Cf) -> Double {
    match cf {
        Cf::Average => Double { bits: 0 },
        _ => Double { bits: NAN_BITS },
    }
}

/// An accumulator after one more known value.
pub open spec fn merged(cf: Cf, cur: Double, v: Double) -> Double {
    match cf {
        Cf::Average => if cur.nan() {
            v
        } else {
            double::sum(cur, v)
        },
        Cf::Min => if cur.nan() || v.less(cur) {
            v
        } else {
            cur
        },
        Cf::Max => if cur.nan() || cur.less(v) {
            v
        } else {
            cur
        },
    }
}

/// The consolidated value of a field: unknown where too little of the window
/// is known.
pub open spec fn settled(g: Geom, v: Double, count: Double) -> Double {
    let zero = Double { bits: 0 };
    if count.less(zero) || count.equals(zero) || count.less(g.min_known()) {
        Double { bits: NAN_BITS }
    } else {
        match g.cf {
            Cf::Average => double::quotient(v, count),
            _ => v,
        }
    }
}

impl Archive {
    /// A new window, nothing known of it yet.
    pub open spec fn opened(self, cf: Cf, fields: nat, window: int) -> Archive {
        Archive {
            window,
            vals: Seq::new(fields, |j: int| initial(cf)),
            counts: Seq::new(fields, |j: int| Double { bits: 0 }),
            rows: self.rows,
        }
    }

    /// The window with one more data point; unknown fields leave no trace.
    pub open spec fn accumulated(self, cf: Cf, fields: Seq<Double>) -> Archive {
        Archive {
            window: self.window,
            vals: Seq::new(
                fields.len(),
                |j: int|
                    if fields[j].nan() {
                        self.vals[j]
                    } else {
                        merged(cf, self.vals[j], fields[j])
                    },
            ),
            counts: Seq::new(
                fields.len(),
                |j: int|
                    if fields[j].nan() {
                        self.counts[j]
                    } else {
                        double::sum(self.counts[j], Double { bits: ONE_BITS })
                    },
            ),
            rows: self.rows,
        }
    }

    /// The row of the window that starts at `w` written with what is known.
    pub open spec fn finalized(self, g: Geom, step: u64, w: int) -> Archive {
        Archive {
            rows: self.rows.update(
                slot(w, g.period(step), g.rows as int),
                Row {
                    ts: w,
                    vals: Seq::new(
                        self.vals.len(),
                        |j: int| settled(g, self.vals[j], self.counts[j]),
                    ),
                },
            ),
            ..self
        }
    }

    pub open spec fn emptied(self) -> Archive {
        Archive { window: EMPTY_WINDOW as int, ..self }
    }

    /// The archive after the data point of time `t`: an abandoned window is
    /// written first, and a window is written when its last point came.
    pub open spec fn after(self, g: Geom, step: u64, t: int, fields: Seq<Double>) -> Archive {
        let w = aligned(t, g.period(step));
        let ready = if self.window == w {
            self
        } else if self.window == EMPTY_WINDOW {
            self.opened(g.cf, fields.len(), w)
        } else {
            self.finalized(g, step, self.window).opened(g.cf, fields.len(), w)
        };
        let full = ready.accumulated(g.cf, fields);
        if (t - w) / (step as int) == g.steps - 1 {
            full.finalized(g, step, w).emptied()
        } else {
            full
        }
    }

    /// What the row of a window holds: its fields, or unknowns where the row
    /// holds another window. A new row holds the window of second 0, all zeros.
    pub open spec fn row(self, g: Geom, step: u64, fields: nat, w: int) -> Seq<Double> {
        let r = self.rows[slot(w, g.period(step), g.rows as int)];
        if r.ts == w {
            r.vals
        } else {
            Seq::new(fields, |j: int| Double { bits: NAN_BITS })
        }
    }
}

impl TargetSeries {
    /// Where an archive's header starts.
    pub open spec fn header_at(self, i: int) -> int {
        FILE_HEADER + i * (ARCHIVE_HEADER + 2 * self.fields)
    }

    /// Where an archive's rows start.
    pub open spec fn data_at(self, i: int) -> int
        decreases i,
    {
        if i <= 0 {
            self.header_at(self.archives@.len() as int)
        } else {
            self.data_at(i - 1) + self.archives@[i - 1].rows * (1 + self.fields)
        }
    }

    pub open spec fn words(self) -> int {
        self.data_at(self.archives@.len() as int)
    }

    pub open spec fn wf(self) -> bool {
        &&& 0 < self.step <= HORIZON
        &&& 2 <= self.fields <= u32::MAX + 2
        &&& self.archives@.len() <= u32::MAX
        &&& 8 * self.words() <= usize::MAX
        &&& forall|i: int|
            0 <= i < self.archives@.len() ==> {
                let g = #[trigger] self.archives@[i];
                &&& g.fits(self.step)
                &&& g.header == self.header_at(i)
                &&& g.data == self.data_at(i)
            }
    }

    /// The image has the size that the layout asks for.
    pub open spec fn sized(self, image: Seq<u8>) -> bool {
        image.len() == 8 * self.words()
    }

    /// The time of the newest data point.
    pub open spec fn last(self, image: Seq<u8>) -> int {
        as_signed(word(image, 3))
    }

    /// Something was recorded. A new image has neither a time nor the mark of
    /// second 0.
    pub open spec fn begun(self, image: Seq<u8>) -> bool {
        self.last(image) != 0 || word(image, 4) != 0
    }

    /// What an image holds of archive `i`.
    pub open spec fn archive(self, image: Seq<u8>, i: int) -> Archive {
        let g = self.archives@[i];
        let f = self.fields as nat;
        Archive {
            window: as_signed(word(image, g.header + 3)),
            vals: Seq::new(f, |j: int| Double { bits: word(image, g.header + 4 + j) }),
            counts: Seq::new(f, |j: int| Double { bits: word(image, g.header + 4 + f + j) }),
            rows: Seq::new(
                g.rows as nat,
                |s: int|
                    Row {
                        ts: as_signed(word(image, g.data + s * (1 + f))),
                        vals: Seq::new(
                            f,
                            |j: int| Double { bits: word(image, g.data + s * (1 + f) + 1 + j) },
                        ),
                    },
            ),
        }
    }
}

/// Two images agree in their words but for those from `lo` up to `hi`.
spec fn same_outside(a: Seq<u8>, b: Seq<u8>, lo: int, hi: int) -> bool {
    &&& a.len() == b.len()
    &&& forall|k: int| 0 <= 8 * k < a.len() && !(lo <= k < hi) ==> word(a, k) == word(b, k)
}

fn get(image: &[u8], k: usize) -> (w: u64)
    requires
        8 * k + 8 <= image@.len(),
    ensures
        w == word(image@, k as int),
{
    let n: usize = image.len();
    assert(8 * k + 8 <= n);
    u64_from_le_bytes(slice_subrange(image, 8 * k, 8 * k + 8))
}

fn put(image: &mut [u8], k: usize, w: u64)
    requires
        8 * k + 8 <= old(image)@.len(),
        old(image)@.len() % 8 == 0,
    ensures
        final(image)@.len() == old(image)@.len(),
        word(final(image)@, k as int) == w,
        same_outside(old(image)@, final(image)@, k as int, k + 1),
{
    let bytes = u64_to_le_bytes(w);
    proof {
        lemma_auto_spec_u64_to_from_le_bytes();
    }
    let ghost before = image@;
    let n: usize = image.len();
    let mut i: usize = 0;
    while i < 8
        invariant
            i <= 8,
            n == before.len(),
            bytes@.len() == 8,
            8 * k + 8 <= before.len(),
            image@.len() == before.len(),
            forall|m: int| 0 <= m < i ==> image@[8 * k + m] == bytes@[m],
            forall|m: int|
                0 <= m < before.len() && !(8 * k <= m < 8 * k + i) ==> image@[m] == before[m],
        decreases 8 - i,
    {
        let b = bytes[i];
        image[8 * k + i] = b;
        i = i + 1;
    }
    proof {
        assert(image@.subrange(8 * k, 8 * k + 8) == bytes@);
        assert forall|m: int| 0 <= 8 * m < before.len() && !(k <= m < k + 1) implies word(
            before,
            m,
        ) == word(image@, m) by {
            assert(before.subrange(8 * m, 8 * m + 8) == image@.subrange(8 * m, 8 * m + 8));
        }
    }
}

fn get_signed(image: &[u8], k: usize) -> (v: i64)
    requires
        8 * k + 8 <= image@.len(),
    ensures
        v == as_signed(word(image@, k as int)),
{
    let w: u64 = get(image, k);
    if w < 0x8000_0000_0000_0000 {
        w as i64
    } else {
        (w as i128 - 0x1_0000_0000_0000_0000) as i64
    }
}

fn word_of(v: i128) -> (w: u64)
    requires
        i64::MIN <= v <= i64::MAX,
    ensures
        w == as_word(v as int),
        as_signed(w) == v,
{
    if v < 0 {
        (v + 0x1_0000_0000_0000_0000) as u64
    } else {
        v as u64
    }
}

/// Floor division.
fn floor_div(a: i128, b: i128) -> (q: i128)
    requires
        0 < b <= 0x8000_0000_0000_0000,
        -0x1_0000_0000_0000_0000 <= a <= 0x1_0000_0000_0000_0000,
    ensures
        q == (a as int) / (b as int),
        q * b <= a < q * b + b,
        -0x1_0000_0000_0000_0000 <= q <= 0x1_0000_0000_0000_0000,
{
    let q: i128 = if a >= 0 {
        (a as u128 / b as u128) as i128
    } else {
        let up: u128 = ((-a) as u128 + (b - 1) as u128) / b as u128;
        -(up as i128)
    };
    proof {
        if a >= 0 {
            lemma_fundamental_div_mod(a as int, b as int);
            lemma_mod_bound(a as int, b as int);
            assert(q * b <= a < q * b + b) by (nonlinear_arith)
                requires
                    a == b * q + (a as int) % (b as int),
                    0 <= (a as int) % (b as int) < b,
            ;
            assert(0 <= q <= a) by (nonlinear_arith)
                requires
                    a == b * q + (a as int) % (b as int),
                    0 <= (a as int) % (b as int) < b,
                    a >= 0,
                    b >= 1,
            ;
        } else {
            let n = -a + b - 1;
            let p = n / (b as int);
            lemma_fundamental_div_mod(n, b as int);
            lemma_mod_bound(n, b as int);
            assert(q == -p);
            assert(q * b <= a < q * b + b) by (nonlinear_arith)
                requires
                    n == b * p + n % (b as int),
                    0 <= n % (b as int) < b,
                    n == -a + b - 1,
                    q == -p,
            ;
            assert(0 <= p <= -a) by (nonlinear_arith)
                requires
                    n == b * p + n % (b as int),
                    0 <= n % (b as int) < b,
                    n == -a + b - 1,
                    -a >= 1,
                    b >= 1,
            ;
            lemma_fundamental_div_mod_converse(a as int, b as int, q as int, a - q * b);
        }
    }
    q
}

/// The start of the period that a time falls into.
fn align(t: i128, period: u64) -> (r: i128)
    requires
        0 < period <= HORIZON,
        -0x8000_0000_0000_0000 <= t <= 0x7fff_ffff_ffff_ffff,
    ensures
        r == aligned(t as int, period as int),
        r <= t < r + period,
{
    let q: i128 = floor_div(t, period as i128);
    assert(q * period <= t < q * period + period);
    q * period as i128
}

/// The headers lie behind one another.
proof fn lemma_headers(s: TargetSeries, i: int, j: int)
    requires
        0 <= i < j,
    ensures
        FILE_HEADER <= s.header_at(i),
        s.header_at(i) + ARCHIVE_HEADER + 2 * s.fields <= s.header_at(j),
{
    let h = ARCHIVE_HEADER + 2 * s.fields;
    assert(0 <= i * h && i * h + h <= j * h) by (nonlinear_arith)
        requires
            0 <= i,
            i + 1 <= j,
            h >= 0,
    ;
}

/// The rows lie behind one another, and behind the headers.
proof fn lemma_data(s: TargetSeries, i: int, j: int)
    requires
        0 <= i <= j <= s.archives@.len(),
    ensures
        s.header_at(s.archives@.len() as int) <= s.data_at(i) <= s.data_at(j),
        i < j ==> s.data_at(i) + s.archives@[i].rows * (1 + s.fields) <= s.data_at(j),
    decreases j,
{
    if j > 0 {
        let r = s.archives@[j - 1].rows;
        assert(r * (1 + s.fields) >= 0) by (nonlinear_arith)
            requires
                r >= 0,
        ;
        if i < j {
            lemma_data(s, i, j - 1);
        } else {
            lemma_data(s, i - 1, j - 1);
        }
    }
}

/// A row lies inside its archive's rows.
proof fn lemma_slot(s: TargetSeries, i: int, k: int)
    requires
        0 <= k < s.archives@[i].rows,
    ensures
        0 <= k * (1 + s.fields),
        k * (1 + s.fields) + 1 + s.fields <= s.archives@[i].rows * (1 + s.fields),
{
    let r = s.archives@[i].rows;
    let f = 1 + s.fields;
    assert(0 <= k * f && k * f + f <= r * f) by (nonlinear_arith)
        requires
            0 <= k,
            k + 1 <= r,
            f >= 0,
    ;
}

/// Different rows of an archive do not overlap.
proof fn lemma_rows_apart(s: TargetSeries, a: int, b: int)
    requires
        0 <= a,
        0 <= b,
        a != b,
    ensures
        a < b ==> a * (1 + s.fields) + 1 + s.fields <= b * (1 + s.fields),
        b < a ==> b * (1 + s.fields) + 1 + s.fields <= a * (1 + s.fields),
{
    let f = 1 + s.fields;
    assert((a < b ==> a * f + f <= b * f) && (b < a ==> b * f + f <= a * f)) by (nonlinear_arith)
        requires
            f >= 0,
    ;
}

/// The word belongs to the accumulators or the rows of archive `i`.
spec fn belongs(s: TargetSeries, i: int, k: int) -> bool {
    ||| s.header_at(i) + 3 <= k < s.header_at(i) + ARCHIVE_HEADER + 2 * s.fields
    ||| s.data_at(i) <= k < s.data_at(i) + s.archives@[i].rows * (1 + s.fields)
}

/// Two images differ at most in what belongs to archive `i`.
spec fn only(s: TargetSeries, a: Seq<u8>, b: Seq<u8>, i: int) -> bool {
    &&& a.len() == b.len()
    &&& forall|k: int| 0 <= 8 * k < a.len() && !belongs(s, i, k) ==> word(a, k) == word(b, k)
}

impl TargetSeries {
    /// Two images have the same fixed headers: everything but the time of the
    /// newest point, the accumulators and the rows.
    pub open spec fn same_headers(self, a: Seq<u8>, b: Seq<u8>) -> bool {
        &&& word(a, 0) == word(b, 0)
        &&& word(a, 1) == word(b, 1)
        &&& word(a, 2) == word(b, 2)
        &&& forall|i: int, m: int|
            0 <= i < self.archives@.len() && 0 <= m < 3 ==> #[trigger] word(
                a,
                self.header_at(i) + m,
            ) == word(b, self.header_at(i) + m)
    }
}

/// What belongs to one archive is of no concern to the others.
proof fn lemma_only(s: TargetSeries, a: Seq<u8>, b: Seq<u8>, i: int)
    requires
        s.wf(),
        s.sized(a),
        0 <= i < s.archives@.len(),
        only(s, a, b, i),
    ensures
        s.same_headers(a, b),
        word(a, 3) == word(b, 3),
        word(a, 4) == word(b, 4),
        forall|j: int|
            0 <= j < s.archives@.len() && j != i ==> #[trigger] s.archive(a, j) == s.archive(b, j),
{
    let n = s.archives@.len() as int;
    lemma_headers(s, i, n);
    lemma_data(s, i, n);
    assert forall|k: int| 0 <= k < 5 implies word(a, k) == word(b, k) by {
        lemma_data(s, 0, n);
        lemma_headers(s, 0, n);
        assert(!belongs(s, i, k));
    }
    assert forall|j: int, m: int| 0 <= j < n && 0 <= m < 3 implies #[trigger] word(
        a,
        s.header_at(j) + m,
    ) == word(b, s.header_at(j) + m) by {
        lemma_headers(s, j, n);
        lemma_data(s, 0, n);
        lemma_data(s, 0, i);
        if i < j {
            lemma_headers(s, i, j);
        } else if j < i {
            lemma_headers(s, j, i);
        }
        assert(!belongs(s, i, s.header_at(j) + m));
    }
    assert forall|j: int| 0 <= j < n && j != i implies #[trigger] s.archive(a, j) == s.archive(
        b,
        j,
    ) by {
        let g = s.archives@[j];
        let f = s.fields as nat;
        lemma_headers(s, j, n);
        lemma_data(s, 0, n);
        lemma_data(s, 0, i);
        lemma_data(s, j, n);
        if i < j {
            lemma_headers(s, i, j);
            lemma_data(s, i, j);
        } else {
            lemma_headers(s, j, i);
            lemma_data(s, j, i);
        }
        assert forall|k: int| g.header + 3 <= k < g.header + 4 + 2 * f implies word(a, k) == word(
            b,
            k,
        ) by {
            assert(!belongs(s, i, k));
        }
        assert(s.archive(a, j).vals == s.archive(b, j).vals);
        assert(s.archive(a, j).counts == s.archive(b, j).counts);
        assert forall|r: int| 0 <= r < g.rows implies s.archive(a, j).rows[r] == s.archive(
            b,
            j,
        ).rows[r] by {
            lemma_slot(s, j, r);
            let at = g.data + r * (1 + f);
            assert forall|k: int| at <= k < at + 1 + f implies word(a, k) == word(b, k) by {
                assert(!belongs(s, i, k));
            }
            assert(word(a, at) == word(b, at));
            assert forall|m: int| 0 <= m < f implies s.archive(a, j).rows[r].vals[m] == s.archive(
                b,
                j,
            ).rows[r].vals[m] by {
                assert(word(a, at + 1 + m) == word(b, at + 1 + m));
            }
            assert(s.archive(a, j).rows[r].vals == s.archive(b, j).rows[r].vals);
        }
        assert(s.archive(a, j).rows == s.archive(b, j).rows);
    }
}

/// The rows of an archive, where the words of its rows are the same.
proof fn lemma_same_rows(s: TargetSeries, a: Seq<u8>, b: Seq<u8>, i: int)
    requires
        0 <= i < s.archives@.len(),
        s.wf(),
        s.sized(a),
        same_outside(a, b, s.header_at(i), s.header_at(i) + ARCHIVE_HEADER + 2 * s.fields),
    ensures
        s.archive(a, i).rows == s.archive(b, i).rows,
        only(s, a, b, i) || word(a, s.header_at(i)) != word(b, s.header_at(i)) || word(
            a,
            s.header_at(i) + 1,
        ) != word(b, s.header_at(i) + 1) || word(a, s.header_at(i) + 2) != word(
            b,
            s.header_at(i) + 2,
        ),
{
    let n = s.archives@.len() as int;
    let g = s.archives@[i];
    let f = s.fields as nat;
    lemma_headers(s, i, n);
    lemma_data(s, i, n);
    lemma_data(s, 0, i);
    assert forall|r: int| 0 <= r < g.rows implies s.archive(a, i).rows[r] == s.archive(
        b,
        i,
    ).rows[r] by {
        lemma_slot(s, i, r);
        let at = g.data + r * (1 + f);
        assert(word(a, at) == word(b, at));
        assert forall|m: int| 0 <= m < f implies s.archive(a, i).rows[r].vals[m] == s.archive(
            b,
            i,
        ).rows[r].vals[m] by {
            assert(word(a, at + 1 + m) == word(b, at + 1 + m));
        }
        assert(s.archive(a, i).rows[r].vals == s.archive(b, i).rows[r].vals);
    }
    assert(s.archive(a, i).rows == s.archive(b, i).rows);
    if word(a, s.header_at(i)) == word(b, s.header_at(i)) && word(a, s.header_at(i) + 1) == word(
        b,
        s.header_at(i) + 1,
    ) && word(a, s.header_at(i) + 2) == word(b, s.header_at(i) + 2) {
        assert forall|k: int| 0 <= 8 * k < a.len() && !belongs(s, i, k) implies word(a, k) == word(
            b,
            k,
        ) by {
            if s.header_at(i) <= k < s.header_at(i) + ARCHIVE_HEADER + 2 * s.fields {
                assert(k == s.header_at(i) || k == s.header_at(i) + 1 || k == s.header_at(i) + 2);
            }
        }
    }
}

impl TargetSeries {
    fn acc_window_start(&self, image: &[u8], ai: usize) -> (w: i64)
        requires
            self.wf(),
            self.sized(image@),
            ai < self.archives@.len(),
        ensures
            w == self.archive(image@, ai as int).window,
    {
        let g = self.archives[ai];
        proof {
            lemma_headers(*self, ai as int, self.archives@.len() as int);
            lemma_data(*self, 0, self.archives@.len() as int);
        }
        get_signed(image, g.header + 3)
    }

    fn set_acc_window_start(&self, image: &mut [u8], ai: usize, v: i64)
        requires
            self.wf(),
            self.sized(old(image)@),
            ai < self.archives@.len(),
        ensures
            self.sized(final(image)@),
            only(*self, old(image)@, final(image)@, ai as int),
            self.archive(final(image)@, ai as int) == (Archive {
                window: v as int,
                ..self.archive(old(image)@, ai as int)
            }),
    {
        let g = self.archives[ai];
        let ghost before = image@;
        proof {
            lemma_headers(*self, ai as int, self.archives@.len() as int);
            lemma_data(*self, 0, self.archives@.len() as int);
        }
        put(image, g.header + 3, word_of(v as i128));
        proof {
            let i = ai as int;
            assert(same_outside(before, image@, self.header_at(i), self.header_at(i)
                + ARCHIVE_HEADER + 2 * self.fields));
            lemma_same_rows(*self, before, image@, i);
            assert(self.archive(image@, i).vals == self.archive(before, i).vals);
            assert(self.archive(image@, i).counts == self.archive(before, i).counts);
        }
    }

    fn reset_acc(&self, image: &mut [u8], ai: usize, window: i64)
        requires
            self.wf(),
            self.sized(old(image)@),
            ai < self.archives@.len(),
        ensures
            self.sized(final(image)@),
            only(*self, old(image)@, final(image)@, ai as int),
            self.archive(final(image)@, ai as int) == self.archive(
                old(image)@,
                ai as int,
            ).opened(self.archives@[ai as int].cf, self.fields as nat, window as int),
    {
        let g = self.archives[ai];
        let ghost before = image@;
        let ghost i = ai as int;
        let init: u64 = match g.cf {
            Cf::Average => 0,
            _ => NAN_BITS,
        };
        let f: usize = self.fields;
        proof {
            lemma_headers(*self, i, self.archives@.len() as int);
            lemma_data(*self, 0, self.archives@.len() as int);
        }
        let mut j: usize = 0;
        while j < f
            invariant
                self.wf(),
                self.sized(before),
                image@.len() == before.len(),
                0 <= i < self.archives@.len(),
                g == self.archives@[i],
                f == self.fields,
                8 * (g.header + 4 + 2 * f) <= before.len(),
                before.len() <= usize::MAX,
                j <= f,
                same_outside(before, image@, g.header + 4, g.header + 4 + 2 * f),
                forall|k: int| g.header + 4 <= k < g.header + 4 + j ==> word(image@, k) == init,
                forall|k: int|
                    g.header + 4 + f <= k < g.header + 4 + f + j ==> word(image@, k) == 0,
            decreases f - j,
        {
            let ghost prior = image@;
            put(image, g.header + 4 + j, init);
            put(image, g.header + 4 + f + j, 0);
            proof {
                assert forall|k: int| g.header + 4 <= k < g.header + 4 + j + 1 implies word(
                    image@,
                    k,
                ) == init by {
                    if k < g.header + 4 + j {
                        assert(word(prior, k) == init);
                    }
                }
                assert forall|k: int|
                    g.header + 4 + f <= k < g.header + 4 + f + j + 1 implies word(image@, k)
                    == 0 by {
                    if k < g.header + 4 + f + j {
                        assert(word(prior, k) == 0);
                    }
                }
            }
            j = j + 1;
        }
        let ghost prior = image@;
        proof {
            assert(same_outside(before, image@, self.header_at(i), self.header_at(i)
                + ARCHIVE_HEADER + 2 * self.fields));
            lemma_same_rows(*self, before, image@, i);
            let opened = self.archive(before, i).opened(g.cf, f as nat, window as int);
            assert(self.archive(image@, i).vals == opened.vals);
            assert(self.archive(image@, i).counts == opened.counts);
        }
        self.set_acc_window_start(image, ai, window);
    }

    fn accumulate(&self, image: &mut [u8], ai: usize, fields: &[Double])
        requires
            self.wf(),
            self.sized(old(image)@),
            ai < self.archives@.len(),
            fields@.len() == self.fields,
        ensures
            self.sized(final(image)@),
            only(*self, old(image)@, final(image)@, ai as int),
            self.archive(final(image)@, ai as int) == self.archive(
                old(image)@,
                ai as int,
            ).accumulated(self.archives@[ai as int].cf, fields@),
    {
        let g = self.archives[ai];
        let ghost before = image@;
        let ghost i = ai as int;
        let f: usize = self.fields;
        proof {
            lemma_headers(*self, i, self.archives@.len() as int);
            lemma_data(*self, 0, self.archives@.len() as int);
        }
        let ghost start = self.archive(before, i);
        let ghost end = start.accumulated(g.cf, fields@);
        let mut j: usize = 0;
        while j < f
            invariant
                self.wf(),
                self.sized(before),
                image@.len() == before.len(),
                0 <= i < self.archives@.len(),
                g == self.archives@[i],
                f == self.fields == fields@.len(),
                8 * (g.header + 4 + 2 * f) <= before.len(),
                before.len() <= usize::MAX,
                j <= f,
                start == self.archive(before, i),
                end == start.accumulated(g.cf, fields@),
                same_outside(before, image@, g.header + 4, g.header + 4 + 2 * f),
                forall|m: int| 0 <= m < j ==> word(image@, g.header + 4 + m) == end.vals[m].bits,
                forall|m: int|
                    0 <= m < j ==> word(image@, g.header + 4 + f + m) == end.counts[m].bits,
                forall|m: int|
                    j <= m < f ==> word(image@, g.header + 4 + m) == start.vals[m].bits,
                forall|m: int|
                    j <= m < f ==> word(image@, g.header + 4 + f + m) == start.counts[m].bits,
            decreases f - j,
        {
            let v = fields[j];
            let ghost prior = image@;
            if !v.is_nan() {
                let cur = Double { bits: get(image, g.header + 4 + j) };
                assert(word(prior, g.header + 4 + j) == start.vals[j as int].bits);
                let next = match g.cf {
                    Cf::Average => if cur.is_nan() {
                        v
                    } else {
                        cur.plus(v)
                    },
                    Cf::Min => if cur.is_nan() || v.num_lt(cur) {
                        v
                    } else {
                        cur
                    },
                    Cf::Max => if cur.is_nan() || cur.num_lt(v) {
                        v
                    } else {
                        cur
                    },
                };
                let c = Double { bits: get(image, g.header + 4 + f + j) };
                assert(word(prior, g.header + 4 + f + j) == start.counts[j as int].bits);
                put(image, g.header + 4 + j, next.bits);
                put(image, g.header + 4 + f + j, c.plus(Double { bits: ONE_BITS }).bits);
            }
            proof {
                assert forall|m: int| 0 <= m < j + 1 implies word(image@, g.header + 4 + m)
                    == end.vals[m].bits by {
                    assert(m < j ==> word(prior, g.header + 4 + m) == end.vals[m].bits);
                    assert(m == j ==> word(prior, g.header + 4 + m) == start.vals[m].bits);
                }
                assert forall|m: int| 0 <= m < j + 1 implies word(image@, g.header + 4 + f + m)
                    == end.counts[m].bits by {
                    assert(m < j ==> word(prior, g.header + 4 + f + m) == end.counts[m].bits);
                    assert(m == j ==> word(prior, g.header + 4 + f + m) == start.counts[m].bits);
                }
                assert forall|m: int| j + 1 <= m < f implies word(image@, g.header + 4 + m)
                    == start.vals[m].bits by {
                    assert(word(prior, g.header + 4 + m) == start.vals[m].bits);
                }
                assert forall|m: int| j + 1 <= m < f implies word(image@, g.header + 4 + f + m)
                    == start.counts[m].bits by {
                    assert(word(prior, g.header + 4 + f + m) == start.counts[m].bits);
                }
            }
            j = j + 1;
        }
        proof {
            assert(same_outside(before, image@, self.header_at(i), self.header_at(i)
                + ARCHIVE_HEADER + 2 * self.fields));
            lemma_same_rows(*self, before, image@, i);
            assert(self.archive(image@, i).vals == end.vals);
            assert(self.archive(image@, i).counts == end.counts);
        }
    }

    /// Writes the consolidated row for the window starting at `w`.
    fn finalize(&self, image: &mut [u8], ai: usize, w: i64)
        requires
            self.wf(),
            self.sized(old(image)@),
            ai < self.archives@.len(),
        ensures
            self.sized(final(image)@),
            only(*self, old(image)@, final(image)@, ai as int),
            self.archive(final(image)@, ai as int) == self.archive(
                old(image)@,
                ai as int,
            ).finalized(self.archives@[ai as int], self.step, w as int),
    {
        let g = self.archives[ai];
        let ghost before = image@;
        let ghost i = ai as int;
        let f: usize = self.fields;
        let ghost n = self.archives@.len() as int;
        let at: usize = self.row_at(ai, w);
        let ghost start = self.archive(before, i);
        let ghost end = start.finalized(g, self.step, w as int);
        let ghost k0 = slot(w as int, g.period(self.step), g.rows as int);
        let ghost row = end.rows[k0].vals;
        proof {
            lemma_headers(*self, i, n);
            lemma_data(*self, i, n);
            lemma_data(*self, 0, i);
            lemma_slot(*self, i, k0);
        }
        let min_known = Double { bits: ONE_BITS }.minus(g.xff).times(
            Double::from_u64(g.steps as u64),
        );
        let zero = Double { bits: 0 };
        put(image, at, word_of(w as i128));
        let mut j: usize = 0;
        while j < f
            invariant
                self.wf(),
                self.sized(before),
                image@.len() == before.len(),
                0 <= i < self.archives@.len(),
                g == self.archives@[i],
                f == self.fields,
                g.header + 4 + 2 * f <= g.data <= at,
                8 * (at + 1 + f) <= before.len(),
                before.len() <= usize::MAX,
                j <= f,
                start == self.archive(before, i),
                row == Seq::new(f as nat, |m: int| settled(g, start.vals[m], start.counts[m])),
                min_known == g.min_known(),
                zero == (Double { bits: 0 }),
                same_outside(before, image@, at as int, at + 1 + f),
                as_signed(word(image@, at as int)) == w,
                forall|m: int| 0 <= m < j ==> word(image@, at + 1 + m) == row[m].bits,
            decreases f - j,
        {
            let ghost prior = image@;
            let v = Double { bits: get(image, g.header + 4 + j) };
            let c = Double { bits: get(image, g.header + 4 + f + j) };
            assert(v == start.vals[j as int]);
            assert(c == start.counts[j as int]);
            let x = if c.num_lt(zero) || c.num_eq(zero) || c.num_lt(min_known) {
                Double { bits: NAN_BITS }
            } else {
                match g.cf {
                    Cf::Average => v.over(c),
                    _ => v,
                }
            };
            put(image, at + 1 + j, x.bits);
            proof {
                assert forall|m: int| 0 <= m < j + 1 implies word(image@, at + 1 + m)
                    == row[m].bits by {
                    if m < j {
                        assert(word(prior, at + 1 + m) == row[m].bits);
                    }
                }
            }
            j = j + 1;
        }
        proof {
            let b = image@;
            assert(self.archive(b, i).vals == start.vals);
            assert(self.archive(b, i).counts == start.counts);
            assert forall|r: int| 0 <= r < g.rows implies self.archive(b, i).rows[r]
                == end.rows[r] by {
                lemma_slot(*self, i, r);
                let rat = g.data + r * (1 + f);
                if r == k0 {
                    assert(rat == at);
                    assert forall|m: int| 0 <= m < f implies self.archive(b, i).rows[r].vals[m]
                        == row[m] by {
                        assert(word(b, at + 1 + m) == row[m].bits);
                    }
                    assert(self.archive(b, i).rows[r].vals == row);
                } else {
                    lemma_rows_apart(*self, r, k0);
                    assert(word(b, rat) == word(before, rat));
                    assert forall|m: int| 0 <= m < f implies self.archive(b, i).rows[r].vals[m]
                        == start.rows[r].vals[m] by {
                        assert(word(b, rat + 1 + m) == word(before, rat + 1 + m));
                    }
                    assert(self.archive(b, i).rows[r].vals == start.rows[r].vals);
                }
            }
            assert(self.archive(b, i).rows == end.rows);
            assert forall|k: int| 0 <= 8 * k < before.len() && !belongs(*self, i, k) implies word(
                before,
                k,
            ) == word(b, k) by {
                assert(!(at <= k < at + 1 + f));
            }
        }
    }

    /// Seconds per row of an archive.
    fn period(&self, ai: usize) -> (p: u64)
        requires
            self.wf(),
            ai < self.archives@.len(),
        ensures
            p == self.archives@[ai as int].period(self.step),
            0 < p <= HORIZON,
            self.archives@[ai as int].rows * p <= HORIZON,
    {
        let g = self.archives[ai];
        proof {
            let p = self.step * g.steps;
            let r = g.rows;
            assert(0 < p) by (nonlinear_arith)
                requires
                    self.step > 0,
                    g.steps > 0,
                    p == self.step * g.steps,
            ;
            assert(p <= HORIZON) by (nonlinear_arith)
                requires
                    r * p <= HORIZON,
                    r >= 1,
                    p >= 0,
            ;
        }
        self.step * g.steps as u64
    }

    /// Where the row of a window starts.
    fn row_at(&self, ai: usize, w: i64) -> (at: usize)
        requires
            self.wf(),
            ai < self.archives@.len(),
        ensures
            ({
                let g = self.archives@[ai as int];
                let k = slot(w as int, g.period(self.step), g.rows as int);
                &&& 0 <= k < g.rows
                &&& at == g.data + k * (1 + self.fields)
                &&& g.data <= at
                &&& at + 1 + self.fields <= g.data + g.rows * (1 + self.fields)
                &&& 8 * (at + 1 + self.fields) <= 8 * self.words()
            }),
    {
        let g = self.archives[ai];
        let p: u64 = self.period(ai);
        let q: i128 = floor_div(w as i128, p as i128);
        proof {
            assert(i64::MIN <= q <= i64::MAX) by (nonlinear_arith)
                requires
                    q * p <= w < q * p + p,
                    i64::MIN <= w <= i64::MAX,
                    p >= 1,
            ;
        }
        let k: u64 = word_of(q) % g.rows;
        proof {
            let i = ai as int;
            lemma_slot(*self, i, k as int);
            lemma_data(*self, i, self.archives@.len() as int);
            let r = g.rows;
            let f = self.fields;
            assert(r <= r * (1 + f)) by (nonlinear_arith)
                requires
                    r >= 0,
                    f >= 0,
            ;
            lemma_headers(*self, 0, self.archives@.len() as int);
            lemma_data(*self, 0, i);
        }
        g.data + k as usize * (1 + self.fields)
    }

    pub fn last_update(&self, image: &[u8]) -> (t: i64)
        requires
            self.wf(),
            self.sized(image@),
        ensures
            t == self.last(image@),
    {
        proof {
            lemma_data(*self, 0, self.archives@.len() as int);
            self.lemma_room();
        }
        get_signed(image, 3)
    }

    /// Whether anything was recorded.
    pub fn has_begun(&self, image: &[u8]) -> (r: bool)
        requires
            self.wf(),
            self.sized(image@),
        ensures
            r == self.begun(image@),
    {
        proof {
            lemma_data(*self, 0, self.archives@.len() as int);
            self.lemma_room();
        }
        self.last_update(image) != 0 || get(image, 4) != 0
    }

    /// The file header is part of every image.
    proof fn lemma_room(self)
        ensures
            self.words() >= FILE_HEADER,
    {
        lemma_data(self, 0, self.archives@.len() as int);
        let n = self.archives@.len();
        let h = ARCHIVE_HEADER + 2 * self.fields;
        assert(n * h >= 0) by (nonlinear_arith)
            requires
                n >= 0,
                h >= 0,
        ;
    }

    /// The periods that the time falls into start at times of 64 bits.
    pub open spec fn alignable(self, t: int) -> bool {
        &&& i64::MIN <= aligned(t, self.step as int)
        &&& forall|i: int|
            0 <= i < self.archives@.len() ==> i64::MIN <= aligned(
                t,
                (#[trigger] self.archives@[i]).period(self.step),
            )
    }

    /// The seconds from one time to a later one, and those of the periods
    /// between them, have 64 bits.
    pub open spec fn spans(self, from: int, to: int) -> bool {
        &&& from <= to
        &&& to - from <= i64::MAX
        &&& self.alignable(from)
        &&& forall|i: int|
            0 <= i < self.archives@.len() ==> {
                let p = (#[trigger] self.archives@[i]).period(self.step);
                aligned(to, p) - aligned(from, p) + p <= u64::MAX
            }
    }

    /// Whether the times from `from` to `to` can be fetched.
    pub fn can_span(&self, from: i64, to: i64) -> (r: bool)
        requires
            self.wf(),
        ensures
            r == self.spans(from as int, to as int),
    {
        if from > to || to as i128 - from as i128 > i64::MAX as i128 {
            return false;
        }
        if align(from as i128, self.step) < i64::MIN as i128 {
            return false;
        }
        let mut i: usize = 0;
        while i < self.archives.len()
            invariant
                self.wf(),
                i <= self.archives@.len(),
                forall|j: int|
                    0 <= j < i ==> {
                        let p = (#[trigger] self.archives@[j]).period(self.step);
                        &&& i64::MIN <= aligned(from as int, p)
                        &&& aligned(to as int, p) - aligned(from as int, p) + p <= u64::MAX
                    },
            decreases self.archives@.len() - i,
        {
            let p: u64 = self.period(i);
            let start: i128 = align(from as i128, p);
            let end: i128 = align(to as i128, p);
            if start < i64::MIN as i128 || end - start + p as i128 > u64::MAX as i128 {
                let ghost period = self.archives@[i as int].period(self.step);
                assert(start == aligned(from as int, period));
                return false;
            }
            i = i + 1;
        }
        true
    }

    /// The image `after` is `before` with the data point of time `ts` recorded.
    /// A point that is not newer than the newest one changes nothing.
    pub open spec fn recorded(
        self,
        before: Seq<u8>,
        ts: int,
        fields: Seq<Double>,
        after: Seq<u8>,
    ) -> bool {
        let t = aligned(ts, self.step as int);
        if self.begun(before) && t <= self.last(before) {
            after == before
        } else {
            &&& self.last(after) == t
            &&& self.begun(after)
            &&& self.same_headers(before, after)
            &&& forall|i: int|
                0 <= i < self.archives@.len() ==> #[trigger] self.archive(after, i) == self.archive(
                    before,
                    i,
                ).after(self.archives@[i], self.step, t, fields)
        }
    }

    /// Records one round's primary data point. `fields` is
    /// [loss%, median, ping_1..ping_N] with NaN for unknowns. A duplicate or
    /// out-of-order round is ignored: first write wins.
    pub fn record(&self, image: &mut [u8], ts: i64, fields: &[Double])
        requires
            self.wf(),
            self.sized(old(image)@),
            fields@.len() == self.fields,
            self.alignable(ts as int),
        ensures
            self.sized(final(image)@),
            self.recorded(old(image)@, ts as int, fields@, final(image)@),
    {
        let ghost before = image@;
        let t: i128 = align(ts as i128, self.step);
        let last: i64 = self.last_update(image);
        if self.has_begun(image) && t <= last as i128 {
            return ;
        }
        let ghost tt = t as int;
        let mut ai: usize = 0;
        while ai < self.archives.len()
            invariant
                self.wf(),
                self.sized(before),
                self.sized(image@),
                fields@.len() == self.fields,
                ai <= self.archives@.len(),
                tt == t,
                tt == aligned(ts as int, self.step as int),
                self.alignable(ts as int),
                i64::MIN <= t <= i64::MAX,
                word(image@, 3) == word(before, 3),
                self.same_headers(before, image@),
                forall|i: int|
                    0 <= i < ai ==> #[trigger] self.archive(image@, i) == self.archive(
                        before,
                        i,
                    ).after(self.archives@[i], self.step, tt, fields@),
                forall|i: int|
                    ai <= i < self.archives@.len() ==> #[trigger] self.archive(image@, i)
                        == self.archive(before, i),
            decreases self.archives@.len() - ai,
        {
            let ghost i = ai as int;
            let ghost prior = image@;
            let ghost a0 = self.archive(before, i);
            assert(self.archive(prior, i) == a0);
            let g = self.archives[ai];
            let p: u64 = self.period(ai);
            let w: i128 = align(t, p);
            proof {
                lemma_nested(ts as int, self.step as int, g.steps as int);
            }
            let aws: i64 = self.acc_window_start(image, ai);
            if aws as i128 != w {
                if aws != EMPTY_WINDOW {
                    self.finalize(image, ai, aws);
                }
                let ghost mid = image@;
                self.reset_acc(image, ai, w as i64);
                assert(only(*self, prior, image@, i));
            }
            let ghost mid = image@;
            assert(only(*self, prior, image@, i));
            self.accumulate(image, ai, fields);
            assert(only(*self, prior, image@, i));
            let done: u64 = (t - w) as u64 / self.step;
            if done == (g.steps - 1) as u64 {
                self.finalize(image, ai, w as i64);
                let ghost mid2 = image@;
                self.set_acc_window_start(image, ai, EMPTY_WINDOW);
                assert(only(*self, prior, image@, i));
            }
            proof {
                lemma_only(*self, prior, image@, i);
                assert(self.archive(image@, i) == a0.after(g, self.step, tt, fields@));
                assert forall|j: int, m: int|
                    0 <= j < self.archives@.len() && 0 <= m < 3 implies #[trigger] word(
                    before,
                    self.header_at(j) + m,
                ) == word(image@, self.header_at(j) + m) by {
                    assert(word(before, self.header_at(j) + m) == word(
                        prior,
                        self.header_at(j) + m,
                    ));
                    assert(word(prior, self.header_at(j) + m) == word(
                        image@,
                        self.header_at(j) + m,
                    ));
                }
                assert forall|j: int| 0 <= j < i + 1 implies #[trigger] self.archive(image@, j)
                    == self.archive(before, j).after(
                    self.archives@[j],
                    self.step,
                    tt,
                    fields@,
                ) by {
                    if j < i {
                        assert(self.archive(prior, j) == self.archive(image@, j));
                    }
                }
                assert forall|j: int|
                    i + 1 <= j < self.archives@.len() implies #[trigger] self.archive(image@, j)
                    == self.archive(before, j) by {
                    assert(self.archive(prior, j) == self.archive(image@, j));
                }
            }
            ai = ai + 1;
        }
        let ghost prior = image@;
        proof {
            self.lemma_room();
        }
        put(image, 3, word_of(t));
        let mark: u64 = if t == 0 {
            1
        } else {
            0
        };
        put(image, 4, mark);
        proof {
            lemma_time_apart(*self, prior, image@);
            assert forall|i: int| 0 <= i < self.archives@.len() implies #[trigger] self.archive(
                image@,
                i,
            ) == self.archive(before, i).after(self.archives@[i], self.step, tt, fields@) by {
                assert(self.archive(prior, i) == self.archive(image@, i));
            }
            assert forall|j: int, m: int|
                0 <= j < self.archives@.len() && 0 <= m < 3 implies #[trigger] word(
                before,
                self.header_at(j) + m,
            ) == word(image@, self.header_at(j) + m) by {
                assert(word(before, self.header_at(j) + m) == word(prior, self.header_at(j) + m));
                assert(word(prior, self.header_at(j) + m) == word(image@, self.header_at(j) + m));
            }
        }
    }
}

/// The time of the newest point is of no concern to the archives.
proof fn lemma_time_apart(s: TargetSeries, a: Seq<u8>, b: Seq<u8>)
    requires
        s.wf(),
        s.sized(a),
        same_outside(a, b, 3, 5),
    ensures
        s.same_headers(a, b),
        forall|j: int|
            0 <= j < s.archives@.len() ==> #[trigger] s.archive(a, j) == s.archive(b, j),
{
    let n = s.archives@.len() as int;
    s.lemma_room();
    assert forall|j: int, m: int| 0 <= j < n && 0 <= m < 3 implies #[trigger] word(
        a,
        s.header_at(j) + m,
    ) == word(b, s.header_at(j) + m) by {
        lemma_headers(s, j, n);
        lemma_data(s, 0, n);
    }
    assert forall|j: int| 0 <= j < n implies #[trigger] s.archive(a, j) == s.archive(b, j) by {
        let g = s.archives@[j];
        let f = s.fields as nat;
        lemma_headers(s, j, n);
        lemma_data(s, j, n);
        lemma_data(s, 0, j);
        assert(s.archive(a, j).vals == s.archive(b, j).vals);
        assert(s.archive(a, j).counts == s.archive(b, j).counts);
        assert forall|r: int| 0 <= r < g.rows implies s.archive(a, j).rows[r] == s.archive(
            b,
            j,
        ).rows[r] by {
            lemma_slot(s, j, r);
            let at = g.data + r * (1 + f);
            assert(word(a, at) == word(b, at));
            assert forall|m: int| 0 <= m < f implies s.archive(a, j).rows[r].vals[m] == s.archive(
                b,
                j,
            ).rows[r].vals[m] by {
                assert(word(a, at + 1 + m) == word(b, at + 1 + m));
            }
            assert(s.archive(a, j).rows[r].vals == s.archive(b, j).rows[r].vals);
        }
        assert(s.archive(a, j).rows == s.archive(b, j).rows);
    }
}

/// Words of an image for `fields` fields and the first `i` archives.
pub open spec fn size_words(fields: int, specs: Seq<RraSpec>, i: int) -> int
    decreases i,
{
    if i <= 0 {
        FILE_HEADER + specs.len() * (ARCHIVE_HEADER + 2 * fields)
    } else {
        size_words(fields, specs, i - 1) + specs[i - 1].rows * (1 + fields)
    }
}

/// A layout that an image on this machine can have: no archive is empty, none
/// reaches beyond the horizon, and the size can be counted.
pub open spec fn layout_fits(step: u64, pings: u32, specs: Seq<RraSpec>) -> bool {
    &&& 0 < step <= HORIZON
    &&& specs.len() <= u32::MAX
    &&& ARCHIVE_HEADER + 2 * (pings + 2) <= usize::MAX
    &&& 8 * size_words(pings + 2, specs, specs.len() as int) <= usize::MAX
    &&& forall|i: int|
        0 <= i < specs.len() ==> {
            let s = #[trigger] specs[i];
            &&& s.steps > 0
            &&& s.rows > 0
            &&& s.rows * (step * s.steps) <= HORIZON
        }
}

proof fn lemma_size_grows(fields: int, specs: Seq<RraSpec>, i: int, j: int)
    requires
        fields >= 0,
        0 <= i <= j <= specs.len(),
    ensures
        FILE_HEADER <= size_words(fields, specs, i) <= size_words(fields, specs, j),
        specs.len() * (ARCHIVE_HEADER + 2 * fields) <= size_words(fields, specs, i),
    decreases j,
{
    let n = specs.len() as int;
    let h = ARCHIVE_HEADER + 2 * fields;
    assert(n * h >= 0) by (nonlinear_arith)
        requires
            n >= 0,
            h >= 0,
    ;
    if j > 0 {
        let r = specs[j - 1].rows;
        assert(r * (1 + fields) >= 0) by (nonlinear_arith)
            requires
                r >= 0,
                fields >= 0,
        ;
        if i < j {
            lemma_size_grows(fields, specs, i, j - 1);
        } else {
            lemma_size_grows(fields, specs, i - 1, j - 1);
        }
    }
}

/// Whether a layout can be had on this machine.
pub fn can_hold(step: u64, pings: u32, specs: &Vec<RraSpec>) -> (r: bool)
    ensures
        r == layout_fits(step, pings, specs@),
{
    if step == 0 || step > HORIZON as u64 || specs.len() as u128 > u32::MAX as u128 {
        return false;
    }
    let fields: u128 = pings as u128 + 2;
    if 4 + 2 * fields > usize::MAX as u128 {
        return false;
    }
    let ghost n = specs@.len() as int;
    assert(n * (ARCHIVE_HEADER + 2 * fields) <= 0x1_0000_0000 * 0x3_0000_0000) by (nonlinear_arith)
        requires
            0 <= n <= 0x1_0000_0000,
            ARCHIVE_HEADER + 2 * fields <= 0x3_0000_0000,
            ARCHIVE_HEADER + 2 * fields >= 0,
    ;
    let mut size: u128 = 8 + specs.len() as u128 * (4 + 2 * fields);
    let mut i: usize = 0;
    while i < specs.len()
        invariant
            n == specs@.len() <= u32::MAX,
            ARCHIVE_HEADER + 2 * fields <= usize::MAX,
            0 < step <= HORIZON,
            fields == pings + 2,
            i <= n,
            size == size_words(fields as int, specs@, i as int),
            size <= 0x1_0000_0000 * 0x3_0000_0000 + 8 + usize::MAX,
            forall|k: int|
                0 <= k < i ==> {
                    let s = #[trigger] specs@[k];
                    &&& s.steps > 0
                    &&& s.rows > 0
                    &&& s.rows * (step * s.steps) <= HORIZON
                },
        decreases n - i,
    {
        let s = specs[i];
        if s.steps == 0 || s.rows == 0 {
            return false;
        }
        assert(step * s.steps <= 0x7fff_ffff_ffff_ffff * 0xffff_ffff) by (nonlinear_arith)
            requires
                step <= 0x7fff_ffff_ffff_ffff,
                s.steps <= 0xffff_ffff,
        ;
        let period: u128 = step as u128 * s.steps as u128;
        if period > HORIZON as u128 {
            assert(s.rows * period > HORIZON) by (nonlinear_arith)
                requires
                    s.rows >= 1,
                    period > HORIZON,
            ;
            return false;
        }
        assert(s.rows * period <= 0xffff_ffff_ffff_ffff * 0x7fff_ffff_ffff_ffff)
            by (nonlinear_arith)
            requires
                s.rows <= 0xffff_ffff_ffff_ffff,
                period <= 0x7fff_ffff_ffff_ffff,
        ;
        if s.rows as u128 * period > HORIZON as u128 {
            return false;
        }
        assert(s.rows * (1 + fields) <= 0xffff_ffff_ffff_ffff * 0x2_0000_0000) by (nonlinear_arith)
            requires
                s.rows <= 0xffff_ffff_ffff_ffff,
                1 + fields <= 0x2_0000_0000,
        ;
        let more: u128 = s.rows as u128 * (1 + fields);
        size = size + more;
        proof {
            lemma_size_grows(fields as int, specs@, i + 1, n);
        }
        if size > usize::MAX as u128 {
            return false;
        }
        i = i + 1;
    }
    8 * size <= usize::MAX as u128
}

impl TargetSeries {
    /// The layout was made for these parameters.
    pub open spec fn of(self, step: u64, pings: u32, specs: Seq<RraSpec>) -> bool {
        &&& self.step == step
        &&& self.fields == pings + 2
        &&& self.archives@.len() == specs.len()
        &&& forall|i: int|
            0 <= i < specs.len() ==> {
                let g = #[trigger] self.archives@[i];
                &&& g.cf == specs[i].cf
                &&& g.steps == specs[i].steps
                &&& g.rows == specs[i].rows
                &&& g.xff == specs[i].xff
            }
    }

    /// The layout for these parameters.
    pub fn new(step: u64, pings: u32, specs: &Vec<RraSpec>) -> (r: TargetSeries)
        requires
            layout_fits(step, pings, specs@),
        ensures
            r.wf(),
            r.of(step, pings, specs@),
            r.words() == size_words(pings + 2, specs@, specs@.len() as int),
    {
        let ghost f = pings + 2;
        let ghost n = specs@.len() as int;
        let ghost sp = specs@;
        let ghost h = ARCHIVE_HEADER + 2 * f;
        proof {
            lemma_size_grows(f, sp, 0, n);
        }
        let len: usize = specs.len();
        let fields: usize = pings as usize + 2;
        let ah: usize = 4 + 2 * fields;
        let mut archives: Vec<Geom> = Vec::new();
        let mut data: usize = FILE_HEADER + len * ah;
        let mut header: usize = FILE_HEADER;
        let mut i: usize = 0;
        assert(0 * h == 0);
        while i < len
            invariant
                layout_fits(step, pings, sp),
                sp == specs@,
                n == len == sp.len(),
                f == fields == pings + 2,
                h == ah == ARCHIVE_HEADER + 2 * f,
                n * h <= usize::MAX,
                FILE_HEADER + n * h <= usize::MAX,
                i <= len,
                archives@.len() == i,
                data == size_words(f, sp, i as int),
                header == FILE_HEADER + i * h,
                forall|k: int|
                    0 <= k < i ==> {
                        let g = #[trigger] archives@[k];
                        &&& g.cf == sp[k].cf
                        &&& g.steps == sp[k].steps
                        &&& g.rows == sp[k].rows
                        &&& g.xff == sp[k].xff
                        &&& g.header == FILE_HEADER + k * h
                        &&& g.data == size_words(f, sp, k)
                    },
            decreases len - i,
        {
            let s = specs[i];
            archives.push(
                Geom { cf: s.cf, steps: s.steps, rows: s.rows, xff: s.xff, header, data },
            );
            proof {
                lemma_size_grows(f, sp, i + 1, n);
                let r = s.rows;
                assert(r * (1 + f) >= r) by (nonlinear_arith)
                    requires
                        r >= 0,
                        f >= 0,
                ;
                assert(i * h + h == (i + 1) * h && (i + 1) * h <= n * h) by (nonlinear_arith)
                    requires
                        i + 1 <= n,
                        h >= 0,
                ;
                lemma_size_grows(f, sp, i as int, n);
            }
            data = data + s.rows as usize * (1 + fields);
            header = header + ah;
            i = i + 1;
        }
        let r = TargetSeries { step, fields, archives };
        proof {
            assert forall|k: int| 0 <= k <= n implies #[trigger] r.data_at(k) == size_words(
                f,
                sp,
                k,
            ) by {
                lemma_same_size(r, sp, k);
            }
            assert forall|k: int| 0 <= k < n implies {
                let g = #[trigger] r.archives@[k];
                &&& g.fits(r.step)
                &&& g.header == r.header_at(k)
                &&& g.data == r.data_at(k)
            } by {
                let s = sp[k];
                assert(s.steps > 0);
                assert(r.data_at(k) == size_words(f, sp, k));
            }
            assert(r.data_at(n) == size_words(f, sp, n));
        }
        r
    }
}

proof fn lemma_same_size(s: TargetSeries, specs: Seq<RraSpec>, k: int)
    requires
        0 <= k <= specs.len(),
        s.archives@.len() == specs.len(),
        forall|i: int| 0 <= i < specs.len() ==> (#[trigger] s.archives@[i]).rows == specs[i].rows,
    ensures
        s.data_at(k) == size_words(s.fields as int, specs, k),
    decreases k,
{
    if k > 0 {
        lemma_same_size(s, specs, k - 1);
        assert(s.archives@[k - 1].rows == specs[k - 1].rows);
    }
}

impl TargetSeries {
    /// An archive nothing was ever recorded in.
    pub open spec fn blank(self, i: int) -> Archive {
        let zero = Double { bits: 0 };
        let f = self.fields as nat;
        Archive {
            window: EMPTY_WINDOW as int,
            vals: Seq::new(f, |j: int| zero),
            counts: Seq::new(f, |j: int| zero),
            rows: Seq::new(
                self.archives@[i].rows as nat,
                |s: int| Row { ts: 0, vals: Seq::new(f, |j: int| zero) },
            ),
        }
    }

    /// The header of archive `i` says what the layout says.
    pub open spec fn table_entry(self, image: Seq<u8>, i: int) -> bool {
        let g = self.archives@[i];
        let at = self.header_at(i);
        &&& word(image, at) as int % 0x1_0000_0000 == g.cf.code()
        &&& word(image, at) as int / 0x1_0000_0000 == g.steps
        &&& word(image, at + 1) == g.rows
        &&& (Double { bits: word(image, at + 2) }).equals(g.xff)
    }

    /// The headers that the layout's images are made with.
    pub open spec fn headed(self, image: Seq<u8>) -> bool {
        &&& self.sized(image)
        &&& word(image, 0) == MAGIC
        &&& word(image, 1) == self.step
        &&& word(image, 2) == self.fields - 2 + self.archives@.len() * 0x1_0000_0000
        &&& forall|i: int|
            0 <= i < self.archives@.len() ==> {
                let g = #[trigger] self.archives@[i];
                let at = self.header_at(i);
                &&& word(image, at + 0) == g.cf.code() + g.steps * 0x1_0000_0000
                &&& word(image, at + 1) == g.rows
                &&& word(image, at + 2) == g.xff.bits
            }
    }

    /// The first thing about an image that does not match the layout.
    pub open spec fn mismatch(self, image: Seq<u8>) -> Option<Mismatch> {
        if !self.sized(image) {
            Some(Mismatch::Size)
        } else if word(image, 0) != MAGIC {
            Some(Mismatch::Magic)
        } else if word(image, 1) != self.step {
            Some(Mismatch::Step)
        } else if word(image, 2) as int % 0x1_0000_0000 != self.fields - 2 {
            Some(Mismatch::Pings)
        } else if word(image, 2) as int / 0x1_0000_0000 != self.archives@.len() {
            Some(Mismatch::Count)
        } else if exists|i: int|
            0 <= i < self.archives@.len() && !#[trigger] self.table_entry(image, i) {
            Some(Mismatch::Table)
        } else {
            None
        }
    }

    /// The header of archive `j` of a new image.
    spec fn written(self, image: Seq<u8>, j: int) -> bool {
        let at = self.header_at(j);
        let g = self.archives@[j];
        &&& word(image, at) == g.cf.code() + g.steps * 0x1_0000_0000
        &&& word(image, at + 1) == g.rows
        &&& word(image, at + 2) == g.xff.bits
        &&& as_signed(word(image, at + 3)) == EMPTY_WINDOW
        &&& forall|k: int| at + 4 <= k < at + 4 + 2 * self.fields ==> word(image, k) == 0
    }

    fn write_header(&self, image: &mut [u8], i: usize)
        requires
            self.wf(),
            self.sized(old(image)@),
            i < self.archives@.len(),
        ensures
            self.sized(final(image)@),
            same_outside(
                old(image)@,
                final(image)@,
                self.header_at(i as int),
                self.header_at(i as int) + 4,
            ),
            ({
                let at = self.header_at(i as int);
                let g = self.archives@[i as int];
                &&& word(final(image)@, at) == g.cf.code() + g.steps * 0x1_0000_0000
                &&& word(final(image)@, at + 1) == g.rows
                &&& word(final(image)@, at + 2) == g.xff.bits
                &&& as_signed(word(final(image)@, at + 3)) == EMPTY_WINDOW
            }),
    {
        let g = self.archives[i];
        proof {
            lemma_headers(*self, i as int, self.archives@.len() as int);
            lemma_data(*self, 0, self.archives@.len() as int);
        }
        let entry: u64 = g.cf.as_u32() as u64 + g.steps as u64 * 0x1_0000_0000;
        put(image, g.header, entry);
        put(image, g.header + 1, g.rows);
        put(image, g.header + 2, g.xff.bits);
        put(image, g.header + 3, word_of(EMPTY_WINDOW as i128));
    }

    /// A new image: headers written, nothing recorded.
    pub fn init_headers(&self) -> (image: Vec<u8>)
        requires
            self.wf(),
        ensures
            self.sized(image@),
            self.last(image@) == 0,
            !self.begun(image@),
            forall|i: int|
                0 <= i < self.archives@.len() ==> #[trigger] self.archive(image@, i) == self.blank(
                    i,
                ),
            self.headed(image@),
    {
        let n: usize = self.archives.len();
        let ghost f = self.fields as int;
        let words: usize = self.word_count();
        let mut image = zero_image(words);
        proof {
            self.lemma_room();
        }
        put(image.as_mut_slice(), 0, MAGIC);
        put(image.as_mut_slice(), 1, self.step);
        let counts: u64 = (self.fields - 2) as u64 + n as u64 * 0x1_0000_0000;
        put(image.as_mut_slice(), 2, counts);
        let mut i: usize = 0;
        proof {
            assert(self.header_at(0) == FILE_HEADER) by {
                assert(0 * (ARCHIVE_HEADER + 2 * f) == 0);
            }
        }
        while i < n
            invariant
                self.wf(),
                n == self.archives@.len(),
                f == self.fields,
                self.sized(image@),
                i <= n,
                word(image@, 0) == MAGIC,
                word(image@, 1) == self.step,
                word(image@, 2) == counts,
                word(image@, 3) == 0,
                word(image@, 4) == 0,
                forall|k: int| self.header_at(i as int) <= k < self.words() ==> word(image@, k) == 0,
                forall|j: int|
                    #![trigger self.archives@[j]]
                    0 <= j < i ==> self.written(image@, j),
            decreases n - i,
        {
            let ghost prior = image@;
            self.write_header(image.as_mut_slice(), i);
            proof {
                lemma_headers(*self, i as int, n as int);
                lemma_headers(*self, i as int, i + 1);
                lemma_data(*self, 0, n as int);
                assert forall|j: int| #![trigger self.archives@[j]] 0 <= j <= i implies self.written(
                    image@,
                    j,
                ) by {
                    if j < i {
                        lemma_headers(*self, j, i as int);
                        assert(self.written(prior, j));
                        let at = self.header_at(j);
                        assert(word(prior, at) == word(image@, at));
                        assert(word(prior, at + 1) == word(image@, at + 1));
                        assert(word(prior, at + 2) == word(image@, at + 2));
                        assert(word(prior, at + 3) == word(image@, at + 3));
                    } else {
                        let at = self.header_at(j);
                        assert forall|k: int| at + 4 <= k < at + 4 + 2 * f implies word(image@, k)
                            == 0 by {
                            assert(word(prior, k) == 0);
                        }
                    }
                }
            }
            i = i + 1;
        }
        proof {
            assert forall|j: int| 0 <= j < n implies #[trigger] self.archive(image@, j)
                == self.blank(j) by {
                assert(self.archives@[j] == self.archives@[j]);
                lemma_blank(*self, image@, j);
            }
        }
        image
    }

    /// How many words an image has.
    fn word_count(&self) -> (w: usize)
        requires
            self.wf(),
        ensures
            w == self.words(),
    {
        let n: usize = self.archives.len();
        if n == 0 {
            proof {
                assert(0 * (ARCHIVE_HEADER + 2 * self.fields) == 0);
            }
            return FILE_HEADER;
        }
        let g = self.archives[n - 1];
        proof {
            lemma_data(*self, n - 1, n as int);
            lemma_data(*self, 0, n - 1);
            lemma_headers(*self, 0, n as int);
            let r = g.rows;
            let f = self.fields;
            assert(r <= r * (1 + f)) by (nonlinear_arith)
                requires
                    r >= 0,
                    f >= 0,
            ;
        }
        g.data + g.rows as usize * (1 + self.fields)
    }

    /// What about an image does not match the layout.
    pub fn validate_headers(&self, image: &[u8]) -> (r: Option<Mismatch>)
        requires
            self.wf(),
        ensures
            r == self.mismatch(image@),
    {
        if image.len() != 8 * self.word_count() {
            return Some(Mismatch::Size);
        }
        proof {
            self.lemma_room();
        }
        if get(image, 0) != MAGIC {
            return Some(Mismatch::Magic);
        }
        if get(image, 1) != self.step {
            return Some(Mismatch::Step);
        }
        let counts: u64 = get(image, 2);
        if (counts % 0x1_0000_0000) as usize != self.fields - 2 {
            return Some(Mismatch::Pings);
        }
        if (counts / 0x1_0000_0000) as usize != self.archives.len() {
            return Some(Mismatch::Count);
        }
        let mut i: usize = 0;
        while i < self.archives.len()
            invariant
                self.wf(),
                self.sized(image@),
                word(image@, 0) == MAGIC,
                word(image@, 1) == self.step,
                word(image@, 2) as int % 0x1_0000_0000 == self.fields - 2,
                word(image@, 2) as int / 0x1_0000_0000 == self.archives@.len(),
                i <= self.archives@.len(),
                forall|j: int| 0 <= j < i ==> #[trigger] self.table_entry(image@, j),
            decreases self.archives@.len() - i,
        {
            let g = self.archives[i];
            proof {
                lemma_headers(*self, i as int, self.archives@.len() as int);
                lemma_data(*self, 0, self.archives@.len() as int);
            }
            let entry: u64 = get(image, g.header);
            let rows: u64 = get(image, g.header + 1);
            let xff = Double { bits: get(image, g.header + 2) };
            if entry % 0x1_0000_0000 != g.cf.as_u32() as u64 || entry / 0x1_0000_0000
                != g.steps as u64 || rows != g.rows || !xff.num_eq(g.xff) {
                assert(!self.table_entry(image@, i as int));
                return Some(Mismatch::Table);
            }
            assert(self.table_entry(image@, i as int));
            i = i + 1;
        }
        None
    }

    /// The layout for these parameters and, where there is no image yet, a
    /// new one; an existing image must match the layout.
    pub fn open_or_create(
        existing: Option<&[u8]>,
        step: u64,
        pings: u32,
        specs: &Vec<RraSpec>,
    ) -> (r: Result<(TargetSeries, Option<Vec<u8>>), Mismatch>)
        requires
            layout_fits(step, pings, specs@),
        ensures
            match r {
                Ok((series, new)) => {
                    &&& series.wf()
                    &&& series.of(step, pings, specs@)
                    &&& match existing {
                        Some(image) => new is None && series.mismatch(image@) is None,
                        None => {
                            &&& new is Some
                            &&& series.sized(new->0@)
                            &&& series.last(new->0@) == 0
                            &&& !series.begun(new->0@)
                            &&& forall|i: int|
                                0 <= i < specs@.len() ==> #[trigger] series.archive(new->0@, i)
                                    == series.blank(i)
                            &&& series.headed(new->0@)
                        },
                    }
                },
                Err(e) => existing matches Some(image) && exists|series: TargetSeries|
                    series.of(step, pings, specs@) && series.wf() && series.mismatch(image@)
                        == Some(e),
            },
    {
        let series = TargetSeries::new(step, pings, specs);
        match existing {
            None => {
                let image = series.init_headers();
                Ok((series, Some(image)))
            },
            Some(image) => match series.validate_headers(image) {
                Some(e) => Err(e),
                None => Ok((series, None)),
            },
        }
    }
}

fn zero_image(words: usize) -> (image: Vec<u8>)
    requires
        8 * words <= usize::MAX,
    ensures
        image@.len() == 8 * words,
        forall|k: int| 0 <= k < words ==> word(image@, k) == 0,
{
    let mut image: Vec<u8> = Vec::new();
    let mut k: usize = 0;
    while k < 8 * words
        invariant
            8 * words <= usize::MAX,
            k <= 8 * words,
            image@.len() == k,
            forall|m: int| 0 <= m < k ==> image@[m] == 0,
        decreases 8 * words - k,
    {
        image.push(0);
        k = k + 1;
    }
    proof {
        assert forall|m: int| 0 <= m < words implies word(image@, m) == 0 by {
            lemma_zero_word(image@.subrange(8 * m, 8 * m + 8));
        }
    }
    image
}

proof fn lemma_blank(s: TargetSeries, image: Seq<u8>, j: int)
    requires
        s.wf(),
        s.sized(image),
        0 <= j < s.archives@.len(),
        s.written(image, j),
        forall|k: int|
            s.header_at(s.archives@.len() as int) <= k < s.words() ==> word(image, k) == 0,
    ensures
        s.archive(image, j) == s.blank(j),
{
    let n = s.archives@.len() as int;
    let g = s.archives@[j];
    let f = s.fields as int;
    lemma_headers(s, j, n);
    lemma_data(s, j, n);
    lemma_data(s, 0, j);
    assert(s.archive(image, j).vals == s.blank(j).vals);
    assert(s.archive(image, j).counts == s.blank(j).counts);
    assert forall|r: int| 0 <= r < g.rows implies s.archive(image, j).rows[r] == s.blank(
        j,
    ).rows[r] by {
        lemma_slot(s, j, r);
        let at = g.data + r * (1 + f);
        assert(word(image, at) == 0);
        assert(s.archive(image, j).rows[r].vals == s.blank(j).rows[r].vals);
    }
    assert(s.archive(image, j).rows == s.blank(j).rows);
}

proof fn lemma_zero_word(s: Seq<u8>)
    requires
        s.len() == 8,
        forall|i: int| 0 <= i < 8 ==> s[i] == 0,
    ensures
        spec_u64_from_le_bytes(s) == 0,
{
    let z = spec_u64_to_le_bytes(0);
    spec_u64_to_le_bytes_to_open(0);
    lemma_auto_spec_u64_to_from_le_bytes();
    assert((0u64 & 0xff) as u8 == 0 && ((0u64 >> 8) & 0xff) as u8 == 0 && ((0u64 >> 16) & 0xff)
        as u8 == 0 && ((0u64 >> 24) & 0xff) as u8 == 0 && ((0u64 >> 32) & 0xff) as u8 == 0 && ((0u64
        >> 40) & 0xff) as u8 == 0 && ((0u64 >> 48) & 0xff) as u8 == 0 && ((0u64 >> 56) & 0xff) as u8
        == 0) by (bit_vector);
    assert(z == s);
}

/// Points as times and values.
pub open spec fn raw_points(points: Seq<(i64, Vec<Double>)>) -> Seq<(int, Seq<Double>)> {
    Seq::new(points.len(), |k: int| (points[k].0 as int, points[k].1@))
}

/// How many rows lie between two times. Between times in the wrong order the
/// seconds are counted as an unsigned number, and come out as a great many.
pub open spec fn row_count(from: int, to: int, period: int) -> int {
    as_word(aligned(to, period) - aligned(from, period)) as int / period + 1
}

/// The least number of times `b` that reaches `a`.
pub open spec fn div_up(a: int, b: int) -> int {
    (a + b - 1) / b
}

/// Every how many rows a point is returned.
pub open spec fn stride(from: int, to: int, period: int, max_points: u64) -> int {
    let n = row_count(from, to, period);
    if max_points > 0 && n > max_points {
        div_up(n, max_points as int)
    } else {
        1
    }
}

impl TargetSeries {
    /// Archive `i` can serve the consolidation function: an archive of single
    /// data points holds raw samples, which serve any.
    pub open spec fn serves(self, i: int, cf: Cf) -> bool {
        self.archives@[i].cf == cf || self.archives@[i].steps == 1
    }

    /// Archive `i` returns no more than `max_points` points for the span.
    pub open spec fn within(self, i: int, from: int, to: int, max_points: u64) -> bool {
        max_points == 0 || (if to > from {
            to - from
        } else {
            0
        }) / self.archives@[i].period(self.step) <= max_points
    }

    /// Archive `i` reaches back to `from`, or there is nothing to reach.
    pub open spec fn covers(self, image: Seq<u8>, i: int, from: int) -> bool {
        let g = self.archives@[i];
        let p = g.period(self.step);
        !self.begun(image) || aligned(from, p) >= aligned(self.last(image), p) - (g.rows - 1) * p
    }

    /// Archive `i` comes before archive `j` by resolution, then by place.
    pub open spec fn finer(self, i: int, j: int) -> bool {
        self.archives@[i].steps < self.archives@[j].steps || (self.archives@[i].steps
            == self.archives@[j].steps && i < j)
    }

    pub open spec fn ideal(
        self,
        image: Seq<u8>,
        cf: Cf,
        from: int,
        to: int,
        max_points: u64,
        i: int,
    ) -> bool {
        &&& 0 <= i < self.archives@.len()
        &&& self.serves(i, cf)
        &&& self.within(i, from, to, max_points)
        &&& self.covers(image, i, from)
    }

    pub open spec fn passable(self, cf: Cf, from: int, to: int, max_points: u64, i: int) -> bool {
        &&& 0 <= i < self.archives@.len()
        &&& self.serves(i, cf)
        &&& self.within(i, from, to, max_points)
    }

    pub open spec fn able(self, cf: Cf, i: int) -> bool {
        0 <= i < self.archives@.len() && self.serves(i, cf)
    }

    /// Archive `i` is the one to fetch from: the finest that serves, covers
    /// and stays within the points; else the coarsest that serves and stays
    /// within the points; else the coarsest that serves.
    pub open spec fn chosen(
        self,
        image: Seq<u8>,
        cf: Cf,
        from: int,
        to: int,
        max_points: u64,
        i: int,
    ) -> bool {
        if exists|j: int| #[trigger] self.ideal(image, cf, from, to, max_points, j) {
            &&& self.ideal(image, cf, from, to, max_points, i)
            &&& forall|j: int|
                j != i && #[trigger] self.ideal(image, cf, from, to, max_points, j) ==> self.finer(
                    i,
                    j,
                )
        } else if exists|j: int| #[trigger] self.passable(cf, from, to, max_points, j) {
            &&& self.passable(cf, from, to, max_points, i)
            &&& forall|j: int|
                j != i && #[trigger] self.passable(cf, from, to, max_points, j) ==> self.finer(
                    j,
                    i,
                )
        } else {
            &&& self.able(cf, i)
            &&& forall|j: int| j != i && #[trigger] self.able(cf, j) ==> self.finer(j, i)
        }
    }

    /// Seconds between the points that archive `c` gives.
    pub open spec fn spacing(self, c: int, from: int, to: int, max_points: u64) -> int {
        let p = self.archives@[c].period(self.step);
        p * stride(from, to, p, max_points)
    }

    /// The points that archive `c` gives: one for every `stride`-th row from
    /// `from` to `to`, none where `to` lies in an earlier row.
    pub open spec fn points(
        self,
        image: Seq<u8>,
        c: int,
        from: int,
        to: int,
        max_points: u64,
    ) -> Seq<(int, Seq<Double>)> {
        let g = self.archives@[c];
        let p = g.period(self.step);
        let start = aligned(from, p);
        let gap = self.spacing(c, from, to, max_points);
        Seq::new(
            if aligned(to, p) < start {
                0
            } else {
                ((aligned(to, p) - start) / gap + 1) as nat
            },
            |k: int|
                (
                    start + k * gap,
                    self.archive(image, c).row(
                        g,
                        self.step,
                        self.fields as nat,
                        start + k * gap,
                    ),
                ),
        )
    }

    /// Archive `c` counts its rows and spaces its points within 64 bits.
    pub open spec fn counted(self, c: int, from: int, to: int, max_points: u64) -> bool {
        &&& row_count(from, to, self.archives@[c].period(self.step)) <= u64::MAX
        &&& self.spacing(c, from, to, max_points) <= u64::MAX
    }

    /// Whichever archive is chosen, a fetch can be counted. In the wrong order
    /// of the times, the rows may be too many.
    pub open spec fn countable(self, from: int, to: int, max_points: u64) -> bool {
        forall|c: int|
            0 <= c < self.archives@.len() ==> #[trigger] self.counted(c, from, to, max_points)
    }

    /// How many points a fetch from archive `c` asks for.
    pub open spec fn asked(self, c: int, from: int, to: int, max_points: u64) -> int {
        let p = self.archives@[c].period(self.step);
        div_up(row_count(from, to, p), stride(from, to, p, max_points))
    }

    /// The fetch is refused with this error.
    pub open spec fn refuses(
        self,
        image: Seq<u8>,
        cf: Cf,
        from: int,
        to: int,
        max_points: u64,
        e: FetchError,
    ) -> bool {
        match e {
            FetchError::NoArchive => forall|j: int| !#[trigger] self.able(cf, j),
            FetchError::TooMany(n) => exists|c: int|
                {
                    &&& #[trigger] self.able(cf, c)
                    &&& self.chosen(image, cf, from, to, max_points, c)
                    &&& n == self.asked(c, from, to, max_points)
                    &&& n > MAX_FETCH_POINTS
                },
        }
    }

    /// The fetch is answered with these points.
    pub open spec fn answers(
        self,
        image: Seq<u8>,
        cf: Cf,
        from: int,
        to: int,
        max_points: u64,
        spacing: int,
        points: Seq<(int, Seq<Double>)>,
    ) -> bool {
        exists|c: int|
            {
                &&& #[trigger] self.able(cf, c)
                &&& self.chosen(image, cf, from, to, max_points, c)
                &&& self.asked(c, from, to, max_points) <= MAX_FETCH_POINTS
                &&& spacing == self.spacing(c, from, to, max_points)
                &&& points == self.points(image, c, from, to, max_points)
            }
    }

    /// What a fetch gives: the spacing and the points, or nothing where it is
    /// refused.
    pub open spec fn answer(
        self,
        image: Seq<u8>,
        cf: Cf,
        from: int,
        to: int,
        max_points: u64,
    ) -> Option<(int, Seq<(int, Seq<Double>)>)> {
        let c = choose|c: int|
            #[trigger] self.able(cf, c) && self.chosen(image, cf, from, to, max_points, c);
        if !(exists|j: int| #[trigger] self.able(cf, j)) || self.asked(c, from, to, max_points)
            > MAX_FETCH_POINTS {
            None
        } else {
            Some(
                (
                    self.spacing(c, from, to, max_points),
                    self.points(image, c, from, to, max_points),
                ),
            )
        }
    }

    fn is_within(&self, i: usize, from: i64, to: i64, max_points: u64) -> (r: bool)
        requires
            self.wf(),
            i < self.archives@.len(),
        ensures
            r == self.within(i as int, from as int, to as int, max_points),
    {
        let span: u64 = if to > from {
            (to as i128 - from as i128) as u64
        } else {
            0
        };
        let p: u64 = self.period(i);
        max_points == 0 || span / p <= max_points
    }

    fn is_covering(&self, image: &[u8], i: usize, from: i64) -> (r: bool)
        requires
            self.wf(),
            self.sized(image@),
            i < self.archives@.len(),
        ensures
            r == self.covers(image@, i as int, from as int),
    {
        let last: i64 = self.last_update(image);
        if !self.has_begun(image) {
            return true;
        }
        let g = self.archives[i];
        let p: u64 = self.period(i);
        proof {
            let r = g.rows;
            assert(0 <= (r - 1) * p <= r * p) by (nonlinear_arith)
                requires
                    r >= 1,
                    p >= 0,
            ;
        }
        let back: i128 = (g.rows as i128 - 1) * p as i128;
        align(from as i128, p) >= align(last as i128, p) - back
    }

    fn is_serving(&self, i: usize, cf: Cf) -> (r: bool)
        requires
            i < self.archives@.len(),
        ensures
            r == self.serves(i as int, cf),
    {
        self.archives[i].cf == cf || self.archives[i].steps == 1
    }

    fn pick_ideal(&self, image: &[u8], cf: Cf, from: i64, to: i64, max_points: u64) -> (r: Option<
        usize,
    >)
        requires
            self.wf(),
            self.sized(image@),
        ensures
            match r {
                None => forall|j: int|
                    !#[trigger] self.ideal(image@, cf, from as int, to as int, max_points, j),
                Some(b) => self.ideal(image@, cf, from as int, to as int, max_points, b as int)
                    && forall|j: int|
                    j != b && #[trigger] self.ideal(
                        image@,
                        cf,
                        from as int,
                        to as int,
                        max_points,
                        j,
                    ) ==> self.finer(b as int, j),
            },
    {
        let mut best: Option<usize> = None;
        let mut i: usize = 0;
        while i < self.archives.len()
            invariant
                self.wf(),
                self.sized(image@),
                i <= self.archives@.len(),
                match best {
                    None => forall|j: int|
                        j < i ==> !#[trigger] self.ideal(
                            image@,
                            cf,
                            from as int,
                            to as int,
                            max_points,
                            j,
                        ),
                    Some(b) => b < i && self.ideal(
                        image@,
                        cf,
                        from as int,
                        to as int,
                        max_points,
                        b as int,
                    ) && forall|j: int|
                        j < i && j != b && #[trigger] self.ideal(
                            image@,
                            cf,
                            from as int,
                            to as int,
                            max_points,
                            j,
                        ) ==> self.finer(b as int, j),
                },
            decreases self.archives@.len() - i,
        {
            if self.is_serving(i, cf) && self.is_within(i, from, to, max_points)
                && self.is_covering(image, i, from) {
                match best {
                    None => {
                        best = Some(i);
                    },
                    Some(b) => {
                        if self.archives[i].steps < self.archives[b].steps {
                            best = Some(i);
                        }
                    },
                }
            }
            i = i + 1;
        }
        best
    }

    fn pick_passable(&self, cf: Cf, from: i64, to: i64, max_points: u64) -> (r: Option<usize>)
        requires
            self.wf(),
        ensures
            match r {
                None => forall|j: int|
                    !#[trigger] self.passable(cf, from as int, to as int, max_points, j),
                Some(b) => self.passable(cf, from as int, to as int, max_points, b as int)
                    && forall|j: int|
                    j != b && #[trigger] self.passable(cf, from as int, to as int, max_points, j)
                        ==> self.finer(j, b as int),
            },
    {
        let mut best: Option<usize> = None;
        let mut i: usize = 0;
        while i < self.archives.len()
            invariant
                self.wf(),
                i <= self.archives@.len(),
                match best {
                    None => forall|j: int|
                        j < i ==> !#[trigger] self.passable(
                            cf,
                            from as int,
                            to as int,
                            max_points,
                            j,
                        ),
                    Some(b) => b < i && self.passable(
                        cf,
                        from as int,
                        to as int,
                        max_points,
                        b as int,
                    ) && forall|j: int|
                        j < i && j != b && #[trigger] self.passable(
                            cf,
                            from as int,
                            to as int,
                            max_points,
                            j,
                        ) ==> self.finer(j, b as int),
                },
            decreases self.archives@.len() - i,
        {
            if self.is_serving(i, cf) && self.is_within(i, from, to, max_points) {
                match best {
                    None => {
                        best = Some(i);
                    },
                    Some(b) => {
                        if self.archives[i].steps >= self.archives[b].steps {
                            best = Some(i);
                        }
                    },
                }
            }
            i = i + 1;
        }
        best
    }

    fn pick_able(&self, cf: Cf) -> (r: Option<usize>)
        ensures
            match r {
                None => forall|j: int| !#[trigger] self.able(cf, j),
                Some(b) => self.able(cf, b as int) && forall|j: int|
                    j != b && #[trigger] self.able(cf, j) ==> self.finer(j, b as int),
            },
    {
        let mut best: Option<usize> = None;
        let mut i: usize = 0;
        while i < self.archives.len()
            invariant
                i <= self.archives@.len(),
                match best {
                    None => forall|j: int| j < i ==> !#[trigger] self.able(cf, j),
                    Some(b) => b < i && self.able(cf, b as int) && forall|j: int|
                        j < i && j != b && #[trigger] self.able(cf, j) ==> self.finer(
                            j,
                            b as int,
                        ),
                },
            decreases self.archives@.len() - i,
        {
            if self.is_serving(i, cf) {
                match best {
                    None => {
                        best = Some(i);
                    },
                    Some(b) => {
                        if self.archives[i].steps >= self.archives[b].steps {
                            best = Some(i);
                        }
                    },
                }
            }
            i = i + 1;
        }
        best
    }

    /// The archive to fetch from.
    fn pick(&self, image: &[u8], cf: Cf, from: i64, to: i64, max_points: u64) -> (r: Option<usize>)
        requires
            self.wf(),
            self.sized(image@),
        ensures
            match r {
                None => forall|j: int| !#[trigger] self.able(cf, j),
                Some(i) => self.able(cf, i as int) && self.chosen(
                    image@,
                    cf,
                    from as int,
                    to as int,
                    max_points,
                    i as int,
                ),
            },
    {
        let best = self.pick_ideal(image, cf, from, to, max_points);
        if best.is_some() {
            return best;
        }
        let second = self.pick_passable(cf, from, to, max_points);
        if second.is_some() {
            return second;
        }
        self.pick_able(cf)
    }

    /// Fetches points for [from, to], picking the best-resolution archive that
    /// can serve the requested cf, covers `from`, and (when max_points > 0)
    /// doesn't return more than max_points. Returns the spacing and the
    /// points; rows with no valid data come back NaN-filled, never omitted.
    pub fn fetch(&self, image: &[u8], cf: Cf, from: i64, to: i64, max_points: u64) -> (r: Result<
        (u64, Vec<(i64, Vec<Double>)>),
        FetchError,
    >)
        requires
            self.wf(),
            self.sized(image@),
            self.alignable(from as int),
            self.alignable(to as int),
            self.spans(from as int, to as int) || self.countable(
                from as int,
                to as int,
                max_points,
            ),
        ensures
            match r {
                Err(e) => self.refuses(image@, cf, from as int, to as int, max_points, e),
                Ok((spacing, points)) => self.answers(
                    image@,
                    cf,
                    from as int,
                    to as int,
                    max_points,
                    spacing as int,
                    raw_points(points@),
                ),
            },
    {
        let c: usize = match self.pick(image, cf, from, to, max_points) {
            None => {
                return Err(FetchError::NoArchive);
            },
            Some(c) => c,
        };
        let p: u64 = self.period(c);
        let start: i128 = align(from as i128, p);
        let end: i128 = align(to as i128, p);
        let gap: u64 = if end >= start {
            (end - start) as u64
        } else {
            (end - start + 0x1_0000_0000_0000_0000) as u64
        };
        let rows: u64 = gap / p;
        proof {
            lemma_fundamental_div_mod(gap as int, p as int);
            lemma_mod_bound(gap as int, p as int);
            if self.spans(from as int, to as int) {
                assert(self.archives@[c as int].period(self.step) == p);
                lemma_aligned_order(from as int, to as int, p as int);
                assert(rows <= gap) by (nonlinear_arith)
                    requires
                        gap == p * rows + gap % p,
                        gap % p >= 0,
                        rows >= 0,
                        p >= 1,
                ;
            } else {
                assert(self.counted(c as int, from as int, to as int, max_points));
            }
        }
        let n: u64 = rows + 1;
        let st: u64 = if max_points > 0 && n > max_points {
            ceil_div(n, max_points)
        } else {
            1
        };
        proof {
            if max_points > 0 && n > max_points {
                lemma_div_up(n as int, max_points as int);
            }
            if self.spans(from as int, to as int) {
                assert(p * st <= gap + p) by (nonlinear_arith)
                    requires
                        1 <= st <= n,
                        n == rows + 1,
                        gap == p * rows + gap % p,
                        gap % p >= 0,
                        p >= 1,
                ;
            }
            assert(p * st >= p) by (nonlinear_arith)
                requires
                    st >= 1,
                    p >= 1,
            ;
        }
        let spacing: u64 = p * st;
        let count: u64 = ceil_div(n, st);
        if count > MAX_FETCH_POINTS {
            assert(self.able(cf, c as int));
            return Err(FetchError::TooMany(count));
        }
        let mut points: Vec<(i64, Vec<Double>)> = Vec::new();
        let mut w: i128 = start;
        let ghost g = self.archives@[c as int];
        assert(0 * (spacing as int) == 0);
        while w <= end
            invariant
                self.wf(),
                self.sized(image@),
                c < self.archives@.len(),
                g == self.archives@[c as int],
                0 < spacing,
                i64::MIN <= start,
                end <= i64::MAX,
                w == start + points@.len() * spacing,
                points@.len() > 0 ==> start + (points@.len() - 1) * spacing <= end,
                forall|k: int|
                    0 <= k < points@.len() ==> {
                        &&& (#[trigger] points@[k]).0 == start + k * spacing
                        &&& points@[k].1@ == self.archive(image@, c as int).row(
                            g,
                            self.step,
                            self.fields as nat,
                            start + k * spacing,
                        )
                    },
            decreases end - w + spacing,
        {
            let ghost k = points@.len() as int;
            proof {
                assert(k * spacing >= 0) by (nonlinear_arith)
                    requires
                        k >= 0,
                        spacing >= 0,
                ;
                assert((k + 1) * spacing == k * spacing + spacing) by (nonlinear_arith);
            }
            let vals = self.row_values(image, c, w as i64);
            points.push((w as i64, vals));
            w = w + spacing as i128;
        }
        proof {
            let k = points@.len() as int;
            if k == 0 {
                assert(0 * (spacing as int) == 0);
                assert(end < start);
            } else {
                assert(k * spacing == (k - 1) * spacing + spacing) by (nonlinear_arith);
                assert((k - 1) * spacing >= 0) by (nonlinear_arith)
                    requires
                        k >= 1,
                        spacing >= 0,
                ;
                lemma_fundamental_div_mod_converse(
                    end - start,
                    spacing as int,
                    k - 1,
                    end - start - (k - 1) * spacing,
                );
            }
            assert(self.able(cf, c as int));
            assert(raw_points(points@) =~= self.points(
                image@,
                c as int,
                from as int,
                to as int,
                max_points,
            ));
        }
        Ok((spacing, points))
    }

    /// The fields of a window's row, or unknowns.
    fn row_values(&self, image: &[u8], ai: usize, w: i64) -> (vals: Vec<Double>)
        requires
            self.wf(),
            self.sized(image@),
            ai < self.archives@.len(),
        ensures
            vals@ == self.archive(image@, ai as int).row(
                self.archives@[ai as int],
                self.step,
                self.fields as nat,
                w as int,
            ),
    {
        let at: usize = self.row_at(ai, w);
        let ghost a = self.archive(image@, ai as int);
        let ghost g = self.archives@[ai as int];
        let ghost r = a.rows[slot(w as int, g.period(self.step), g.rows as int)];
        let known = get_signed(image, at) == w;
        assert(r.ts == as_signed(word(image@, at as int)));
        let mut vals: Vec<Double> = Vec::new();
        let mut j: usize = 0;
        while j < self.fields
            invariant
                8 * (at + 1 + self.fields) <= image@.len(),
                image@.len() <= usize::MAX,
                r.vals.len() == self.fields,
                forall|m: int|
                    0 <= m < self.fields ==> (#[trigger] r.vals[m]).bits == word(
                        image@,
                        at + 1 + m,
                    ),
                j <= self.fields,
                vals@.len() == j,
                forall|m: int|
                    0 <= m < j ==> #[trigger] vals@[m] == (if known {
                        r.vals[m]
                    } else {
                        Double { bits: NAN_BITS }
                    }),
            decreases self.fields - j,
        {
            let b: u64 = if known {
                get(image, at + 1 + j)
            } else {
                NAN_BITS
            };
            assert(known ==> b == r.vals[j as int].bits);
            vals.push(Double { bits: b });
            j = j + 1;
        }
        vals
    }
}

fn ceil_div(a: u64, b: u64) -> (r: u64)
    requires
        a > 0,
        b > 0,
    ensures
        r == div_up(a as int, b as int),
{
    let r: u64 = (a - 1) / b + 1;
    proof {
        let q = (a - 1) / (b as int);
        lemma_fundamental_div_mod(a - 1, b as int);
        lemma_mod_bound(a - 1, b as int);
        assert(q <= a - 1) by (nonlinear_arith)
            requires
                q == (a - 1) / (b as int),
                a >= 1,
                b >= 1,
        ;
        let m = (a - 1) % (b as int);
        assert(a + b - 1 == (q + 1) * b + m) by (nonlinear_arith)
            requires
                a - 1 == b * q + m,
        ;
        lemma_fundamental_div_mod_converse(a + b - 1, b as int, q + 1, m);
    }
    r
}

proof fn lemma_div_up(a: int, b: int)
    requires
        a > 0,
        b > 0,
    ensures
        1 <= div_up(a, b) <= a,
{
    let n = a + b - 1;
    lemma_fundamental_div_mod(n, b);
    lemma_mod_bound(n, b);
    let q = n / b;
    let m = n % b;
    assert(q >= 1) by (nonlinear_arith)
        requires
            n == b * q + m,
            m < b,
            n >= b,
            b > 0,
    ;
    assert(q <= a) by (nonlinear_arith)
        requires
            n == b * q + m,
            m >= 0,
            n == a + b - 1,
            a >= 1,
            b >= 1,
    ;
}

pub proof fn lemma_aligned_order(a: int, b: int, p: int)
    requires
        a <= b,
        p > 0,
    ensures
        aligned(a, p) <= aligned(b, p),
{
    lemma_div_is_ordered(a, b, p);
    let x = a / p;
    let y = b / p;
    assert(x * p <= y * p) by (nonlinear_arith)
        requires
            x <= y,
            p > 0,
    ;
}

/// The slot of a window is one of the archive's rows.
proof fn lemma_slot_range(g: Geom, step: u64, w: int)
    requires
        g.rows > 0,
    ensures
        0 <= slot(w, g.period(step), g.rows as int) < g.rows,
{
    lemma_mod_bound(as_word(w / g.period(step)) as int, g.rows as int);
}

proof fn lemma_aligned_multiple(t: int, step: int)
    requires
        step > 0,
        t % step == 0,
    ensures
        aligned(t, step) == t,
{
    lemma_fundamental_div_mod(t, step);
    let q = t / step;
    assert(q * step == step * q) by (nonlinear_arith);
}

/// What an archive of single data points was given for a step, it gives back:
/// known fields are equal as numbers, unknown ones are unknown.
pub proof fn a_recorded_point_reads_back(
    a: Archive,
    g: Geom,
    step: u64,
    t: int,
    fields: Seq<Double>,
    j: int,
)
    requires
        step > 0,
        g.fits(step),
        g.steps == 1,
        g.xff.finite(),
        0 <= g.xff.value() <= pow2(1074),
        a.rows.len() == g.rows,
        a.window == EMPTY_WINDOW,
        t > EMPTY_WINDOW,
        t % (step as int) == 0,
        0 <= j < fields.len(),
    ensures
        ({
            let b = a.after(g, step, t, fields);
            let r = b.row(g, step, fields.len(), t);
            &&& b.window == EMPTY_WINDOW
            &&& r.len() == fields.len()
            &&& r[j].nan() <==> fields[j].nan()
            &&& !fields[j].nan() ==> r[j].equals(fields[j])
        }),
{
    let one = Double { bits: ONE_BITS };
    let zero = Double { bits: 0 };
    let v = fields[j];
    let p = g.period(step);
    assert(p == step) by (nonlinear_arith)
        requires
            p == step * g.steps,
            g.steps == 1,
    ;
    lemma_aligned_multiple(t, step as int);
    let w = aligned(t, p);
    assert(w == t);
    assert((t - w) / (step as int) == 0) by {
        lemma_basic_div(0, step as int);
    }
    let opened = a.opened(g.cf, fields.len(), w);
    let full = opened.accumulated(g.cf, fields);
    lemma_slot_range(g, step, w);
    double::lemma_one();
    double::lemma_add_to_zero(one);
    double::lemma_one_less(g.xff);
    let rest = double::sum(one, double::negated(g.xff));
    double::lemma_times_one(rest);
    lemma_pow2_pos(1074);
    assert(g.min_known() == rest);
    double::lemma_compose(0, 0);
    assert(0 * (double::HIDDEN as nat) + 0 == 0 && 0 * pow2(0) == 0);
    assert(zero.value() == 0);
    if v.nan() {
        assert(full.counts[j] == zero);
        assert(zero.equals(zero));
    } else {
        assert(full.counts[j] == one);
        assert(one.value() == pow2(1074));
        assert(!one.less(g.min_known()));
        match g.cf {
            Cf::Average => {
                assert(initial(g.cf) == zero);
                double::lemma_add_to_zero(v);
                let s = double::sum(zero, v);
                double::lemma_over_one(s);
            },
            _ => {
                assert(initial(g.cf).nan());
            },
        }
    }
}

/// A row that a later window went to is unknown for the window it held.
pub proof fn an_overwritten_row_is_unknown(
    a: Archive,
    g: Geom,
    step: u64,
    fields: nat,
    earlier: int,
    later: int,
    j: int,
)
    requires
        g.rows > 0,
        a.rows.len() == g.rows,
        earlier != later,
        slot(earlier, g.period(step), g.rows as int) == slot(later, g.period(step), g.rows as int),
        0 <= j < fields,
    ensures
        a.finalized(g, step, later).row(g, step, fields, earlier)[j].nan(),
{
    lemma_slot_range(g, step, later);
}

/// Windows `rows` periods apart share a row, so that an archive holds its
/// newest `rows` windows.
pub proof fn windows_wrap_around(g: Geom, step: u64, w: int)
    requires
        step > 0,
        g.fits(step),
        0 <= w,
        w / g.period(step) + g.rows < 0x1_0000_0000_0000_0000,
    ensures
        slot(w + g.rows * g.period(step), g.period(step), g.rows as int) == slot(
            w,
            g.period(step),
            g.rows as int,
        ),
{
    let p = g.period(step);
    let r = g.rows as int;
    assert(p > 0) by (nonlinear_arith)
        requires
            p == step * g.steps,
            step > 0,
            g.steps > 0,
    ;
    let q = w / p;
    lemma_fundamental_div_mod(w, p);
    lemma_mod_bound(w, p);
    assert(q >= 0) by (nonlinear_arith)
        requires
            w == p * q + w % p,
            w % p < p,
            w >= 0,
            p > 0,
    ;
    let m = w % p;
    assert(w + r * p == (q + r) * p + m) by (nonlinear_arith)
        requires
            w == p * q + m,
    ;
    lemma_fundamental_div_mod_converse(w + r * p, p, q + r, m);
    lemma_mod_add_multiples_vanish(q, r);
    assert(r + q == q + r);
}

/// Recording leaves the headers alone: an image that matched its layout still
/// does, so that it can be opened again.
pub proof fn recording_keeps_an_image_valid(
    s: TargetSeries,
    before: Seq<u8>,
    ts: int,
    fields: Seq<Double>,
    after: Seq<u8>,
)
    requires
        s.sized(after),
        s.recorded(before, ts, fields, after),
    ensures
        s.mismatch(before) is None ==> s.mismatch(after) is None,
        s.headed(before) ==> s.headed(after),
{
    if s.mismatch(before) is None {
        assert forall|i: int| 0 <= i < s.archives@.len() implies #[trigger] s.table_entry(
            after,
            i,
        ) by {
            assert(s.table_entry(before, i));
            assert(word(before, s.header_at(i) + 0) == word(after, s.header_at(i) + 0));
            assert(word(before, s.header_at(i) + 1) == word(after, s.header_at(i) + 1));
            assert(word(before, s.header_at(i) + 2) == word(after, s.header_at(i) + 2));
        }
    }
    if s.headed(before) {
        assert forall|i: int| 0 <= i < s.archives@.len() implies {
            let g = #[trigger] s.archives@[i];
            let at = s.header_at(i);
            &&& word(after, at + 0) == g.cf.code() + g.steps * 0x1_0000_0000
            &&& word(after, at + 1) == g.rows
            &&& word(after, at + 2) == g.xff.bits
        } by {
            assert(word(before, s.header_at(i) + 0) == word(after, s.header_at(i) + 0));
            assert(word(before, s.header_at(i) + 1) == word(after, s.header_at(i) + 1));
            assert(word(before, s.header_at(i) + 2) == word(after, s.header_at(i) + 2));
        }
    }
}

/// An image serves one layout: where the step, the pings or the archives were
/// changed, it is refused.
pub proof fn a_changed_layout_is_refused(s: TargetSeries, t: TargetSeries, image: Seq<u8>, i: int)
    requires
        s.wf(),
        t.wf(),
        s.mismatch(image) is None,
        t.mismatch(image) is None,
        0 <= i < s.archives@.len(),
    ensures
        s.step == t.step,
        s.fields == t.fields,
        s.archives@.len() == t.archives@.len(),
        s.archives@[i].cf == t.archives@[i].cf,
        s.archives@[i].steps == t.archives@[i].steps,
        s.archives@[i].rows == t.archives@[i].rows,
        s.archives@[i].xff.equals(t.archives@[i].xff),
{
    assert(s.table_entry(image, i));
    assert(t.table_entry(image, i));
}

/// Two lists ask for the same archives; a share that is no number is equal to
/// none.
pub open spec fn same_specs(a: Seq<RraSpec>, b: Seq<RraSpec>) -> bool {
    &&& a.len() == b.len()
    &&& forall|i: int|
        0 <= i < a.len() ==> {
            let (x, y) = (#[trigger] a[i], b[i]);
            &&& x.cf == y.cf
            &&& x.steps == y.steps
            &&& x.rows == y.rows
            &&& x.xff.equals(y.xff)
        }
}

impl TargetSeries {
    /// Each image is the one before with one more point recorded.
    pub open spec fn grown(
        self,
        images: Seq<Seq<u8>>,
        points: Seq<(int, Seq<Double>)>,
    ) -> bool {
        &&& images.len() == points.len() + 1
        &&& forall|k: int|
            0 <= k < points.len() ==> self.sized(images[k + 1]) && self.recorded(
                images[k],
                (#[trigger] points[k]).0,
                points[k].1,
                images[k + 1],
            )
    }
}

/// A series opens again with the step, the pings and the archives that it was
/// made with, and with no others, whatever was recorded in it.
pub proof fn a_series_opens_as_it_was_made(
    made: TargetSeries,
    step0: u64,
    pings0: u32,
    specs0: Seq<RraSpec>,
    images: Seq<Seq<u8>>,
    points: Seq<(int, Seq<Double>)>,
    opened: TargetSeries,
    step: u64,
    pings: u32,
    specs: Seq<RraSpec>,
)
    requires
        made.wf(),
        made.of(step0, pings0, specs0),
        made.headed(images[0]),
        made.grown(images, points),
        opened.wf(),
        opened.of(step, pings, specs),
    ensures
        opened.mismatch(images.last()) is None <==> step == step0 && pings == pings0
            && same_specs(specs0, specs),
{
    lemma_stays_headed(made, images, points, points.len() as int);
    let image = images.last();
    let n = made.archives@.len() as int;
    lemma_two_halves(pings0 as int, n);
    if opened.mismatch(image) is None {
        assert(opened.fields == made.fields);
        assert forall|i: int| 0 <= i < specs0.len() implies {
            let (x, y) = (#[trigger] specs0[i], specs[i]);
            &&& x.cf == y.cf
            &&& x.steps == y.steps
            &&& x.rows == y.rows
            &&& x.xff.equals(y.xff)
        } by {
            assert(opened.table_entry(image, i));
            let g = made.archives@[i];
            let h = opened.archives@[i];
            assert(made.header_at(i) == opened.header_at(i));
            lemma_two_halves(g.cf.code() as int, g.steps as int);
        }
    }
    if step == step0 && pings == pings0 && same_specs(specs0, specs) {
        lemma_same_places(made, opened, n);
        assert(opened.sized(image));
        assert forall|i: int| 0 <= i < n implies #[trigger] opened.table_entry(image, i) by {
            let g = made.archives@[i];
            let h = opened.archives@[i];
            assert(specs0[i].cf == specs[i].cf);
            assert(made.header_at(i) == opened.header_at(i));
            lemma_two_halves(g.cf.code() as int, g.steps as int);
        }
    }
}

proof fn lemma_two_halves(low: int, high: int)
    requires
        0 <= low < 0x1_0000_0000,
    ensures
        (low + high * 0x1_0000_0000) % 0x1_0000_0000 == low,
        (low + high * 0x1_0000_0000) / 0x1_0000_0000 == high,
{
    lemma_fundamental_div_mod_converse(
        low + high * 0x1_0000_0000,
        0x1_0000_0000,
        high,
        low,
    );
}

proof fn lemma_stays_headed(
    s: TargetSeries,
    images: Seq<Seq<u8>>,
    points: Seq<(int, Seq<Double>)>,
    k: int,
)
    requires
        s.headed(images[0]),
        s.grown(images, points),
        0 <= k <= points.len(),
    ensures
        s.headed(images[k]),
    decreases k,
{
    if k > 0 {
        lemma_stays_headed(s, images, points, k - 1);
        let p = points[k - 1];
        recording_keeps_an_image_valid(s, images[k - 1], p.0, p.1, images[k]);
    }
}

/// Layouts with the same rows lie in the same places.
proof fn lemma_same_places(s: TargetSeries, t: TargetSeries, k: int)
    requires
        0 <= k <= s.archives@.len(),
        s.archives@.len() == t.archives@.len(),
        s.fields == t.fields,
        forall|i: int|
            0 <= i < s.archives@.len() ==> (#[trigger] s.archives@[i]).rows == t.archives@[i].rows,
    ensures
        s.data_at(k) == t.data_at(k),
    decreases k,
{
    if k > 0 {
        lemma_same_places(s, t, k - 1);
        assert(s.archives@[k - 1].rows == t.archives@[k - 1].rows);
    }
}

/// Once anything was recorded, a point that is not newer than the newest is
/// skipped: the image stays as it is, and with it every answer. Any other point
/// is the newest from there on, so that this time never goes back.
pub proof fn late_points_are_skipped(
    s: TargetSeries,
    before: Seq<u8>,
    ts: int,
    fields: Seq<Double>,
    after: Seq<u8>,
)
    requires
        s.recorded(before, ts, fields, after),
    ensures
        s.begun(after),
        s.begun(before) && aligned(ts, s.step as int) <= s.last(before) ==> {
            &&& after == before
            &&& s.last(after) == s.last(before)
            &&& forall|cf: Cf, from: int, to: int, max_points: u64| #[trigger]
                s.answer(after, cf, from, to, max_points) == s.answer(
                    before,
                    cf,
                    from,
                    to,
                    max_points,
                )
        },
        !s.begun(before) || aligned(ts, s.step as int) > s.last(before) ==> s.last(after)
            == aligned(ts, s.step as int),
        s.begun(before) ==> s.last(after) >= s.last(before),
{
}

/// The first write wins: what comes for a step after it, or for an earlier one,
/// changes nothing.
pub proof fn the_first_write_wins(
    s: TargetSeries,
    before: Seq<u8>,
    ts: int,
    fields: Seq<Double>,
    after: Seq<u8>,
    later: int,
    others: Seq<Double>,
    last: Seq<u8>,
)
    requires
        s.recorded(before, ts, fields, after),
        s.recorded(after, later, others, last),
        aligned(later, s.step as int) <= aligned(ts, s.step as int),
    ensures
        last == after,
{
}

impl TargetSeries {
    /// No archive of single data points is in the middle of a window.
    pub open spec fn rested(self, image: Seq<u8>) -> bool {
        forall|i: int|
            0 <= i < self.archives@.len() && self.archives@[i].steps == 1 ==> (
            #[trigger] self.archive(image, i)).window == EMPTY_WINDOW
    }
}

/// A window of a single data point is written with it, in a new series and
/// ever after.
pub proof fn single_points_are_written_at_once(
    s: TargetSeries,
    before: Seq<u8>,
    ts: int,
    fields: Seq<Double>,
    after: Seq<u8>,
)
    requires
        s.wf(),
        s.recorded(before, ts, fields, after),
        s.rested(before) || forall|i: int|
            0 <= i < s.archives@.len() ==> #[trigger] s.archive(before, i) == s.blank(i),
    ensures
        s.rested(after),
{
    let t = aligned(ts, s.step as int);
    assert forall|i: int| 0 <= i < s.archives@.len() && s.archives@[i].steps == 1 implies (
    #[trigger] s.archive(after, i)).window == EMPTY_WINDOW by {
        assert(s.archive(before, i).window == EMPTY_WINDOW);
        let g = s.archives@[i];
        let p = g.period(s.step);
        assert(p == s.step) by (nonlinear_arith)
            requires
                p == s.step * g.steps,
                g.steps == 1,
        ;
        lemma_fundamental_div_mod(ts, p);
        let q = ts / p;
        assert(t == q * p + 0);
        lemma_fundamental_div_mod_converse(t, p, q, 0);
        assert(aligned(t, p) == t);
        assert(0int / (s.step as int) == 0) by (nonlinear_arith)
            requires
                s.step > 0,
        ;
    }
}

/// Recording writes at most two rows of an archive: that of a window that it
/// completes, and that of one it leaves behind. All others hold what they held.
pub proof fn other_windows_are_left_alone(
    s: TargetSeries,
    before: Seq<u8>,
    ts: int,
    fields: Seq<Double>,
    after: Seq<u8>,
    i: int,
    w: int,
)
    requires
        s.wf(),
        s.recorded(before, ts, fields, after),
        0 <= i < s.archives@.len(),
        ({
            let g = s.archives@[i];
            let p = g.period(s.step);
            let here = slot(w, p, g.rows as int);
            &&& here != slot(aligned(aligned(ts, s.step as int), p), p, g.rows as int)
            &&& here != slot(s.archive(before, i).window, p, g.rows as int)
                || s.archive(before, i).window == EMPTY_WINDOW
        }),
    ensures
        s.archive(after, i).row(s.archives@[i], s.step, s.fields as nat, w) == s.archive(
            before,
            i,
        ).row(s.archives@[i], s.step, s.fields as nat, w),
{
    let g = s.archives@[i];
    let t = aligned(ts, s.step as int);
    lemma_slot_range(g, s.step, w);
    lemma_slot_range(g, s.step, s.archive(before, i).window);
    lemma_slot_range(g, s.step, aligned(t, g.period(s.step)));
    if !(s.begun(before) && t <= s.last(before)) {
        assert(s.archive(after, i) == s.archive(before, i).after(g, s.step, t, fields));
    }
}

/// An archive after the points of consecutive steps from `t` on.
pub open spec fn run(a: Archive, g: Geom, step: u64, t: int, points: Seq<Seq<Double>>) -> Archive
    decreases points.len(),
{
    if points.len() == 0 {
        a
    } else {
        run(a, g, step, t, points.drop_last()).after(
            g,
            step,
            t + (points.len() - 1) * step,
            points.last(),
        )
    }
}

/// A field's accumulator after some points: the known ones, merged in order.
pub open spec fn gathered(cf: Cf, points: Seq<Seq<Double>>, j: int) -> Double
    decreases points.len(),
{
    if points.len() == 0 {
        initial(cf)
    } else {
        let before = gathered(cf, points.drop_last(), j);
        if points.last()[j].nan() {
            before
        } else {
            merged(cf, before, points.last()[j])
        }
    }
}

/// How many of the points know a field.
pub open spec fn known(points: Seq<Seq<Double>>, j: int) -> Double
    decreases points.len(),
{
    if points.len() == 0 {
        Double { bits: 0 }
    } else {
        let before = known(points.drop_last(), j);
        if points.last()[j].nan() {
            before
        } else {
            double::sum(before, Double { bits: ONE_BITS })
        }
    }
}

/// A window that gets its points one after the other is consolidated from
/// them: its row is written with the last one, each field merged from the
/// points that know it, unknown where too few do.
pub proof fn a_full_window_is_consolidated(
    a: Archive,
    g: Geom,
    step: u64,
    w: int,
    fields: nat,
    points: Seq<Seq<Double>>,
)
    requires
        step > 0,
        g.fits(step),
        a.rows.len() == g.rows,
        a.window == EMPTY_WINDOW,
        w > EMPTY_WINDOW,
        w % g.period(step) == 0,
        points.len() == g.steps,
        forall|i: int| 0 <= i < points.len() ==> (#[trigger] points[i]).len() == fields,
    ensures
        ({
            let b = run(a, g, step, w, points);
            &&& b.window == EMPTY_WINDOW
            &&& b.row(g, step, fields, w) == Seq::new(
                fields,
                |j: int| settled(g, gathered(g.cf, points, j), known(points, j)),
            )
        }),
{
    let n = points.len() as int;
    let last = points.drop_last();
    assert forall|i: int| 0 <= i < last.len() implies (#[trigger] last[i]).len() == fields by {
        assert(last[i] == points[i]);
    }
    lemma_window_grows(a, g, step, w, fields, last);
    let b = run(a, g, step, w, last);
    let t = w + (n - 1) * step;
    lemma_in_window(g, step, w, n - 1);
    assert(points[n - 1].len() == fields);
    let p = points.last();
    let ready = if n == 1 {
        b.opened(g.cf, fields, w)
    } else {
        b
    };
    let full = ready.accumulated(g.cf, p);
    assert(run(a, g, step, w, points) == full.finalized(g, step, w).emptied());
    lemma_slot_range(g, step, w);
    assert forall|j: int| 0 <= j < fields implies full.vals[j] == gathered(g.cf, points, j)
        && full.counts[j] == known(points, j) by {
        if n == 1 {
            assert(last.len() == 0);
            assert(gathered(g.cf, last, j) == initial(g.cf));
            assert(known(last, j) == (Double { bits: 0 }));
        }
    }
    assert(full.finalized(g, step, w).emptied().row(g, step, fields, w) == Seq::new(
        fields,
        |j: int| settled(g, gathered(g.cf, points, j), known(points, j)),
    ));
}

proof fn lemma_in_window(g: Geom, step: u64, w: int, k: int)
    requires
        step > 0,
        g.fits(step),
        w % g.period(step) == 0,
        0 <= k < g.steps,
    ensures
        aligned(w + k * step, g.period(step)) == w,
        (w + k * step - w) / (step as int) == k,
{
    let p = g.period(step);
    assert(p > 0) by (nonlinear_arith)
        requires
            p == step * g.steps,
            step > 0,
            g.steps > 0,
    ;
    assert(0 <= k * step < p) by (nonlinear_arith)
        requires
            p == step * g.steps,
            0 <= k < g.steps,
            step > 0,
    ;
    lemma_fundamental_div_mod(w, p);
    let q = w / p;
    assert(w + k * step == q * p + k * step) by (nonlinear_arith)
        requires
            w == p * q + 0,
    ;
    lemma_fundamental_div_mod_converse(w + k * step, p, q, k * step);
    assert(q * p == p * q) by (nonlinear_arith);
    lemma_fundamental_div_mod_converse(k * step, step as int, k, 0);
}

/// A window that is not full yet holds what its points gave.
proof fn lemma_window_grows(
    a: Archive,
    g: Geom,
    step: u64,
    w: int,
    fields: nat,
    points: Seq<Seq<Double>>,
)
    requires
        step > 0,
        g.fits(step),
        a.rows.len() == g.rows,
        a.window == EMPTY_WINDOW,
        w > EMPTY_WINDOW,
        w % g.period(step) == 0,
        points.len() < g.steps,
        forall|i: int| 0 <= i < points.len() ==> (#[trigger] points[i]).len() == fields,
    ensures
        ({
            let b = run(a, g, step, w, points);
            &&& b.rows == a.rows
            &&& points.len() == 0 ==> b == a
            &&& points.len() > 0 ==> b.window == w && b.vals == Seq::new(
                fields,
                |j: int| gathered(g.cf, points, j),
            ) && b.counts == Seq::new(fields, |j: int| known(points, j))
        }),
    decreases points.len(),
{
    let n = points.len() as int;
    if n > 0 {
        let rest = points.drop_last();
        assert forall|i: int| 0 <= i < rest.len() implies (#[trigger] rest[i]).len() == fields by {
            assert(rest[i] == points[i]);
        }
        lemma_window_grows(a, g, step, w, fields, rest);
        lemma_in_window(g, step, w, n - 1);
        assert(points[n - 1].len() == fields);
        let b = run(a, g, step, w, rest);
        let ready = if n == 1 {
            b.opened(g.cf, fields, w)
        } else {
            b
        };
        let full = ready.accumulated(g.cf, points.last());
        assert(run(a, g, step, w, points) == full);
        assert forall|j: int| 0 <= j < fields implies #[trigger] full.vals[j] == gathered(
            g.cf,
            points,
            j,
        ) by {
            if n == 1 {
                assert(gathered(g.cf, rest, j) == initial(g.cf));
            }
        }
        assert forall|j: int| 0 <= j < fields implies #[trigger] full.counts[j] == known(
            points,
            j,
        ) by {
            if n == 1 {
                assert(known(rest, j) == (Double { bits: 0 }));
            }
        }
        assert(full.vals == Seq::new(fields, |j: int| gathered(g.cf, points, j)));
        assert(full.counts == Seq::new(fields, |j: int| known(points, j)));
    }
}

/// The known values of a field, in order.
pub open spec fn known_values(points: Seq<Seq<Double>>, j: int) -> Seq<Double> {
    points.map_values(|p: Seq<Double>| p[j]).filter(|x: Double| !x.nan())
}

/// What a row says of a field of its window's points. Where the known values
/// are fewer than `(1 - xff) * steps`, or none, the field is unknown. Else it is,
/// for MAX, one of them that none is greater than; for MIN, one of them that
/// none is less than; for AVERAGE, their sum over their number.
pub open spec fn consolidates(g: Geom, points: Seq<Seq<Double>>, j: int, v: Double) -> bool {
    let xs = known_values(points, j);
    let zero = Double { bits: 0 };
    let one = Double { bits: ONE_BITS };
    let asked = double::product(
        double::sum(one, double::negated(g.xff)),
        double::of_int(g.steps as nat),
    );
    if xs.len() == 0 || double::of_int(xs.len()).less(asked) {
        v.nan()
    } else {
        match g.cf {
            Cf::Max => xs.contains(v) && forall|i: int|
                0 <= i < xs.len() ==> (#[trigger] xs[i]).value() <= v.value(),
            Cf::Min => xs.contains(v) && forall|i: int|
                0 <= i < xs.len() ==> (#[trigger] xs[i]).value() >= v.value(),
            Cf::Average => (forall|i: int| 0 <= i < xs.len() ==> (#[trigger] xs[i]).finite()) ==> v
                == double::quotient(
                xs.fold_left(zero, |a: Double, b: Double| double::sum(a, b)),
                double::of_int(xs.len()),
            ),
        }
    }
}

/// An archive after points of these times, one after the other.
pub open spec fn fed(
    a: Archive,
    g: Geom,
    step: u64,
    times: Seq<int>,
    points: Seq<Seq<Double>>,
) -> Archive
    decreases times.len(),
{
    if times.len() == 0 {
        a
    } else {
        fed(a, g, step, times.drop_last(), points.drop_last()).after(
            g,
            step,
            times.last(),
            points.last(),
        )
    }
}

/// Times of one window, each a later step than the one before.
pub open spec fn of_window(g: Geom, step: u64, w: int, times: Seq<int>) -> bool {
    &&& forall|k: int|
        0 <= k < times.len() ==> w <= (#[trigger] times[k]) < w + g.period(step) && (times[k] - w)
            % (step as int) == 0
    &&& forall|k: int, l: int|
        0 <= k < l < times.len() ==> (#[trigger] times[k]) < (#[trigger] times[l])
}

/// A window that got its last point says in its row what its points say, those
/// that are missing aside.
pub proof fn a_window_says_what_its_points_say(
    a: Archive,
    g: Geom,
    step: u64,
    w: int,
    fields: nat,
    times: Seq<int>,
    points: Seq<Seq<Double>>,
    j: int,
)
    requires
        step > 0,
        g.fits(step),
        a.rows.len() == g.rows,
        a.window != w,
        w > EMPTY_WINDOW,
        w % g.period(step) == 0,
        times.len() == points.len(),
        times.len() > 0,
        of_window(g, step, w, times),
        times.last() == w + g.period(step) - step,
        forall|i: int| 0 <= i < points.len() ==> (#[trigger] points[i]).len() == fields,
        0 <= j < fields,
    ensures
        ({
            let row = fed(a, g, step, times, points).row(g, step, fields, w);
            &&& row.len() == fields
            &&& consolidates(g, points, j, row[j])
        }),
{
    let n = times.len() as int;
    let early = times.drop_last();
    let rest = points.drop_last();
    lemma_early(g, step, w, fields, times, points);
    lemma_fed(a, g, step, w, fields, early, rest);
    let b = fed(a, g, step, early, rest);
    let t = times.last();
    lemma_place_in_window(g, step, w, t);
    assert(points[n - 1].len() == fields);
    let before = if b.window == EMPTY_WINDOW {
        b
    } else {
        b.finalized(g, step, b.window)
    };
    lemma_slot_range(g, step, b.window);
    let ready = if n == 1 {
        before.opened(g.cf, fields, w)
    } else {
        b
    };
    let full = ready.accumulated(g.cf, points.last());
    assert(fed(a, g, step, times, points) == full.finalized(g, step, w).emptied());
    lemma_slot_range(g, step, w);
    assert(full.rows.len() == g.rows);
    if n == 1 {
        assert(rest.len() == 0);
        assert(gathered(g.cf, rest, j) == initial(g.cf));
        assert(known(rest, j) == (Double { bits: 0 }));
    }
    assert(full.vals[j] == gathered(g.cf, points, j));
    assert(full.counts[j] == known(points, j));
    let row = fed(a, g, step, times, points).row(g, step, fields, w);
    assert(row[j] == settled(g, gathered(g.cf, points, j), known(points, j)));
    lemma_few_points(g, step, w, times);
    lemma_consolidates(g, points, j);
}

/// A window that was left before its last point says in its row what the points
/// say that it got, once a point of another window came.
pub proof fn a_window_that_was_left_says_what_it_got(
    a: Archive,
    g: Geom,
    step: u64,
    w: int,
    fields: nat,
    times: Seq<int>,
    points: Seq<Seq<Double>>,
    next: int,
    point: Seq<Double>,
    j: int,
)
    requires
        step > 0,
        g.fits(step),
        a.rows.len() == g.rows,
        a.window != w,
        w > EMPTY_WINDOW,
        w % g.period(step) == 0,
        times.len() == points.len(),
        times.len() > 0,
        of_window(g, step, w, times),
        times.last() != w + g.period(step) - step,
        forall|i: int| 0 <= i < points.len() ==> (#[trigger] points[i]).len() == fields,
        point.len() == fields,
        aligned(next, g.period(step)) != w,
        slot(aligned(next, g.period(step)), g.period(step), g.rows as int) != slot(
            w,
            g.period(step),
            g.rows as int,
        ),
        0 <= j < fields,
    ensures
        ({
            let b = fed(a, g, step, times.push(next), points.push(point));
            let row = b.row(g, step, fields, w);
            &&& row.len() == fields
            &&& consolidates(g, points, j, row[j])
        }),
{
    lemma_fed(a, g, step, w, fields, times, points);
    let b = fed(a, g, step, times, points);
    assert(times.push(next).drop_last() =~= times);
    assert(points.push(point).drop_last() =~= points);
    let c = b.after(g, step, next, point);
    assert(fed(a, g, step, times.push(next), points.push(point)) == c);
    let x = aligned(next, g.period(step));
    lemma_slot_range(g, step, w);
    lemma_slot_range(g, step, x);
    let kept = b.finalized(g, step, w);
    assert(c.row(g, step, fields, w) == kept.row(g, step, fields, w));
    assert(c.row(g, step, fields, w)[j] == settled(
        g,
        gathered(g.cf, points, j),
        known(points, j),
    ));
    lemma_few_points(g, step, w, times);
    lemma_consolidates(g, points, j);
}

proof fn lemma_early(
    g: Geom,
    step: u64,
    w: int,
    fields: nat,
    times: Seq<int>,
    points: Seq<Seq<Double>>,
)
    requires
        times.len() == points.len(),
        times.len() > 0,
        step > 0,
        of_window(g, step, w, times),
        times.last() == w + g.period(step) - step,
        forall|i: int| 0 <= i < points.len() ==> (#[trigger] points[i]).len() == fields,
    ensures
        of_window(g, step, w, times.drop_last()),
        times.len() > 1 ==> times.drop_last().last() != w + g.period(step) - step,
        forall|i: int|
            0 <= i < points.drop_last().len() ==> (#[trigger] points.drop_last()[i]).len()
                == fields,
{
    let early = times.drop_last();
    assert forall|k: int| 0 <= k < early.len() implies #[trigger] early[k] == times[k] by {}
    assert forall|i: int| 0 <= i < points.drop_last().len() implies (
    #[trigger] points.drop_last()[i]).len() == fields by {
        assert(points.drop_last()[i] == points[i]);
    }
    if times.len() > 1 {
        assert(times[times.len() - 2] < times[times.len() - 1]);
    }
}

proof fn lemma_place_in_window(g: Geom, step: u64, w: int, t: int)
    requires
        step > 0,
        g.fits(step),
        w % g.period(step) == 0,
        w <= t < w + g.period(step),
        (t - w) % (step as int) == 0,
    ensures
        aligned(t, g.period(step)) == w,
        (t - w) / (step as int) == g.steps - 1 <==> t == w + g.period(step) - step,
{
    let p = g.period(step);
    lemma_fundamental_div_mod(w, p);
    let q = w / p;
    assert(q * p == p * q) by (nonlinear_arith);
    lemma_fundamental_div_mod_converse(t, p, q, t - w);
    lemma_fundamental_div_mod(t - w, step as int);
    let k = (t - w) / (step as int);
    let n = g.steps as int;
    assert(k == n - 1 <==> t - w == p - step) by (nonlinear_arith)
        requires
            t - w == step * k,
            p == step * n,
            step > 0,
    ;
}

/// A window that was not closed yet holds what its points gave.
proof fn lemma_fed(
    a: Archive,
    g: Geom,
    step: u64,
    w: int,
    fields: nat,
    times: Seq<int>,
    points: Seq<Seq<Double>>,
)
    requires
        step > 0,
        g.fits(step),
        a.rows.len() == g.rows,
        a.window != w,
        w > EMPTY_WINDOW,
        w % g.period(step) == 0,
        times.len() == points.len(),
        of_window(g, step, w, times),
        times.len() > 0 ==> times.last() != w + g.period(step) - step,
        forall|i: int| 0 <= i < points.len() ==> (#[trigger] points[i]).len() == fields,
    ensures
        ({
            let b = fed(a, g, step, times, points);
            &&& b.rows.len() == g.rows
            &&& times.len() == 0 ==> b == a
            &&& times.len() > 0 ==> b.window == w && b.vals == Seq::new(
                fields,
                |j: int| gathered(g.cf, points, j),
            ) && b.counts == Seq::new(fields, |j: int| known(points, j))
        }),
    decreases times.len(),
{
    let n = times.len() as int;
    if n > 0 {
        let early = times.drop_last();
        let rest = points.drop_last();
        assert forall|k: int| 0 <= k < early.len() implies #[trigger] early[k] == times[k] by {}
        assert forall|i: int| 0 <= i < rest.len() implies (#[trigger] rest[i]).len() == fields by {
            assert(rest[i] == points[i]);
        }
        let t = times[n - 1];
        if n > 1 {
            assert(times[n - 2] < t);
            lemma_place_in_window(g, step, w, times[n - 2]);
            let last = w + g.period(step) - step;
            if times[n - 2] == last {
                lemma_fundamental_div_mod(t - w, step as int);
                let k = (t - w) / (step as int);
                let m = g.steps as int;
                assert(false) by (nonlinear_arith)
                    requires
                        t - w == step * k,
                        step * m - step < t - w < step * m,
                        step > 0,
                ;
            }
        }
        lemma_fed(a, g, step, w, fields, early, rest);
        lemma_place_in_window(g, step, w, t);
        let b = fed(a, g, step, early, rest);
        assert(points[n - 1].len() == fields);
        lemma_slot_range(g, step, b.window);
        let before = if b.window == EMPTY_WINDOW {
            b
        } else {
            b.finalized(g, step, b.window)
        };
        let ready = if n == 1 {
            before.opened(g.cf, fields, w)
        } else {
            b
        };
        let full = ready.accumulated(g.cf, points.last());
        assert(fed(a, g, step, times, points) == full);
        if n == 1 {
            assert forall|j: int| 0 <= j < fields implies gathered(g.cf, rest, j) == initial(g.cf)
                && #[trigger] known(rest, j) == (Double { bits: 0 }) by {}
        }
        assert forall|j: int| 0 <= j < fields implies #[trigger] full.vals[j] == gathered(
            g.cf,
            points,
            j,
        ) by {
            if n == 1 {
                assert(known(rest, j) == (Double { bits: 0 }));
            }
        }
        assert forall|j: int| 0 <= j < fields implies #[trigger] full.counts[j] == known(
            points,
            j,
        ) by {
            if n == 1 {
                assert(known(rest, j) == (Double { bits: 0 }));
            }
        }
        assert(full.vals == Seq::new(fields, |j: int| gathered(g.cf, points, j)));
        assert(full.counts == Seq::new(fields, |j: int| known(points, j)));
    }
}

/// A window has no more points than steps.
proof fn lemma_few_points(g: Geom, step: u64, w: int, times: Seq<int>)
    requires
        step > 0,
        g.fits(step),
        of_window(g, step, w, times),
    ensures
        times.len() <= g.steps,
{
    if times.len() > 0 {
        let n = times.len() as int;
        lemma_spread(g, step, w, times, n - 1);
        let m = g.steps as int;
        assert(n <= m) by (nonlinear_arith)
            requires
                (n - 1) * step <= times[n - 1] - w < step * m,
                step > 0,
        ;
    }
}

proof fn lemma_spread(g: Geom, step: u64, w: int, times: Seq<int>, k: int)
    requires
        step > 0,
        of_window(g, step, w, times),
        0 <= k < times.len(),
    ensures
        times[k] - w >= k * step,
    decreases k,
{
    if k > 0 {
        lemma_spread(g, step, w, times, k - 1);
        assert(times[k - 1] < times[k]);
        let (x, y) = (times[k - 1] - w, times[k] - w);
        lemma_fundamental_div_mod(x, step as int);
        lemma_fundamental_div_mod(y, step as int);
        let (q, r) = (x / (step as int), y / (step as int));
        assert(y >= x + step) by (nonlinear_arith)
            requires
                x == step * q,
                y == step * r,
                x < y,
                step > 0,
        ;
        assert(k * step == (k - 1) * step + step) by (nonlinear_arith);
    } else {
        assert(0 * step == 0);
    }
}

/// The accumulators settle to what the known values say.
proof fn lemma_consolidates(g: Geom, points: Seq<Seq<Double>>, j: int)
    requires
        points.len() <= g.steps,
    ensures
        consolidates(g, points, j, settled(g, gathered(g.cf, points, j), known(points, j))),
{
    let xs = known_values(points, j);
    lemma_known(points, j);
    lemma_gathered(g.cf, points, j);
    double::lemma_of_int(xs.len());
    double::lemma_zero();
    if xs.len() > 0 {
        lemma_pow2_pos(1074);
        let (n, p) = (xs.len(), pow2(1074));
        assert(n * p > 0) by (nonlinear_arith)
            requires
                n > 0,
                p > 0,
        ;
    } else {
        assert(0 * pow2(1074) == 0);
    }
}

proof fn lemma_known(points: Seq<Seq<Double>>, j: int)
    requires
        points.len() <= u32::MAX,
    ensures
        known(points, j) == double::of_int(known_values(points, j).len()),
        known_values(points, j).len() <= points.len(),
    decreases points.len(),
{
    reveal(Seq::filter);
    let f = |p: Seq<Double>| p[j];
    if points.len() == 0 {
        double::lemma_one();
    } else {
        lemma_known(points.drop_last(), j);
        assert(points.map_values(f).drop_last() =~= points.drop_last().map_values(f));
        double::lemma_count_up(known_values(points.drop_last(), j).len());
    }
}

proof fn lemma_gathered(cf: Cf, points: Seq<Seq<Double>>, j: int)
    ensures
        ({
            let xs = known_values(points, j);
            let v = gathered(cf, points, j);
            let finite = forall|i: int| 0 <= i < xs.len() ==> (#[trigger] xs[i]).finite();
            &&& forall|i: int| 0 <= i < xs.len() ==> !(#[trigger] xs[i]).nan()
            &&& xs.len() == 0 ==> v == initial(cf)
            &&& cf == Cf::Max && xs.len() > 0 ==> xs.contains(v) && forall|i: int|
                0 <= i < xs.len() ==> (#[trigger] xs[i]).value() <= v.value()
            &&& cf == Cf::Min && xs.len() > 0 ==> xs.contains(v) && forall|i: int|
                0 <= i < xs.len() ==> (#[trigger] xs[i]).value() >= v.value()
            &&& cf == Cf::Average && finite ==> !v.nan() && v == xs.fold_left(
                Double { bits: 0 },
                |a: Double, b: Double| double::sum(a, b),
            )
        }),
    decreases points.len(),
{
    reveal(Seq::filter);
    reveal_with_fuel(Seq::fold_left, 2);
    let f = |p: Seq<Double>| p[j];
    let test = |x: Double| !x.nan();
    let plus = |a: Double, b: Double| double::sum(a, b);
    let xs = known_values(points, j);
    if points.len() > 0 {
        let rest = points.drop_last();
        lemma_gathered(cf, rest, j);
        assert(points.map_values(f).drop_last() =~= rest.map_values(f));
        let ys = known_values(rest, j);
        let x = points.last()[j];
        let v = gathered(cf, points, j);
        let u = gathered(cf, rest, j);
        if !x.nan() {
            assert(xs == ys.push(x));
            assert(xs[xs.len() - 1] == x);
            assert(xs.drop_last() =~= ys);
            assert forall|i: int| 0 <= i < ys.len() implies #[trigger] xs[i] == ys[i] by {}
            if ys.len() > 0 && cf != Cf::Average {
                let k = choose|k: int| 0 <= k < ys.len() && ys[k] == u;
                assert(xs[k] == u);
                assert(!u.nan());
            }
            if cf == Cf::Average && (forall|i: int|
                0 <= i < xs.len() ==> (#[trigger] xs[i]).finite()) {
                assert forall|i: int| 0 <= i < ys.len() implies (#[trigger] ys[i]).finite() by {
                    assert(xs[i] == ys[i]);
                }
                assert(x.finite());
                lemma_sum_known(u, x);
            }
        }
    }
}

/// A sum with a finite number is known.
proof fn lemma_sum_known(a: Double, b: Double)
    requires
        !a.nan(),
        b.finite(),
    ensures
        !double::sum(a, b).nan(),
{
    if !a.infinite() {
        let s = a.value() + b.value();
        double::lemma_nearest_of(
            (if s < 0 {
                -s
            } else {
                s
            }) as nat,
            1,
        );
    }
}

/// No two archives are chosen for one fetch.
pub proof fn one_archive_is_chosen(
    s: TargetSeries,
    image: Seq<u8>,
    cf: Cf,
    from: int,
    to: int,
    max_points: u64,
    a: int,
    b: int,
)
    requires
        s.chosen(image, cf, from, to, max_points, a),
        s.chosen(image, cf, from, to, max_points, b),
    ensures
        a == b,
{
}

/// A fetch that is answered is answered in one way.
pub proof fn answers_are_unique(
    s: TargetSeries,
    image: Seq<u8>,
    cf: Cf,
    from: int,
    to: int,
    max_points: u64,
    spacing: int,
    points: Seq<(int, Seq<Double>)>,
)
    requires
        s.answers(image, cf, from, to, max_points, spacing, points),
    ensures
        s.answer(image, cf, from, to, max_points) == Some((spacing, points)),
{
    let c = choose|c: int|
        {
            &&& #[trigger] s.able(cf, c)
            &&& s.chosen(image, cf, from, to, max_points, c)
            &&& s.asked(c, from, to, max_points) <= MAX_FETCH_POINTS
            &&& spacing == s.spacing(c, from, to, max_points)
            &&& points == s.points(image, c, from, to, max_points)
        };
    let d = choose|d: int|
        #[trigger] s.able(cf, d) && s.chosen(image, cf, from, to, max_points, d);
    one_archive_is_chosen(s, image, cf, from, to, max_points, c, d);
}

/// A fetch that is refused has no answer.
pub proof fn refusals_have_no_answer(
    s: TargetSeries,
    image: Seq<u8>,
    cf: Cf,
    from: int,
    to: int,
    max_points: u64,
    e: FetchError,
)
    requires
        s.refuses(image, cf, from, to, max_points, e),
    ensures
        s.answer(image, cf, from, to, max_points) is None,
{
    match e {
        FetchError::NoArchive => {},
        FetchError::TooMany(n) => {
            let c = choose|c: int|
                {
                    &&& #[trigger] s.able(cf, c)
                    &&& s.chosen(image, cf, from, to, max_points, c)
                    &&& n == s.asked(c, from, to, max_points)
                    &&& n > MAX_FETCH_POINTS
                };
            let d = choose|d: int|
                #[trigger] s.able(cf, d) && s.chosen(image, cf, from, to, max_points, d);
            one_archive_is_chosen(s, image, cf, from, to, max_points, c, d);
        },
    }
}

/// Where an answer comes from. It is one archive, of the function that was asked
/// for or of single points. Every point is the row of its time there, in steps of
/// one spacing from the row of `from` on, and with no budget no row is passed
/// over. Of the archives that serve, stay within the budget and still hold the
/// row of `from`, it is one of the finest; where there is none, it is one of the
/// coarsest that stay within the budget or, where none does, of all that serve.
pub proof fn an_answer_comes_from_the_right_archive(
    s: TargetSeries,
    image: Seq<u8>,
    cf: Cf,
    from: int,
    to: int,
    max_points: u64,
    spacing: int,
    points: Seq<(int, Seq<Double>)>,
)
    requires
        s.wf(),
        from <= to,
        s.answers(image, cf, from, to, max_points, spacing, points),
    ensures
        ({
            let serves = |i: int|
                0 <= i < s.archives@.len() && (s.archives@[i].cf == cf || s.archives@[i].steps
                    == 1);
            let slim = |i: int|
                max_points == 0 || (to - from) / (s.step * s.archives@[i].steps) <= max_points;
            let held = |i: int|
                {
                    let p = s.step * s.archives@[i].steps;
                    !s.begun(image) || (s.last(image) / p) - (from / p) < s.archives@[i].rows
                };
            exists|c: int|
                {
                    let g = s.archives@[c];
                    let p = s.step * g.steps;
                    &&& #[trigger] serves(c)
                    &&& forall|k: int|
                        0 <= k < points.len() ==> {
                            &&& (#[trigger] points[k]).0 == (from / p) * p + k * spacing
                            &&& points[k].1 == s.archive(image, c).row(
                                g,
                                s.step,
                                s.fields as nat,
                                points[k].0,
                            )
                        }
                    &&& spacing >= p
                    &&& spacing % p == 0
                    &&& max_points == 0 ==> spacing == p
                    &&& (exists|d: int| #[trigger] serves(d) && slim(d) && held(d)) ==> {
                        &&& slim(c) && held(c)
                        &&& forall|d: int|
                            #[trigger] serves(d) && slim(d) && held(d) ==> g.steps
                                <= s.archives@[d].steps
                    }
                    &&& !(exists|d: int| #[trigger] serves(d) && slim(d) && held(d)) && (exists|
                        d: int,
                    | #[trigger] serves(d) && slim(d)) ==> {
                        &&& slim(c)
                        &&& forall|d: int|
                            #[trigger] serves(d) && slim(d) ==> g.steps >= s.archives@[d].steps
                    }
                    &&& !(exists|d: int| #[trigger] serves(d) && slim(d)) ==> forall|d: int|
                        #[trigger] serves(d) ==> g.steps >= s.archives@[d].steps
                }
        }),
{
    let serves = |i: int|
        0 <= i < s.archives@.len() && (s.archives@[i].cf == cf || s.archives@[i].steps == 1);
    let slim = |i: int|
        max_points == 0 || (to - from) / (s.step * s.archives@[i].steps) <= max_points;
    let held = |i: int|
        {
            let p = s.step * s.archives@[i].steps;
            !s.begun(image) || (s.last(image) / p) - (from / p) < s.archives@[i].rows
        };
    assert forall|i: int| #[trigger] s.able(cf, i) == serves(i) by {}
    assert forall|i: int| serves(i) implies #[trigger] s.within(i, from, to, max_points) == slim(
        i,
    ) by {
        lemma_period(s, i);
        if from == to {
            lemma_basic_div(0, s.archives@[i].period(s.step));
        }
    }
    assert forall|i: int| serves(i) implies #[trigger] s.covers(image, i, from) == held(i) by {
        lemma_period(s, i);
        let g = s.archives@[i];
        let p = g.period(s.step);
        let (a, b, r) = (from / p, s.last(image) / p, g.rows as int);
        assert(a * p >= b * p - (r - 1) * p <==> b - a < r) by (nonlinear_arith)
            requires
                p > 0,
        ;
    }
    assert forall|i: int| #[trigger] s.ideal(image, cf, from, to, max_points, i) == (serves(i)
        && slim(i) && held(i)) by {
        assert(s.able(cf, i) == serves(i));
        if serves(i) {
            assert(s.within(i, from, to, max_points) == slim(i));
            assert(s.covers(image, i, from) == held(i));
        }
    }
    assert forall|i: int| #[trigger] s.passable(cf, from, to, max_points, i) == (serves(i) && slim(
        i,
    )) by {
        assert(s.able(cf, i) == serves(i));
        if serves(i) {
            assert(s.within(i, from, to, max_points) == slim(i));
        }
    }
    let c = choose|c: int|
        {
            &&& #[trigger] s.able(cf, c)
            &&& s.chosen(image, cf, from, to, max_points, c)
            &&& s.asked(c, from, to, max_points) <= MAX_FETCH_POINTS
            &&& spacing == s.spacing(c, from, to, max_points)
            &&& points == s.points(image, c, from, to, max_points)
        };
    assert(serves(c));
    lemma_period(s, c);
    let g = s.archives@[c];
    let p = g.period(s.step);
    let st = stride(from, to, p, max_points);
    assert(st >= 1) by {
        let n = row_count(from, to, p);
        if max_points > 0 && n > max_points {
            lemma_div_up(n, max_points as int);
        }
    }
    assert(p * st >= p && (p * st) % p == 0) by {
        assert(p * st >= p) by (nonlinear_arith)
            requires
                st >= 1,
                p > 0,
        ;
        lemma_mod_multiples_basic(st, p);
        assert(st * p == p * st) by (nonlinear_arith);
    }
    assert(p * 1 == p);
    if exists|d: int| #[trigger] serves(d) && slim(d) && held(d) {
        let d = choose|d: int| #[trigger] serves(d) && slim(d) && held(d);
        assert(s.ideal(image, cf, from, to, max_points, d));
        assert(s.ideal(image, cf, from, to, max_points, c));
        assert forall|d: int| #[trigger] serves(d) && slim(d) && held(d) implies g.steps
            <= s.archives@[d].steps by {
            assert(s.ideal(image, cf, from, to, max_points, d));
        }
    } else {
        assert(forall|j: int| !#[trigger] s.ideal(image, cf, from, to, max_points, j));
        if exists|d: int| #[trigger] serves(d) && slim(d) {
            let d = choose|d: int| #[trigger] serves(d) && slim(d);
            assert(s.passable(cf, from, to, max_points, d));
            assert(s.passable(cf, from, to, max_points, c));
            assert forall|d: int| #[trigger] serves(d) && slim(d) implies g.steps
                >= s.archives@[d].steps by {
                assert(s.passable(cf, from, to, max_points, d));
            }
        } else {
            assert(forall|j: int| !#[trigger] s.passable(cf, from, to, max_points, j));
            assert forall|d: int| #[trigger] serves(d) implies g.steps
                >= s.archives@[d].steps by {
                assert(s.able(cf, d));
            }
        }
    }
}

/// An answer keeps the budget: never more points than were asked for, nor
/// more than a fetch may return. The points are evenly spaced, from the row of
/// `from` on, and none lies beyond `to`.
pub proof fn answers_keep_the_budget(
    s: TargetSeries,
    image: Seq<u8>,
    cf: Cf,
    from: int,
    to: int,
    max_points: u64,
    spacing: int,
    points: Seq<(int, Seq<Double>)>,
    k: int,
)
    requires
        s.wf(),
        s.alignable(from),
        from <= to <= i64::MAX,
        s.answers(image, cf, from, to, max_points, spacing, points),
        0 <= k < points.len(),
    ensures
        max_points > 0 ==> points.len() <= max_points,
        points.len() <= MAX_FETCH_POINTS,
        points[k].0 == points[0].0 + k * spacing,
        points[0].0 <= from,
        points[k].0 <= to,
{
    let c = choose|c: int|
        {
            &&& #[trigger] s.able(cf, c)
            &&& s.chosen(image, cf, from, to, max_points, c)
            &&& s.asked(c, from, to, max_points) <= MAX_FETCH_POINTS
            &&& spacing == s.spacing(c, from, to, max_points)
            &&& points == s.points(image, c, from, to, max_points)
        };
    let g = s.archives@[c];
    let p = g.period(s.step);
    lemma_period(s, c);
    let start = aligned(from, p);
    let end = aligned(to, p);
    lemma_aligned_order(from, to, p);
    lemma_aligned_near(from, p);
    lemma_aligned_near(to, p);
    let a = from / p;
    let b = to / p;
    assert(end - start == (b - a) * p) by (nonlinear_arith)
        requires
            end == b * p,
            start == a * p,
    ;
    lemma_fundamental_div_mod_converse(end - start, p, b - a, 0);
    let n = row_count(from, to, p);
    assert(n == b - a + 1);
    assert(b >= a) by {
        lemma_div_is_ordered(from, to, p);
    }
    let st = stride(from, to, p, max_points);
    if max_points > 0 && n > max_points {
        lemma_div_up(n, max_points as int);
        lemma_div_up_reaches(n, max_points as int);
    }
    lemma_fundamental_div_mod(n - 1, st);
    lemma_mod_bound(n - 1, st);
    let q = (n - 1) / st;
    let m = (n - 1) % st;
    assert((n - 1) * p == q * (p * st) + m * p) by (nonlinear_arith)
        requires
            n - 1 == st * q + m,
    ;
    assert(0 <= m * p < p * st) by (nonlinear_arith)
        requires
            0 <= m < st,
            p > 0,
    ;
    lemma_fundamental_div_mod_converse(end - start, p * st, q, m * p);
    assert(points.len() == q + 1);
    assert(0 * spacing == 0);
    assert(k * spacing <= q * spacing) by (nonlinear_arith)
        requires
            k <= q,
            spacing == p * st,
            p > 0,
            st > 0,
    ;
    assert(q + 1 == div_up(n, st)) by {
        assert(n + st - 1 == (q + 1) * st + m) by (nonlinear_arith)
            requires
                n - 1 == st * q + m,
        ;
        lemma_fundamental_div_mod_converse(n + st - 1, st, q + 1, m);
    }
    if max_points > 0 && n > max_points {
        assert(q + 1 <= max_points) by (nonlinear_arith)
            requires
                n - 1 == st * q + m,
                0 <= m,
                st * max_points >= n,
                st > 0,
        ;
    }
}

/// So many times `b` reach `a`.
proof fn lemma_div_up_reaches(a: int, b: int)
    requires
        a > 0,
        b > 0,
    ensures
        div_up(a, b) * b >= a,
{
    let n = a + b - 1;
    lemma_fundamental_div_mod(n, b);
    lemma_mod_bound(n, b);
    let q = n / b;
    assert(q * b == b * q) by (nonlinear_arith);
}

pub proof fn lemma_aligned_near(t: int, p: int)
    requires
        p > 0,
    ensures
        aligned(t, p) <= t < aligned(t, p) + p,
{
    lemma_fundamental_div_mod(t, p);
    lemma_mod_bound(t, p);
    let q = t / p;
    assert(q * p == p * q) by (nonlinear_arith);
}

/// The start of a period is a whole number of periods.
pub proof fn lemma_whole_periods(t: int, p: int)
    requires
        p > 0,
    ensures
        aligned(t, p) % p == 0,
        aligned(aligned(t, p), p) == aligned(t, p),
{
    lemma_fundamental_div_mod_converse(aligned(t, p), p, t / p, 0);
}

/// The start of a period of several steps is that of its first step.
pub proof fn lemma_nested(t: int, step: int, k: int)
    requires
        step > 0,
        k > 0,
    ensures
        aligned(aligned(t, step), step * k) == aligned(t, step * k),
{
    let p = step * k;
    assert(p > 0) by (nonlinear_arith)
        requires
            p == step * k,
            step > 0,
            k > 0,
    ;
    lemma_aligned_near(t, step);
    lemma_aligned_near(t, p);
    let a = t / step;
    let q = t / p;
    let b = q * k;
    assert(q * p == b * step) by (nonlinear_arith)
        requires
            p == step * k,
            b == q * k,
    ;
    assert(b <= a) by (nonlinear_arith)
        requires
            b * step < a * step + step,
            step > 0,
    ;
    assert(b * step <= a * step) by (nonlinear_arith)
        requires
            b <= a,
            step > 0,
    ;
    lemma_fundamental_div_mod_converse(a * step, p, q, a * step - q * p);
}

/// What comes later is no harder to align.
pub proof fn lemma_alignable_after(s: TargetSeries, a: int, b: int)
    requires
        s.wf(),
        s.alignable(a),
        a <= b,
    ensures
        s.alignable(b),
        i64::MIN <= a,
{
    lemma_aligned_near(a, s.step as int);
    lemma_aligned_order(a, b, s.step as int);
    assert forall|i: int| 0 <= i < s.archives@.len() implies i64::MIN <= aligned(
        b,
        (#[trigger] s.archives@[i]).period(s.step),
    ) by {
        lemma_period(s, i);
        lemma_aligned_order(a, b, s.archives@[i].period(s.step));
    }
}

/// Times since the epoch can be aligned, and many before it.
pub proof fn lemma_alignable(s: TargetSeries, t: int)
    requires
        s.wf(),
        t >= i64::MIN + HORIZON,
    ensures
        s.alignable(t),
{
    lemma_aligned_near(t, s.step as int);
    assert forall|i: int| 0 <= i < s.archives@.len() implies i64::MIN <= aligned(
        t,
        (#[trigger] s.archives@[i]).period(s.step),
    ) by {
        lemma_period(s, i);
        lemma_aligned_near(t, s.archives@[i].period(s.step));
    }
}

/// From one period's start to another's it is a whole number of periods.
pub proof fn lemma_steps_between(a: int, b: int, p: int)
    requires
        p > 0,
    ensures
        aligned(a, p) + ((aligned(b, p) - aligned(a, p)) / p) * p == aligned(b, p),
        (aligned(b, p) - aligned(a, p)) / p == b / p - a / p,
{
    let x = a / p;
    let y = b / p;
    assert(y * p - x * p == (y - x) * p) by (nonlinear_arith);
    lemma_fundamental_div_mod_converse(aligned(b, p) - aligned(a, p), p, y - x, 0);
}

/// How many rows there are from one time to a later one.
pub proof fn lemma_rows_between(from: int, to: int, p: int)
    requires
        p > 0,
        i64::MIN <= aligned(from, p),
        from <= to <= i64::MAX,
    ensures
        row_count(from, to, p) == to / p - from / p + 1,
        row_count(from, to, p) >= 1,
{
    lemma_aligned_order(from, to, p);
    lemma_aligned_near(from, p);
    lemma_aligned_near(to, p);
    lemma_steps_between(from, to, p);
    lemma_div_is_ordered(from, to, p);
}

/// A span has no more whole periods than rows.
pub proof fn lemma_span_in_rows(from: int, to: int, p: int)
    requires
        p > 0,
        i64::MIN <= aligned(from, p),
        from <= to <= i64::MAX,
    ensures
        (to - from) / p <= row_count(from, to, p),
{
    lemma_rows_between(from, to, p);
    lemma_aligned_near(from, p);
    lemma_aligned_near(to, p);
    let x = from / p;
    let y = to / p;
    let d = to - from;
    lemma_fundamental_div_mod(d, p);
    lemma_mod_bound(d, p);
    let q = d / p;
    assert(q <= y - x + 1) by (nonlinear_arith)
        requires
            d == p * q + d % p,
            d % p >= 0,
            d < (y * p + p) - x * p,
            p > 0,
    ;
}

proof fn lemma_period(s: TargetSeries, c: int)
    requires
        s.wf(),
        0 <= c < s.archives@.len(),
    ensures
        0 < s.archives@[c].period(s.step) <= HORIZON,
{
    let g = s.archives@[c];
    let p = g.period(s.step);
    let r = g.rows;
    assert(g.fits(s.step));
    assert(0 < p) by (nonlinear_arith)
        requires
            s.step > 0,
            g.steps > 0,
            p == s.step * g.steps,
    ;
    assert(p <= HORIZON) by (nonlinear_arith)
        requires
            r * p <= HORIZON,
            r >= 1,
            p >= 0,
    ;
}

/// A field of which nothing is known is unknown, whatever share an archive may
/// lack.
pub proof fn what_nothing_is_known_of_is_unknown(g: Geom, v: Double)
    ensures
        settled(g, v, Double { bits: 0 }).nan(),
{
    let zero = Double { bits: 0 };
    assert(zero.equals(zero));
    assert((Double { bits: NAN_BITS }).nan());
}

} // verus!
