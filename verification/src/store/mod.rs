//! Round-robin storage with multi-resolution consolidation, one series per
//! target. See series.rs for the format.
use crate::double::{Double, NAN_BITS};
use crate::probe;
use crate::probe::RoundResult;
use crate::store::series::{
    FetchError, Mismatch, TargetSeries,
};
use crate::text;
use crate::text::{
    chars_of, is_alphanumeric_char, quoted, same, split_text, to_lower,
};
use vstd::arithmetic::power2::*;
use vstd::prelude::*;
use vstd::string::*;

pub mod series;

verus! {

/// Consolidation function.
#[derive(Clone, Copy, Debug, PartialEq, Eq, Structural)]
pub enum Cf {
    Average,
    Min,
    Max,
}

/// The consolidation function that a name stands for, in any case.
pub open spec fn cf_of(s: Seq<char>) -> Option<Cf> {
    let t = text::lowercased(s);
    if t == "average"@ || t == "avg"@ {
        Some(Cf::Average)
    } else if t == "min"@ {
        Some(Cf::Min)
    } else if t == "max"@ {
        Some(Cf::Max)
    } else {
        None
    }
}

impl Cf {
    pub open spec fn code(self) -> u32 {
        match self {
            Cf::Average => 0,
            Cf::Min => 1,
            Cf::Max => 2,
        }
    }

    pub fn as_u32(self) -> (r: u32)
        ensures
            r == self.code(),
    {
        match self {
            Cf::Average => 0,
            Cf::Min => 1,
            Cf::Max => 2,
        }
    }

    /// The function that a name stands for (average|avg|min|max).
    pub fn from_str(s: &str) -> (r: Option<Cf>)
        ensures
            r == cf_of(s@),
    {
        let t = to_lower(s);
        if same(t.as_str(), "average") || same(t.as_str(), "avg") {
            Some(Cf::Average)
        } else if same(t.as_str(), "min") {
            Some(Cf::Min)
        } else if same(t.as_str(), "max") {
            Some(Cf::Max)
        } else {
            None
        }
    }
}

/// One round-robin archive definition.
#[derive(Clone, Copy, Debug, PartialEq, Eq, Structural)]
pub struct RraSpec {
    pub cf: Cf,
    /// Primary data points consolidated into one row.
    pub steps: u32,
    pub rows: u64,
    /// Max fraction of a window that may be unknown before the row is too.
    pub xff: Double,
}

pub const HALF_BITS: u64 = 0x3fe0_0000_0000_0000;

pub fn default_xff() -> (r: Double)
    ensures
        r.bits == HALF_BITS,
{
    Double { bits: HALF_BITS }
}

pub open spec fn rra(cf: Cf, steps: u32, rows: u64) -> RraSpec {
    RraSpec { cf, steps, rows, xff: Double { bits: HALF_BITS } }
}

/// The default consolidation table (assumes step 300):
/// raw for 3.5 days, hourly for 180 days, half-daily for a year.
pub open spec fn stock_rras() -> Seq<RraSpec> {
    seq![
        rra(Cf::Average, 1, 1008),
        rra(Cf::Average, 12, 4320),
        rra(Cf::Min, 12, 4320),
        rra(Cf::Max, 12, 4320),
        rra(Cf::Average, 144, 720),
        rra(Cf::Min, 144, 720),
        rra(Cf::Max, 144, 720),
    ]
}

/// The default consolidation table.
pub fn default_rras() -> (r: Vec<RraSpec>)
    ensures
        r@ == stock_rras(),
{
    let xff = default_xff();
    let mut r: Vec<RraSpec> = Vec::new();
    r.push(RraSpec { cf: Cf::Average, steps: 1, rows: 1008, xff });
    r.push(RraSpec { cf: Cf::Average, steps: 12, rows: 4320, xff });
    r.push(RraSpec { cf: Cf::Min, steps: 12, rows: 4320, xff });
    r.push(RraSpec { cf: Cf::Max, steps: 12, rows: 4320, xff });
    r.push(RraSpec { cf: Cf::Average, steps: 144, rows: 720, xff });
    r.push(RraSpec { cf: Cf::Min, steps: 144, rows: 720, xff });
    r.push(RraSpec { cf: Cf::Max, steps: 144, rows: 720, xff });
    r
}

/// What is wrong with a target path.
#[derive(Clone, Copy, Debug, PartialEq, Eq, Structural)]
pub enum PathError {
    Empty,
    /// An empty component, `.` or `..`.
    BadComponent,
    /// Something other than letters, digits, '_', '-', '.' and '@'.
    BadCharacter,
}

pub open spec fn path_char(c: char) -> bool {
    text::is_alphanumeric(c) || c == '_' || c == '-' || c == '.' || c == '@'
}

/// What is said of a refused path.
pub open spec fn path_text(path: Seq<char>, e: PathError) -> Seq<char> {
    match e {
        PathError::Empty => "empty target path"@,
        PathError::BadComponent => "invalid target path "@ + text::debug_form(path),
        PathError::BadCharacter => "invalid target path "@ + text::debug_form(path)
            + ": name components may only contain letters, digits, '_', '-' and '.'"@,
    }
}

pub fn path_message(path: &str, e: PathError) -> (r: String)
    ensures
        r@ == path_text(path@, e),
{
    let mut m = "invalid target path ".to_owned();
    m.append(quoted(path).as_str());
    match e {
        PathError::Empty => "empty target path".to_owned(),
        PathError::BadComponent => m,
        PathError::BadCharacter => {
            m.append(": name components may only contain letters, digits, '_', '-' and '.'");
            m
        },
    }
}

/// What is wrong with one component of a path.
pub open spec fn component_error(comp: Seq<char>) -> Option<PathError> {
    if comp.len() == 0 || comp == "."@ || comp == ".."@ {
        Some(PathError::BadComponent)
    } else if exists|i: int| 0 <= i < comp.len() && !path_char(#[trigger] comp[i]) {
        Some(PathError::BadCharacter)
    } else {
        None
    }
}

/// What is wrong with the first bad one of the components.
pub open spec fn components_error(comps: Seq<Seq<char>>) -> Option<PathError>
    decreases comps.len(),
{
    if comps.len() == 0 {
        None
    } else if components_error(comps.drop_last()) is Some {
        components_error(comps.drop_last())
    } else {
        component_error(comps.last())
    }
}

/// What is wrong with a target path, from its first bad component.
pub open spec fn path_error(path: Seq<char>) -> Option<PathError> {
    if path.len() == 0 {
        Some(PathError::Empty)
    } else {
        components_error(text::split(path, '/'))
    }
}

fn check_component(comp: &str) -> (r: Option<PathError>)
    ensures
        r == component_error(comp@),
{
    let v = chars_of(comp);
    if v.len() == 0 || same(comp, ".") || same(comp, "..") {
        return Some(PathError::BadComponent);
    }
    let mut i: usize = 0;
    while i < v.len()
        invariant
            v@ == comp@,
            v@.len() > 0,
            comp@ != "."@,
            comp@ != ".."@,
            i <= v@.len(),
            forall|j: int| 0 <= j < i ==> path_char(#[trigger] v@[j]),
        decreases v@.len() - i,
    {
        let c = v[i];
        if !(is_alphanumeric_char(c) || c == '_' || c == '-' || c == '.' || c == '@') {
            assert(!path_char(comp@[i as int]));
            return Some(PathError::BadCharacter);
        }
        i = i + 1;
    }
    None
}

/// Target paths become file paths, so keep them boring.
/// '@' appears only in agent series keys ("path@agent").
pub fn validate_target_path(path: &str) -> (r: Result<(), PathError>)
    ensures
        r is Ok <==> path_error(path@) is None,
        r matches Err(e) ==> path_error(path@) == Some(e),
{
    let comps = split_text(path, '/');
    if chars_of(path).len() == 0 {
        return Err(PathError::Empty);
    }
    let ghost all = text::texts(comps@);
    let mut i: usize = 0;
    assert(all.take(0) == Seq::<Seq<char>>::empty());
    while i < comps.len()
        invariant
            all == text::texts(comps@),
            i <= comps@.len(),
            components_error(all.take(i as int)) is None,
            all == text::split(path@, '/'),
            path@.len() > 0,
        decreases comps@.len() - i,
    {
        assert(all.take(i + 1).drop_last() == all.take(i as int));
        assert(all.take(i + 1).last() == comps@[i as int]@);
        match check_component(comps[i].as_str()) {
            Some(e) => {
                proof {
                    lemma_first_error(all, i + 1);
                }
                return Err(e);
            },
            None => {},
        }
        i = i + 1;
    }
    assert(all.take(i as int) == all);
    Ok(())
}

proof fn lemma_first_error(comps: Seq<Seq<char>>, k: int)
    requires
        0 <= k <= comps.len(),
        components_error(comps.take(k)) is Some,
    ensures
        components_error(comps) == components_error(comps.take(k)),
    decreases comps.len() - k,
{
    if k < comps.len() {
        assert(comps.drop_last().take(k) == comps.take(k));
        lemma_first_error(comps.drop_last(), k);
    } else {
        assert(comps.take(k) == comps);
    }
}

/// The name of a series' file.
pub open spec fn series_name(name: Seq<char>) -> Seq<char> {
    name + ".dab"@
}

/// The components of the path of a target's file.
pub open spec fn file_components(target: Seq<char>) -> Seq<Seq<char>> {
    let comps = text::split(target, '/');
    comps.update(comps.len() - 1, series_name(comps.last()))
}

/// One point of a series.
#[derive(Debug)]
pub struct Point {
    pub ts: i64,
    pub loss: Double,
    pub median: Double,
    /// Sorted per-round RTTs (the smoke). NaN-padded.
    pub pings: Vec<Double>,
}

/// The first known value.
pub open spec fn first_known(s: Seq<Double>) -> Double
    decreases s.len(),
{
    if s.len() == 0 {
        Double { bits: NAN_BITS }
    } else if !s[0].nan() {
        s[0]
    } else {
        first_known(s.drop_first())
    }
}

/// The last known value.
pub open spec fn last_known(s: Seq<Double>) -> Double
    decreases s.len(),
{
    if s.len() == 0 {
        Double { bits: NAN_BITS }
    } else if !s.last().nan() {
        s.last()
    } else {
        last_known(s.drop_last())
    }
}

impl Point {
    /// The point as a time and its fields.
    pub open spec fn raw(self) -> (int, Seq<Double>) {
        (self.ts as int, seq![self.loss, self.median] + self.pings@)
    }

    /// The fastest of the round's replies, NaN where there is none.
    pub fn smoke_min(&self) -> (r: Double)
        ensures
            r == first_known(self.pings@),
    {
        let mut i: usize = 0;
        assert(self.pings@.skip(0) == self.pings@);
        while i < self.pings.len()
            invariant
                i <= self.pings@.len(),
                first_known(self.pings@) == first_known(self.pings@.skip(i as int)),
            decreases self.pings@.len() - i,
        {
            assert(self.pings@.skip(i as int).drop_first() == self.pings@.skip(i + 1));
            if !self.pings[i].is_nan() {
                return self.pings[i];
            }
            i = i + 1;
        }
        Double { bits: NAN_BITS }
    }

    /// The slowest of the round's replies, NaN where there is none.
    pub fn smoke_max(&self) -> (r: Double)
        ensures
            r == last_known(self.pings@),
    {
        let mut i: usize = self.pings.len();
        assert(self.pings@.take(i as int) == self.pings@);
        while i > 0
            invariant
                i <= self.pings@.len(),
                last_known(self.pings@) == last_known(self.pings@.take(i as int)),
            decreases i,
        {
            assert(self.pings@.take(i as int).drop_last() == self.pings@.take(i - 1));
            if !self.pings[i - 1].is_nan() {
                return self.pings[i - 1];
            }
            i = i - 1;
        }
        Double { bits: NAN_BITS }
    }
}

/// The answer to a fetch.
#[derive(Debug)]
pub struct Fetched {
    /// Seconds per returned point.
    pub period: u64,
    pub points: Vec<Point>,
}

/// The period, and each point as a time and its fields.
impl View for Fetched {
    type V = (int, Seq<(int, Seq<Double>)>);

    open spec fn view(&self) -> (int, Seq<(int, Seq<Double>)>) {
        (self.period as int, Seq::new(self.points@.len(), |k: int| self.points@[k].raw()))
    }
}

/// Why a round is not stored or data not fetched.
#[derive(Clone, Copy, Debug, PartialEq, Eq, Structural)]
pub enum StoreError {
    /// The round started before the epoch.
    BeforeEpoch,
    Path(PathError),
    /// Nothing was ever recorded for the target.
    NoData,
    Fetch(FetchError),
}

/// How rounds are stored: the layout that every target's series has.
#[derive(Debug)]
pub struct Store {
    pub pings: u32,
    pub layout: TargetSeries,
}

/// What is stored of a round: loss, median and the sorted RTTs in seconds,
/// cut or padded with NaN to `pings`.
pub open spec fn round_fields(r: RoundResult, pings: nat) -> Seq<Double> {
    let rtts = probe::sorted(r.rtts@);
    seq![
        r.loss(),
        match r.middle() {
            Some(d) => d.secs(),
            None => Double { bits: NAN_BITS },
        },
    ] + Seq::new(
        pings,
        |i: int|
            if i < rtts.len() {
                rtts[i].secs()
            } else {
                Double { bits: NAN_BITS }
            },
    )
}

impl Store {
    pub open spec fn wf(self) -> bool {
        &&& self.layout.wf()
        &&& self.layout.fields == self.pings + 2
    }

    /// A store for series of this shape.
    pub fn open(step: u64, pings: u32, specs: &Vec<RraSpec>) -> (s: Store)
        requires
            series::layout_fits(step, pings, specs@),
        ensures
            s.wf(),
            s.pings == pings,
            s.layout.of(step, pings, specs@),
    {
        Store { pings, layout: TargetSeries::new(step, pings, specs) }
    }

    /// A new series, nothing recorded.
    pub fn create(&self) -> (image: Vec<u8>)
        requires
            self.wf(),
        ensures
            self.layout.sized(image@),
            self.layout.last(image@) == 0,
            !self.layout.begun(image@),
            forall|i: int|
                0 <= i < self.layout.archives@.len() ==> #[trigger] self.layout.archive(image@, i)
                    == self.layout.blank(i),
            self.layout.headed(image@),
    {
        self.layout.init_headers()
    }

    /// Whether an existing series has the store's shape.
    pub fn check(&self, image: &[u8]) -> (r: Result<(), Mismatch>)
        requires
            self.wf(),
        ensures
            r is Ok <==> self.layout.mismatch(image@) is None,
            r matches Err(e) ==> self.layout.mismatch(image@) == Some(e),
    {
        match self.layout.validate_headers(image) {
            Some(e) => Err(e),
            None => Ok(()),
        }
    }

    /// Records a round in its target's series.
    pub fn record(&self, image: &mut [u8], r: &RoundResult) -> (res: Result<(), StoreError>)
        requires
            self.wf(),
            self.layout.sized(old(image)@),
            r.wf(),
        ensures
            self.layout.sized(final(image)@),
            match r.start_secs() {
                None => res == Err::<(), StoreError>(StoreError::BeforeEpoch) && final(image)@
                    == old(image)@,
                Some(ts) => match path_error(r.target@) {
                    Some(e) => res == Err::<(), StoreError>(StoreError::Path(e)) && final(image)@
                        == old(image)@,
                    None => res is Ok && self.layout.recorded(
                        old(image)@,
                        ts as int,
                        round_fields(*r, self.pings as nat),
                        final(image)@,
                    ),
                },
            },
    {
        if r.started.is_none() {
            return Err(StoreError::BeforeEpoch);
        }
        match validate_target_path(r.target.as_str()) {
            Err(e) => {
                return Err(StoreError::Path(e));
            },
            Ok(()) => {},
        }
        let ts: i64 = r.started_secs();
        let fields = self.fields_of(r);
        proof {
            series::lemma_alignable(self.layout, ts as int);
        }
        self.layout.record(image, ts, fields.as_slice());
        Ok(())
    }

    fn fields_of(&self, r: &RoundResult) -> (fields: Vec<Double>)
        requires
            r.wf(),
            self.pings + 2 <= usize::MAX,
        ensures
            fields@ == round_fields(*r, self.pings as nat),
    {
        let n: usize = self.pings as usize;
        let mut fields: Vec<Double> = Vec::new();
        fields.push(r.loss_pct());
        fields.push(
            match r.median() {
                Some(d) => d.as_secs_f64(),
                None => Double { bits: NAN_BITS },
            },
        );
        let rtts = r.sorted_rtts();
        let ghost want = round_fields(*r, self.pings as nat);
        let mut i: usize = 0;
        while i < n
            invariant
                i <= n,
                n == self.pings,
                n + 2 <= usize::MAX,
                rtts@ == probe::sorted(r.rtts@),
                want == round_fields(*r, self.pings as nat),
                fields@.len() == i + 2,
                fields@ == want.take(i + 2),
            decreases n - i,
        {
            let v = if i < rtts.len() {
                rtts[i].as_secs_f64()
            } else {
                Double { bits: NAN_BITS }
            };
            assert(v == want[i + 2]);
            fields.push(v);
            assert(fields@ == want.take(i + 3));
            i = i + 1;
        }
        assert(want.take(n + 2) == want);
        fields
    }

    /// What a fetch of a target gives: the spacing and the points, or nothing
    /// where the path is bad, there is no series, or the fetch is refused.
    pub open spec fn result(
        self,
        target: Seq<char>,
        image: Option<&[u8]>,
        cf: Cf,
        from: int,
        to: int,
        max_points: u64,
    ) -> Option<(int, Seq<(int, Seq<Double>)>)> {
        match image {
            Some(b) if path_error(target) is None => self.layout.answer(
                b@,
                cf,
                from,
                to,
                max_points,
            ),
            _ => None,
        }
    }

    /// Fetches points of a target; `image` is its series, if there is one.
    pub fn fetch(
        &self,
        target: &str,
        image: Option<&[u8]>,
        cf: Cf,
        from: i64,
        to: i64,
        max_points: u64,
    ) -> (r: Result<Fetched, StoreError>)
        requires
            self.wf(),
            image matches Some(b) ==> self.layout.sized(b@),
            path_error(target@) is None && image is Some ==> {
                &&& self.layout.alignable(from as int)
                &&& self.layout.alignable(to as int)
                &&& self.layout.spans(from as int, to as int) || self.layout.countable(
                    from as int,
                    to as int,
                    max_points,
                )
            },
        ensures
            match r {
                Err(StoreError::BeforeEpoch) => false,
                Err(StoreError::Path(e)) => path_error(target@) == Some(e),
                Err(StoreError::NoData) => path_error(target@) is None && image is None,
                Err(StoreError::Fetch(e)) => {
                    &&& path_error(target@) is None
                    &&& image matches Some(b)
                    &&& self.layout.refuses(b@, cf, from as int, to as int, max_points, e)
                },
                Ok(f) => {
                    &&& path_error(target@) is None
                    &&& image matches Some(b)
                    &&& self.layout.answers(
                        b@,
                        cf,
                        from as int,
                        to as int,
                        max_points,
                        f@.0,
                        f@.1,
                    )
                    &&& forall|k: int|
                        0 <= k < f.points@.len() ==> (#[trigger] f.points@[k]).pings@.len()
                            == self.pings
                },
            },
            match r {
                Ok(f) => self.result(target@, image, cf, from as int, to as int, max_points)
                    == Some(f@),
                Err(_) => self.result(target@, image, cf, from as int, to as int, max_points)
                    is None,
            },
    {
        match validate_target_path(target) {
            Err(e) => {
                return Err(StoreError::Path(e));
            },
            Ok(()) => {},
        }
        let b = match image {
            None => {
                return Err(StoreError::NoData);
            },
            Some(b) => b,
        };
        match self.layout.fetch(b, cf, from, to, max_points) {
            Err(e) => {
                proof {
                    series::refusals_have_no_answer(
                        self.layout,
                        b@,
                        cf,
                        from as int,
                        to as int,
                        max_points,
                        e,
                    );
                }
                Err(StoreError::Fetch(e))
            },
            Ok((period, raw)) => {
                let ghost want = series::raw_points(raw@);
                let mut points: Vec<Point> = Vec::new();
                let mut i: usize = 0;
                proof {
                    self.lemma_full_rows(
                        b@,
                        cf,
                        from as int,
                        to as int,
                        max_points,
                        period as int,
                        want,
                    );
                    assert forall|k: int| 0 <= k < raw@.len() implies (#[trigger] raw@[k]).1@.len()
                        == self.pings + 2 by {
                        assert(want[k].1.len() == self.pings + 2);
                    }
                }
                while i < raw.len()
                    invariant
                        want == series::raw_points(raw@),
                        forall|k: int|
                            0 <= k < raw@.len() ==> (#[trigger] raw@[k]).1@.len() == self.pings + 2,
                        i <= raw@.len(),
                        points@.len() == i,
                        forall|k: int| 0 <= k < i ==> (#[trigger] points@[k]).raw() == want[k],
                        forall|k: int|
                            0 <= k < i ==> (#[trigger] points@[k]).pings@.len() == self.pings,
                    decreases raw@.len() - i,
                {
                    let (ts, vals) = &raw[i];
                    assert(raw@[i as int].1@.len() == self.pings + 2);
                    let mut pings: Vec<Double> = Vec::new();
                    let mut j: usize = 2;
                    while j < vals.len()
                        invariant
                            2 <= j <= vals@.len(),
                            pings@ == vals@.subrange(2, j as int),
                        decreases vals@.len() - j,
                    {
                        pings.push(vals[j]);
                        j = j + 1;
                    }
                    let p = Point { ts: *ts, loss: vals[0], median: vals[1], pings };
                    assert(p.raw().1 =~= vals@);
                    points.push(p);
                    i = i + 1;
                }
                let f = Fetched { period, points };
                assert(f@.1 =~= want);
                proof {
                    series::answers_are_unique(
                        self.layout,
                        b@,
                        cf,
                        from as int,
                        to as int,
                        max_points,
                        period as int,
                        want,
                    );
                }
                Ok(f)
            },
        }
    }

    /// Every row has as many values as the layout has fields.
    proof fn lemma_full_rows(
        self,
        image: Seq<u8>,
        cf: Cf,
        from: int,
        to: int,
        max_points: u64,
        spacing: int,
        points: Seq<(int, Seq<Double>)>,
    )
        requires
            self.wf(),
            self.layout.answers(image, cf, from, to, max_points, spacing, points),
        ensures
            forall|k: int| 0 <= k < points.len() ==> (#[trigger] points[k]).1.len() == self.pings + 2,
    {
        let c = choose|c: int|
            {
                &&& #[trigger] self.layout.able(cf, c)
                &&& self.layout.chosen(image, cf, from, to, max_points, c)
                &&& self.layout.asked(c, from, to, max_points) <= series::MAX_FETCH_POINTS
                &&& spacing == self.layout.spacing(c, from, to, max_points)
                &&& points == self.layout.points(image, c, from, to, max_points)
            };
        let g = self.layout.archives@[c];
        assert forall|k: int| 0 <= k < points.len() implies (#[trigger] points[k]).1.len()
            == self.pings + 2 by {
            let w = points[k].0;
            vstd::arithmetic::div_mod::lemma_mod_bound(
                series::as_word(w / g.period(self.layout.step)) as int,
                g.rows as int,
            );
        }
    }

    /// The components of the path of a target's file, below the data
    /// directory.
    pub fn target_file(&self, target: &str) -> (r: Result<Vec<String>, PathError>)
        ensures
            match r {
                Ok(v) => path_error(target@) is None && text::texts(v@) == file_components(target@),
                Err(e) => path_error(target@) == Some(e),
            },
    {
        match validate_target_path(target) {
            Err(e) => Err(e),
            Ok(()) => {
                let mut comps = split_text(target, '/');
                let n: usize = comps.len();
                let mut file = comps[n - 1].clone();
                file.append(".dab");
                comps.set(n - 1, file);
                assert(text::texts(comps@) == file_components(target@));
                Ok(comps)
            },
        }
    }
}

/// A round that was recorded is fetched again. Where the finest archive holds
/// single rounds, a fetch of a span around the round that this archive still
/// covers has a point for it: the fields that are known are equal as numbers,
/// the others are unknown.
pub proof fn a_stored_round_reads_back(
    s: Store,
    before: Seq<u8>,
    after: Seq<u8>,
    r: RoundResult,
    ts: nat,
    c: int,
    cf: Cf,
    from: int,
    to: int,
    max_points: u64,
    j: int,
)
    requires
        s.wf(),
        s.layout.rested(before),
        r.start_secs() == Some(ts),
        s.layout.begun(before) ==> s.layout.last(before) < series::aligned(
            ts as int,
            s.layout.step as int,
        ),
        s.layout.recorded(before, ts as int, round_fields(r, s.pings as nat), after),
        0 <= c < s.layout.archives@.len(),
        s.layout.archives@[c].steps == 1,
        forall|i: int| 0 <= i < c ==> (#[trigger] s.layout.archives@[i]).steps != 1,
        s.layout.archives@[c].xff.finite(),
        0 <= s.layout.archives@[c].xff.value() <= pow2(1074),
        s.layout.alignable(from),
        from <= ts <= to <= i64::MAX,
        ({
            let step = s.layout.step as int;
            let rows = series::row_count(from, to, step);
            &&& series::aligned(from, step) >= series::aligned(ts as int, step) - (
            s.layout.archives@[c].rows - 1) * step
            &&& max_points == 0 || rows <= max_points
            &&& rows <= series::MAX_FETCH_POINTS
        }),
        0 <= j < s.pings + 2,
    ensures
        ({
            let step = s.layout.step as int;
            let t = series::aligned(ts as int, step);
            let k = (t - series::aligned(from, step)) / step;
            let want = round_fields(r, s.pings as nat);
            &&& s.layout.answer(after, cf, from, to, max_points) matches Some((spacing, points))
            &&& spacing == step
            &&& 0 <= k < points.len()
            &&& points[k].0 == t
            &&& points[k].1[j].nan() <==> want[j].nan()
            &&& !want[j].nan() ==> points[k].1[j].equals(want[j])
        }),
{
    let l = s.layout;
    let g = l.archives@[c];
    let step = l.step as int;
    let p = g.period(l.step);
    let t = series::aligned(ts as int, step);
    let want = round_fields(r, s.pings as nat);
    assert(p == step) by (nonlinear_arith)
        requires
            p == l.step * g.steps,
            g.steps == 1,
            step == l.step,
    ;
    series::lemma_whole_periods(ts as int, step);
    series::lemma_aligned_order(from, ts as int, step);
    series::lemma_aligned_order(ts as int, to, step);
    series::a_recorded_point_reads_back(l.archive(before, c), g, l.step, t, want, j);
    assert(l.archive(after, c) == l.archive(before, c).after(g, l.step, t, want));
    series::lemma_rows_between(from, to, step);
    let rows = series::row_count(from, to, step);
    assert(l.within(c, from, to, max_points)) by {
        series::lemma_span_in_rows(from, to, step);
    }
    assert(l.covers(after, c, from));
    assert(l.ideal(after, cf, from, to, max_points, c));
    assert(l.able(cf, c));
    assert forall|i: int|
        i != c && #[trigger] l.ideal(after, cf, from, to, max_points, i) implies l.finer(c, i) by {
        assert(l.archives@[i].fits(l.step));
    }
    assert(l.chosen(after, cf, from, to, max_points, c));
    assert(series::stride(from, to, p, max_points) == 1);
    assert(l.spacing(c, from, to, max_points) == step) by (nonlinear_arith)
        requires
            l.spacing(c, from, to, max_points) == p * 1,
            p == step,
    ;
    assert(l.asked(c, from, to, max_points) == rows) by {
        assert(rows / 1 == rows) by (nonlinear_arith);
    }
    let points = l.points(after, c, from, to, max_points);
    assert(l.answers(after, cf, from, to, max_points, step, points));
    series::answers_are_unique(l, after, cf, from, to, max_points, step, points);
    let start = series::aligned(from, step);
    let k = (t - start) / step;
    series::lemma_steps_between(from, ts as int, step);
    series::lemma_steps_between(from, to, step);
    assert(0 <= k < points.len()) by {
        vstd::arithmetic::div_mod::lemma_div_is_ordered(
            t - start,
            series::aligned(to, step) - start,
            step,
        );
        vstd::arithmetic::div_mod::lemma_div_is_ordered(0, t - start, step);
        vstd::arithmetic::div_mod::lemma_basic_div(0, step);
    }
    assert(start + k * step == t);
}

/// There is a file for each target: different targets have different files,
/// and so do the series that agents measure of them.
pub proof fn targets_have_files_of_their_own(a: Seq<char>, b: Seq<char>)
    requires
        a != b,
        path_error(a) is None,
        path_error(b) is None,
    ensures
        file_components(a) != file_components(b),
{
    let x = text::split(a, '/');
    let y = text::split(b, '/');
    text::lemma_split_nonempty(a, '/');
    text::lemma_split_nonempty(b, '/');
    let fa = file_components(a);
    let fb = file_components(b);
    if fa == fb {
        let n = x.len() as int;
        assert(fa.len() == n && fb.len() == y.len());
        assert(fa[n - 1] == x.last() + ".dab"@);
        assert(fb[n - 1] == y.last() + ".dab"@);
        reveal_strlit(".dab");
        assert(x.last() =~= fa[n - 1].take(fa[n - 1].len() - 4));
        assert(y.last() =~= fb[n - 1].take(fb[n - 1].len() - 4));
        assert forall|i: int| 0 <= i < n implies x[i] == y[i] by {
            if i < n - 1 {
                assert(x[i] == fa[i]);
                assert(y[i] == fb[i]);
            }
        }
        assert(x =~= y);
        text::lemma_split_joined(a, '/');
        text::lemma_split_joined(b, '/');
    }
}

/// What is stored of a round: its loss, its median in seconds, then its replies
/// from the fastest to the slowest, in seconds. What there is none of is
/// unknown.
pub proof fn a_round_is_stored_from_the_fastest_to_the_slowest(r: RoundResult, pings: nat, i: int)
    requires
        0 <= i < pings,
    ensures
        ({
            let fields = round_fields(r, pings);
            &&& fields.len() == pings + 2
            &&& fields[0] == r.loss()
            &&& r.rtts@.len() == 0 ==> fields[1].nan()
            &&& r.middle() matches Some(m) ==> fields[1] == m.secs()
            &&& i >= r.rtts@.len() ==> fields[i + 2].nan()
            &&& i < r.rtts@.len() ==> exists|d: crate::time::Duration|
                #[trigger] probe::kth_shortest(r.rtts@, i + 1, d) && fields[i + 2] == d.secs()
        }),
{
    probe::sorting_keeps_every_reply(r.rtts@);
    probe::lemma_sorted_len(r.rtts@);
    if i < r.rtts@.len() {
        probe::lemma_kth(r.rtts@, i + 1);
    }
}

/// The fastest stored reply is the first that is known, the slowest the last.
pub proof fn the_ends_of_the_smoke_are_known(s: Seq<Double>)
    ensures
        first_known(s).nan() <==> forall|i: int| 0 <= i < s.len() ==> (#[trigger] s[i]).nan(),
        last_known(s).nan() <==> forall|i: int| 0 <= i < s.len() ==> (#[trigger] s[i]).nan(),
        !first_known(s).nan() ==> exists|i: int|
            {
                &&& 0 <= i < s.len()
                &&& (#[trigger] s[i]) == first_known(s)
                &&& forall|j: int| 0 <= j < i ==> (#[trigger] s[j]).nan()
            },
        !last_known(s).nan() ==> exists|i: int|
            {
                &&& 0 <= i < s.len()
                &&& (#[trigger] s[i]) == last_known(s)
                &&& forall|j: int| i < j < s.len() ==> (#[trigger] s[j]).nan()
            },
    decreases s.len(),
{
    if s.len() > 0 {
        if s[0].nan() {
            let rest = s.drop_first();
            the_ends_of_the_smoke_are_known(rest);
            assert forall|j: int| 0 < j < s.len() implies #[trigger] s[j] == rest[j - 1] by {}
            if first_known(s).nan() {
                assert forall|i: int| 0 <= i < s.len() implies (#[trigger] s[i]).nan() by {
                    if i > 0 {
                        assert(rest[i - 1].nan());
                    }
                }
            } else {
                let i = choose|i: int|
                    {
                        &&& 0 <= i < rest.len()
                        &&& (#[trigger] rest[i]) == first_known(rest)
                        &&& forall|j: int| 0 <= j < i ==> (#[trigger] rest[j]).nan()
                    };
                assert(s[i + 1] == first_known(s));
            }
        }
        if s.last().nan() {
            let rest = s.drop_last();
            the_ends_of_the_smoke_are_known(rest);
            assert forall|j: int| 0 <= j < rest.len() implies #[trigger] rest[j] == s[j] by {}
            if last_known(s).nan() {
                assert forall|i: int| 0 <= i < s.len() implies (#[trigger] s[i]).nan() by {
                    if i < rest.len() {
                        assert(rest[i].nan());
                    }
                }
            } else {
                let i = choose|i: int|
                    {
                        &&& 0 <= i < rest.len()
                        &&& (#[trigger] rest[i]) == last_known(rest)
                        &&& forall|j: int| i < j < rest.len() ==> (#[trigger] rest[j]).nan()
                    };
                assert(s[i] == last_known(s));
                assert forall|j: int| i < j < s.len() implies (#[trigger] s[j]).nan() by {
                    if j < rest.len() {
                        assert(rest[j].nan());
                    }
                }
            }
        } else {
            assert(s[s.len() - 1] == s.last());
        }
    }
}

/// A path is accepted where each of its names, between the slashes, has a
/// character at least, is neither `.` nor `..`, and holds nothing but letters,
/// digits and `_`, `-`, `.`, `@`.
pub proof fn names_in_paths_are_plain(path: Seq<char>)
    ensures
        path_error(path) is None <==> forall|i: int|
            0 <= i < text::split(path, '/').len() ==> {
                let name = #[trigger] text::split(path, '/')[i];
                &&& name.len() > 0
                &&& name != seq!['.']
                &&& name != seq!['.', '.']
                &&& forall|k: int|
                    0 <= k < name.len() ==> text::is_alphanumeric(#[trigger] name[k]) || name[k]
                        == '_' || name[k] == '-' || name[k] == '.' || name[k] == '@'
            },
{
    let names = text::split(path, '/');
    text::splitting_cuts_at_every_separator(path, '/');
    if path.len() == 0 {
        assert(names[0].len() == 0);
    } else {
        lemma_plain_names(names);
    }
}

proof fn lemma_plain_names(names: Seq<Seq<char>>)
    ensures
        components_error(names) is None <==> forall|i: int|
            0 <= i < names.len() ==> {
                let name = #[trigger] names[i];
                &&& name.len() > 0
                &&& name != seq!['.']
                &&& name != seq!['.', '.']
                &&& forall|k: int|
                    0 <= k < name.len() ==> text::is_alphanumeric(#[trigger] name[k]) || name[k]
                        == '_' || name[k] == '-' || name[k] == '.' || name[k] == '@'
            },
    decreases names.len(),
{
    reveal_strlit(".");
    reveal_strlit("..");
    assert("."@ =~= seq!['.']);
    assert(".."@ =~= seq!['.', '.']);
    if names.len() > 0 {
        let rest = names.drop_last();
        lemma_plain_names(rest);
        assert forall|i: int| 0 <= i < rest.len() implies #[trigger] rest[i] == names[i] by {}
        assert(names[names.len() - 1] == names.last());
        let name = names.last();
        assert forall|k: int| 0 <= k < name.len() implies (path_char(#[trigger] name[k])
            <==> text::is_alphanumeric(name[k]) || name[k] == '_' || name[k] == '-' || name[k]
            == '.' || name[k] == '@') by {}
        if components_error(names) is None {
            assert forall|i: int| 0 <= i < names.len() implies {
                let name = #[trigger] names[i];
                &&& name.len() > 0
                &&& name != seq!['.']
                &&& name != seq!['.', '.']
                &&& forall|k: int|
                    0 <= k < name.len() ==> text::is_alphanumeric(#[trigger] name[k]) || name[k]
                        == '_' || name[k] == '-' || name[k] == '.' || name[k] == '@'
            } by {
                if i < rest.len() {
                    assert(rest[i] == names[i]);
                }
            }
        }
    }
}

} // verus!
