//! Learning what the scene looks like at rest, and telling what moved.
//!
//! For the first half minute every reading is kept, sorted into one bin per degree. After that
//! each bin with enough readings has a background distance, their median, and a reading counts as
//! motion if it differs from the background of its bin.

use crate::distance::{differs, gap, is_apart, lemma_tolerance};
use crate::double::Point;
use vstd::prelude::*;
use vstd::relations::{sorted_by, total_ordering};
use vstd::seq_lib::{lemma_multiset_commutative, lemma_sorted_unique};

verus! {

/// How long calibration lasts, in nanoseconds.
pub const CALIBRATION: u128 = 30_000_000_000;

/// How many bins a turn is divided into.
pub const ANGLE_BINS: usize = 360;

/// How many readings a bin needs for a background distance.
pub const MIN_BG_SAMPLES: u32 = 5;

/// Readings further away than this many millimetres are dropped.
pub const MAX_RANGE_MM: u32 = 4000;

/// The order of numbers.
pub open spec fn ascending() -> spec_fn(u32, u32) -> bool {
    |a: u32, b: u32| a <= b
}

/// `s`, sorted.
pub open spec fn sorted(s: Seq<u32>) -> Seq<u32> {
    s.sort_by(ascending())
}

/// The background distance of a bin: the upper median of its readings, if there are enough.
pub open spec fn background_of(samples: Seq<u32>) -> Option<u32> {
    if samples.len() < MIN_BG_SAMPLES {
        None
    } else {
        Some(sorted(samples)[samples.len() as int / 2])
    }
}

proof fn lemma_ascending()
    ensures
        total_ordering(ascending()),
{
}

/// Merges two sorted sequences.
fn merge(a: &Vec<u32>, b: &Vec<u32>) -> (r: Vec<u32>)
    requires
        sorted_by(a@, ascending()),
        sorted_by(b@, ascending()),
    ensures
        sorted_by(r@, ascending()),
        r@.to_multiset() == (a@ + b@).to_multiset(),
{
    broadcast use vstd::multiset::group_multiset_axioms;

    let mut r: Vec<u32> = Vec::new();
    let mut i: usize = 0;
    let mut j: usize = 0;
    assert(r@ =~= a@.take(0) + b@.take(0));
    while i < a.len() || j < b.len()
        invariant
            i <= a@.len(),
            j <= b@.len(),
            sorted_by(a@, ascending()),
            sorted_by(b@, ascending()),
            sorted_by(r@, ascending()),
            r@.to_multiset() == (a@.take(i as int) + b@.take(j as int)).to_multiset(),
            forall|k: int, m: int|
                0 <= k < r@.len() && i <= m < a@.len() ==> #[trigger] r@[k] <= #[trigger] a@[m],
            forall|k: int, m: int|
                0 <= k < r@.len() && j <= m < b@.len() ==> #[trigger] r@[k] <= #[trigger] b@[m],
        decreases a@.len() - i + b@.len() - j,
    {
        let ghost r0 = r@;
        let ghost left = a@.take(i as int);
        let ghost right = b@.take(j as int);
        proof {
            lemma_multiset_commutative(left, right);
            vstd::seq_lib::to_multiset_build(left, a@[i as int]);
            vstd::seq_lib::to_multiset_build(right, b@[j as int]);
            assert forall|k: int, m: int| i <= k <= m < a@.len() implies #[trigger] a@[k]
                <= #[trigger] a@[m] by {
                if k < m {
                    assert(ascending()(a@[k], a@[m]));
                }
            }
            assert forall|k: int, m: int| j <= k <= m < b@.len() implies #[trigger] b@[k]
                <= #[trigger] b@[m] by {
                if k < m {
                    assert(ascending()(b@[k], b@[m]));
                }
            }
        }
        if j >= b.len() || (i < a.len() && a[i] <= b[j]) {
            r.push(a[i]);
            proof {
                assert(a@.take(i + 1) =~= left.push(a@[i as int]));
                lemma_multiset_commutative(a@.take(i + 1), right);
                vstd::seq_lib::to_multiset_build(r0, a@[i as int]);
                assert(r@.to_multiset() =~= (a@.take(i + 1) + right).to_multiset());
            }
            i += 1;
        } else {
            r.push(b[j]);
            proof {
                assert(b@.take(j + 1) =~= right.push(b@[j as int]));
                lemma_multiset_commutative(left, b@.take(j + 1));
                vstd::seq_lib::to_multiset_build(r0, b@[j as int]);
                assert(r@.to_multiset() =~= (left + b@.take(j + 1)).to_multiset());
            }
            j += 1;
        }
        assert forall|k: int, m: int| 0 <= k < m < r@.len() implies #[trigger] ascending()(
            r@[k],
            r@[m],
        ) by {
            if m < r0.len() {
                assert(ascending()(r0[k], r0[m]));
            }
        }
    }
    assert(a@.take(i as int) =~= a@);
    assert(b@.take(j as int) =~= b@);
    r
}

/// Sorts `v[lo..hi]` into a new vector.
fn merge_sort(v: &Vec<u32>, lo: usize, hi: usize) -> (r: Vec<u32>)
    requires
        lo <= hi <= v@.len(),
    ensures
        sorted_by(r@, ascending()),
        r@.to_multiset() == v@.subrange(lo as int, hi as int).to_multiset(),
        r@.len() == hi - lo,
    decreases hi - lo,
{
    let ghost part = v@.subrange(lo as int, hi as int);
    if hi - lo <= 1 {
        let mut r: Vec<u32> = Vec::new();
        if lo < hi {
            r.push(v[lo]);
        }
        assert(r@ =~= part);
        r
    } else {
        let mid: usize = lo + (hi - lo) / 2;
        let left: Vec<u32> = merge_sort(v, lo, mid);
        let right: Vec<u32> = merge_sort(v, mid, hi);
        let r: Vec<u32> = merge(&left, &right);
        proof {
            let a = v@.subrange(lo as int, mid as int);
            let b = v@.subrange(mid as int, hi as int);
            assert(part =~= a + b);
            lemma_multiset_commutative(a, b);
            lemma_multiset_commutative(left@, right@);
            vstd::seq_lib::to_multiset_len(r@);
            vstd::seq_lib::to_multiset_len(part);
        }
        r
    }
}

/// The background distance of a bin.
pub fn bin_background(samples: &Vec<u32>) -> (r: Option<u32>)
    ensures
        r == background_of(samples@),
{
    let n: usize = samples.len();
    if n < MIN_BG_SAMPLES as usize {
        return None;
    }
    let v: Vec<u32> = merge_sort(samples, 0, n);
    proof {
        lemma_ascending();
        assert(samples@.subrange(0, n as int) =~= samples@);
        samples@.lemma_sort_by_ensures(ascending());
        lemma_sorted_unique(v@, sorted(samples@), ascending());
    }
    Some(v[n / 2])
}

/// Where the detection stands: either readings are being collected, sorted by bin, since a moment
/// on the clock, or every bin has its background distance, if any. Distances are in millimetres.
#[derive(Debug, PartialEq, Eq)]
pub enum Phase {
    Calibrating { started: u128, samples: Vec<Vec<u32>> },
    Detecting { background: Vec<Option<u32>> },
}

/// What a `Phase` holds.
#[verifier::ext_equal]
pub enum PhaseView {
    Calibrating { started: u128, samples: Seq<Seq<u32>> },
    Detecting { background: Seq<Option<u32>> },
}

impl View for Phase {
    type V = PhaseView;

    open spec fn view(&self) -> PhaseView {
        match self {
            Phase::Calibrating { started, samples } => PhaseView::Calibrating {
                started: *started,
                samples: Seq::new(samples@.len(), |b: int| samples@[b]@),
            },
            Phase::Detecting { background } => PhaseView::Detecting { background: background@ },
        }
    }
}

impl PhaseView {
    /// There is one entry per bin.
    pub open spec fn wf(self) -> bool {
        match self {
            PhaseView::Calibrating { started, samples } => samples.len() == ANGLE_BINS,
            PhaseView::Detecting { background } => background.len() == ANGLE_BINS,
        }
    }
}

/// The time from `started` to `now`; none if the clock went back.
pub open spec fn elapsed(started: u128, now: u128) -> u128 {
    if now < started {
        0
    } else {
        (now - started) as u128
    }
}

/// The time from `started` to `now`.
pub fn time_since(started: u128, now: u128) -> (t: u128)
    ensures
        t == elapsed(started, now),
{
    if now < started {
        0
    } else {
        now - started
    }
}

/// A phase at its beginning: calibrating, with no readings.
pub open spec fn fresh(started: u128) -> PhaseView {
    PhaseView::Calibrating {
        started,
        samples: Seq::new(ANGLE_BINS as nat, |b: int| Seq::<u32>::empty()),
    }
}

/// `phase` as it stands at `now`: calibration is over once it has lasted long enough, and the
/// readings become background distances.
pub open spec fn finished(phase: PhaseView, now: u128) -> PhaseView {
    match phase {
        PhaseView::Calibrating { started, samples } if elapsed(started, now) >= CALIBRATION =>
            PhaseView::Detecting {
                background: samples.map_values(|s: Seq<u32>| background_of(s)),
            },
        other => other,
    }
}

/// Starts calibrating.
pub fn start_calibration(started: u128) -> (phase: Phase)
    ensures
        phase@ == fresh(started),
        phase@.wf(),
{
    let mut samples: Vec<Vec<u32>> = Vec::new();
    while samples.len() < ANGLE_BINS
        invariant
            samples@.len() <= ANGLE_BINS,
            forall|b: int| 0 <= b < samples@.len() ==> (#[trigger] samples@[b])@ == Seq::<
                u32,
            >::empty(),
        decreases ANGLE_BINS - samples@.len(),
    {
        samples.push(Vec::new());
    }
    let phase: Phase = Phase::Calibrating { started, samples };
    assert(phase@ =~~= fresh(started));
    phase
}

/// Ends calibration if it has lasted long enough.
pub fn maybe_finish_calibration(phase: Phase, now: u128) -> (r: Phase)
    ensures
        r@ == finished(phase@, now),
        phase@.wf() ==> r@.wf(),
{
    match phase {
        Phase::Calibrating { started, samples } => {
            if time_since(started, now) < CALIBRATION {
                return Phase::Calibrating { started, samples };
            }
            let mut background: Vec<Option<u32>> = Vec::new();
            let mut b: usize = 0;
            while b < samples.len()
                invariant
                    b <= samples@.len(),
                    background@.len() == b,
                    forall|k: int|
                        0 <= k < b ==> #[trigger] background@[k] == background_of(samples@[k]@),
                decreases samples@.len() - b,
            {
                background.push(bin_background(&samples[b]));
                b += 1;
            }
            let r: Phase = Phase::Detecting { background };
            assert(r@ =~~= finished(phase@, now));
            r
        },
        other => other,
    }
}

/// A bin that has a background distance.
pub open spec fn locked() -> spec_fn(Option<u32>) -> bool {
    |b: Option<u32>| b is Some
}

/// How many bins have a background distance.
pub fn locked_bins(background: &Vec<Option<u32>>) -> (n: usize)
    ensures
        n == background@.filter(locked()).len(),
        n <= background@.len(),
{
    let mut n: usize = 0;
    let mut b: usize = 0;
    while b < background.len()
        invariant
            b <= background@.len(),
            n <= b,
            n == background@.take(b as int).filter(locked()).len(),
        decreases background@.len() - b,
    {
        proof {
            assert(background@.take(b + 1) =~= background@.take(b as int).push(
                background@[b as int],
            ));
            background@.take(b as int).lemma_filter_len_push(locked(), background@[b as int]);
        }
        if background[b].is_some() {
            n += 1;
        }
        b += 1;
    }
    assert(background@.take(b as int) =~= background@);
    n
}

/// The bin of a direction in hundredths of a degree.
pub open spec fn bin_of(dir: u16) -> int {
    (dir / 100) as int % ANGLE_BINS as int
}

/// A reading that is kept: something was hit, and not too far away.
pub open spec fn in_range(mm: u32) -> bool {
    0 < mm <= MAX_RANGE_MM
}

/// A reading of `mm` millimetres where the background distance is `background`.
pub open spec fn moved(background: Option<u32>, mm: u32) -> bool {
    match background {
        Some(bg) => differs(mm as int, bg as int),
        None => true,
    }
}

/// `phase` with one more reading in bin `bin`, if it is calibrating.
pub open spec fn with_sample(phase: PhaseView, bin: int, mm: u32) -> PhaseView {
    match phase {
        PhaseView::Calibrating { started, samples } => PhaseView::Calibrating {
            started,
            samples: samples.update(bin, samples[bin].push(mm)),
        },
        other => other,
    }
}

/// Whether a reading in bin `bin` counts as motion. Nothing does during calibration.
pub open spec fn is_motion(phase: PhaseView, bin: int, mm: u32) -> bool {
    match phase {
        PhaseView::Calibrating { .. } => false,
        PhaseView::Detecting { background } => moved(background[bin], mm),
    }
}

/// A point of a scan.
#[derive(Clone, Copy, Debug, PartialEq, Eq, Structural)]
pub struct ScanPoint {
    pub at: Point,
    pub is_motion: bool,
}

/// Takes one reading in direction `dir`, in hundredths of a degree, at a distance of `mm`
/// millimetres, whose place in the plane is `at`. A reading that is out of range is dropped.
pub fn take_reading(
    phase: &mut Phase,
    points: &mut Vec<ScanPoint>,
    dir: u16,
    mm: u32,
    at: Point,
)
    requires
        old(phase)@.wf(),
    ensures
        final(phase)@.wf(),
        final(phase)@ == if in_range(mm) {
            with_sample(old(phase)@, bin_of(dir), mm)
        } else {
            old(phase)@
        },
        final(points)@ == if in_range(mm) {
            old(points)@.push(
                (ScanPoint { at, is_motion: is_motion(old(phase)@, bin_of(dir), mm) }),
            )
        } else {
            old(points)@
        },
        1 <= mm <= 4000 <==> final(points)@.len() == old(points)@.len() + 1,
        1 <= mm <= 4000 ==> match old(phase)@ {
            PhaseView::Calibrating { .. } => !final(points)@.last().is_motion,
            PhaseView::Detecting { background } => background[dir as int / 100 % 360] is None
                ==> final(points)@.last().is_motion,
        },
{
    if mm == 0 || mm > MAX_RANGE_MM {
        return;
    }
    let bin: usize = (dir / 100) as usize % ANGLE_BINS;
    let is_motion: bool = match phase {
        Phase::Calibrating { samples, .. } => {
            samples[bin].push(mm);
            false
        },
        Phase::Detecting { background } => match background[bin] {
            Some(bg) => is_apart(mm, bg),
            None => true,
        },
    };
    points.push(ScanPoint { at, is_motion });
    assert(phase@ =~~= with_sample(old(phase)@, bin_of(dir), mm));
}

/// The places of the points that moved, in order.
pub open spec fn motion_places(points: Seq<ScanPoint>) -> Seq<Point> {
    points.filter(|p: ScanPoint| p.is_motion).map_values(|p: ScanPoint| p.at)
}

/// The places of the points that moved.
pub fn foreground(points: &Vec<ScanPoint>) -> (r: Vec<Point>)
    ensures
        r@ == motion_places(points@),
{
    let ghost moving = |p: ScanPoint| p.is_motion;
    let mut r: Vec<Point> = Vec::new();
    let mut i: usize = 0;
    assert(r@ =~= motion_places(points@.take(0)));
    while i < points.len()
        invariant
            i <= points@.len(),
            moving == (|p: ScanPoint| p.is_motion),
            r@ == motion_places(points@.take(i as int)),
        decreases points@.len() - i,
    {
        let p: ScanPoint = points[i];
        proof {
            assert(points@.take(i + 1) =~= points@.take(i as int).push(p));
            points@.take(i as int).lemma_filter_push(p, moving);
        }
        if p.is_motion {
            r.push(p.at);
        }
        assert(r@ =~= motion_places(points@.take(i + 1)));
        i += 1;
    }
    assert(points@.take(i as int) =~= points@);
    r
}

/// Filtering a sequence and counting, or counting and filtering, comes to the same.
pub(crate) proof fn lemma_filter_multiset<A>(s: Seq<A>, p: spec_fn(A) -> bool)
    ensures
        s.filter(p).to_multiset() == s.to_multiset().filter(p),
        s.filter(p).len() == s.to_multiset().filter(p).len(),
    decreases s.len(),
{
    broadcast use {
        vstd::multiset::group_multiset_axioms,
        vstd::seq_lib::group_to_multiset_ensures,
    };

    if s.len() == 0 {
        assert(s.filter(p) =~= s);
        assert(s.to_multiset() =~= vstd::multiset::Multiset::empty());
    } else {
        let rest = s.drop_last();
        lemma_filter_multiset(rest, p);
        rest.lemma_filter_push(s.last(), p);
        assert(s =~= rest.push(s.last()));
        vstd::seq_lib::to_multiset_build(rest, s.last());
        vstd::seq_lib::to_multiset_build(rest.filter(p), s.last());
    }
    assert(s.filter(p).to_multiset() =~= s.to_multiset().filter(p));
    vstd::seq_lib::to_multiset_len(s.filter(p));
}

/// No more than the first `n` elements of `s` meet `p`, if none from `n` on does.
proof fn lemma_filter_prefix(s: Seq<u32>, p: spec_fn(u32) -> bool, n: int)
    requires
        0 <= n <= s.len(),
        forall|k: int| n <= k < s.len() ==> !p(#[trigger] s[k]),
    ensures
        s.filter(p).len() <= n,
    decreases s.len(),
{
    if n < s.len() {
        lemma_filter_prefix(s.drop_last(), p, n);
        s.drop_last().lemma_filter_push(s.last(), p);
        assert(s =~= s.drop_last().push(s.last()));
    } else {
        s.lemma_filter_len(p);
    }
}

/// No more than the elements of `s` from `n` on meet `p`, if none before does.
proof fn lemma_filter_suffix(s: Seq<u32>, p: spec_fn(u32) -> bool, n: int)
    requires
        0 <= n <= s.len(),
        forall|k: int| 0 <= k < n ==> !p(#[trigger] s[k]),
    ensures
        s.filter(p).len() <= s.len() - n,
    decreases s.len(),
{
    if s.len() > 0 {
        let rest = s.drop_last();
        rest.lemma_filter_push(s.last(), p);
        assert(s =~= rest.push(s.last()));
        if n < s.len() {
            lemma_filter_suffix(rest, p, n);
        } else {
            lemma_filter_suffix(rest, p, n - 1);
            assert(!p(s[n - 1]));
        }
    } else {
        assert(s.filter(p) =~= s);
    }
}

/// The background distance of a bin is one of its readings. No more than half of them are less,
/// and fewer than half are greater.
pub proof fn lemma_background_is_median(samples: Seq<u32>)
    requires
        samples.len() >= MIN_BG_SAMPLES,
    ensures
        background_of(samples) matches Some(bg) && {
            &&& samples.contains(bg)
            &&& samples.filter(|x: u32| x < bg).len() <= samples.len() / 2
            &&& samples.filter(|x: u32| x > bg).len() < samples.len() - samples.len() / 2
        },
{
    let v = sorted(samples);
    let n = samples.len() as int / 2;
    let bg = v[n];
    let less = |x: u32| x < bg;
    let more = |x: u32| x > bg;
    lemma_ascending();
    samples.lemma_sort_by_ensures(ascending());
    vstd::seq_lib::to_multiset_len(samples);
    vstd::seq_lib::to_multiset_len(v);
    vstd::seq_lib::to_multiset_contains(samples, bg);
    vstd::seq_lib::to_multiset_contains(v, bg);
    assert(v.contains(bg));
    lemma_filter_multiset(samples, less);
    lemma_filter_multiset(v, less);
    lemma_filter_multiset(samples, more);
    lemma_filter_multiset(v, more);
    assert forall|k: int| n <= k < v.len() implies !less(#[trigger] v[k]) by {
        if n < k {
            assert(ascending()(v[n], v[k]));
        }
    }
    lemma_filter_prefix(v, less, n);
    assert forall|k: int| 0 <= k < n + 1 implies !more(#[trigger] v[k]) by {
        if k < n {
            assert(ascending()(v[k], v[n]));
        }
    }
    lemma_filter_suffix(v, more, n + 1);
}

/// What stands still does not move: where a bin has a background, a reading less than 150 mm away
/// from every reading of the calibration is not motion, and one more than 150 mm away from every
/// one of them is.
pub proof fn lemma_static_scene(samples: Seq<u32>, mm: u32)
    requires
        samples.len() >= MIN_BG_SAMPLES,
    ensures
        (forall|k: int|
            0 <= k < samples.len() ==> gap(mm as int, #[trigger] samples[k] as int) < 150)
            ==> !moved(background_of(samples), mm),
        (forall|k: int|
            0 <= k < samples.len() ==> gap(mm as int, #[trigger] samples[k] as int) > 150)
            ==> moved(background_of(samples), mm),
{
    lemma_background_is_median(samples);
    let bg = background_of(samples)->0;
    let k = choose|k: int| 0 <= k < samples.len() && samples[k] == bg;
    lemma_tolerance(mm as int, samples[k] as int);
}

/// Calibration lasts exactly as long as it should: before that nothing changes, after that it is
/// over. Once over, it stays over.
pub proof fn lemma_calibration_ends_once(phase: PhaseView, now: u128, later: u128)
    ensures
        phase matches PhaseView::Calibrating { started, samples } ==> (finished(phase, now)
            is Detecting <==> elapsed(started, now) >= CALIBRATION),
        finished(phase, now) is Calibrating ==> finished(phase, now) == phase,
        finished(phase, now) is Detecting ==> finished(finished(phase, now), later) == finished(
            phase,
            now,
        ),
{
}

/// Readings do not change the background.
pub proof fn lemma_background_is_fixed(phase: PhaseView, bin: int, mm: u32)
    requires
        phase is Detecting,
    ensures
        with_sample(phase, bin, mm) == phase,
{
}

/// `phase` after a run of readings, each a direction and a distance.
pub open spec fn after_readings(phase: PhaseView, readings: Seq<(u16, u32)>) -> PhaseView
    decreases readings.len(),
{
    if readings.len() == 0 {
        phase
    } else {
        let before = after_readings(phase, readings.drop_last());
        let (dir, mm) = readings.last();
        if in_range(mm) {
            with_sample(before, bin_of(dir), mm)
        } else {
            before
        }
    }
}

/// The readings in range that fall into bin `b`.
pub open spec fn falls_into(b: int) -> spec_fn((u16, u32)) -> bool {
    |r: (u16, u32)| in_range(r.1) && bin_of(r.0) == b
}

/// The distances of the readings in range that fall into bin `b`, in order.
pub open spec fn distances_in(readings: Seq<(u16, u32)>, b: int) -> Seq<u32> {
    readings.filter(falls_into(b)).map_values(|r: (u16, u32)| r.1)
}

proof fn lemma_samples_collected(started: u128, readings: Seq<(u16, u32)>)
    ensures
        after_readings(fresh(started), readings) == (PhaseView::Calibrating {
            started,
            samples: Seq::new(ANGLE_BINS as nat, |b: int| distances_in(readings, b)),
        }),
    decreases readings.len(),
{
    let goal = PhaseView::Calibrating {
        started,
        samples: Seq::new(ANGLE_BINS as nat, |b: int| distances_in(readings, b)),
    };
    if readings.len() == 0 {
        assert forall|b: int| #[trigger] distances_in(readings, b) == Seq::<u32>::empty() by {
            assert(readings.filter(falls_into(b)) =~= readings);
            assert(distances_in(readings, b) =~= Seq::<u32>::empty());
        }
        assert(after_readings(fresh(started), readings) =~~= goal);
    } else {
        let rest = readings.drop_last();
        let last = readings.last();
        lemma_samples_collected(started, rest);
        assert(readings =~= rest.push(last));
        assert forall|b: int| #[trigger]
            distances_in(readings, b) == if falls_into(b)(last) {
                distances_in(rest, b).push(last.1)
            } else {
                distances_in(rest, b)
            } by {
            rest.lemma_filter_push(last, falls_into(b));
            if falls_into(b)(last) {
                assert(distances_in(readings, b) =~= distances_in(rest, b).push(last.1));
            }
        }
        assert(after_readings(fresh(started), readings) =~~= goal);
    }
}

/// What calibration learns: after a run of readings and enough time, the background distance of
/// every bin is that of the readings in range that fell into it, and of no others.
pub proof fn lemma_calibration_learns(started: u128, readings: Seq<(u16, u32)>, now: u128)
    requires
        elapsed(started, now) >= CALIBRATION,
    ensures
        finished(after_readings(fresh(started), readings), now) == (PhaseView::Detecting {
            background: Seq::new(
                ANGLE_BINS as nat,
                |b: int| background_of(distances_in(readings, b)),
            ),
        }),
{
    lemma_samples_collected(started, readings);
    assert(finished(after_readings(fresh(started), readings), now) =~~= (PhaseView::Detecting {
        background: Seq::new(
            ANGLE_BINS as nat,
            |b: int| background_of(distances_in(readings, b)),
        ),
    }));
}

/// The order in which readings come in does not matter, and readings that come in sorted have the
/// middle one as their background distance.
pub proof fn lemma_order_does_not_matter(a: Seq<u32>, b: Seq<u32>)
    requires
        a.to_multiset() == b.to_multiset(),
    ensures
        background_of(a) == background_of(b),
        sorted_by(b, ascending()) ==> sorted(a) == b,
{
    lemma_ascending();
    a.lemma_sort_by_ensures(ascending());
    b.lemma_sort_by_ensures(ascending());
    vstd::seq_lib::to_multiset_len(a);
    vstd::seq_lib::to_multiset_len(b);
    lemma_sorted_unique(sorted(a), sorted(b), ascending());
    if sorted_by(b, ascending()) {
        lemma_sorted_unique(sorted(a), b, ascending());
    }
}

/// Time runs on: what has passed since `started` is the difference, and nothing before.
pub proof fn lemma_time_runs_on(started: u128, now: u128)
    ensures
        started <= now ==> started + elapsed(started, now) == now,
        now <= started ==> elapsed(started, now) == 0,
{
}

/// Calibration begins with 360 bins and no reading in any of them.
pub proof fn lemma_calibration_begins_empty(started: u128)
    ensures
        fresh(started) matches PhaseView::Calibrating { started: s, samples } && {
            &&& s == started
            &&& samples.len() == 360
            &&& forall|b: int| 0 <= b < 360 ==> (#[trigger] samples[b]).len() == 0
        },
{
}

/// When calibration ends and with what: for 30 seconds nothing changes, from then on every bin
/// with five readings or more has one of them as its background, such that no more than half are
/// less and fewer than half are greater. A bin with fewer readings has none. After that nothing
/// changes any more.
pub proof fn lemma_calibration_gives_medians(phase: PhaseView, now: u128, b: int)
    ensures
        match phase {
            PhaseView::Detecting { background } => finished(phase, now) == phase,
            PhaseView::Calibrating { started, samples } => {
                &&& now < started + 30_000_000_000 ==> finished(phase, now) == phase
                &&& now >= started + 30_000_000_000 ==> (finished(
                    phase,
                    now,
                ) matches PhaseView::Detecting { background } && {
                    &&& background.len() == samples.len()
                    &&& 0 <= b < samples.len() ==> match background[b] {
                        None => samples[b].len() < 5,
                        Some(bg) => {
                            &&& samples[b].len() >= 5
                            &&& samples[b].contains(bg)
                            &&& 2 * samples[b].filter(|x: u32| x < bg).len() <= samples[b].len()
                            &&& 2 * samples[b].filter(|x: u32| x > bg).len() < samples[b].len()
                        },
                    }
                })
            },
        },
{
    if let PhaseView::Calibrating { started, samples } = phase {
        if 0 <= b < samples.len() && samples[b].len() >= 5 {
            lemma_background_is_median(samples[b]);
        }
    }
}

/// Bins are degrees: there are 360 of them, a direction in hundredths of a degree falls into the
/// degree it is in, and a full turn further it falls into the same one.
pub proof fn lemma_bins_are_degrees(dir: u16)
    ensures
        0 <= bin_of(dir) < 360,
        dir < 36_000 ==> 100 * bin_of(dir) <= dir < 100 * bin_of(dir) + 100,
        dir >= 36_000 ==> bin_of(dir) == bin_of((dir - 36_000) as u16),
{
}

/// Readings from 1 to 4000 millimetres are kept, and no others.
pub proof fn lemma_range_is_four_metres(mm: u32)
    ensures
        in_range(mm) <==> 1 <= mm && mm <= 4000,
{
}

/// A reading during calibration is added at the end of the bin of its degree, and every other bin
/// stays as it was. So does the moment when calibration began.
pub proof fn lemma_reading_joins_its_bin(phase: PhaseView, dir: u16, mm: u32, b: int)
    requires
        phase.wf(),
        0 <= b < 360,
    ensures
        match phase {
            PhaseView::Calibrating { started, samples } => with_sample(
                phase,
                bin_of(dir),
                mm,
            ) matches PhaseView::Calibrating { started: s, samples: after } && {
                &&& s == started
                &&& after.len() == 360
                &&& b == dir as int / 100 % 360 ==> after[b].len() == samples[b].len() + 1
                    && after[b].last() == mm && after[b].drop_last() == samples[b]
                &&& b != dir as int / 100 % 360 ==> after[b] == samples[b]
            },
            PhaseView::Detecting { background } => with_sample(phase, bin_of(dir), mm) == phase,
        },
{
    if let PhaseView::Calibrating { started, samples } = phase {
        assert(samples[b].push(mm).drop_last() =~= samples[b]);
    }
}

/// What counts as motion. While calibrating nothing does. Then everything does where there is no
/// background distance, however near or far it is, and where there is one, what is more than
/// 150 mm away from it and nothing that is less.
pub proof fn lemma_motion_is_what_differs(phase: PhaseView, dir: u16, mm: u32)
    requires
        phase.wf(),
    ensures
        match phase {
            PhaseView::Calibrating { .. } => !is_motion(phase, bin_of(dir), mm),
            PhaseView::Detecting { background } => match background[dir as int / 100 % 360] {
                None => is_motion(phase, bin_of(dir), mm),
                Some(bg) => {
                    &&& mm > bg + 150 || bg > mm + 150 ==> is_motion(phase, bin_of(dir), mm)
                    &&& bg - 150 < mm < bg + 150 ==> !is_motion(phase, bin_of(dir), mm)
                    &&& is_motion(phase, bin_of(dir), mm) <==> differs(mm as int, bg as int)
                },
            },
        },
{
    if let PhaseView::Detecting { background } = phase {
        if let Some(bg) = background[dir as int / 100 % 360] {
            lemma_tolerance(mm as int, bg as int);
        }
    }
}

/// The foreground of a scan grows with it: one more point adds its place at the end if it moved,
/// and nothing otherwise.
pub proof fn lemma_foreground_grows(points: Seq<ScanPoint>, p: ScanPoint)
    ensures
        points.len() == 0 ==> motion_places(points).len() == 0,
        p.is_motion ==> motion_places(points.push(p)) == motion_places(points).push(p.at),
        !p.is_motion ==> motion_places(points.push(p)) == motion_places(points),
{
    let moving = |p: ScanPoint| p.is_motion;
    points.lemma_filter_len(moving);
    points.lemma_filter_push(p, moving);
    if p.is_motion {
        assert(motion_places(points.push(p)) =~= motion_places(points).push(p.at));
    }
}

/// The number of locked bins grows with them: one more bin counts if it has a background distance,
/// and does not otherwise.
pub proof fn lemma_locked_bins_add_up(background: Seq<Option<u32>>, bin: Option<u32>)
    ensures
        background.len() == 0 ==> background.filter(locked()).len() == 0,
        background.push(bin).filter(locked()).len() == background.filter(locked()).len() + match bin
        {
            Some(_) => 1int,
            None => 0,
        },
{
    background.lemma_filter_len(locked());
    background.lemma_filter_len_push(locked(), bin);
}

} // verus!
