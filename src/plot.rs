//! The aggregation model: for each benchmark (group and name), the bounds of
//! its axes and, for each parameter string, a line of points in order.
//! New records are only ever added; nothing already stored is removed.
use vstd::prelude::*;

use crate::bench_id::UtcTimestamp;
use crate::order::{
    float_lt, float_lt_exec, instant_lt, instant_lt_exec, lemma_stable_sort_of_sorted, points_view,
    sort_points, sorted, sorted_from, Point, PointView,
};
use crate::record::{BenchData, DataView};
use crate::text::join_with;

verus! {

/// Separator between group and benchmark name in a series key (a `/` would
/// not survive as a chart title).
pub const NAME_SEP: char = '-';

/// Bits of `+inf`, the starting minimum of a value axis.
pub const POS_INF_BITS: u64 = 0x7FF0_0000_0000_0000;

/// Bits of `-inf`, the starting maximum of a value axis.
pub const NEG_INF_BITS: u64 = 0xFFF0_0000_0000_0000;

/// Bounds of the time axis.
#[derive(Clone, Copy, Debug)]
pub struct XAxisRange {
    pub min: UtcTimestamp,
    pub max: UtcTimestamp,
}

/// Bounds of the value axis, as bit patterns of doubles.
#[derive(Clone, Copy, Debug)]
pub struct YAxisRange {
    pub min_bits: u64,
    pub max_bits: u64,
}

/// The latest representable instant: the starting minimum of a time axis.
pub open spec fn instant_top() -> (int, int) {
    (i64::MAX as int, 999_999_999)
}

/// The earliest representable instant: the starting maximum of a time axis.
pub open spec fn instant_bottom() -> (int, int) {
    (i64::MIN as int, 0)
}

impl Default for XAxisRange {
    /// An inverted range, so that the first point sets both bounds.
    fn default() -> (r: Self)
        ensures
            r.min.instant() == instant_top(),
            r.max.instant() == instant_bottom(),
    {
        XAxisRange {
            min: UtcTimestamp { secs: i64::MAX, nanos: 999_999_999 },
            max: UtcTimestamp { secs: i64::MIN, nanos: 0 },
        }
    }
}

impl Default for YAxisRange {
    /// An inverted range, so that the first number sets both bounds.
    fn default() -> (r: Self)
        ensures
            r.min_bits == POS_INF_BITS,
            r.max_bits == NEG_INF_BITS,
    {
        YAxisRange { min_bits: POS_INF_BITS, max_bits: NEG_INF_BITS }
    }
}

/// Mathematical form of a [`Plot`].
pub struct PlotModel {
    pub x_min: (int, int),
    pub x_max: (int, int),
    pub y_min: u64,
    pub y_max: u64,
    pub lines: Seq<(Seq<char>, Seq<PointView>)>,
}

/// A bound that moves to `v` where `v` lies strictly beyond it.
pub open spec fn lower_instant(m: (int, int), v: (int, int)) -> (int, int) {
    if instant_lt(v, m) {
        v
    } else {
        m
    }
}

pub open spec fn upper_instant(m: (int, int), v: (int, int)) -> (int, int) {
    if instant_lt(m, v) {
        v
    } else {
        m
    }
}

pub open spec fn lower_bits(m: u64, v: u64) -> u64 {
    if float_lt(v, m) {
        v
    } else {
        m
    }
}

pub open spec fn upper_bits(m: u64, v: u64) -> u64 {
    if float_lt(m, v) {
        v
    } else {
        m
    }
}

impl XAxisRange {
    /// Widens the range to take in `value`.
    pub fn set_min_max(&mut self, value: UtcTimestamp)
        ensures
            final(self).min.instant() == lower_instant(old(self).min.instant(), value.instant()),
            final(self).max.instant() == upper_instant(old(self).max.instant(), value.instant()),
    {
        if instant_lt_exec(value, self.min) {
            self.min = value;
        }
        if instant_lt_exec(self.max, value) {
            self.max = value;
        }
    }
}

impl YAxisRange {
    /// Widens the range to take in the double with bits `value`; a NaN
    /// compares with nothing and leaves the range as it is.
    pub fn set_min_max(&mut self, value: u64)
        ensures
            final(self).min_bits == lower_bits(old(self).min_bits, value),
            final(self).max_bits == upper_bits(old(self).max_bits, value),
    {
        if float_lt_exec(value, self.min_bits) {
            self.min_bits = value;
        }
        if float_lt_exec(self.max_bits, value) {
            self.max_bits = value;
        }
    }
}

/// Index of the last entry with key `k`.
pub open spec fn key_index(keys: Seq<Seq<char>>, k: Seq<char>) -> Option<int>
    decreases keys.len(),
{
    if keys.len() == 0 {
        None
    } else if keys.last() == k {
        Some(keys.len() - 1)
    } else {
        key_index(keys.drop_last(), k)
    }
}

pub proof fn lemma_key_index(keys: Seq<Seq<char>>, k: Seq<char>)
    requires
        key_index(keys, k) is Some,
    ensures
        0 <= key_index(keys, k)->0 < keys.len(),
        keys[key_index(keys, k)->0] == k,
    decreases keys.len(),
{
    if keys.last() != k {
        lemma_key_index(keys.drop_last(), k);
    }
}

/// The keys of an association list of strings.
pub open spec fn entry_keys<V>(s: Seq<(String, V)>) -> Seq<Seq<char>> {
    s.map_values(|e: (String, V)| e.0@)
}

/// Finds the last entry with key `k`.
pub fn find_entry<V>(v: &Vec<(String, V)>, k: &String) -> (r: Option<usize>)
    ensures
        r matches Some(i) ==> key_index(entry_keys(v@), k@) == Some(i as int) && i < v@.len(),
        r is None ==> key_index(entry_keys(v@), k@) is None,
{
    let mut i: usize = v.len();
    assert(entry_keys(v@).subrange(0, i as int) =~= entry_keys(v@));
    while i > 0
        invariant
            i <= v.len(),
            key_index(entry_keys(v@), k@) == key_index(entry_keys(v@).subrange(0, i as int), k@),
        decreases i,
    {
        let ghost ks = entry_keys(v@).subrange(0, i as int);
        assert(ks.drop_last() =~= entry_keys(v@).subrange(0, i - 1));
        if v[i - 1].0 == *k {
            return Some(i - 1);
        }
        i = i - 1;
    }
    None
}

/// The plot of one benchmark: axis bounds and one line per parameter string.
#[derive(Debug)]
pub struct Plot {
    pub x_axis: XAxisRange,
    pub y_axis: YAxisRange,
    pub lines: Vec<(String, Vec<Point>)>,
}

pub open spec fn lines_view(s: Seq<(String, Vec<Point>)>) -> Seq<(Seq<char>, Seq<PointView>)> {
    s.map_values(|e: (String, Vec<Point>)| (e.0@, points_view(e.1@)))
}

impl Plot {
    pub open spec fn view(&self) -> PlotModel {
        PlotModel {
            x_min: self.x_axis.min.instant(),
            x_max: self.x_axis.max.instant(),
            y_min: self.y_axis.min_bits,
            y_max: self.y_axis.max_bits,
            lines: lines_view(self.lines@),
        }
    }
}

/// The parameter strings of the lines of a plot.
pub open spec fn line_keys(lines: Seq<(Seq<char>, Seq<PointView>)>) -> Seq<Seq<char>> {
    lines.map_values(|e: (Seq<char>, Seq<PointView>)| e.0)
}

/// A plot with inverted bounds and no lines.
pub open spec fn empty_plot() -> PlotModel {
    PlotModel {
        x_min: instant_top(),
        x_max: instant_bottom(),
        y_min: POS_INF_BITS,
        y_max: NEG_INF_BITS,
        lines: Seq::empty(),
    }
}

/// Adds a point to the line `lk` of a plot (making the line if there is
/// none) and widens the bounds.
pub open spec fn plot_add(pl: PlotModel, lk: Seq<char>, p: PointView) -> PlotModel {
    PlotModel {
        x_min: lower_instant(pl.x_min, p.0),
        x_max: upper_instant(pl.x_max, p.0),
        y_min: lower_bits(pl.y_min, p.1),
        y_max: upper_bits(pl.y_max, p.1),
        lines: match key_index(line_keys(pl.lines), lk) {
            Some(j) => pl.lines.update(j, (lk, pl.lines[j].1.push(p))),
            None => pl.lines.push((lk, seq![p])),
        },
    }
}

impl Plot {
    pub fn new() -> (r: Self)
        ensures
            r.view() == empty_plot(),
    {
        let r = Plot { x_axis: XAxisRange::default(), y_axis: YAxisRange::default(), lines: Vec::new() };
        assert(lines_view(r.lines@) =~= Seq::empty());
        r
    }

    /// Adds `p` to the line `lk` and widens the bounds.
    pub fn add_point(&mut self, lk: &String, p: Point)
        ensures
            final(self).view() == plot_add(old(self).view(), lk@, p.view()),
    {
        let ghost pv = p.view();
        self.x_axis.set_min_max(p.x);
        self.y_axis.set_min_max(p.y_bits);
        let ghost lines0 = lines_view(self.lines@);
        assert(entry_keys(self.lines@) =~= line_keys(lines0));
        match find_entry(&self.lines, lk) {
            Some(j) => {
                proof {
                    lemma_key_index(entry_keys(self.lines@), lk@);
                }
                let ghost old_lines = self.lines@;
                assert(lines0[j as int] == (old_lines[j as int].0@, points_view(old_lines[j as int].1@)));
                let (k, mut pts) = self.lines.remove(j);
                pts.push(p);
                self.lines.insert(j, (k, pts));
                assert(points_view(pts@) =~= lines0[j as int].1.push(pv));
                assert(lines_view(self.lines@) =~= lines0.update(j as int, (lk@, lines0[j as int].1.push(pv))));
            },
            None => {
                let mut pts: Vec<Point> = Vec::new();
                pts.push(p);
                self.lines.push((lk.clone(), pts));
                assert(points_view(pts@) =~= seq![pv]);
                assert(lines_view(self.lines@) =~= lines0.push((lk@, seq![pv])));
            },
        }
    }
}

/// Plots of benchmark results over commit history, one per benchmark, keyed by
/// `<group>-<name>`.
#[derive(Debug)]
pub struct Plots(pub Vec<(String, Plot)>);

/// Mathematical form of [`Plots`].
pub type PlotsModel = Seq<(Seq<char>, PlotModel)>;

pub open spec fn entries_view(s: Seq<(String, Plot)>) -> PlotsModel {
    s.map_values(|e: (String, Plot)| (e.0@, e.1.view()))
}

impl Plots {
    pub open spec fn view(&self) -> PlotsModel {
        entries_view(self.0@)
    }
}

/// The series keys of a model.
pub open spec fn model_keys(m: PlotsModel) -> Seq<Seq<char>> {
    m.map_values(|e: (Seq<char>, PlotModel)| e.0)
}

/// The key of the series a record belongs to.
pub open spec fn series_key(d: DataView) -> Seq<char> {
    d.0.0 + seq![NAME_SEP] + d.0.1
}

/// The point a record contributes.
pub open spec fn point_of(d: DataView) -> PointView {
    (d.0.2.1, d.1, d.0.2.0)
}

/// Folds one record into the model, before any sorting.
pub open spec fn model_add(m: PlotsModel, d: DataView) -> PlotsModel {
    let sk = series_key(d);
    match key_index(model_keys(m), sk) {
        Some(i) => m.update(i, (sk, plot_add(m[i].1, d.0.2.2, point_of(d)))),
        None => m.push((sk, plot_add(empty_plot(), d.0.2.2, point_of(d)))),
    }
}

/// Folds records into the model in order, before any sorting.
pub open spec fn model_add_all(m: PlotsModel, ds: Seq<DataView>) -> PlotsModel
    decreases ds.len(),
{
    if ds.len() == 0 {
        m
    } else {
        model_add(model_add_all(m, ds.drop_last()), ds.last())
    }
}

/// `a` is `b` with every line sorted: same keys and bounds, and each line
/// holds the points of the matching line of `b`, in order.
pub open spec fn lines_sorted_from(a: PlotsModel, b: PlotsModel) -> bool {
    &&& a.len() == b.len()
    &&& forall|i: int|
        #![trigger a[i]]
        0 <= i < a.len() ==> {
            &&& a[i].0 == b[i].0
            &&& a[i].1.x_min == b[i].1.x_min
            &&& a[i].1.x_max == b[i].1.x_max
            &&& a[i].1.y_min == b[i].1.y_min
            &&& a[i].1.y_max == b[i].1.y_max
            &&& plot_lines_sorted_from(a[i].1.lines, b[i].1.lines)
        }
}

pub open spec fn plot_lines_sorted_from(
    a: Seq<(Seq<char>, Seq<PointView>)>,
    b: Seq<(Seq<char>, Seq<PointView>)>,
) -> bool {
    &&& a.len() == b.len()
    &&& forall|j: int|
        #![trigger a[j]]
        0 <= j < a.len() ==> a[j].0 == b[j].0 && sorted_from(a[j].1, b[j].1)
}

/// The points of line `lk` in series `sk`; none where either is missing.
pub open spec fn line_points(m: PlotsModel, sk: Seq<char>, lk: Seq<char>) -> Seq<PointView> {
    match key_index(model_keys(m), sk) {
        None => Seq::empty(),
        Some(i) => match key_index(line_keys(m[i].1.lines), lk) {
            None => Seq::empty(),
            Some(j) => m[i].1.lines[j].1,
        },
    }
}

proof fn lemma_key_index_update(keys: Seq<Seq<char>>, i: int, k: Seq<char>)
    requires
        key_index(keys, k) == Some(i),
    ensures
        keys.update(i, k) == keys,
{
    lemma_key_index(keys, k);
    assert(keys.update(i, k) =~= keys);
}

proof fn lemma_key_index_push(keys: Seq<Seq<char>>, k: Seq<char>)
    ensures
        key_index(keys.push(k), k) == Some(keys.len() as int),
{
    assert(keys.push(k).last() == k);
}

/// Adding a point to line `lk` of a plot appends it to that line.
proof fn lemma_plot_add_line(pl: PlotModel, lk: Seq<char>, p: PointView)
    ensures
        ({
            let lines = plot_add(pl, lk, p).lines;
            let old_line = match key_index(line_keys(pl.lines), lk) {
                None => Seq::<PointView>::empty(),
                Some(j) => pl.lines[j].1,
            };
            &&& key_index(line_keys(lines), lk) is Some
            &&& lines[key_index(line_keys(lines), lk)->0].1 == old_line.push(p)
        }),
{
    let ks = line_keys(pl.lines);
    match key_index(ks, lk) {
        Some(j) => {
            lemma_key_index(ks, lk);
            lemma_key_index_update(ks, j, lk);
            let lines = pl.lines.update(j, (lk, pl.lines[j].1.push(p)));
            assert(line_keys(lines) =~= ks.update(j, lk));
        },
        None => {
            let lines = pl.lines.push((lk, seq![p]));
            assert(line_keys(lines) =~= ks.push(lk));
            lemma_key_index_push(ks, lk);
            assert(Seq::<PointView>::empty().push(p) =~= seq![p]);
        },
    }
}

/// Folding a record appends its point to its line.
proof fn lemma_model_add_line(m: PlotsModel, d: DataView)
    ensures
        line_points(model_add(m, d), series_key(d), d.0.2.2) == line_points(
            m,
            series_key(d),
            d.0.2.2,
        ).push(point_of(d)),
{
    let sk = series_key(d);
    let lk = d.0.2.2;
    let ks = model_keys(m);
    match key_index(ks, sk) {
        Some(i) => {
            lemma_key_index(ks, sk);
            lemma_key_index_update(ks, i, sk);
            let m2 = m.update(i, (sk, plot_add(m[i].1, lk, point_of(d))));
            assert(model_keys(m2) =~= ks.update(i, sk));
            lemma_plot_add_line(m[i].1, lk, point_of(d));
        },
        None => {
            let m2 = m.push((sk, plot_add(empty_plot(), lk, point_of(d))));
            assert(model_keys(m2) =~= ks.push(sk));
            lemma_key_index_push(ks, sk);
            lemma_plot_add_line(empty_plot(), lk, point_of(d));
            assert(line_keys(empty_plot().lines) =~= Seq::<Seq<char>>::empty());
        },
    }
}

/// Folding a record leaves every other line as it was.
proof fn lemma_model_add_other_line(m: PlotsModel, d: DataView, sk: Seq<char>, lk: Seq<char>)
    requires
        sk != series_key(d) || lk != d.0.2.2,
    ensures
        line_points(model_add(m, d), sk, lk) == line_points(m, sk, lk),
{
    let ks = model_keys(m);
    let dk = series_key(d);
    let dl = d.0.2.2;
    let m2 = model_add(m, d);
    match key_index(ks, dk) {
        Some(i) => {
            lemma_key_index(ks, dk);
            lemma_key_index_update(ks, i, dk);
            assert(model_keys(m2) =~= ks.update(i, dk));
            assert(key_index(model_keys(m2), sk) == key_index(ks, sk));
            if key_index(ks, sk) is Some {
                lemma_key_index(ks, sk);
                let i2 = key_index(ks, sk)->0;
                if i2 == i {
                    let pl = m[i].1;
                    let lks = line_keys(pl.lines);
                    let pl2 = plot_add(pl, dl, point_of(d));
                    assert(m2[i].1 == pl2);
                    match key_index(lks, dl) {
                        Some(j) => {
                            lemma_key_index(lks, dl);
                            lemma_key_index_update(lks, j, dl);
                            assert(line_keys(pl2.lines) =~= lks.update(j, dl));
                            if key_index(lks, lk) is Some {
                                lemma_key_index(lks, lk);
                                assert(pl2.lines[key_index(lks, lk)->0] == pl.lines[key_index(lks, lk)->0]);
                            }
                        },
                        None => {
                            assert(line_keys(pl2.lines) =~= lks.push(dl));
                            assert(lks.push(dl).drop_last() =~= lks);
                            assert(key_index(line_keys(pl2.lines), lk) == key_index(lks, lk));
                            if key_index(lks, lk) is Some {
                                lemma_key_index(lks, lk);
                            }
                        },
                    }
                } else {
                    assert(m2[i2] == m[i2]);
                }
            }
        },
        None => {
            assert(model_keys(m2) =~= ks.push(dk));
            assert(ks.push(dk).drop_last() =~= ks);
            if sk == dk {
                lemma_key_index_none(ks, dk);
                lemma_key_index_push(ks, dk);
                let pl2 = plot_add(empty_plot(), dl, point_of(d));
                assert(line_keys(empty_plot().lines) =~= Seq::<Seq<char>>::empty());
                assert(line_keys(pl2.lines) =~= seq![dl]);
                assert(seq![dl].drop_last() =~= Seq::<Seq<char>>::empty());
                assert(seq![dl].last() == dl);
                assert(key_index(Seq::<Seq<char>>::empty(), lk) is None);
                assert(key_index(seq![dl], lk) is None);
                assert(key_index(line_keys(pl2.lines), lk) is None);
            } else {
                assert(key_index(model_keys(m2), sk) == key_index(ks, sk));
                if key_index(ks, sk) is Some {
                    lemma_key_index(ks, sk);
                    assert(m2[key_index(ks, sk)->0] == m[key_index(ks, sk)->0]);
                }
            }
        },
    }
}

/// The model only grows: after folding in any records, each line still
/// starts with exactly the points it held before, in the same order (before
/// the lines are sorted again).
pub proof fn lemma_fold_keeps_earlier_points(
    m: PlotsModel,
    ds: Seq<DataView>,
    sk: Seq<char>,
    lk: Seq<char>,
)
    ensures
        line_points(m, sk, lk).len() <= line_points(model_add_all(m, ds), sk, lk).len(),
        line_points(model_add_all(m, ds), sk, lk).subrange(0, line_points(m, sk, lk).len() as int)
            == line_points(m, sk, lk),
    decreases ds.len(),
{
    let old_line = line_points(m, sk, lk);
    if ds.len() == 0 {
        assert(old_line.subrange(0, old_line.len() as int) =~= old_line);
    } else {
        lemma_fold_keeps_earlier_points(m, ds.drop_last(), sk, lk);
        let prev = model_add_all(m, ds.drop_last());
        let d = ds.last();
        if sk == series_key(d) && lk == d.0.2.2 {
            lemma_model_add_line(prev, d);
            let pl = line_points(prev, sk, lk);
            assert(pl.push(point_of(d)).subrange(0, old_line.len() as int) =~= pl.subrange(
                0,
                old_line.len() as int,
            ));
        } else {
            lemma_model_add_other_line(prev, d, sk, lk);
        }
    }
}

/// Every line of the model is sorted.
pub open spec fn all_lines_sorted(m: PlotsModel) -> bool {
    forall|i: int, j: int|
        0 <= i < m.len() && 0 <= j < m[i].1.lines.len() ==> sorted(#[trigger] m[i].1.lines[j].1)
}

/// Folding in no records leaves a model whose lines are sorted exactly as it
/// was: loading a snapshot, folding nothing and saving it changes nothing.
pub proof fn lemma_fold_nothing_keeps_model(a: PlotsModel, m: PlotsModel)
    requires
        all_lines_sorted(m),
        lines_sorted_from(a, model_add_all(m, Seq::<DataView>::empty())),
    ensures
        a == m,
{
    assert(model_add_all(m, Seq::<DataView>::empty()) == m);
    assert forall|i: int| 0 <= i < a.len() implies #[trigger] a[i] == m[i] by {
        let la = a[i].1.lines;
        let lm = m[i].1.lines;
        assert forall|j: int| 0 <= j < la.len() implies #[trigger] la[j] == lm[j] by {
            lemma_stable_sort_of_sorted(lm[j].1);
        }
        assert(la =~= lm);
    }
    assert(a =~= m);
}

/// Folding the same record twice leaves its point twice in its line: the
/// model keeps duplicates.
pub proof fn lemma_fold_twice_keeps_both(m: PlotsModel, d: DataView)
    ensures
        line_points(model_add_all(m, seq![d, d]), series_key(d), d.0.2.2) == line_points(
            m,
            series_key(d),
            d.0.2.2,
        ) + seq![point_of(d), point_of(d)],
{
    assert(seq![d, d].drop_last() =~= seq![d]);
    assert(seq![d].drop_last() =~= Seq::<DataView>::empty());
    assert(model_add_all(m, Seq::<DataView>::empty()) == m);
    assert(model_add_all(m, seq![d]) == model_add(m, d));
    assert(model_add_all(m, seq![d, d]) == model_add(model_add(m, d), d));
    lemma_model_add_line(m, d);
    lemma_model_add_line(model_add(m, d), d);
    assert(line_points(m, series_key(d), d.0.2.2).push(point_of(d)).push(point_of(d))
        =~= line_points(m, series_key(d), d.0.2.2) + seq![point_of(d), point_of(d)]);
}

/// No key occurs twice.
pub open spec fn unique_keys(keys: Seq<Seq<char>>) -> bool {
    forall|i: int, j: int| 0 <= i < j < keys.len() ==> keys[i] != keys[j]
}

/// The model is a mapping: series keys are unique, and within each series the
/// parameter strings of its lines are unique.
pub open spec fn model_wf(m: PlotsModel) -> bool {
    &&& unique_keys(model_keys(m))
    &&& forall|i: int| 0 <= i < m.len() ==> unique_keys(line_keys(#[trigger] m[i].1.lines))
}

proof fn lemma_key_index_none(keys: Seq<Seq<char>>, k: Seq<char>)
    requires
        key_index(keys, k) is None,
    ensures
        forall|i: int| 0 <= i < keys.len() ==> keys[i] != k,
    decreases keys.len(),
{
    if keys.len() > 0 {
        lemma_key_index_none(keys.drop_last(), k);
        assert forall|i: int| 0 <= i < keys.len() implies keys[i] != k by {
            if i < keys.len() - 1 {
                assert(keys[i] == keys.drop_last()[i]);
            }
        }
    }
}

proof fn lemma_push_unique(keys: Seq<Seq<char>>, k: Seq<char>)
    requires
        unique_keys(keys),
        key_index(keys, k) is None,
    ensures
        unique_keys(keys.push(k)),
{
    lemma_key_index_none(keys, k);
}

proof fn lemma_plot_add_wf(pl: PlotModel, lk: Seq<char>, p: PointView)
    requires
        unique_keys(line_keys(pl.lines)),
    ensures
        unique_keys(line_keys(plot_add(pl, lk, p).lines)),
{
    let ks = line_keys(pl.lines);
    match key_index(ks, lk) {
        Some(j) => {
            lemma_key_index(ks, lk);
            lemma_key_index_update(ks, j, lk);
            assert(line_keys(plot_add(pl, lk, p).lines) =~= ks.update(j, lk));
        },
        None => {
            assert(line_keys(plot_add(pl, lk, p).lines) =~= ks.push(lk));
            lemma_push_unique(ks, lk);
        },
    }
}

proof fn lemma_model_add_wf(m: PlotsModel, d: DataView)
    requires
        model_wf(m),
    ensures
        model_wf(model_add(m, d)),
{
    let sk = series_key(d);
    let ks = model_keys(m);
    let m2 = model_add(m, d);
    match key_index(ks, sk) {
        Some(i) => {
            lemma_key_index(ks, sk);
            lemma_key_index_update(ks, i, sk);
            assert(model_keys(m2) =~= ks.update(i, sk));
            lemma_plot_add_wf(m[i].1, d.0.2.2, point_of(d));
            assert forall|k: int| 0 <= k < m2.len() implies unique_keys(
                line_keys(#[trigger] m2[k].1.lines),
            ) by {
                if k != i {
                    assert(m2[k] == m[k]);
                }
            }
        },
        None => {
            assert(model_keys(m2) =~= ks.push(sk));
            lemma_push_unique(ks, sk);
            assert(line_keys(empty_plot().lines) =~= Seq::<Seq<char>>::empty());
            lemma_plot_add_wf(empty_plot(), d.0.2.2, point_of(d));
            assert forall|k: int| 0 <= k < m2.len() implies unique_keys(
                line_keys(#[trigger] m2[k].1.lines),
            ) by {
                if k < m.len() {
                    assert(m2[k] == m[k]);
                }
            }
        },
    }
}

proof fn lemma_model_add_all_wf(m: PlotsModel, ds: Seq<DataView>)
    requires
        model_wf(m),
    ensures
        model_wf(model_add_all(m, ds)),
    decreases ds.len(),
{
    if ds.len() > 0 {
        lemma_model_add_all_wf(m, ds.drop_last());
        lemma_model_add_wf(model_add_all(m, ds.drop_last()), ds.last());
    }
}

proof fn lemma_sorted_wf(a: PlotsModel, b: PlotsModel)
    requires
        lines_sorted_from(a, b),
        model_wf(b),
    ensures
        model_wf(a),
{
    assert(model_keys(a) =~= model_keys(b));
    assert forall|i: int| 0 <= i < a.len() implies unique_keys(line_keys(#[trigger] a[i].1.lines)) by {
        assert(line_keys(a[i].1.lines) =~= line_keys(b[i].1.lines));
    }
}

pub open spec fn data_view(s: Seq<BenchData>) -> Seq<DataView> {
    s.map_values(|d: BenchData| d.view())
}

impl Plot {
    /// Sorts every line.
    pub fn sort_lines(&mut self)
        ensures
            final(self).view().x_min == old(self).view().x_min,
            final(self).view().x_max == old(self).view().x_max,
            final(self).view().y_min == old(self).view().y_min,
            final(self).view().y_max == old(self).view().y_max,
            plot_lines_sorted_from(final(self).view().lines, old(self).view().lines),
    {
        let ghost x0 = self.x_axis;
        let ghost y0 = self.y_axis;
        let mut rest: Vec<(String, Vec<Point>)> = Vec::new();
        std::mem::swap(&mut rest, &mut self.lines);
        assert(self.x_axis.min == x0.min && self.x_axis.max == x0.max);
        let ghost orig = lines_view(rest@);
        let ghost mut i: int = 0;
        while rest.len() > 0
            invariant
                0 <= i <= orig.len(),
                lines_view(rest@) =~= orig.subrange(i, orig.len() as int),
                plot_lines_sorted_from(lines_view(self.lines@), orig.subrange(0, i)),
                self.x_axis.min == x0.min,
                self.x_axis.max == x0.max,
                self.y_axis.min_bits == y0.min_bits,
                self.y_axis.max_bits == y0.max_bits,
            decreases rest.len(),
        {
            let ghost pre = rest@;
            assert(lines_view(pre).len() == orig.len() - i);
            assert(lines_view(pre)[0] == orig.subrange(i, orig.len() as int)[0]);
            let (k, pts) = rest.remove(0);
            assert forall|j: int| 0 <= j < rest@.len() implies lines_view(rest@)[j] == orig[i + 1
                + j] by {
                assert(rest@[j] == pre[j + 1]);
                assert(lines_view(rest@)[j] == (rest@[j].0@, points_view(rest@[j].1@)));
                assert(lines_view(pre)[j + 1] == (pre[j + 1].0@, points_view(pre[j + 1].1@)));
                assert(lines_view(pre)[j + 1] == orig.subrange(i, orig.len() as int)[j + 1]);
            }
            assert(lines_view(rest@) =~= orig.subrange(i + 1, orig.len() as int));
            let sorted_pts = sort_points(pts);
            let ghost before = lines_view(self.lines@);
            self.lines.push((k, sorted_pts));
            proof {
                assert(lines_view(self.lines@) =~= before.push((k@, points_view(sorted_pts@))));
                i = i + 1;
            }
        }
        assert(lines_view(rest@).len() == 0);
        assert(orig.subrange(0, i) =~= orig);
    }
}

impl Plots {
    pub fn new() -> (r: Self)
        ensures
            r.view() == Seq::<(Seq<char>, PlotModel)>::empty(),
            model_wf(r.view()),
    {
        let r = Plots(Vec::new());
        assert(r.view() =~= Seq::<(Seq<char>, PlotModel)>::empty());
        r
    }

    /// Folds one record into the model, without sorting.
    fn add_record(&mut self, d: &BenchData)
        ensures
            final(self).view() == model_add(old(self).view(), d.view()),
    {
        let ghost m = self.view();
        let name = join_with(d.id.group_name.as_str(), NAME_SEP, d.id.bench_name.as_str());
        let point = Point {
            x: d.id.params.commit_timestamp,
            y_bits: d.result.time_bits,
            label: d.id.params.commit_hash.clone(),
        };
        assert(point.view() == point_of(d.view()));
        assert(entry_keys(self.0@) =~= model_keys(m));
        match find_entry(&self.0, &name) {
            Some(i) => {
                proof {
                    lemma_key_index(entry_keys(self.0@), name@);
                }
                let ghost old_entries = self.0@;
                assert(m[i as int] == (old_entries[i as int].0@, old_entries[i as int].1.view()));
                let (k, mut plot) = self.0.remove(i);
                plot.add_point(&d.id.params.params, point);
                self.0.insert(i, (k, plot));
                assert(self.view() =~= m.update(
                    i as int,
                    (series_key(d.view()), plot_add(m[i as int].1, d.view().0.2.2, point_of(d.view()))),
                ));
            },
            None => {
                let mut plot = Plot::new();
                plot.add_point(&d.id.params.params, point);
                self.0.push((name, plot));
                assert(self.view() =~= m.push(
                    (series_key(d.view()), plot_add(empty_plot(), d.view().0.2.2, point_of(d.view()))),
                ));
            },
        }
    }

    /// Sorts every line of every plot.
    fn sort_all(&mut self)
        ensures
            lines_sorted_from(final(self).view(), old(self).view()),
    {
        let mut rest: Vec<(String, Plot)> = Vec::new();
        std::mem::swap(&mut rest, &mut self.0);
        let ghost orig = entries_view(rest@);
        let ghost mut i: int = 0;
        while rest.len() > 0
            invariant
                0 <= i <= orig.len(),
                entries_view(rest@) =~= orig.subrange(
                    i,
                    orig.len() as int,
                ),
                lines_sorted_from(self.view(), orig.subrange(0, i)),
            decreases rest.len(),
        {
            let ghost pre = rest@;
            let ghost pre_v = entries_view(pre);
            assert(pre_v.len() == orig.len() - i);
            assert(pre_v[0] == orig.subrange(i, orig.len() as int)[0]);
            let (k, mut plot) = rest.remove(0);
            assert forall|j: int| 0 <= j < rest@.len() implies entries_view(rest@)[j] == orig[i + 1
                + j] by {
                assert(rest@[j] == pre[j + 1]);
                assert(entries_view(rest@)[j] == (rest@[j].0@, rest@[j].1.view()));
                assert(pre_v[j + 1] == (pre[j + 1].0@, pre[j + 1].1.view()));
                assert(pre_v[j + 1] == orig.subrange(i, orig.len() as int)[j + 1]);
            }
            assert(entries_view(rest@) =~= orig.subrange(
                i + 1,
                orig.len() as int,
            ));
            plot.sort_lines();
            let ghost before = self.view();
            self.0.push((k, plot));
            proof {
                assert(self.view() =~= before.push((k@, plot.view())));
                i = i + 1;
            }
        }
        assert(entries_view(rest@).len() == 0);
        assert(orig.subrange(0, i) =~= orig);
    }

    /// Adds decoded benchmark records to the plots: each record's point goes to
    /// the line of its parameter string in the plot of its group and name
    /// (made where missing), the bounds widen, and afterwards every line is sorted.
    pub fn add_data(&mut self, bench_data: &Vec<BenchData>)
        ensures
            lines_sorted_from(final(self).view(), model_add_all(old(self).view(), data_view(bench_data@))),
            model_wf(old(self).view()) ==> model_wf(final(self).view()),
    {
        let mut i: usize = 0;
        while i < bench_data.len()
            invariant
                i <= bench_data.len(),
                self.view() == model_add_all(old(self).view(), data_view(bench_data@).subrange(0, i as int)),
            decreases bench_data.len() - i,
        {
            self.add_record(&bench_data[i]);
            proof {
                let ds = data_view(bench_data@).subrange(0, i + 1);
                assert(ds.drop_last() =~= data_view(bench_data@).subrange(0, i as int));
            }
            i = i + 1;
        }
        assert(data_view(bench_data@).subrange(0, i as int) =~= data_view(bench_data@));
        let ghost folded = self.view();
        self.sort_all();
        proof {
            if model_wf(old(self).view()) {
                lemma_model_add_all_wf(old(self).view(), data_view(bench_data@));
                lemma_sorted_wf(self.view(), folded);
            }
        }
    }
}

} // verus!
