use bench_plot::bench_id::{BenchId, BenchParams, UtcTimestamp};
use bench_plot::order::{float_lt_exec, y_key_exec, Point};
use bench_plot::patch::{patch_string, PatchType};
use bench_plot::plot::{Plot, Plots, XAxisRange, YAxisRange};
use bench_plot::record::{BenchData, BenchResult};

fn record(group: &str, name: &str, hash: &str, secs: i64, params: &str, y: f64) -> BenchData {
    BenchData {
        id: BenchId {
            group_name: group.into(),
            bench_name: name.into(),
            params: BenchParams {
                commit_hash: hash.into(),
                commit_timestamp: UtcTimestamp { secs, nanos: 0 },
                params: params.into(),
            },
        },
        result: BenchResult { time_bits: y.to_bits() },
    }
}

fn plot<'a>(plots: &'a Plots, key: &str) -> &'a Plot {
    &plots.0.iter().find(|(k, _)| k == key).unwrap().1
}

fn line<'a>(plot: &'a Plot, key: &str) -> &'a Vec<Point> {
    &plot.lines.iter().find(|(k, _)| k == key).unwrap().1
}

fn ys(points: &[Point]) -> Vec<f64> {
    points.iter().map(|p| f64::from_bits(p.y_bits)).collect()
}

#[test]
fn records_are_grouped_and_sorted() {
    let mut plots = Plots::new();
    plots.add_data(&vec![
        record("Fib", "Prove", "c3", 300, "rc=100", 3.0),
        record("Fib", "Prove", "c1", 100, "rc=100", 1.0),
        record("Fib", "Prove", "c2", 200, "rc=200", 2.0),
        record("Fib", "Verify", "c1", 100, "rc=100", 9.0),
    ]);
    assert_eq!(plots.0.len(), 2);
    let p = plot(&plots, "Fib-Prove");
    assert_eq!(p.lines.len(), 2);
    let l = line(p, "rc=100");
    assert_eq!(l.iter().map(|q| q.label.as_str()).collect::<Vec<_>>(), vec!["c1", "c3"]);
    assert_eq!(p.x_axis.min, UtcTimestamp { secs: 100, nanos: 0 });
    assert_eq!(p.x_axis.max, UtcTimestamp { secs: 300, nanos: 0 });
    assert_eq!(f64::from_bits(p.y_axis.min_bits), 1.0);
    assert_eq!(f64::from_bits(p.y_axis.max_bits), 3.0);
    assert_eq!(ys(line(plot(&plots, "Fib-Verify"), "rc=100")), vec![9.0]);
}

#[test]
fn folding_a_record_twice_keeps_both_points() {
    let mut plots = Plots::new();
    plots.add_data(&vec![record("G", "N", "h", 5, "p", 1.25)]);
    plots.add_data(&vec![record("G", "N", "h", 5, "p", 1.25)]);
    let l = line(plot(&plots, "G-N"), "p");
    assert_eq!(l.len(), 2);
    assert_eq!(l[0], l[1]);
}

#[test]
fn later_folds_keep_earlier_points_and_resort() {
    let mut plots = Plots::new();
    plots.add_data(&vec![record("G", "N", "b", 20, "p", 2.0)]);
    plots.add_data(&vec![record("G", "N", "a", 10, "p", 1.0), record("G", "N", "c", 30, "p", 0.5)]);
    let l = line(plot(&plots, "G-N"), "p");
    assert_eq!(l.iter().map(|q| q.x.secs).collect::<Vec<_>>(), vec![10, 20, 30]);
    assert_eq!(f64::from_bits(plot(&plots, "G-N").y_axis.min_bits), 0.5);
}

#[test]
fn equal_times_sort_by_value_then_label() {
    let mut plots = Plots::new();
    plots.add_data(&vec![
        record("G", "N", "z", 10, "p", 2.0),
        record("G", "N", "b", 10, "p", 1.0),
        record("G", "N", "a", 10, "p", 2.0),
    ]);
    let l = line(plot(&plots, "G-N"), "p");
    assert_eq!(l.iter().map(|q| q.label.as_str()).collect::<Vec<_>>(), vec!["b", "a", "z"]);
}

#[test]
fn nan_sorts_after_numbers_and_leaves_bounds() {
    let mut plots = Plots::new();
    plots.add_data(&vec![
        record("G", "N", "a", 10, "p", f64::NAN),
        record("G", "N", "b", 10, "p", 5.0),
        record("G", "N", "c", 10, "p", -1.0),
        record("G", "N", "d", 10, "p", f64::INFINITY),
    ]);
    let p = plot(&plots, "G-N");
    let l = line(p, "p");
    assert_eq!(l.iter().map(|q| q.label.as_str()).collect::<Vec<_>>(), vec!["c", "b", "d", "a"]);
    assert!(f64::from_bits(l[3].y_bits).is_nan());
    assert_eq!(f64::from_bits(p.y_axis.min_bits), -1.0);
    assert_eq!(f64::from_bits(p.y_axis.max_bits), f64::INFINITY);
}

#[test]
fn new_plot_has_inverted_bounds() {
    let p = Plot::new();
    assert!(p.lines.is_empty());
    assert!(p.x_axis.min > p.x_axis.max);
    assert_eq!(f64::from_bits(p.y_axis.min_bits), f64::INFINITY);
    assert_eq!(f64::from_bits(p.y_axis.max_bits), f64::NEG_INFINITY);
}

#[test]
fn set_min_max_widens_only() {
    let mut x = XAxisRange::default();
    x.set_min_max(UtcTimestamp { secs: 7, nanos: 1 });
    assert_eq!((x.min, x.max), (UtcTimestamp { secs: 7, nanos: 1 }, UtcTimestamp { secs: 7, nanos: 1 }));
    x.set_min_max(UtcTimestamp { secs: 7, nanos: 0 });
    assert_eq!(x.min, UtcTimestamp { secs: 7, nanos: 0 });
    assert_eq!(x.max, UtcTimestamp { secs: 7, nanos: 1 });
    let mut y = YAxisRange::default();
    y.set_min_max(0.0f64.to_bits());
    y.set_min_max((-0.0f64).to_bits());
    assert_eq!(y.min_bits, 0.0f64.to_bits());
    y.set_min_max(f64::NAN.to_bits());
    assert_eq!(y.max_bits, 0.0f64.to_bits());
}

#[test]
fn float_order_matches_ieee_on_numbers() {
    let vals = [f64::NEG_INFINITY, -3.5, -0.0, 0.0, 1e-300, 2.0, f64::MAX, f64::INFINITY];
    for a in vals {
        for b in vals {
            assert_eq!(float_lt_exec(a.to_bits(), b.to_bits()), a < b, "{} {}", a, b);
        }
        assert!(!float_lt_exec(a.to_bits(), f64::NAN.to_bits()));
        assert!(y_key_exec(a.to_bits()) < y_key_exec(f64::NAN.to_bits()));
    }
    assert_eq!(y_key_exec(0.0f64.to_bits()), y_key_exec((-0.0f64).to_bits()));
    assert_eq!(y_key_exec(1.0f64.to_bits()), 0x8000_0000_0000_0000 + 0x3FF0_0000_0000_0000);
}

#[test]
fn patch_sources() {
    assert_eq!(patch_string(&PatchType::CratesIO, "org/repo"), "crates-io");
    assert_eq!(patch_string(&PatchType::Ssh, "org/repo"), "ssh://git@github.com/org/repo");
    assert_eq!(patch_string(&PatchType::Https, "org/repo"), "https://github.com/org/repo");
    assert_eq!(PatchType::default(), PatchType::Https);
}

#[test]
fn equal_points_keep_their_order() {
    let mut plots = Plots::new();
    plots.add_data(&vec![
        record("G", "N", "h", 10, "p", -0.0),
        record("G", "N", "h", 10, "p", 0.0),
    ]);
    let l = line(plot(&plots, "G-N"), "p");
    assert_eq!(l[0].y_bits, (-0.0f64).to_bits());
    assert_eq!(l[1].y_bits, 0.0f64.to_bits());

    let mut plots = Plots::new();
    plots.add_data(&vec![
        record("G", "N", "h", 10, "p", 0.0),
        record("G", "N", "h", 10, "p", -0.0),
    ]);
    let l = line(plot(&plots, "G-N"), "p");
    assert_eq!(l[0].y_bits, 0.0f64.to_bits());
    assert_eq!(l[1].y_bits, (-0.0f64).to_bits());
}

#[test]
fn folding_nothing_changes_nothing() {
    let mut plots = Plots::new();
    plots.add_data(&vec![
        record("G", "N", "h", 10, "p", -0.0),
        record("G", "N", "h", 10, "p", 0.0),
        record("G", "N", "a", 5, "p", 3.0),
    ]);
    let before: Vec<(u64, String)> =
        line(plot(&plots, "G-N"), "p").iter().map(|q| (q.y_bits, q.label.clone())).collect();
    plots.add_data(&vec![]);
    let after: Vec<(u64, String)> =
        line(plot(&plots, "G-N"), "p").iter().map(|q| (q.y_bits, q.label.clone())).collect();
    assert_eq!(before, after);
    assert_eq!(after[0].1, "a");
}
