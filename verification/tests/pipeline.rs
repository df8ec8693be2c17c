// End-to-end runs of the aggregation pipeline: lines in, summary text out.
// The numeric work the library leaves to its caller (parsing a value,
// accumulating the sum, producing one-decimal display text) is done here
// exactly as the surrounding program does it.

use weather_stats::parse::split_line;
use weather_stats::parse::LineShape;
use weather_stats::render::render_summary;
use weather_stats::render::DisplayEntry;
use weather_stats::table::AggregateTable;

fn observe(table: &mut AggregateTable, key: Vec<u8>, v: f32) {
    let bits = v.to_bits();
    match table.find(&key) {
        Some(i) => {
            let s = table.get_stats(i);
            assert!(s.count < usize::MAX);
            let new_sum = (f32::from_bits(s.sum) + v).to_bits();
            table.update_at(i, bits, new_sum);
        }
        None => table.insert_new(key, bits),
    }
}

fn aggregate(input: &str) -> AggregateTable {
    let mut table = AggregateTable::new();
    for line in input.lines() {
        let mut bytes: Vec<u8> = line.as_bytes().to_vec();
        if bytes.last() == Some(&b'\r') {
            bytes.pop();
        }
        match split_line(&bytes) {
            LineShape::Record { key, number } => {
                if let Ok(text) = std::str::from_utf8(&number) {
                    if let Ok(v) = text.parse::<f32>() {
                        observe(&mut table, key, v);
                    }
                }
            }
            LineShape::Comment => {}
            LineShape::NoSeparator => {}
        }
    }
    table
}

fn run_pipeline(input: &str) -> String {
    let sorted = table_to_sorted(aggregate(input));
    let mut items: Vec<DisplayEntry> = Vec::new();
    for (key, min, mean, max) in sorted {
        items.push(DisplayEntry {
            key,
            min_text: format!("{:.1}", min).into_bytes(),
            mean_text: format!("{:.1}", mean).into_bytes(),
            max_text: format!("{:.1}", max).into_bytes(),
        });
    }
    String::from_utf8(render_summary(&items)).unwrap()
}

fn table_to_sorted(table: AggregateTable) -> Vec<(Vec<u8>, f32, f32, f32)> {
    let mut result = Vec::new();
    for e in table.into_sorted() {
        let min = f32::from_bits(e.stats.min);
        let max = f32::from_bits(e.stats.max);
        let mean = f32::from_bits(e.stats.sum) / e.stats.count as f32;
        result.push((e.key, min, mean, max));
    }
    result
}

#[test]
fn scenario_mixed_keys_and_comment() {
    let out = run_pipeline("A;1.0\nA;3.0\nB;5.0\n#comment\nA;2.0\n");
    assert_eq!(out, "{A=1.0/2.0/3.0, B=5.0/5.0/5.0}");
}

#[test]
fn scenario_only_comment() {
    let out = run_pipeline("#only a comment\n");
    assert_eq!(out, "{}");
}

#[test]
fn scenario_single_negative_reading() {
    let out = run_pipeline("X;-4.5\n");
    assert_eq!(out, "{X=-4.5/-4.5/-4.5}");
}

#[test]
fn scenario_malformed_value_then_valid() {
    let out = run_pipeline("Y;notanumber\nY;10.0\n");
    assert_eq!(out, "{Y=10.0/10.0/10.0}");
}

#[test]
fn idempotent_aggregation() {
    let input = "S;2.5\nT;-1.0\nS;7.25\n#x\nT;0.0\nbroken line\nS;3.5\n";
    let first = run_pipeline(input);
    let second = run_pipeline(input);
    assert_eq!(first, second);
    assert_eq!(first, "{S=2.5/4.4/7.2, T=-1.0/-0.5/0.0}");
}

#[test]
fn order_independence_of_min_max_count() {
    let orders = [
        "K;3.0\nK;1.5\nK;-2.0\nK;4.25\n",
        "K;-2.0\nK;4.25\nK;3.0\nK;1.5\n",
        "K;4.25\nZ;9.0\nK;3.0\n#noise\nK;1.5\nZ;8.0\nK;-2.0\n",
    ];
    let mut seen: Vec<(f32, f32, usize, f32)> = Vec::new();
    for input in orders {
        let table = aggregate(input);
        let i = table.find(&b"K".to_vec()).unwrap();
        let s = table.get_stats(i);
        seen.push((
            f32::from_bits(s.min),
            f32::from_bits(s.max),
            s.count,
            f32::from_bits(s.sum),
        ));
    }
    for (min, max, count, sum) in &seen {
        assert_eq!(*min, -2.0);
        assert_eq!(*max, 4.25);
        assert_eq!(*count, 4);
        assert!((sum - 6.75).abs() < 1e-3);
    }
}

#[test]
fn mean_matches_sum_over_count() {
    let values = [1.25f32, 3.5, -0.75, 10.0, 2.0];
    let mut input = String::new();
    for v in values {
        input.push_str(&format!("M;{}\n", v));
    }
    let sorted = table_to_sorted(aggregate(&input));
    assert_eq!(sorted.len(), 1);
    let expected: f32 = values.iter().sum::<f32>() / values.len() as f32;
    assert!((sorted[0].2 - expected).abs() < 1e-3);
}

#[test]
fn comment_and_malformed_lines_change_nothing() {
    let base = "A;1.0\nB;2.0\nA;3.0\nC;-1.5\n";
    let noisy = "#header\nA;1.0\nnonsense\nB;2.0\n#mid comment\nA;3.0\nB;not_a_number\nC;-1.5\n###\n";
    assert_eq!(run_pipeline(base), run_pipeline(noisy));
}

#[test]
fn output_keys_strictly_ascending() {
    let input = "delta;1.0\nalpha;2.0\ncharlie;3.0\nbravo;4.0\nalpha;5.0\n";
    let sorted = table_to_sorted(aggregate(input));
    let keys: Vec<&Vec<u8>> = sorted.iter().map(|e| &e.0).collect();
    assert_eq!(keys.len(), 4);
    for w in keys.windows(2) {
        assert!(w[0] < w[1]);
    }
    let out = run_pipeline(input);
    assert_eq!(out, "{alpha=2.0/3.5/5.0, bravo=4.0/4.0/4.0, charlie=3.0/3.0/3.0, delta=1.0/1.0/1.0}");
}

#[test]
fn empty_key_is_accepted() {
    let out = run_pipeline(";5.0\n");
    assert_eq!(out, "{=5.0/5.0/5.0}");
}

#[test]
fn second_separator_spoils_the_number() {
    let out = run_pipeline("A;1.0;2.0\nA;4.0\n");
    assert_eq!(out, "{A=4.0/4.0/4.0}");
}

#[test]
fn carriage_returns_are_tolerated() {
    let out = run_pipeline("A;1.0\r\nA;2.0\r\n");
    assert_eq!(out, "{A=1.0/1.5/2.0}");
}

#[test]
fn negative_and_positive_extremes() {
    let out = run_pipeline("P;-5.0\nP;-1.0\nP;3.0\n");
    assert_eq!(out, "{P=-5.0/-1.0/3.0}");
}

#[test]
fn reading_between_extremes_changes_neither() {
    let table = aggregate("Q;1.0\nQ;5.0\nQ;3.0\n");
    let i = table.find(&b"Q".to_vec()).unwrap();
    let s = table.get_stats(i);
    assert_eq!(f32::from_bits(s.min), 1.0);
    assert_eq!(f32::from_bits(s.max), 5.0);
    assert_eq!(s.count, 3);
}
