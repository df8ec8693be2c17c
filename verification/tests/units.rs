// Unit tests of the individual library pieces.

use weather_stats::lex::bytes_eq;
use weather_stats::lex::bytes_lt;
use weather_stats::order::value_is_lt;
use weather_stats::parse::split_line;
use weather_stats::parse::LineShape;
use weather_stats::render::render_summary;
use weather_stats::render::DisplayEntry;
use weather_stats::stats::Stored;
use weather_stats::table::AggregateTable;

#[test]
fn split_line_comment() {
    match split_line(&b"#anything; even; with, separators".to_vec()) {
        LineShape::Comment => {}
        _ => panic!("expected a comment"),
    }
}

#[test]
fn split_line_without_separator() {
    match split_line(&b"no separator here".to_vec()) {
        LineShape::NoSeparator => {}
        _ => panic!("expected a malformed line"),
    }
}

#[test]
fn split_line_record_splits_at_first_separator() {
    match split_line(&b"station one;12.5;junk".to_vec()) {
        LineShape::Record { key, number } => {
            assert_eq!(key, b"station one".to_vec());
            assert_eq!(number, b"12.5;junk".to_vec());
        }
        _ => panic!("expected a record"),
    }
}

#[test]
fn split_line_empty_key() {
    match split_line(&b";7.5".to_vec()) {
        LineShape::Record { key, number } => {
            assert_eq!(key, b"".to_vec());
            assert_eq!(number, b"7.5".to_vec());
        }
        _ => panic!("expected a record"),
    }
}

#[test]
fn split_line_empty_line_is_malformed() {
    match split_line(&Vec::new()) {
        LineShape::NoSeparator => {}
        _ => panic!("expected a malformed line"),
    }
}

#[test]
fn value_order_matches_numeric_order() {
    let pairs = [
        (-5.0f32, -1.0f32),
        (-1.0, 0.0),
        (0.0, 0.5),
        (0.5, 1.0),
        (1.0, 100.25),
        (-100.0, 99.5),
    ];
    for (lo, hi) in pairs {
        assert!(value_is_lt(lo.to_bits(), hi.to_bits()));
        assert!(!value_is_lt(hi.to_bits(), lo.to_bits()));
    }
    assert!(!value_is_lt(2.5f32.to_bits(), 2.5f32.to_bits()));
}

#[test]
fn bytes_lt_is_lexicographic() {
    assert!(bytes_lt(&b"abc".to_vec(), &b"abd".to_vec()));
    assert!(bytes_lt(&b"ab".to_vec(), &b"abc".to_vec()));
    assert!(bytes_lt(&b"".to_vec(), &b"a".to_vec()));
    assert!(!bytes_lt(&b"b".to_vec(), &b"ab".to_vec()));
    assert!(!bytes_lt(&b"abc".to_vec(), &b"abc".to_vec()));
}

#[test]
fn bytes_eq_compares_contents() {
    assert!(bytes_eq(&b"same".to_vec(), &b"same".to_vec()));
    assert!(!bytes_eq(&b"same".to_vec(), &b"sane".to_vec()));
    assert!(!bytes_eq(&b"short".to_vec(), &b"shorter".to_vec()));
}

#[test]
fn stored_new_from_single_reading() {
    let v = 4.25f32.to_bits();
    let s = Stored::new(v);
    assert_eq!(s.min, v);
    assert_eq!(s.max, v);
    assert_eq!(s.sum, v);
    assert_eq!(s.count, 1);
}

#[test]
fn stored_update_moves_min_and_max_independently() {
    let mut s = Stored::new(2.0f32.to_bits());
    s.update(5.0f32.to_bits(), (2.0f32 + 5.0).to_bits());
    assert_eq!(f32::from_bits(s.min), 2.0);
    assert_eq!(f32::from_bits(s.max), 5.0);
    s.update((-3.0f32).to_bits(), (7.0f32 - 3.0).to_bits());
    assert_eq!(f32::from_bits(s.min), -3.0);
    assert_eq!(f32::from_bits(s.max), 5.0);
    s.update(1.0f32.to_bits(), (4.0f32 + 1.0).to_bits());
    assert_eq!(f32::from_bits(s.min), -3.0);
    assert_eq!(f32::from_bits(s.max), 5.0);
    assert_eq!(s.count, 4);
    assert_eq!(f32::from_bits(s.sum), 5.0);
}

#[test]
fn table_find_insert_and_update() {
    let mut t = AggregateTable::new();
    assert_eq!(t.len(), 0);
    assert!(t.find(&b"A".to_vec()).is_none());
    t.insert_new(b"A".to_vec(), 1.5f32.to_bits());
    t.insert_new(b"B".to_vec(), 2.5f32.to_bits());
    assert_eq!(t.len(), 2);
    let ia = t.find(&b"A".to_vec()).unwrap();
    let s = t.get_stats(ia);
    assert_eq!(f32::from_bits(s.min), 1.5);
    assert!(s.count < usize::MAX);
    t.update_at(ia, 0.5f32.to_bits(), (1.5f32 + 0.5).to_bits());
    let s = t.get_stats(ia);
    assert_eq!(f32::from_bits(s.min), 0.5);
    assert_eq!(f32::from_bits(s.max), 1.5);
    assert_eq!(s.count, 2);
    assert!(t.find(&b"C".to_vec()).is_none());
}

#[test]
fn into_sorted_orders_keys() {
    let mut t = AggregateTable::new();
    t.insert_new(b"zulu".to_vec(), 1.0f32.to_bits());
    t.insert_new(b"alpha".to_vec(), 2.0f32.to_bits());
    t.insert_new(b"mike".to_vec(), 3.0f32.to_bits());
    let sorted = t.into_sorted();
    let keys: Vec<Vec<u8>> = sorted.iter().map(|e| e.key.clone()).collect();
    assert_eq!(keys, vec![b"alpha".to_vec(), b"mike".to_vec(), b"zulu".to_vec()]);
}

#[test]
fn render_empty_summary() {
    let items: Vec<DisplayEntry> = Vec::new();
    assert_eq!(render_summary(&items), b"{}".to_vec());
}

#[test]
fn render_two_entries() {
    let items = vec![
        DisplayEntry {
            key: b"A".to_vec(),
            min_text: b"1.0".to_vec(),
            mean_text: b"2.0".to_vec(),
            max_text: b"3.0".to_vec(),
        },
        DisplayEntry {
            key: b"B".to_vec(),
            min_text: b"-4.5".to_vec(),
            mean_text: b"-4.5".to_vec(),
            max_text: b"-4.5".to_vec(),
        },
    ];
    assert_eq!(
        String::from_utf8(render_summary(&items)).unwrap(),
        "{A=1.0/2.0/3.0, B=-4.5/-4.5/-4.5}"
    );
}
