use mergediff::engine::{classify, diff_records, merge_diff, next_step, DiffOutput, DiffSinks, Step};
use mergediff::key::{compare_keys, key_len, same_bytes};
use mergediff::sink::OutputSink;
use mergediff::source::{BufferedSource, MappedScan};
use std::cmp::Ordering;

fn recs(lines: &[&str]) -> Vec<Vec<u8>> {
    lines.iter().map(|l| l.as_bytes().to_vec()).collect()
}

fn run(new: &[&str], old: &[&str]) -> DiffOutput {
    diff_records(&recs(new), &recs(old))
}

fn run_bytes(new: &str, old: &str) -> (String, String, String) {
    let mut out = DiffSinks::new();
    merge_diff(new.as_bytes(), old.as_bytes(), &mut out);
    (
        String::from_utf8(out.creates.take()).unwrap(),
        String::from_utf8(out.updates.take()).unwrap(),
        String::from_utf8(out.deletes.take()).unwrap(),
    )
}

fn feed_all(src: &mut BufferedSource, data: &[u8], chunk: usize) {
    for piece in data.chunks(chunk) {
        src.feed(piece);
    }
    src.finish();
}

fn run_buffered(new: &str, old: &str, chunk: usize) -> (String, String, String) {
    let mut n = BufferedSource::new();
    let mut o = BufferedSource::new();
    feed_all(&mut n, new.as_bytes(), chunk);
    feed_all(&mut o, old.as_bytes(), chunk);
    let mut out = DiffSinks::new();
    loop {
        let step = next_step(n.peek(), o.peek());
        match step {
            None => break,
            Some(Step::Unchanged) => {
                n.advance();
                o.advance();
            }
            Some(Step::Update) => {
                out.updates.write(n.peek().unwrap());
                n.advance();
                o.advance();
            }
            Some(Step::Create) => {
                out.creates.write(n.peek().unwrap());
                n.advance();
            }
            Some(Step::Delete) => {
                out.deletes.write(o.peek().unwrap());
                o.advance();
            }
        }
    }
    (
        String::from_utf8(out.creates.take()).unwrap(),
        String::from_utf8(out.updates.take()).unwrap(),
        String::from_utf8(out.deletes.take()).unwrap(),
    )
}

#[test]
fn mixed_create_update_delete() {
    let d = run(&["1,a\n", "2,b\n", "3,c\n"], &["1,a\n", "2,x\n", "4,d\n"]);
    assert_eq!(d.creates, recs(&["3,c\n"]));
    assert_eq!(d.updates, recs(&["2,b\n"]));
    assert_eq!(d.deletes, recs(&["4,d\n"]));
}

#[test]
fn empty_new_stream_deletes_all() {
    let d = run(&[], &["1,a\n"]);
    assert!(d.creates.is_empty());
    assert!(d.updates.is_empty());
    assert_eq!(d.deletes, recs(&["1,a\n"]));
}

#[test]
fn empty_old_stream_creates_all() {
    let d = run(&["1,a\n", "2,b\n"], &[]);
    assert_eq!(d.creates, recs(&["1,a\n", "2,b\n"]));
    assert!(d.updates.is_empty());
    assert!(d.deletes.is_empty());
}

#[test]
fn both_streams_empty() {
    let d = run(&[], &[]);
    assert!(d.creates.is_empty() && d.updates.is_empty() && d.deletes.is_empty());
}

#[test]
fn duplicate_keys_are_not_merged() {
    let d = run(&["1,a\n", "1,a\n"], &["1,a\n"]);
    assert_eq!(d.creates, recs(&["1,a\n"]));
    assert!(d.updates.is_empty());
    assert!(d.deletes.is_empty());
}

#[test]
fn identical_streams_give_no_output() {
    let s = ["1,a\n", "2,b\n", "3,c\n"];
    let d = run(&s, &s);
    assert!(d.creates.is_empty() && d.updates.is_empty() && d.deletes.is_empty());
}

#[test]
fn keys_only_on_one_side_are_complete() {
    let d = run(&["1,a\n", "3,c\n", "5,e\n"], &["2,b\n", "3,c\n", "4,d\n"]);
    assert_eq!(d.creates, recs(&["1,a\n", "5,e\n"]));
    assert!(d.updates.is_empty());
    assert_eq!(d.deletes, recs(&["2,b\n", "4,d\n"]));
}

#[test]
fn updates_use_new_content_once_per_pair() {
    let d = run(&["a,1\n", "b,2\n", "c,3\n"], &["a,9\n", "b,2\n", "c,8\n"]);
    assert_eq!(d.updates, recs(&["a,1\n", "c,3\n"]));
    assert!(d.creates.is_empty() && d.deletes.is_empty());
}

#[test]
fn outputs_keep_source_order() {
    let d = run(
        &["1,a\n", "2,b\n", "4,d\n", "6,f\n", "7,g\n"],
        &["0,z\n", "2,x\n", "3,c\n", "5,e\n", "7,y\n"],
    );
    assert_eq!(d.creates, recs(&["1,a\n", "4,d\n", "6,f\n"]));
    assert_eq!(d.updates, recs(&["2,b\n", "7,g\n"]));
    assert_eq!(d.deletes, recs(&["0,z\n", "3,c\n", "5,e\n"]));
}

#[test]
fn single_column_records_use_whole_line_as_key() {
    let d = run(&["a\n", "b\n", "d\n"], &["a\n", "c\n", "d\n"]);
    assert_eq!(d.creates, recs(&["b\n"]));
    assert!(d.updates.is_empty());
    assert_eq!(d.deletes, recs(&["c\n"]));
}

#[test]
fn empty_key_sorts_first() {
    let d = run(&[",x\n", "1,a\n"], &["1,a\n"]);
    assert_eq!(d.creates, recs(&[",x\n"]));
}

#[test]
fn byte_regions_mixed_scenario() {
    let (c, u, d) = run_bytes("1,a\n2,b\n3,c\n", "1,a\n2,x\n4,d\n");
    assert_eq!(c, "3,c\n");
    assert_eq!(u, "2,b\n");
    assert_eq!(d, "4,d\n");
}

#[test]
fn byte_regions_empty_new() {
    let (c, u, d) = run_bytes("", "1,a\n");
    assert_eq!((c.as_str(), u.as_str(), d.as_str()), ("", "", "1,a\n"));
}

#[test]
fn byte_regions_duplicate_keys() {
    let (c, u, d) = run_bytes("1,a\n1,a\n", "1,a\n");
    assert_eq!((c.as_str(), u.as_str(), d.as_str()), ("1,a\n", "", ""));
}

#[test]
fn missing_final_terminator_is_significant() {
    let (c, u, d) = run_bytes("1,a\n2,b", "1,a\n2,b\n");
    assert_eq!((c.as_str(), u.as_str(), d.as_str()), ("", "2,b", ""));
}

#[test]
fn sinks_append_to_what_they_hold() {
    let mut out = DiffSinks::new();
    merge_diff(b"1,a\n", b"", &mut out);
    merge_diff(b"2,b\n", b"", &mut out);
    assert_eq!(out.creates.pending(), b"1,a\n2,b\n");
}

#[test]
fn strategies_give_identical_output() {
    let new = "1,a\n2,b\n3,c\n5,e\n6,f";
    let old = "1,a\n2,x\n4,d\n6,f\n7,g\n";
    let mapped = run_bytes(new, old);
    for chunk in [1, 2, 3, 5, 64] {
        assert_eq!(run_buffered(new, old, chunk), mapped);
    }
    assert_eq!(mapped.0, "3,c\n5,e\n");
    assert_eq!(mapped.1, "2,b\n6,f");
    assert_eq!(mapped.2, "4,d\n7,g\n");
}

#[test]
fn mapped_scan_yields_lines_with_terminators() {
    let data = b"ab\n\ncd";
    let mut s = MappedScan::new(data);
    assert_eq!(s.peek(), Some(&b"ab\n"[..]));
    assert_eq!(s.peek(), Some(&b"ab\n"[..]));
    s.advance();
    assert_eq!(s.peek(), Some(&b"\n"[..]));
    s.advance();
    assert_eq!(s.peek(), Some(&b"cd"[..]));
    s.advance();
    assert_eq!(s.peek(), None);
    s.advance();
    assert_eq!(s.peek(), None);
}

#[test]
fn buffered_source_waits_for_whole_records() {
    let mut s = BufferedSource::new();
    assert!(s.needs_input());
    s.feed(b"ab");
    assert!(s.needs_input());
    assert_eq!(s.peek(), None);
    s.feed(b"c\nd");
    assert!(!s.needs_input());
    assert_eq!(s.peek(), Some(&b"abc\n"[..]));
    s.advance();
    assert!(s.needs_input());
    s.finish();
    assert!(!s.needs_input());
    assert_eq!(s.peek(), Some(&b"d"[..]));
    s.advance();
    assert_eq!(s.peek(), None);
}

#[test]
fn key_is_span_before_first_comma() {
    assert_eq!(key_len(b"12,a,b\n"), 2);
    assert_eq!(key_len(b",a\n"), 0);
    assert_eq!(key_len(b"abc\n"), 4);
    assert_eq!(key_len(b""), 0);
}

#[test]
fn keys_compare_as_raw_bytes() {
    assert_eq!(compare_keys(b"10,a\n", b"9,a\n"), Ordering::Less);
    assert_eq!(compare_keys(b"1,a\n", b"12,a\n"), Ordering::Less);
    assert_eq!(compare_keys(b"b,a\n", b"a,z\n"), Ordering::Greater);
    assert_eq!(compare_keys(b"a,1\n", b"a,2\n"), Ordering::Equal);
    assert_eq!(compare_keys(b"B,1\n", b"a,1\n"), Ordering::Less);
}

#[test]
fn classify_routes_each_case() {
    assert_eq!(classify(b"1,a\n", b"1,a\n"), Step::Unchanged);
    assert_eq!(classify(b"1,b\n", b"1,a\n"), Step::Update);
    assert_eq!(classify(b"1,a\n", b"2,a\n"), Step::Create);
    assert_eq!(classify(b"2,a\n", b"1,a\n"), Step::Delete);
    assert!(same_bytes(b"x\n", b"x\n"));
    assert!(!same_bytes(b"x\n", b"x"));
}

#[test]
fn next_step_drains_after_exhaustion() {
    assert_eq!(next_step(Some(b"1,a\n"), None), Some(Step::Create));
    assert_eq!(next_step(None, Some(b"1,a\n")), Some(Step::Delete));
    assert_eq!(next_step(None, None), None);
}

#[test]
fn output_sink_take_empties_it() {
    let mut s = OutputSink::new();
    s.write(b"1,a\n");
    s.write(b"2,b\n");
    assert_eq!(s.take(), b"1,a\n2,b\n".to_vec());
    assert!(s.pending().is_empty());
}
