use virtual_branches::branch::{Branch, BranchUpdateRequest};
use virtual_branches::hunk::Hunk;
use virtual_branches::oid::Oid;
use virtual_branches::ownership::Ownership;
use virtual_branches::reader::BranchReader;
use virtual_branches::store::{Error, Store};
use virtual_branches::writer::BranchWriter;
use virtual_branches::text::{decimal_string, parse_u128, split_lines, split_on, unescape_text};

fn test_branch(index: usize) -> Branch {
    Branch {
        id: format!("branch_{}", index),
        name: format!("branch_name_{}", index),
        applied: true,
        upstream: format!("upstream_{}", index),
        created_timestamp_ms: index as u128,
        updated_timestamp_ms: (index + 100) as u128,
        head: Oid::from_hex(&format!("0123456789abcdef0123456789abcdef0123456{}", index)).unwrap(),
        tree: Oid::from_hex(&format!("0123456789abcdef0123456789abcdef012345{}", index + 10)).unwrap(),
        ownership: vec![Ownership { file_path: format!("file/{}", index), hunks: vec![] }],
    }
}

fn hunk(start: usize, end: usize) -> Hunk {
    Hunk { start, end }
}

fn claim(path: &str, hunks: Vec<Hunk>) -> Ownership {
    Ownership { file_path: path.to_string(), hunks }
}

fn empty_branch() -> Branch {
    let mut b = test_branch(1);
    b.ownership = vec![];
    b
}

#[test]
fn test_read_not_found() {
    let store = Store::new();
    let reader = BranchReader::new(&store);
    let result = reader.read("not found");
    assert!(result.is_err());
    assert_eq!(result.unwrap_err().message(), "file not found");
}

#[test]
fn test_read_override() {
    let mut store = Store::new();
    let branch = test_branch(1);
    {
        let mut writer = BranchWriter::new(&mut store);
        writer.write(&branch);
    }
    let reader = BranchReader::new(&store);
    assert_eq!(branch, reader.read(&branch.id).unwrap());
}

#[test]
fn test_read_selected() {
    let mut store = Store::new();
    assert_eq!(None, BranchReader::new(&store).read_selected().unwrap());

    BranchWriter::new(&mut store).write_selected(&Some("test".to_string()));
    assert_eq!(Some("test".to_string()), BranchReader::new(&store).read_selected().unwrap());

    BranchWriter::new(&mut store).write_selected(&Some("updated".to_string()));
    assert_eq!(Some("updated".to_string()), BranchReader::new(&store).read_selected().unwrap());
}

#[test]
fn write_selected_none_clears_pointer() {
    let mut store = Store::new();
    BranchWriter::new(&mut store).write_selected(&Some("x".to_string()));
    BranchWriter::new(&mut store).write_selected(&None);
    assert_eq!(None, BranchReader::new(&store).read_selected().unwrap());
}

#[test]
fn round_trip_with_hunks_and_several_files() {
    let mut store = Store::new();
    let mut branch = test_branch(2);
    branch.ownership = vec![
        claim("a.txt", vec![hunk(1, 3), hunk(10, 12)]),
        claim("dir/b.rs", vec![hunk(0, 100)]),
    ];
    branch.applied = false;
    branch.created_timestamp_ms = u128::MAX;
    BranchWriter::new(&mut store).write(&branch);
    assert_eq!(store.get("branches/branch_2/meta/ownership").unwrap(), "a.txt:1-3,10-12\ndir/b.rs:0-100");
    assert_eq!(store.get("branches/branch_2/meta/applied").unwrap(), "false");
    assert_eq!(
        store.get("branches/branch_2/meta/created_timestamp_ms").unwrap(),
        "340282366920938463463374607431768211455"
    );
    assert_eq!(
        store.get("branches/branch_2/meta/head").unwrap(),
        "0123456789abcdef0123456789abcdef01234562"
    );
    let read = BranchReader::new(&store).read("branch_2").unwrap();
    assert_eq!(branch, read);
}

#[test]
fn read_of_absent_id_is_not_found() {
    let mut store = Store::new();
    BranchWriter::new(&mut store).write(&test_branch(3));
    let err = BranchReader::new(&store).read("nonexistent-id").unwrap_err();
    assert_eq!(err, Error::NotFound);
}

#[test]
fn malformed_ownership_line_fails_read() {
    let mut store = Store::new();
    BranchWriter::new(&mut store).write(&test_branch(4));
    store.set("branches/branch_4/meta/ownership", "a.txt:1-2\nb.txt:x-3\nc.txt:4-5");
    let err = BranchReader::new(&store).read("branch_4").unwrap_err();
    assert_eq!(
        err,
        Error::Parse { path: "branches/branch_4/meta/ownership".to_string(), value: "b.txt:x-3".to_string() }
    );
    assert_eq!(err.message(), "branches/branch_4/meta/ownership: cannot parse b.txt:x-3");
}

#[test]
fn missing_field_is_reported_by_path() {
    let mut store = Store::new();
    BranchWriter::new(&mut store).write(&test_branch(5));
    store.remove("branches/branch_5/meta/upstream");
    let err = BranchReader::new(&store).read("branch_5").unwrap_err();
    assert_eq!(err, Error::MissingField { path: "branches/branch_5/meta/upstream".to_string() });
    assert_eq!(err.message(), "branches/branch_5/meta/upstream: file not found");
}

#[test]
fn malformed_bool_timestamp_and_oid_fail_read() {
    let mut store = Store::new();
    BranchWriter::new(&mut store).write(&test_branch(6));
    store.set("branches/branch_6/meta/applied", "yes");
    assert_eq!(
        BranchReader::new(&store).read("branch_6").unwrap_err(),
        Error::Parse { path: "branches/branch_6/meta/applied".to_string(), value: "yes".to_string() }
    );
    store.set("branches/branch_6/meta/applied", "true");
    store.set("branches/branch_6/meta/tree", "abc");
    assert_eq!(
        BranchReader::new(&store).read("branch_6").unwrap_err(),
        Error::Parse { path: "branches/branch_6/meta/tree".to_string(), value: "abc".to_string() }
    );
    store.set("branches/branch_6/meta/tree", "0123456789abcdef0123456789abcdef01234516");
    store.set("branches/branch_6/meta/updated_timestamp_ms", "340282366920938463463374607431768211456");
    assert_eq!(
        BranchReader::new(&store).read("branch_6").unwrap_err(),
        Error::Parse {
            path: "branches/branch_6/meta/updated_timestamp_ms".to_string(),
            value: "340282366920938463463374607431768211456".to_string()
        }
    );
}

#[test]
fn put_twice_equals_put_once() {
    let mut once = empty_branch();
    let o = claim("a.txt", vec![hunk(1, 5), hunk(8, 9)]);
    once.put(&o);
    let mut twice = once.clone();
    twice.put(&o);
    assert_eq!(once.ownership, twice.ownership);
    assert_eq!(twice.ownership, vec![claim("a.txt", vec![hunk(1, 5), hunk(8, 9)])]);
}

#[test]
fn put_disjoint_then_take_second() {
    let mut b = empty_branch();
    b.put(&claim("f", vec![hunk(1, 3)]));
    b.put(&claim("f", vec![hunk(10, 20)]));
    assert_eq!(b.ownership, vec![claim("f", vec![hunk(1, 3), hunk(10, 20)])]);
    b.take(&claim("f", vec![hunk(10, 20)]));
    assert_eq!(b.ownership, vec![claim("f", vec![hunk(1, 3)])]);
}

#[test]
fn put_coalesces_adjacent_and_overlapping() {
    let mut b = empty_branch();
    b.put(&claim("f", vec![hunk(1, 3), hunk(7, 9)]));
    b.put(&claim("f", vec![hunk(3, 5)]));
    assert_eq!(b.ownership, vec![claim("f", vec![hunk(1, 5), hunk(7, 9)])]);
    b.put(&claim("f", vec![hunk(4, 8)]));
    assert_eq!(b.ownership, vec![claim("f", vec![hunk(1, 9)])]);
}

#[test]
fn take_splits_a_hunk() {
    let mut b = empty_branch();
    b.put(&claim("f", vec![hunk(0, 10)]));
    b.take(&claim("f", vec![hunk(3, 5)]));
    assert_eq!(b.ownership, vec![claim("f", vec![hunk(0, 3), hunk(5, 10)])]);
}

#[test]
fn full_subtraction_removes_entry() {
    let mut b = empty_branch();
    b.put(&claim("g", vec![hunk(2, 4)]));
    b.put(&claim("f", vec![hunk(2, 4)]));
    b.take(&claim("f", vec![hunk(2, 4)]));
    assert_eq!(b.ownership, vec![claim("g", vec![hunk(2, 4)])]);
}

#[test]
fn take_on_absent_file_changes_nothing() {
    let mut b = empty_branch();
    b.put(&claim("f", vec![hunk(2, 4)]));
    let before = b.clone();
    b.take(&claim("other", vec![hunk(2, 4)]));
    assert_eq!(b, before);
}

#[test]
fn put_of_no_hunks_adds_no_entry() {
    let mut b = empty_branch();
    b.put(&claim("f", vec![]));
    assert!(b.ownership.is_empty());
}

#[test]
fn containment_after_put() {
    let mut b = empty_branch();
    b.put(&claim("f", vec![hunk(10, 20)]));
    assert!(b.contains(&claim("f", vec![hunk(12, 15)])));
    assert!(b.contains(&claim("f", vec![hunk(10, 20)])));
    assert!(!b.contains(&claim("f", vec![hunk(15, 21)])));
    assert!(!b.contains(&claim("other", vec![hunk(12, 15)])));
}

#[test]
fn entries_stay_sorted_by_path() {
    let mut b = empty_branch();
    b.put(&claim("m", vec![hunk(1, 2)]));
    b.put(&claim("b", vec![hunk(1, 2)]));
    b.put(&claim("z", vec![hunk(1, 2)]));
    b.put(&claim("a/b", vec![hunk(1, 2)]));
    b.take(&claim("m", vec![hunk(1, 2)]));
    b.put(&claim("b", vec![hunk(5, 6)]));
    let paths: Vec<&str> = b.ownership.iter().map(|o| o.file_path.as_str()).collect();
    assert_eq!(paths, vec!["a/b", "b", "z"]);
}

#[test]
fn ownership_plus_minus_contains() {
    let a = claim("f", vec![hunk(1, 4)]);
    let c = claim("f", vec![hunk(4, 6), hunk(9, 10)]);
    let sum = a.plus(&c);
    assert_eq!(sum, claim("f", vec![hunk(1, 6), hunk(9, 10)]));
    assert_eq!(sum.minus(&c), Some(a.clone()));
    assert_eq!(a.minus(&a), None);
    assert_eq!(a.minus(&claim("g", vec![hunk(1, 4)])), Some(a.clone()));
    assert!(sum.contains(&a));
    assert!(!a.contains(&sum));
}

#[test]
fn oid_hex_forms() {
    let oid = Oid::from_hex("00FF10ab00000000000000000000000000000001").unwrap();
    assert_eq!(oid.bytes[..4], [0x00, 0xff, 0x10, 0xab]);
    assert_eq!(oid.bytes[19], 1);
    assert_eq!(oid.to_hex(), "00ff10ab00000000000000000000000000000001");
    assert!(Oid::from_hex("00ff").is_none());
    assert!(Oid::from_hex("g0ff10ab00000000000000000000000000000001").is_none());
}

#[test]
fn decimal_and_split_texts() {
    assert_eq!(decimal_string(0), "0");
    assert_eq!(decimal_string(1234), "1234");
    assert_eq!(parse_u128("0042"), Some(42));
    assert_eq!(parse_u128(""), None);
    assert_eq!(parse_u128("4x"), None);
    assert_eq!(split_on("a,b,,c", ','), vec!["a", "b", "", "c"]);
    assert_eq!(split_on("", ','), vec![""]);
}

#[test]
fn scoped_reads() {
    let mut store = Store::new();
    store.set("root/flag", "true");
    store.set("root/n", "17");
    let sub = store.scope("root");
    assert_eq!(sub.read_bool("flag"), Ok(true));
    assert_eq!(sub.read_u128("n"), Ok(17));
    assert_eq!(sub.read_string("missing"), Err(Error::NotFound));
    assert!(store.contains_path("root"));
    assert!(!store.contains_path("roo"));
}

#[test]
fn update_request_defaults() {
    let r = BranchUpdateRequest::default();
    assert_eq!(r.id, "");
    assert_eq!(r.name, None);
}

#[test]
fn hunks_out_of_normal_form_fail_read() {
    let mut store = Store::new();
    BranchWriter::new(&mut store).write(&test_branch(7));
    store.set("branches/branch_7/meta/ownership", "a.txt:5-3");
    assert_eq!(
        BranchReader::new(&store).read("branch_7").unwrap_err(),
        Error::Parse { path: "branches/branch_7/meta/ownership".to_string(), value: "a.txt:5-3".to_string() }
    );
    store.set("branches/branch_7/meta/ownership", "a.txt:1-4,3-6");
    assert_eq!(
        BranchReader::new(&store).read("branch_7").unwrap_err(),
        Error::Parse { path: "branches/branch_7/meta/ownership".to_string(), value: "a.txt:1-4,3-6".to_string() }
    );
}

#[test]
fn normal_form_check_of_ownership() {
    let mut b = empty_branch();
    b.put(&claim("b", vec![hunk(1, 2)]));
    b.put(&claim("a", vec![hunk(1, 2)]));
    assert!(b.has_normal_ownership());
    b.ownership.swap(0, 1);
    assert!(!b.has_normal_ownership());
    b.ownership = vec![claim("a", vec![hunk(1, 3), hunk(3, 4)])];
    assert!(!b.has_normal_ownership());
}

#[test]
fn paths_with_separators_round_trip() {
    let mut store = Store::new();
    let mut branch = test_branch(8);
    branch.ownership = vec![
        claim("", vec![]),
        claim("a:b", vec![]),
        claim("c:\\d\ne\r", vec![hunk(1, 2)]),
    ];
    BranchWriter::new(&mut store).write(&branch);
    assert_eq!(
        store.get("branches/branch_8/meta/ownership").unwrap(),
        ":\na:b:\nc:\\\\d\\ne\\r:1-2"
    );
    assert_eq!(branch, BranchReader::new(&store).read("branch_8").unwrap());
}

#[test]
fn stored_lines_read_like_str_lines() {
    let mut store = Store::new();
    BranchWriter::new(&mut store).write(&test_branch(9));
    store.set("branches/branch_9/meta/ownership", "a:1-2\r\nb:\n");
    let b = BranchReader::new(&store).read("branch_9").unwrap();
    assert_eq!(b.ownership, vec![claim("a", vec![hunk(1, 2)]), claim("b", vec![])]);
    store.set("branches/branch_9/meta/ownership", "");
    assert!(BranchReader::new(&store).read("branch_9").unwrap().ownership.is_empty());
    store.set("branches/branch_9/meta/ownership", "a\\q:");
    assert_eq!(
        BranchReader::new(&store).read("branch_9").unwrap_err(),
        Error::Parse { path: "branches/branch_9/meta/ownership".to_string(), value: "a\\q:".to_string() }
    );
}

#[test]
fn first_fault_in_reading_order_is_reported() {
    let mut store = Store::new();
    BranchWriter::new(&mut store).write(&test_branch(3));
    store.set("branches/branch_3/meta/ownership", "x:1-2\ny\nz");
    store.remove("branches/branch_3/meta/name");
    store.set("branches/branch_3/meta/applied", "maybe");
    assert_eq!(
        BranchReader::new(&store).read("branch_3").unwrap_err(),
        Error::MissingField { path: "branches/branch_3/meta/name".to_string() }
    );
    store.set("branches/branch_3/meta/name", "n");
    store.set("branches/branch_3/meta/applied", "true");
    assert_eq!(
        BranchReader::new(&store).read("branch_3").unwrap_err(),
        Error::Parse { path: "branches/branch_3/meta/ownership".to_string(), value: "y".to_string() }
    );
}

#[test]
fn text_lines_and_escapes() {
    assert_eq!(split_lines("a\n"), vec!["a"]);
    assert_eq!(split_lines("a\r\nb\r"), vec!["a", "b\r"]);
    assert_eq!(split_lines("\n"), vec![""]);
    assert!(split_lines("").is_empty());
    assert_eq!(unescape_text("x\\ny\\\\"), Some("x\ny\\".to_string()));
    assert_eq!(unescape_text("x\\"), None);
}
