use kv_export::{
    collect_records, encode_key, export_table, format_views, output_destination, render_table,
    Credential, DestinationError, ExportRecord, FailedFetch, FetchError, FetchOutcome,
};

fn ok(key: &str, views: usize) -> FetchOutcome {
    FetchOutcome { key: key.to_string(), result: Ok(views) }
}

fn failed(key: &str, error: FetchError) -> FetchOutcome {
    FetchOutcome { key: key.to_string(), result: Err(error) }
}

fn text(bytes: Vec<u8>) -> String {
    String::from_utf8(bytes).unwrap()
}

fn credential() -> Credential {
    Credential::new("tok".to_string(), "acc".to_string(), "ns".to_string())
}

#[test]
fn two_keys_give_sorted_table() {
    let outcomes = vec![ok("c", 10), ok("a/b", 3)];
    let table = export_table(&outcomes).unwrap();
    assert_eq!(text(table), "path,views\na/b,3\nc,10\n");
}

#[test]
fn no_keys_give_header_only() {
    let table = export_table(&Vec::new()).unwrap();
    assert_eq!(text(table), "path,views\n");
}

#[test]
fn one_failed_fetch_gives_no_table() {
    let outcomes = vec![ok("a/b", 3), failed("c", FetchError::Transport)];
    let r = export_table(&outcomes);
    assert_eq!(r, Err(FailedFetch { index: 1, error: FetchError::Transport }));
}

#[test]
fn first_failure_is_reported() {
    let outcomes = vec![
        ok("a", 1),
        failed("b", FetchError::Decode),
        failed("c", FetchError::Transport),
    ];
    match collect_records(&outcomes) {
        Err(f) => assert_eq!(f, FailedFetch { index: 1, error: FetchError::Decode }),
        Ok(_) => panic!("a failed batch gave records"),
    }
}

#[test]
fn order_does_not_depend_on_completion_order() {
    let keys = ["zeta", "alpha", "a/b", "Beta", "é", "alpha/x", "m"];
    let mut orders: Vec<Vec<usize>> = vec![
        (0..keys.len()).collect(),
        (0..keys.len()).rev().collect(),
        vec![3, 1, 6, 0, 5, 2, 4],
    ];
    orders.push(vec![6, 5, 4, 0, 1, 2, 3]);
    let mut tables = Vec::new();
    for order in orders {
        let outcomes: Vec<FetchOutcome> = order.iter().map(|&i| ok(keys[i], i * 7)).collect();
        let records = collect_records(&outcomes).ok().unwrap();
        assert_eq!(records.len(), keys.len());
        for w in records.windows(2) {
            assert!(w[0].path < w[1].path);
        }
        tables.push(text(export_table(&outcomes).unwrap()));
    }
    for t in &tables {
        assert_eq!(t, &tables[0]);
    }
}

#[test]
fn every_outcome_becomes_one_record() {
    let outcomes: Vec<FetchOutcome> = (0..50).map(|i| ok(&format!("k{}", 49 - i), i)).collect();
    let records = collect_records(&outcomes).ok().unwrap();
    assert_eq!(records.len(), 50);
    assert_eq!(records[0].path, "k0");
    assert_eq!(records[0].views, 49);
    assert_eq!(records[49].path, "k9");
}

#[test]
fn table_round_trips_through_csv_reader() {
    let records = vec![
        ExportRecord { path: "a/b".to_string(), views: 3 },
        ExportRecord { path: "c".to_string(), views: 10 },
        ExportRecord { path: "with,comma".to_string(), views: 0 },
        ExportRecord { path: "say \"hi\"".to_string(), views: usize::MAX },
    ];
    let table = render_table(&records);
    let mut reader = csv::Reader::from_reader(table.as_slice());
    let header = reader.headers().unwrap().clone();
    assert_eq!(header.iter().collect::<Vec<_>>(), vec!["path", "views"]);
    let back: Vec<(String, usize)> = reader
        .records()
        .map(|r| {
            let r = r.unwrap();
            (r[0].to_string(), r[1].parse::<usize>().unwrap())
        })
        .collect();
    let expected: Vec<(String, usize)> =
        records.iter().map(|r| (r.path.clone(), r.views)).collect();
    assert_eq!(back, expected);
}

#[test]
fn special_fields_are_quoted() {
    let records = vec![ExportRecord { path: "x,\"y\"".to_string(), views: 1 }];
    let table = render_table(&records);
    assert_eq!(text(table), "path,views\n\"x,\"\"y\"\"\",1\n");
}

#[test]
fn views_in_decimal() {
    assert_eq!(format_views(0), b"0".to_vec());
    assert_eq!(format_views(7), b"7".to_vec());
    assert_eq!(format_views(10), b"10".to_vec());
    assert_eq!(format_views(1234567890), b"1234567890".to_vec());
    assert_eq!(format_views(usize::MAX), usize::MAX.to_string().into_bytes());
}

#[test]
fn key_with_slash_space_and_unicode_is_encoded() {
    let encoded = encode_key("a/b c/é");
    assert_eq!(encoded, "a%2Fb%20c%2F%C3%A9");
    let decoded = percent_encoding::percent_decode_str(&encoded).decode_utf8().unwrap();
    assert_eq!(decoded, "a/b c/é");
}

#[test]
fn alphanumeric_key_is_kept() {
    assert_eq!(encode_key("Page42"), "Page42");
    assert_eq!(encode_key(""), "");
}

#[test]
fn listing_target() {
    assert_eq!(
        credential().keys_url(),
        "https://api.cloudflare.com/client/v4/accounts/acc/storage/kv/namespaces/ns/keys"
    );
}

#[test]
fn value_target_encodes_key() {
    assert_eq!(
        credential().value_url("a/b"),
        "https://api.cloudflare.com/client/v4/accounts/acc/storage/kv/namespaces/ns/values/a%2Fb"
    );
}

#[test]
fn one_fetch_target_per_key() {
    let keys = vec!["a/b".to_string(), "c".to_string(), "c d".to_string()];
    let urls = credential().fetch_urls(&keys);
    assert_eq!(urls.len(), keys.len());
    assert!(urls[2].ends_with("/values/c%20d"));
    assert!(credential().fetch_urls(&Vec::new()).is_empty());
}

#[test]
fn bearer_header() {
    assert_eq!(credential().authorization(), "Bearer tok");
}

#[test]
fn empty_record_list_gives_header_row() {
    assert_eq!(text(render_table(&Vec::new())), "path,views\n");
}

#[test]
fn output_file_is_taken_as_given() {
    let r = output_destination(Some("out.csv".to_string()), None, "t.csv".to_string());
    assert_eq!(r, Ok("out.csv".to_string()));
}

#[test]
fn output_directory_gets_the_file_name() {
    let name = "2024-01-02T03:04:05Z.csv".to_string();
    let r = output_destination(None, Some("data".to_string()), name.clone());
    assert_eq!(r, Ok("data/2024-01-02T03:04:05Z.csv".to_string()));
    let r = output_destination(None, Some("data/".to_string()), name.clone());
    assert_eq!(r, Ok("data/2024-01-02T03:04:05Z.csv".to_string()));
    let r = output_destination(None, Some(String::new()), name);
    assert_eq!(r, Ok("2024-01-02T03:04:05Z.csv".to_string()));
}

#[test]
fn output_needs_exactly_one_destination() {
    let r = output_destination(None, None, "t.csv".to_string());
    assert_eq!(r, Err(DestinationError::Missing));
    let r = output_destination(Some("a.csv".to_string()), Some("d".to_string()), "t.csv".to_string());
    assert_eq!(r, Err(DestinationError::Conflicting));
}
