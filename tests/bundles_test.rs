use bundles::{
    bundles_path, check_bundle_collection, decimal_text, diff, parse_u64, Bundle, BundleError,
    Bundles, CollectionLink, QueriedItem, Timestamp,
};
use std::collections::HashMap;

fn at(secs: i64) -> Timestamp {
    Timestamp { secs, nanos: 0 }
}

fn chars(s: &str) -> Vec<char> {
    s.chars().collect()
}

fn bundle(id: u32, secs: i64, items: Vec<u64>) -> Bundle {
    Bundle { id, name: format!("b{}", id), updated: at(secs), collection: None, items }
}

#[test]
fn import_simple_bundle() {
    let b = Bundle::import_at("--# bundle\n--# name Test\n\"123\"\n\"456\"", at(5)).unwrap();
    assert_eq!(b.name, "Test");
    assert_eq!(b.items, vec![123, 456]);
    assert!(b.collection.is_none());
    assert_eq!(b.id, 0);
    assert_eq!(b.updated, at(5));
}

#[test]
fn import_with_current_time() {
    let b = Bundle::import("--# bundle\n--# name Test\n\"123\"\n\"456\"".to_string(), at(9)).unwrap();
    assert_eq!(b.name, "Test");
    assert_eq!(b.items, vec![123, 456]);
    assert_eq!(b.updated, at(9));
}

#[test]
fn import_without_items_fails() {
    assert_eq!(Bundle::import_at("--# bundle\n--# name Empty\n\"abc\"\n", at(0)).unwrap_err(), BundleError::NoItemsFound);
    assert_eq!(Bundle::import_at("", at(0)).unwrap_err(), BundleError::NoItemsFound);
    assert_eq!(Bundle::import("-- nothing here".to_string(), at(0)).unwrap_err(), BundleError::NoItemsFound);
}

#[test]
fn import_literal_shapes() {
    let text = "  '1'\n\t[[2]]\n[==[3]==]\n[=[4]==]\n\"5' \n\"18446744073709551616\"\n\"18446744073709551615\" -- max\n\"6\"\"7\"";
    let b = Bundle::import_at(text, at(0)).unwrap();
    assert_eq!(b.items, vec![1, 2, 3, 18446744073709551615, 6]);
}

#[test]
fn items_count_without_bundle_marker() {
    let b = Bundle::import_at("--# name Ignored\n\"9\"", at(0)).unwrap();
    assert_eq!(b.items, vec![9]);
    assert_eq!(b.name, "");
}

#[test]
fn second_marker_ends_the_scan() {
    let text = "--# bundle\n--# name First\n\"1\"\n--# bundle\n--# name Second\n\"2\"";
    let b = Bundle::import_at(text, at(0)).unwrap();
    assert_eq!(b.name, "First");
    assert_eq!(b.items, vec![1]);
}

#[test]
fn directives_last_name_wins_and_bad_values_skipped() {
    let text = "--# bundle\n--#name A\n--# name   B c\n--# collection x12\n--# updated not a date\n\"1\"";
    let b = Bundle::import_at(text, at(77)).unwrap();
    assert_eq!(b.name, "B c");
    assert!(b.collection.is_none());
    assert_eq!(b.updated, at(77));
}

#[test]
fn collection_and_updated_directives() {
    let text = "--# bundle\n--# collection +42\n--# updated Thu, 1 Jan 1970 00:01:40 +0000\n\"1\"";
    let b = Bundle::import_at(text, at(0)).unwrap();
    let l = b.collection.unwrap();
    assert_eq!(l.id, 42);
    assert!(l.included.is_empty() && l.excluded.is_empty());
    assert_eq!(b.updated, at(100));
}

#[test]
fn resolve_collection_moves_members() {
    let mut b = Bundle::import_at("--# bundle\n--# collection 7\n\"1\"\n\"2\"\n\"3\"", at(0)).unwrap();
    b.resolve_collection(Some(vec![3, 9, 1]));
    assert_eq!(b.items, vec![2]);
    let l = b.collection.as_ref().unwrap();
    assert_eq!(l.included, vec![3, 1]);
    assert_eq!(l.excluded, vec![9]);
}

#[test]
fn resolve_collection_without_members_or_link() {
    let mut b = Bundle::import_at("--# bundle\n--# collection 7\n\"1\"", at(0)).unwrap();
    b.resolve_collection(None);
    assert_eq!(b.items, vec![1]);
    assert!(b.collection.as_ref().unwrap().included.is_empty());
    let mut c = bundle(1, 0, vec![1, 2]);
    c.resolve_collection(Some(vec![1]));
    assert_eq!(c.items, vec![1, 2]);
}

#[test]
fn diff_partitions_children() {
    let mut items = vec![5, 1, 5, 8];
    let mut inc = vec![];
    let mut exc = vec![];
    diff(&mut items, &vec![5, 2, 8, 5, 5], &mut inc, &mut exc);
    assert_eq!(items, vec![1]);
    assert_eq!(inc, vec![5, 8, 5]);
    assert_eq!(exc, vec![2, 5]);
}

#[test]
fn diff_absent_child_grows_excluded_only() {
    let mut items = vec![1, 2];
    let mut inc = vec![];
    let mut exc = vec![];
    diff(&mut items, &vec![3], &mut inc, &mut exc);
    assert_eq!(items, vec![1, 2]);
    assert!(inc.is_empty());
    assert_eq!(exc, vec![3]);
}

#[test]
fn export_exact_text() {
    let mut b = bundle(3, 0, vec![10, 20]);
    b.name = "Mine".to_string();
    let mut names = HashMap::new();
    names.insert(20u64, "Twenty".to_string());
    let text = b.export(names, None);
    assert_eq!(
        text,
        "-- generated by gmpublisher\n-- https://gmpublisher.download\n--# bundle\n--# name Mine\n--# updated Thu, 1 Jan 1970 00:00:00 +0000\nfor _,w in ipairs({\n\n\"10\"\n\"20\" -- Twenty\n\n}) do resource.AddWorkshop(w) end"
    );
}

#[test]
fn export_with_collection_block() {
    let mut b = bundle(3, 0, vec![10]);
    b.name = "C".to_string();
    b.collection = Some(CollectionLink { id: 99, included: vec![11], excluded: vec![12] });
    let text = b.export(HashMap::new(), Some("Coll"));
    assert_eq!(
        text,
        "-- generated by gmpublisher\n-- https://gmpublisher.download\n--# bundle\n--# name C\n--# collection 99\n--# updated Thu, 1 Jan 1970 00:00:00 +0000\nfor _,w in ipairs({\n\n\"10\"\n\n-- Collection\n-- Coll\n-- https://steamcommunity.com/sharedfiles/filedetails/?id=99\n\"11\"\n\n}) do resource.AddWorkshop(w) end"
    );
}

#[test]
fn export_then_import_round_trip() {
    let mut b = bundle(4, 1_000_000, vec![7, 8]);
    b.name = "Round trip".to_string();
    b.collection = Some(CollectionLink { id: 55, included: vec![9], excluded: vec![] });
    let mut names = HashMap::new();
    names.insert(7u64, "seven".to_string());
    let text = b.export(names, Some("title"));
    let back = Bundle::import_at(&text, at(0)).unwrap();
    assert_eq!(back.name, "Round trip");
    assert_eq!(back.collection.as_ref().unwrap().id, 55);
    assert_eq!(back.items, vec![7, 8, 9]);
    assert_eq!(back.updated, at(1_000_000));
}

#[test]
fn check_collection_rejects_non_collection() {
    let q = QueriedItem { is_collection: false, title: "Map".to_string(), preview_url: None, children: Some(vec![1]) };
    assert_eq!(check_bundle_collection(Ok(Some(q)), Some(true)).unwrap_err(), BundleError::InvalidCollection);
}

#[test]
fn check_collection_outcomes() {
    assert_eq!(check_bundle_collection(Ok(None), None).unwrap_err(), BundleError::InvalidCollection);
    assert_eq!(check_bundle_collection(Err(3), None).unwrap_err(), BundleError::SteamError(3));
    let q = QueriedItem { is_collection: true, title: "T".to_string(), preview_url: None, children: None };
    assert_eq!(check_bundle_collection(Ok(Some(q)), Some(true)).unwrap_err(), BundleError::InvalidCollection);
    let q = QueriedItem { is_collection: true, title: "T".to_string(), preview_url: Some("u".to_string()), children: Some(vec![4, 5]) };
    let d = check_bundle_collection(Ok(Some(q)), Some(true)).unwrap();
    assert_eq!(d.title, "T");
    assert_eq!(d.preview_url, Some("u".to_string()));
    assert_eq!(d.items, vec![4, 5]);
    let q = QueriedItem { is_collection: true, title: "T".to_string(), preview_url: None, children: Some(vec![4, 5]) };
    assert!(check_bundle_collection(Ok(Some(q)), None).unwrap().items.is_empty());
}

#[test]
fn store_keeps_order_and_replaces_by_id() {
    let mut s = Bundles::empty();
    s.upsert(bundle(1, 30, vec![1]));
    s.upsert(bundle(2, 10, vec![2]));
    s.upsert(bundle(3, 20, vec![3]));
    let ids: Vec<u32> = s.saved().iter().map(|b| b.id).collect();
    assert_eq!(ids, vec![2, 3, 1]);
    s.upsert(bundle(2, 40, vec![9]));
    let ids: Vec<u32> = s.saved().iter().map(|b| b.id).collect();
    assert_eq!(ids, vec![3, 1, 2]);
    assert_eq!(s.saved()[2].items, vec![9]);
    assert_eq!(s.saved().len(), 3);
}

#[test]
fn store_ids_never_repeat() {
    let mut s = Bundles::init(vec![bundle(5, 2, vec![1]), bundle(9, 1, vec![2]), bundle(5, 3, vec![3])]);
    let ids: Vec<u32> = s.saved().iter().map(|b| b.id).collect();
    assert_eq!(ids.len(), 2);
    assert_eq!(s.id(), 10);
    assert_eq!(s.id(), 11);
    let b = s.new_bundle("N".to_string(), at(8), Some((77, vec![1, 2])));
    assert_eq!(b.id, 12);
    assert_eq!(b.collection.as_ref().unwrap().included, vec![1, 2]);
    assert!(b.items.is_empty());
    assert_eq!(Bundles::init(vec![]).id(), 1);
}

#[test]
fn equality_is_by_id() {
    assert!(bundle(1, 0, vec![1]) == bundle(1, 5, vec![2]));
    assert!(bundle(1, 0, vec![1]) != bundle(2, 0, vec![1]));
}

#[test]
fn decimal_and_parse() {
    assert_eq!(decimal_text(0), "0");
    assert_eq!(decimal_text(1234567890), "1234567890");
    assert_eq!(decimal_text(u64::MAX), "18446744073709551615");
    let c = chars("+17x");
    assert_eq!(parse_u64(&c, 0, 3), Some(17));
    assert_eq!(parse_u64(&c, 0, 4), None);
    assert_eq!(parse_u64(&c, 0, 1), None);
    assert_eq!(parse_u64(&chars("18446744073709551616"), 0, 20), None);
}

#[test]
fn bundles_dir_path() {
    assert_eq!(bundles_path("/data"), "/data/bundles");
    assert_eq!(bundles_path("/data/"), "/data/bundles");
    assert_eq!(bundles_path(""), "bundles");
    assert_eq!(bundles_path("C:\\data\\"), "C:\\data\\bundles");
}

#[test]
fn second_marker_in_other_spelling_ends_the_scan() {
    let text = "--# bundle\n--# name First\n\"1\"\n  --#\tbundle again\n--# name Second\n\"2\"";
    let b = Bundle::import_at(text, at(0)).unwrap();
    assert_eq!(b.name, "First");
    assert_eq!(b.items, vec![1]);
}

#[test]
fn init_keeps_last_of_each_id() {
    let s = Bundles::init(vec![bundle(5, 2, vec![1]), bundle(9, 1, vec![2]), bundle(5, 3, vec![3])]);
    assert_eq!(s.saved().len(), 2);
    let five: Vec<&Bundle> = s.saved().iter().filter(|b| b.id == 5).collect();
    assert_eq!(five.len(), 1);
    assert_eq!(five[0].items, vec![3]);
    assert_eq!(s.current_id(), 9);
    let s = Bundles::init(vec![bundle(1, 5, vec![1]), bundle(2, 4, vec![2]), bundle(3, 6, vec![3])]);
    let ids: Vec<u32> = s.saved().iter().map(|b| b.id).collect();
    assert_eq!(ids, vec![2, 1, 3]);
}

#[test]
fn new_bundle_is_added_beside_stored_ones() {
    let mut s = Bundles::init(vec![bundle(1, 50, vec![1]), bundle(2, 60, vec![2])]);
    let b = s.new_bundle("N".to_string(), at(10), None);
    assert_eq!(b.id, 3);
    s.upsert(b);
    let ids: Vec<u32> = s.saved().iter().map(|b| b.id).collect();
    assert_eq!(ids, vec![3, 1, 2]);
}

#[test]
fn upsert_beyond_counter_moves_counter() {
    let mut s = Bundles::empty();
    s.upsert(bundle(40, 0, vec![1]));
    assert_eq!(s.current_id(), 40);
    assert_eq!(s.id(), 41);
}

#[test]
fn export_leap_second() {
    let mut b = bundle(1, 59, vec![1]);
    b.updated = Timestamp { secs: 59, nanos: 1_500_000_000 };
    let text = b.export(HashMap::new(), None);
    assert!(text.contains("--# updated Thu, 1 Jan 1970 00:00:60 +0000\n"));
}
