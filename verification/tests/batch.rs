use engine_agate::engine::AgateEngine;
use engine_agate::error::Error;
use engine_agate::write_batch::WRITE_BATCH_MAX_KEYS;

#[test]
fn test_should_write_to_engine() {
    let mut engine = AgateEngine::new(vec![]);
    let mut wb = engine.write_batch();

    for _i in 0..WRITE_BATCH_MAX_KEYS {
        wb.put(b"aaa", b"bbb").unwrap();
    }
    assert!(!wb.should_write_to_engine());

    wb.put(b"aaa", b"bbb").unwrap();
    assert!(wb.should_write_to_engine());

    wb.write(&mut engine).unwrap();

    let v = engine.get_value(b"aaa").unwrap();
    assert!(v.is_some());
    assert_eq!(v.unwrap().as_slice(), b"bbb");

    let mut wb = engine.write_batch();
    for _i in 0..WRITE_BATCH_MAX_KEYS {
        wb.put(b"aaa", b"bbb").unwrap();
    }
    assert!(!wb.should_write_to_engine());

    wb.put(b"aaa", b"bbb").unwrap();
    assert!(wb.should_write_to_engine());

    wb.clear();
    assert!(!wb.should_write_to_engine());
}

#[test]
fn rollback_undoes_the_appends() {
    let mut engine = AgateEngine::new(vec![]);
    let mut wb = engine.write_batch();
    wb.put(b"base", b"1").unwrap();
    wb.set_save_point();
    let before = wb.count();
    wb.put(b"x1", b"v").unwrap();
    wb.put(b"x2", b"v").unwrap();
    wb.put(b"x3", b"v").unwrap();
    assert_eq!(wb.count(), before + 3);
    wb.rollback_to_save_point().unwrap();
    assert_eq!(wb.count(), before);

    wb.write(&mut engine).unwrap();
    assert!(engine.get_value(b"x1").unwrap().is_none());
    assert!(engine.get_value(b"x2").unwrap().is_none());
    assert!(engine.get_value(b"x3").unwrap().is_none());
    assert_eq!(engine.get_value(b"base").unwrap().unwrap().as_slice(), b"1");
}

#[test]
fn save_point_stack_errors_when_empty() {
    let engine = AgateEngine::new(vec![]);
    let mut wb = engine.write_batch();
    assert_eq!(wb.pop_save_point().unwrap_err(), Error::NoSavePoint);
    assert_eq!(wb.rollback_to_save_point().unwrap_err(), Error::NoSavePoint);
    wb.set_save_point();
    assert!(wb.pop_save_point().is_ok());
    assert_eq!(wb.pop_save_point().unwrap_err(), Error::NoSavePoint);
}

#[test]
fn replay_applies_in_append_order() {
    let cf = "cf";
    let mut engine = AgateEngine::new(vec![cf.to_string()]);
    let mut wb = engine.write_batch();
    wb.put(b"k", b"first").unwrap();
    wb.put(b"k", b"second").unwrap();
    wb.put_cf(cf, b"k", b"cfv").unwrap();
    wb.delete(b"gone").unwrap();
    wb.write(&mut engine).unwrap();
    assert_eq!(engine.get_value(b"k").unwrap().unwrap().as_slice(), b"second");
    assert_eq!(
        engine.get_value_cf(cf, b"k").unwrap().unwrap().as_slice(),
        b"cfv"
    );
    assert!(engine.get_value(b"gone").unwrap().is_none());
}

#[test]
fn replay_expands_range_deletes() {
    let mut engine = AgateEngine::new(vec![]);
    engine.put(b"a1", b"v1").unwrap();
    engine.put(b"a2", b"v2").unwrap();
    engine.put(b"b1", b"v3").unwrap();
    let wb = {
        let mut wb = engine.write_batch();
        wb.delete_range(b"a1", b"b0").unwrap();
        wb
    };
    wb.write(&mut engine).unwrap();
    assert!(engine.get_value(b"a1").unwrap().is_none());
    assert!(engine.get_value(b"a2").unwrap().is_none());
    assert_eq!(engine.get_value(b"b1").unwrap().unwrap().as_slice(), b"v3");
}

#[test]
fn invalid_range_aborts_the_whole_batch() {
    let mut engine = AgateEngine::new(vec![]);
    engine.put(b"kept", b"old").unwrap();
    let mut wb = engine.write_batch();
    wb.put(b"kept", b"new").unwrap();
    wb.delete_range(b"z", b"a").unwrap();
    assert_eq!(wb.write(&mut engine).unwrap_err(), Error::InvalidRange);
    // atomicity: the put before the bad range must not show either
    assert_eq!(engine.get_value(b"kept").unwrap().unwrap().as_slice(), b"old");
    // the batch itself stays buffered for the caller to retry or discard
    assert_eq!(wb.count(), 2);
}

#[test]
fn merge_appends_in_order_and_keeps_source() {
    let mut engine = AgateEngine::new(vec![]);
    let mut wb1 = engine.write_batch();
    wb1.put(b"k", b"one").unwrap();
    let mut wb2 = engine.write_batch();
    wb2.put(b"k", b"two").unwrap();
    wb1.merge(&wb2).unwrap();
    assert_eq!(wb1.count(), 2);
    assert_eq!(wb2.count(), 1);
    wb1.write(&mut engine).unwrap();
    assert_eq!(engine.get_value(b"k").unwrap().unwrap().as_slice(), b"two");
}

#[test]
fn data_size_counts_keys_values_and_family_tags() {
    let engine = AgateEngine::new(vec![]);
    let mut wb = engine.write_batch();
    assert_eq!(wb.data_size(), 0);
    wb.put(b"abc", b"de").unwrap();
    assert_eq!(wb.data_size(), 5);
    wb.delete_cf("cf", b"k").unwrap();
    assert_eq!(wb.data_size(), 8);
    wb.delete_range(b"a", b"bc").unwrap();
    assert_eq!(wb.data_size(), 11);
    assert!(!wb.is_empty());
    assert_eq!(wb.count(), 3);
}
