use engine_agate::engine::{AgateEngine, DeleteStrategy, IterOptions, SeekKey};
use engine_agate::error::Error;
use engine_agate::snapshot::AgateSnapshot;

#[test]
fn test_base() {
    let cf = "cf";
    let mut engine = AgateEngine::new(vec![cf.to_string()]);

    let key = b"key";
    engine.put(key, b"10").unwrap();
    engine.put_cf(cf, key, b"10").unwrap();

    let snap = engine.snapshot();

    let r1 = engine.get_value(key).unwrap().unwrap();
    assert_eq!(r1.as_slice(), b"10");
    let r1_cf = engine.get_value_cf(cf, key).unwrap().unwrap();
    assert_eq!(r1_cf.as_slice(), b"10");

    let r2 = snap.get_value(key).unwrap().unwrap();
    assert_eq!(r2.as_slice(), b"10");
    let r2_cf = snap.get_value_cf(cf, key).unwrap().unwrap();
    assert_eq!(r2_cf.as_slice(), b"10");

    engine.put(key, b"11").unwrap();
    let r1 = engine.get_value(key).unwrap().unwrap();
    let r2 = snap.get_value(key).unwrap().unwrap();
    assert_ne!(r1.as_slice(), r2.as_slice());

    let b = engine.get_value(b"missing_key").unwrap();
    assert!(b.is_none());
}

#[test]
fn test_peekable() {
    let cf = "cf";
    let mut engine = AgateEngine::new(vec![cf.to_string()]);

    engine.put(b"k1", b"v1").unwrap();
    engine.put_cf(cf, b"k1", b"v2").unwrap();

    assert_eq!(engine.get_value(b"k1").unwrap().unwrap().as_slice(), b"v1");
    assert!(engine.get_value_cf("foo", b"k1").is_err());
    assert_eq!(
        engine.get_value_cf(cf, b"k1").unwrap().unwrap().as_slice(),
        b"v2"
    );
}

#[test]
fn test_scan() {
    let cf = "cf";
    let mut engine = AgateEngine::new(vec![cf.to_string()]);

    engine.put(b"a1", b"v1").unwrap();
    engine.put(b"a2", b"v2").unwrap();
    engine.put_cf(cf, b"a1", b"v1").unwrap();
    engine.put_cf(cf, b"a2", b"v22").unwrap();

    let mut data = vec![];
    engine
        .scan(b"", &[0xFF, 0xFF], false, |key: &[u8], value: &[u8]| {
            data.push((key.to_vec(), value.to_vec()));
            Ok(true)
        })
        .unwrap();
    assert_eq!(
        data,
        vec![
            (b"a1".to_vec(), b"v1".to_vec()),
            (b"a2".to_vec(), b"v2".to_vec()),
        ]
    );
    data.clear();

    engine
        .scan_cf(cf, b"", &[0xFF, 0xFF], false, |key: &[u8], value: &[u8]| {
            data.push((key.to_vec(), value.to_vec()));
            Ok(true)
        })
        .unwrap();
    assert_eq!(
        data,
        vec![
            (b"a1".to_vec(), b"v1".to_vec()),
            (b"a2".to_vec(), b"v22".to_vec()),
        ]
    );
    data.clear();

    let pair = engine.seek(b"a1").unwrap().unwrap();
    assert_eq!(pair, (b"a1".to_vec(), b"v1".to_vec()));
    assert!(engine.seek(b"a3").unwrap().is_none());
    let pair_cf = engine.seek_cf(cf, b"a1").unwrap().unwrap();
    assert_eq!(pair_cf, (b"a1".to_vec(), b"v1".to_vec()));
    assert!(engine.seek_cf(cf, b"a3").unwrap().is_none());

    let mut index = 0;
    engine
        .scan(b"", &[0xFF, 0xFF], false, |key: &[u8], value: &[u8]| {
            data.push((key.to_vec(), value.to_vec()));
            index += 1;
            Ok(index != 1)
        })
        .unwrap();

    assert_eq!(data.len(), 1);

    let snap = AgateSnapshot::new(&engine);

    engine.put(b"a3", b"v3").unwrap();
    assert!(engine.seek(b"a3").unwrap().is_some());

    let pair = snap.seek(b"a1").unwrap().unwrap();
    assert_eq!(pair, (b"a1".to_vec(), b"v1".to_vec()));
    assert!(snap.seek(b"a3").unwrap().is_none());

    data.clear();

    snap.scan(b"", &[0xFF, 0xFF], false, |key: &[u8], value: &[u8]| {
        data.push((key.to_vec(), value.to_vec()));
        Ok(true)
    })
    .unwrap();

    assert_eq!(data.len(), 2);
}

#[test]
fn test_delete_range() {
    let cf = "cf";
    let mut engine = AgateEngine::new(vec![cf.to_string()]);

    engine.put(b"a1", b"v1").unwrap();
    engine.put(b"a2", b"v2").unwrap();
    engine.put_cf(cf, b"a1", b"v1").unwrap();
    engine.put_cf(cf, b"a2", b"v22").unwrap();

    // Delete a1 in default cf.
    engine.delete_range(b"", b"a2").unwrap();

    let mut data = vec![];
    engine
        .scan(b"", &[0xFF, 0xFF], false, |key: &[u8], value: &[u8]| {
            data.push((key.to_vec(), value.to_vec()));
            Ok(true)
        })
        .unwrap();
    assert_eq!(data, vec![(b"a2".to_vec(), b"v2".to_vec())]);
    data.clear();

    engine
        .scan_cf(cf, b"", &[0xFF, 0xFF], false, |key: &[u8], value: &[u8]| {
            data.push((key.to_vec(), value.to_vec()));
            Ok(true)
        })
        .unwrap();
    assert_eq!(
        data,
        vec![
            (b"a1".to_vec(), b"v1".to_vec()),
            (b"a2".to_vec(), b"v22".to_vec()),
        ]
    );
    data.clear();

    // Delete a2 in cf.
    engine.delete_range_cf(cf, b"a2", &[0xFF, 0xFF]).unwrap();

    engine
        .scan(b"", &[0xFF, 0xFF], false, |key: &[u8], value: &[u8]| {
            data.push((key.to_vec(), value.to_vec()));
            Ok(true)
        })
        .unwrap();
    assert_eq!(data, vec![(b"a2".to_vec(), b"v2".to_vec())]);
    data.clear();

    engine
        .scan_cf(cf, b"", &[0xFF, 0xFF], false, |key: &[u8], value: &[u8]| {
            data.push((key.to_vec(), value.to_vec()));
            Ok(true)
        })
        .unwrap();
    assert_eq!(data, vec![(b"a1".to_vec(), b"v1".to_vec())]);
}

#[test]
fn families_do_not_collide() {
    let mut engine = AgateEngine::new(vec!["cfa".to_string(), "cfb".to_string()]);
    engine.put_cf("cfa", b"x", b"va").unwrap();
    engine.put_cf("cfb", b"x", b"vb").unwrap();
    assert_eq!(
        engine.get_value_cf("cfa", b"x").unwrap().unwrap().as_slice(),
        b"va"
    );
    assert_eq!(
        engine.get_value_cf("cfb", b"x").unwrap().unwrap().as_slice(),
        b"vb"
    );
    engine.delete_cf("cfa", b"x").unwrap();
    assert!(engine.get_value_cf("cfa", b"x").unwrap().is_none());
    assert_eq!(
        engine.get_value_cf("cfb", b"x").unwrap().unwrap().as_slice(),
        b"vb"
    );
}

#[test]
fn reversed_range_is_rejected_before_anything_else() {
    let mut engine = AgateEngine::new(vec!["cf".to_string()]);
    engine.put(b"a", b"v").unwrap();
    assert_eq!(engine.delete_range(b"b", b"a").unwrap_err(), Error::InvalidRange);
    // the reversed range is reported before the unknown family is noticed
    assert_eq!(
        engine.delete_range_cf("nope", b"b", b"a").unwrap_err(),
        Error::InvalidRange
    );
    assert_eq!(
        engine.delete_range_cf("nope", b"a", b"b").unwrap_err(),
        Error::UnknownColumnFamily
    );
    assert_eq!(engine.get_value(b"a").unwrap().unwrap().as_slice(), b"v");
}

#[test]
fn unknown_family_fails_fast() {
    let mut engine = AgateEngine::new(vec![]);
    assert_eq!(
        engine.put_cf("ghost", b"k", b"v").unwrap_err(),
        Error::UnknownColumnFamily
    );
    assert_eq!(
        engine.delete_cf("ghost", b"k").unwrap_err(),
        Error::UnknownColumnFamily
    );
    assert!(engine.check_cf_exist("default").is_ok());
    assert!(engine.check_cf_exist("ghost").is_err());
}

#[test]
fn cursor_misuse_is_reported() {
    let engine = AgateEngine::new(vec![]);
    let mut it = engine.iterator_opt(IterOptions::default()).unwrap();
    // stepping a cursor that was never positioned is a usage error
    assert_eq!(it.next().unwrap_err(), Error::CursorMisuse);
    assert_eq!(it.prev().unwrap_err(), Error::CursorMisuse);
}

#[test]
fn delete_ranges_cf_clears_every_range() {
    let cf = "cf";
    let mut engine = AgateEngine::new(vec![cf.to_string()]);
    engine.put_cf(cf, b"a", b"1").unwrap();
    engine.put_cf(cf, b"b", b"2").unwrap();
    engine.put_cf(cf, b"m", b"3").unwrap();
    engine.put_cf(cf, b"z", b"4").unwrap();
    let ranges = vec![
        (b"a".to_vec(), b"c".to_vec()),
        (b"y".to_vec(), Vec::new()),
    ];
    engine
        .delete_ranges_cf(cf, DeleteStrategy::DeleteByKey, &ranges)
        .unwrap();
    assert!(engine.get_value_cf(cf, b"a").unwrap().is_none());
    assert!(engine.get_value_cf(cf, b"b").unwrap().is_none());
    assert_eq!(engine.get_value_cf(cf, b"m").unwrap().unwrap().as_slice(), b"3");
    assert!(engine.get_value_cf(cf, b"z").unwrap().is_none());
}

#[test]
fn iterator_walks_one_family_in_order() {
    let cf = "cf";
    let mut engine = AgateEngine::new(vec![cf.to_string()]);
    engine.put_cf(cf, b"k1", b"v1").unwrap();
    engine.put_cf(cf, b"k3", b"v3").unwrap();
    engine.put(b"k2", b"noise").unwrap();

    let mut it = engine.iterator_cf_opt(cf, IterOptions::default()).unwrap();
    assert!(it.seek(SeekKey::Start).unwrap());
    assert_eq!(it.key().as_slice(), b"k1");
    assert_eq!(it.value().as_slice(), b"v1");
    assert!(it.next().unwrap());
    assert_eq!(it.key().as_slice(), b"k3");
    assert!(!it.next().unwrap());

    assert!(it.seek(SeekKey::End).unwrap());
    assert_eq!(it.key().as_slice(), b"k3");
    assert!(it.prev().unwrap());
    assert_eq!(it.key().as_slice(), b"k1");

    assert!(it.seek_for_prev(SeekKey::Key(b"k2")).unwrap());
    assert_eq!(it.key().as_slice(), b"k1");
    assert!(it.seek(SeekKey::Key(b"k2")).unwrap());
    assert_eq!(it.key().as_slice(), b"k3");
}

#[test]
fn iterator_respects_caller_bounds() {
    let mut engine = AgateEngine::new(vec![]);
    engine.put(b"a", b"1").unwrap();
    engine.put(b"b", b"2").unwrap();
    engine.put(b"c", b"3").unwrap();
    engine.put(b"d", b"4").unwrap();

    let opts = IterOptions::new(Some(b"b".to_vec()), Some(b"d".to_vec()), false);
    let mut it = engine.iterator_opt(opts).unwrap();
    assert!(it.seek(SeekKey::Key(b"b")).unwrap());
    assert_eq!(it.key().as_slice(), b"b");
    assert!(it.next().unwrap());
    assert_eq!(it.key().as_slice(), b"c");
    // the next entry exists but lies at the upper bound, so the cursor
    // reports it as out of range
    assert!(!it.next().unwrap());
    assert!(!it.valid().unwrap());
}

#[test]
fn snapshot_cursor_ignores_later_writes() {
    let cf = "cf";
    let mut engine = AgateEngine::new(vec![cf.to_string()]);
    engine.put_cf(cf, b"k1", b"v1").unwrap();
    let snap = engine.snapshot();
    engine.put_cf(cf, b"k2", b"v2").unwrap();

    let mut it = snap.iterator_cf_opt(cf, IterOptions::default()).unwrap();
    assert!(it.seek(SeekKey::Start).unwrap());
    assert_eq!(it.key().as_slice(), b"k1");
    assert!(!it.next().unwrap());

    let mut names = snap.cf_names();
    names.sort();
    assert_eq!(names, vec!["cf".to_string(), "default".to_string()]);
}
