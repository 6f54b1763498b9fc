use engine_agate::engine::{AgateEngine, IterOptions, SeekKey};
use engine_agate::error::Error;
use engine_agate::sst::AgateSstWriterBuilder;

#[test]
fn tombstones_are_filtered_but_span_the_key_range() {
    let engine = AgateEngine::new(vec!["c1".to_string()]);
    let mut w = AgateSstWriterBuilder::new()
        .set_db(&engine)
        .set_cf("c1")
        .build("table_file")
        .unwrap();
    w.put(b"alive", b"v1").unwrap();
    w.delete(b"gone").unwrap();
    // the size estimate counts encoded keys and values:
    // "c1@!@alive" + "v1" and the tombstone's bare "c1@!@gone"
    assert_eq!(w.file_size(), 21);

    let info = w.finish().unwrap();
    assert_eq!(info.num_entries(), 2);
    // smallest and largest reflect the full underlying range, the deleted
    // entry's position included
    assert_eq!(info.smallest_key().as_slice(), b"alive");
    assert_eq!(info.largest_key().as_slice(), b"gone");

    let reader = info.reader();
    reader.verify_checksum().unwrap();
    let mut it = reader.iterator_cf_opt("c1", IterOptions::default()).unwrap();
    let mut seen = vec![];
    let mut ok = it.seek(SeekKey::Start).unwrap();
    while ok {
        seen.push((it.key(), it.value()));
        ok = it.next().unwrap();
    }
    assert_eq!(seen.len(), 1);
    assert_eq!(seen[0].0.as_slice(), b"alive");
    assert_eq!(seen[0].1.as_slice(), b"v1");
}

#[test]
fn writer_rejects_out_of_order_keys() {
    let engine = AgateEngine::new(vec![]);
    let mut w = AgateSstWriterBuilder::new()
        .set_db(&engine)
        .build("ordered")
        .unwrap();
    w.put(b"b", b"1").unwrap();
    assert_eq!(w.put(b"a", b"2").unwrap_err(), Error::KeyOrderViolation);
    assert_eq!(w.put(b"b", b"3").unwrap_err(), Error::KeyOrderViolation);
    w.put(b"c", b"4").unwrap();
    let info = w.finish().unwrap();
    assert_eq!(info.num_entries(), 2);
    assert_eq!(info.file_path(), "ordered".to_string());
}

#[test]
fn backward_iteration_skips_trailing_tombstones() {
    let engine = AgateEngine::new(vec!["c1".to_string()]);
    let mut w = AgateSstWriterBuilder::new()
        .set_db(&engine)
        .set_cf("c1")
        .build("back")
        .unwrap();
    w.put(b"k1", b"v1").unwrap();
    w.put(b"k2", b"v2").unwrap();
    w.delete(b"k3").unwrap();
    let info = w.finish().unwrap();
    let reader = info.reader();
    let mut it = reader.iterator_cf_opt("c1", IterOptions::default()).unwrap();

    // seeking to the end walks past the trailing tombstone to the last
    // live entry
    assert!(it.seek(SeekKey::End).unwrap());
    assert_eq!(it.key().as_slice(), b"k2");
    assert!(it.prev().unwrap());
    assert_eq!(it.key().as_slice(), b"k1");
    assert!(!it.prev().unwrap());

    // a seek-for-previous past everything falls back to the last live
    // entry
    assert!(it.seek_for_prev(SeekKey::Key(b"zz")).unwrap());
    assert_eq!(it.key().as_slice(), b"k2");
    assert!(it.seek_for_prev(SeekKey::Key(b"k2")).unwrap());
    assert_eq!(it.key().as_slice(), b"k2");
    assert!(it.seek_for_prev(SeekKey::Key(b"k15")).unwrap());
    assert_eq!(it.key().as_slice(), b"k1");
}

#[test]
fn reader_iteration_sees_only_its_family() {
    let engine = AgateEngine::new(vec!["c1".to_string(), "c2".to_string()]);
    let mut w = AgateSstWriterBuilder::new().set_db(&engine).build("mix").unwrap();
    // one table can span families when written in physical-key order
    w.put(b"x", b"dv").unwrap();
    let info = w.finish().unwrap();
    let reader = info.reader();

    let mut it = reader
        .iterator_cf_opt("c1", IterOptions::default())
        .unwrap();
    assert!(!it.seek(SeekKey::Start).unwrap());
    assert!(!it.valid().unwrap());

    let mut it = reader.iter();
    assert!(it.seek(SeekKey::Start).unwrap());
    assert_eq!(it.key().as_slice(), b"x");
    assert_eq!(it.value().as_slice(), b"dv");
}
