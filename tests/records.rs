use clortho::db::Db;
use clortho::records::{CounterRecord, KVWritable, Timestamp};
use clortho::streaming_iter::{empty, wrap, StreamingKVIter};
use clortho::varint::VARINT_SIGNED_ZERO_ENC;

#[test]
fn test_record_write() {
    let record = CounterRecord::new(b"abcd", 4);
    let mut key_buffer = vec![];
    let mut value_buffer = vec![];
    record.write_key(&mut key_buffer);
    record.write_value(&mut value_buffer);

    assert_eq!(b"abcd".as_ref(), key_buffer.as_slice());
    assert_eq!([VARINT_SIGNED_ZERO_ENC + 4].as_ref(), value_buffer.as_slice());
}

#[test]
fn test_record_merge_keep() {
    let mut output = vec![];
    let values = vec![[VARINT_SIGNED_ZERO_ENC + 4].as_ref(), [VARINT_SIGNED_ZERO_ENC + 2].as_ref()];
    let keep = CounterRecord::merge(values.as_slice(), &mut output);

    assert!(keep);
    assert_eq!([VARINT_SIGNED_ZERO_ENC + 6].as_ref(), output.as_slice());
}

#[test]
fn test_record_merge_zero() {
    let mut output = vec![];
    let values = vec![[VARINT_SIGNED_ZERO_ENC + 4].as_ref(), [VARINT_SIGNED_ZERO_ENC - 4].as_ref()];
    let keep = CounterRecord::merge(values.as_slice(), &mut output);

    assert_eq!(false, keep);
    assert!(output.is_empty());
}

#[test]
fn counter_merge_sums_wide_deltas() {
    let mut a = vec![];
    let mut b = vec![];
    clortho::varint::write_varint_signed(1_000_000, &mut a);
    clortho::varint::write_varint_signed(-300, &mut b);
    let mut out = vec![];
    assert!(CounterRecord::merge(&[a.as_slice(), b.as_slice()], &mut out));
    let mut sum = 0_i64;
    clortho::varint::read_varint_signed(&mut sum, &out);
    assert_eq!(sum, 999_700);
}

#[test]
fn timestamp_now_is_after_2020() {
    let r = CounterRecord::new(b"k", 1);
    assert!(r.timestamp().ms > 1_577_836_800_000);
    assert!(Timestamp::now().ms >= r.timestamp.ms);
}

#[test]
fn test_empty() {
    let mut e = empty::<i32, i32, ()>();
    assert_eq!(e.next().unwrap(), None);
}

#[test]
fn test_wrapping() {
    let mut wrapper = wrap::<str, str, ()>(vec![("a", "b"), ("c", "d"), ("e", "f")]);
    assert_eq!(wrapper.next().unwrap(), Some(("a", "b")));
    assert_eq!(wrapper.next().unwrap(), Some(("c", "d")));
    assert_eq!(wrapper.next().unwrap(), Some(("e", "f")));
    assert_eq!(wrapper.next().unwrap(), None);
}

#[test]
fn db_starts_without_tables() {
    let db = Db::new_in_mem();
    let snapshot = db.read();
    assert!(snapshot.index("t").is_none());
    assert_eq!(db.write(|| Ok(())), Ok(()));
}
