use clortho::merge::NoopMerger;
use clortho::sst_buffered_writer::SstBufferedWriter;
use clortho::sst_reader::{binary_search, SstReader};
use clortho::sst_writer::{SstError, SstWriter};

const EXPECTED_HEADER: &[u8] = b"clortho
data
v1






---
";
const HEADER_SIZE: usize = 26;

fn write_sst(records: &[(Vec<u8>, Vec<u8>)]) -> Vec<u8> {
    let mut sst_writer = SstWriter::new();
    for (k, v) in records {
        sst_writer.push_record(k, v).unwrap();
    }
    sst_writer.finish().unwrap().0
}

#[test]
fn sst_writer_test_sst_writer_empty() {
    let sst_writer = SstWriter::new();
    assert_eq!(sst_writer.size(), HEADER_SIZE);

    let output = sst_writer.finish().unwrap().0;
    assert_eq!(&output[..HEADER_SIZE], EXPECTED_HEADER);
    assert_eq!(
        &output[HEADER_SIZE..],
        [
            0_u8, 0, // Terminator record
            255, 255, 255, 230, // Data pointer
            0, 1 // File version
        ]
        .as_ref()
    );
}

#[test]
fn sst_writer_test_sst_writer_with_records() {
    let rec_1_key_ts = [1_u8, 2, 0, 0, 0, 0, 0, 0, 0, 1];
    let rec_1_value = [5_u8];
    let rec_2_key_ts = [2_u8, 2, 0, 0, 0, 0, 0, 0, 0, 1];
    let rec_2_value = [6_u8];

    let mut sst_writer = SstWriter::new();
    sst_writer.push_record(&rec_1_key_ts, &rec_1_value).unwrap();
    sst_writer.push_record(&rec_2_key_ts, &rec_2_value).unwrap();

    assert_eq!(
        &sst_writer.finish().unwrap().0[HEADER_SIZE..],
        [
            10_u8, 1_u8, // key, value lengths
            1_u8, 2, 0, 0, 0, 0, 0, 0, 0, 1, // key/ts
            5_u8, // value
            10_u8, 1_u8, // key, value lengths
            2_u8, 2, 0, 0, 0, 0, 0, 0, 0, 1, // key/ts
            6_u8, // value,
            0_u8, 0, // Terminator record
            255, 255, 255, 230, // data pointer
            0, 1 // File version
        ]
        .as_ref()
    );
}

#[test]
fn test_sst_writer_with_tree() {
    let mut sst_writer = SstWriter::new();
    for i in 0..17 {
        let rec_key_ts = [i as u8, 0, 0, 0, 0, 0, 0, 0, 0];
        let rec_value = [i as u8];
        sst_writer.push_record(&rec_key_ts, &rec_value).unwrap();
    }

    let mut expected_data = vec![];
    for i in 0..17 {
        expected_data.push(9_u8); // key size
        expected_data.push(1_u8); // value size
        expected_data.extend_from_slice([i as u8, 0, 0, 0, 0, 0, 0, 0, 0].as_ref()); // key_ts
        expected_data.push(i as u8); // value
    }
    let end_of_data = HEADER_SIZE + expected_data.len();

    let data = sst_writer.finish().unwrap().0;

    assert_eq!(&data[HEADER_SIZE..end_of_data], expected_data.as_slice());

    // A one-level tree: one page with one pivot and two children.
    assert_eq!(
        &data[end_of_data..],
        [
            0_u8, 0, // Terminator record
            1, 16, // Our pivot (len, bytes)
            2, // Child count -- This is where the footer should point to.
            0, 0, 0, 232, // Pointer back to the first pivot
            255, 255, 255, 230, // Child pointer to the start of the data block
            255, 255, 255, 38, // pointer to data block 16 records later (16 * 12b = 192)
            0, 0, 0, 234, // Pointer to the child count
            0, 1 // File version
        ]
    );
}

#[test]
fn test_binary_search() {
    assert_eq!(binary_search(3, |idx| (idx as i32 * 10).cmp(&-5)), 0);
    assert_eq!(binary_search(3, |idx| (idx as i32 * 10).cmp(&0)), 1);
    assert_eq!(binary_search(3, |idx| (idx as i32 * 10).cmp(&5)), 1);
    assert_eq!(binary_search(3, |idx| (idx as i32 * 10).cmp(&10)), 2);
    assert_eq!(binary_search(3, |idx| (idx as i32 * 10).cmp(&15)), 2);
    assert_eq!(binary_search(3, |idx| (idx as i32 * 10).cmp(&20)), 2);
}

#[test]
fn test_sst_reader_empty() {
    let sst_writer = SstWriter::new();
    let output = sst_writer.finish().unwrap().0;

    let mut reader = SstReader::new(output);

    reader.seek(b"1");
    assert_eq!(reader.get(), None);
}

fn ace() -> Vec<u8> {
    let mut sst_writer = SstWriter::new();
    sst_writer.push_record(b"a", b"1").unwrap();
    sst_writer.push_record(b"c", b"2").unwrap();
    sst_writer.push_record(b"e", b"3").unwrap();
    sst_writer.finish().unwrap().0
}

#[test]
fn test_sst_reader_no_btree() {
    let mut reader = SstReader::new(ace());

    reader.seek(b"");
    assert_eq!(reader.get(), Some((b"a".as_ref(), b"1".as_ref())));
    reader.seek(b"a");
    assert_eq!(reader.get(), Some((b"a".as_ref(), b"1".as_ref())));
    reader.seek(b"b");
    assert_eq!(reader.get(), Some((b"c".as_ref(), b"2".as_ref())));
    reader.seek(b"c");
    assert_eq!(reader.get(), Some((b"c".as_ref(), b"2".as_ref())));
    reader.seek(b"d");
    assert_eq!(reader.get(), Some((b"e".as_ref(), b"3".as_ref())));
    reader.seek(b"e");
    assert_eq!(reader.get(), Some((b"e".as_ref(), b"3".as_ref())));
    reader.seek(b"f");
    assert_eq!(reader.get(), None);
}

#[test]
fn test_sst_reader_advance() {
    let mut reader = SstReader::new(ace());

    reader.seek(b"a");
    assert_eq!(reader.get(), Some((b"a".as_ref(), b"1".as_ref())));
    reader.advance();
    assert_eq!(reader.get(), Some((b"c".as_ref(), b"2".as_ref())));
    reader.advance();
    assert_eq!(reader.get(), Some((b"e".as_ref(), b"3".as_ref())));
    reader.advance();
    assert_eq!(reader.get(), None);
}

#[test]
fn test_sst_reader_with_btree() {
    let mut sst_writer = SstWriter::new();
    for i in 0..2000_i32 {
        sst_writer.push_record(&(i).to_be_bytes(), b"1").unwrap();
    }
    let output = sst_writer.finish().unwrap().0;

    let mut reader = SstReader::new(output);

    reader.seek(b"");
    assert_eq!(reader.get(), Some((0_i32.to_be_bytes().as_ref(), b"1".as_ref())));

    reader.seek(500_i32.to_be_bytes().as_ref());
    assert_eq!(reader.get(), Some((500_i32.to_be_bytes().as_ref(), b"1".as_ref())));

    reader.seek(1999_i32.to_be_bytes().as_ref());
    assert_eq!(reader.get(), Some((1999_i32.to_be_bytes().as_ref(), b"1".as_ref())));

    reader.seek(2000_i32.to_be_bytes().as_ref());
    assert_eq!(reader.get(), None);
}

#[test]
fn test_sst_writer() {
    let merger = NoopMerger {};
    let mut sst_writer = SstBufferedWriter::new(merger);
    // Records pushed out of order come back sorted.
    sst_writer.push_record((b"c".as_ref(), b"2".as_ref()));
    sst_writer.push_record((b"a".as_ref(), b"1".as_ref()));
    sst_writer.push_record((b"e".as_ref(), b"3".as_ref()));
    let (output, sst_info) = sst_writer.finish().unwrap();

    let mut reader = SstReader::new(output);

    assert_eq!(sst_info.min_record.as_slice(), b"a".as_ref());
    assert_eq!(sst_info.max_record.as_slice(), b"e".as_ref());

    reader.seek(b"");
    assert_eq!(reader.get(), Some((b"a".as_ref(), b"1".as_ref())));
    reader.advance();
    assert_eq!(reader.get(), Some((b"c".as_ref(), b"2".as_ref())));
    reader.advance();
    assert_eq!(reader.get(), Some((b"e".as_ref(), b"3".as_ref())));
    reader.advance();
    assert_eq!(reader.get(), None);
}

/// Records with keys `k * 3` (big-endian u32) for `k` in `0..n`, so that the
/// keys in between are absent.
fn spaced(n: u32) -> Vec<(Vec<u8>, Vec<u8>)> {
    (0..n)
        .map(|k| ((k * 3).to_be_bytes().to_vec(), format!("v{}", k).into_bytes()))
        .collect()
}

fn check_round_trip(n: u32) {
    let records = spaced(n);
    let bytes = write_sst(&records);
    let mut reader = SstReader::new(bytes);

    // A scan from the empty key yields exactly the input.
    reader.seek(b"");
    for (k, v) in &records {
        assert_eq!(reader.get(), Some((k.as_slice(), v.as_slice())));
        reader.advance();
    }
    assert_eq!(reader.get(), None);

    for (i, (k, v)) in records.iter().enumerate() {
        // Every present key is found.
        reader.seek(k);
        assert_eq!(reader.get(), Some((k.as_slice(), v.as_slice())));
        // Seeking again finds the same record.
        reader.seek(k);
        assert_eq!(reader.get(), Some((k.as_slice(), v.as_slice())));
        // An absent key finds the next larger record, or nothing past the end.
        let absent = (i as u32 * 3 + 1).to_be_bytes();
        reader.seek(&absent);
        match records.get(i + 1) {
            Some((k2, v2)) => assert_eq!(reader.get(), Some((k2.as_slice(), v2.as_slice()))),
            None => assert_eq!(reader.get(), None),
        }
    }
    // Keys above the largest find nothing.
    reader.seek(&(n * 3).to_be_bytes());
    assert_eq!(reader.get(), None);
    reader.seek(&[255, 255, 255, 255, 0]);
    assert_eq!(reader.get(), None);
}

#[test]
fn round_trip_sizes_of_tree_levels() {
    for n in [0_u32, 1, 16, 17, 16 * 64, 16 * 64 + 1, 2000] {
        check_round_trip(n);
    }
}

#[test]
fn round_trip_long_shared_prefixes() {
    let records: Vec<(Vec<u8>, Vec<u8>)> = (0..300_u32)
        .map(|i| {
            let mut k = vec![7_u8; 40];
            k.extend_from_slice(&i.to_be_bytes());
            (k, vec![])
        })
        .collect();
    let bytes = write_sst(&records);
    let mut reader = SstReader::new(bytes);
    for (k, v) in &records {
        reader.seek(k);
        assert_eq!(reader.get(), Some((k.as_slice(), v.as_slice())));
    }
    reader.seek(&[7_u8; 40]);
    assert_eq!(reader.get(), Some((records[0].0.as_slice(), b"".as_ref())));
}

#[test]
fn finish_reports_min_max_and_size() {
    let mut w = SstWriter::new();
    assert_eq!(w.push_record(b"b", b"x").unwrap(), -26);
    assert_eq!(w.push_record(b"d", b"y").unwrap(), -30);
    let (bytes, info) = w.finish().unwrap();
    assert_eq!(info.min_record, b"b".to_vec());
    assert_eq!(info.max_record, b"d".to_vec());
    assert_eq!(info.size as usize, bytes.len());

    let (bytes, info) = SstWriter::new().finish().unwrap();
    assert!(info.min_record.is_empty() && info.max_record.is_empty());
    assert_eq!(info.size as usize, bytes.len());
}

#[test]
fn empty_key_with_value_is_a_record() {
    let mut w = SstWriter::new();
    w.push_record(b"", b"v").unwrap();
    w.push_record(b"a", b"").unwrap();
    let mut reader = SstReader::new(w.finish().unwrap().0);
    reader.seek(b"");
    assert_eq!(reader.get(), Some((b"".as_ref(), b"v".as_ref())));
    reader.advance();
    assert_eq!(reader.get(), Some((b"a".as_ref(), b"".as_ref())));
}

#[test]
fn reader_on_bytes_that_are_no_file_holds_nothing() {
    let mut reader = SstReader::new(vec![1_u8, 2, 3]);
    reader.seek(b"a");
    assert_eq!(reader.get(), None);
    let mut reader = SstReader::new(vec![0_u8, 0, 0, 0, 200, 0, 0, 0, 40, 0, 1]);
    reader.seek(b"a");
    assert_eq!(reader.get(), None);
    reader.advance();
    assert_eq!(reader.get(), None);
}

#[test]
fn buffered_writer_merges_duplicates_newest_first() {
    let mut w = SstBufferedWriter::new(NoopMerger {});
    w.push_record((b"k".as_ref(), b"old".as_ref()));
    w.push_record((b"a".as_ref(), b"1".as_ref()));
    w.push_record((b"k".as_ref(), b"new".as_ref()));
    let (bytes, info) = w.finish().unwrap();
    assert_eq!(info.min_record, b"a".to_vec());
    assert_eq!(info.max_record, b"k".to_vec());
    let mut reader = SstReader::new(bytes);
    reader.seek(b"");
    assert_eq!(reader.get(), Some((b"a".as_ref(), b"1".as_ref())));
    reader.advance();
    assert_eq!(reader.get(), Some((b"k".as_ref(), b"new".as_ref())));
    reader.advance();
    assert_eq!(reader.get(), None);
}

#[test]
fn buffered_writer_rejects_empty_record() {
    let mut w = SstBufferedWriter::new(NoopMerger {});
    w.push_record((b"".as_ref(), b"".as_ref()));
    assert!(matches!(w.finish(), Err(SstError::EmptyRecord)));
}
