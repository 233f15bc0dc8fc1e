use whisper::archive::{Archive, ArchiveIndex, BucketName, ReadError};
use whisper::point::Point;

const SAMPLE_FILE_2: [u8; 64] = [
    0x00, 0x00, 0x00, 0x01,
    0x00, 0x00, 0x00, 0x06,
    0x3F, 0x00, 0x00, 0x00,
    0x00, 0x00, 0x00, 0x01,
    0x00, 0x00, 0x00, 0x1C,
    0x00, 0x00, 0x00, 0x02,
    0x00, 0x00, 0x00, 0x03,
    0x55, 0xDA, 0xA3, 0x98,
    0x40, 0x59, 0x00, 0x00,
    0x00, 0x00, 0x00, 0x00,
    0x55, 0xDA, 0xA3, 0x9A,
    0x40, 0x59, 0x00, 0x00,
    0x00, 0x00, 0x00, 0x00,
    0x55, 0xDA, 0xA3, 0x9C,
    0x40, 0x59, 0x00, 0x00,
    0x00, 0x00, 0x00, 0x00,
];

fn build_data() -> Vec<u8> {
    let archive_data = &SAMPLE_FILE_2[28..];
    assert_eq!(archive_data[0], 0x55);
    archive_data.to_vec()
}

fn point(timestamp: u32, value: f64) -> Point {
    Point(timestamp, value.to_bits())
}

fn blank_points(count: usize) -> Vec<Point> {
    vec![Point(0, 0); count]
}

#[test]
fn test_archive_index() {
    let archive = Archive::new(2, 3, build_data());

    // Our bucket names are aligned, ts normalization is working
    assert_eq!(archive.bucket_name(1440392088).0, 1440392088);
    assert_eq!(archive.bucket_name(1440392090).0, 1440392090);
    assert_eq!(archive.bucket_name(1440392092).0, 1440392092);

    // Assert absolute index in to archive
    assert_eq!(archive.archive_index(&BucketName(1440392088)).0, 0);
    assert_eq!(archive.archive_index(&BucketName(1440392090)).0, 1);
    assert_eq!(archive.archive_index(&BucketName(1440392092)).0, 2);

    // Now wrap around going down
    assert_eq!(archive.archive_index(&BucketName(1440392086)).0, 2);
    assert_eq!(archive.archive_index(&BucketName(1440392084)).0, 1);
    assert_eq!(archive.archive_index(&BucketName(1440392082)).0, 0);

    // Wrap around going up
    assert_eq!(archive.archive_index(&BucketName(1440392094)).0, 0);
    assert_eq!(archive.archive_index(&BucketName(1440392096)).0, 1);
    assert_eq!(archive.archive_index(&BucketName(1440392098)).0, 2);
}

#[test]
fn test_read_from_start() {
    let mut archive = Archive::new(2, 3, build_data());
    assert_eq!(archive.anchor_bucket_name(), BucketName(1440392088));
    assert_eq!(archive.seconds_per_point(), 2);
    assert_eq!(archive.points(), 3);
    assert_eq!(archive.size(), 36);
    assert_eq!(archive.archive_index(&BucketName(1440392088)), ArchiveIndex(0));

    {
        let mut points_buf = blank_points(3);
        let read_result = archive.read_points(BucketName(0), &mut points_buf[..]);
        let expected = vec![
            point(1440392088, 100.0),
            point(1440392090, 100.0),
            point(1440392092, 100.0),
        ];
        assert!(read_result.is_ok());
        assert_eq!(points_buf, expected);

        let point = point(1440392090, 8.0);
        let bucket_name = BucketName(point.0);
        archive.write(&point);
        assert_eq!(archive.archive_index(&bucket_name).0, 1);

        points_buf.truncate(1);
        let read_result = archive.read_points(bucket_name, &mut points_buf[..]);
        assert!(read_result.is_ok());
        assert_eq!(points_buf[0].0, 1440392090);
        assert_eq!(f64::from_bits(points_buf[0].1), 8.0);
    }
}

#[test]
fn test_read_from_middle() {
    let archive = Archive::new(2, 3, build_data());
    assert_eq!(archive.anchor_bucket_name(), BucketName(1440392088));
    assert_eq!(archive.seconds_per_point(), 2);
    assert_eq!(archive.points(), 3);
    assert_eq!(archive.size(), 36);
    assert_eq!(archive.archive_index(&BucketName(1440392088)), ArchiveIndex(0));

    {
        let mut points_buf = blank_points(3);
        let read_result =
            archive.read_points(BucketName(archive.seconds_per_point() * 1), &mut points_buf[..]);
        let expected = vec![
            point(1440392090, 100.0),
            point(1440392092, 100.0),
            point(1440392088, 100.0),
        ];
        assert!(read_result.is_ok());
        assert_eq!(points_buf, expected);
    }
}

#[test]
fn test_read_from_end() {
    let archive = Archive::new(2, 3, build_data());
    assert_eq!(archive.anchor_bucket_name(), BucketName(1440392088));
    assert_eq!(archive.seconds_per_point(), 2);
    assert_eq!(archive.points(), 3);
    assert_eq!(archive.size(), 36);
    assert_eq!(archive.archive_index(&BucketName(1440392088)), ArchiveIndex(0));

    {
        let mut points_buf = blank_points(3);
        let read_result =
            archive.read_points(BucketName(archive.seconds_per_point() * 2), &mut points_buf[..]);
        let expected = vec![
            point(1440392092, 100.0),
            point(1440392088, 100.0),
            point(1440392090, 100.0),
        ];
        assert!(read_result.is_ok());
        assert_eq!(points_buf, expected);
    }
}

#[test]
fn test_read_too_large() {
    let archive = Archive::new(2, 3, build_data());
    assert_eq!(archive.anchor_bucket_name(), BucketName(1440392088));
    assert_eq!(archive.seconds_per_point(), 2);
    assert_eq!(archive.points(), 3);
    assert_eq!(archive.size(), 36);
    assert_eq!(archive.archive_index(&BucketName(1440392088)), ArchiveIndex(0));

    let mut points_buf = blank_points(4);
    let read_result = archive.read_points(BucketName(0), &mut points_buf[..]);
    let error = read_result.unwrap_err();
    assert_eq!(error, ReadError::RequestTooLarge { requested: 4, available: 3 });
    assert_eq!(
        error.message(),
        "Points requested exceeds archive retention period. Requested: 4, Available: 3"
    );
    assert_eq!(points_buf, blank_points(4));
}

#[test]
fn archive_test_write() {
    let mut archive = Archive::new(2, 3, build_data());
    assert_eq!(archive.anchor_bucket_name(), BucketName(1440392088));
    assert_eq!(archive.seconds_per_point(), 2);
    assert_eq!(archive.points(), 3);
    assert_eq!(archive.size(), 36);
    assert_eq!(archive.archive_index(&BucketName(1440392088)), ArchiveIndex(0));

    {
        let mut points_buf = blank_points(3);
        archive.read_points(BucketName(0), &mut points_buf[..]).unwrap();
        let expected = vec![
            point(1440392088, 100.0),
            point(1440392090, 100.0),
            point(1440392092, 100.0),
        ];
        assert_eq!(points_buf, expected);

        let point = point(1440392090, 8.0);
        let bucket_name = BucketName(point.0);
        archive.write(&point);
        assert_eq!(archive.archive_index(&bucket_name).0, 1);

        points_buf.truncate(1);
        archive.read_points(bucket_name, &mut points_buf[..]).unwrap();
        assert_eq!(points_buf[0].0, 1440392090);
        assert_eq!(f64::from_bits(points_buf[0].1), 8.0);
    }
}

#[test]
fn write_changes_one_slot_only() {
    let mut archive = Archive::new(2, 3, build_data());
    archive.write(&point(1440392091, 8.0));
    let mut expected = build_data();
    // The timestamp is stored as its bucket's name, 1440392090.
    expected[12..16].copy_from_slice(&[0x55, 0xDA, 0xA3, 0x9A]);
    expected[16..24].copy_from_slice(&8.0f64.to_be_bytes());
    assert_eq!(archive.slice(), &expected[..]);
}

#[test]
fn write_twice_is_write_once() {
    let mut once = Archive::new(2, 3, build_data());
    let mut twice = Archive::new(2, 3, build_data());
    let p = point(1440392086, 3.5);
    once.write(&p);
    twice.write(&p);
    twice.write(&p);
    assert_eq!(once.slice(), twice.slice());

    let mut fresh_once = Archive::new(5, 4, vec![0u8; 48]);
    let mut fresh_twice = Archive::new(5, 4, vec![0u8; 48]);
    let p = point(1003, 1.25);
    fresh_once.write(&p);
    fresh_twice.write(&p);
    fresh_twice.write(&p);
    assert_eq!(fresh_once.slice(), fresh_twice.slice());
    assert_eq!(fresh_once.anchor_bucket_name(), BucketName(1000));
}

#[test]
fn fresh_archive_addresses_slot_zero() {
    let mut archive = Archive::new(10, 4, vec![0u8; 48]);
    assert_eq!(archive.anchor_bucket_name(), BucketName(0));
    assert_eq!(archive.archive_index(&BucketName(1000)), ArchiveIndex(0));
    assert_eq!(archive.archive_index(&BucketName(4_000_000_000)), ArchiveIndex(0));
    archive.write(&point(1234, 7.0));
    assert_eq!(archive.anchor_bucket_name(), BucketName(1230));
    let mut one = blank_points(1);
    archive.read_points(BucketName(1230), &mut one).unwrap();
    assert_eq!(one, vec![point(1230, 7.0)]);
}

#[test]
fn bucket_name_is_normalized() {
    let archive = Archive::new(60, 3, vec![0u8; 36]);
    for &ts in [0u32, 1, 59, 60, 61, 1440392091, u32::MAX].iter() {
        let bn = archive.bucket_name(ts).0;
        assert_eq!(bn % 60, 0);
        assert!(bn <= ts && ts - bn < 60);
    }
    assert_eq!(archive.bucket_name(1440392091).0, 1440392040);
    assert_eq!(archive.bucket_name(u32::MAX).0, 4294967280);
}

#[test]
fn index_steps_with_the_anchor() {
    let archive = Archive::new(2, 3, build_data());
    let anchor: i64 = 1440392088;
    for k in -10i64..=10 {
        let bn = (anchor + k * 2) as u32;
        let index = archive.archive_index(&BucketName(bn)).0 as i64;
        assert_eq!(index, k.rem_euclid(3));
    }
    // A distance that is no whole number of points is rounded toward zero.
    assert_eq!(archive.archive_index(&BucketName(1440392087)).0, 0);
    assert_eq!(archive.archive_index(&BucketName(1440392085)).0, 2);
    assert_eq!(archive.archive_index(&BucketName(1440392089)).0, 0);
}

#[test]
fn py_mod_is_never_negative() {
    assert_eq!(Archive::py_mod(-1, 3), 2);
    assert_eq!(Archive::py_mod(-3, 3), 0);
    assert_eq!(Archive::py_mod(-4, 3), 2);
    assert_eq!(Archive::py_mod(0, 3), 0);
    assert_eq!(Archive::py_mod(7, 3), 1);
    assert_eq!(Archive::py_mod(i64::MIN, 4294967295), 2147483647);
}

#[test]
fn retention_and_size() {
    let archive = Archive::new(2, 3, build_data());
    assert_eq!(archive.retention(), 6);
    assert_eq!(archive.size(), 36);
    assert_eq!(archive.slice(), &SAMPLE_FILE_2[28..]);
}

#[test]
fn read_fills_exactly_the_buffer() {
    let archive = Archive::new(2, 3, build_data());
    for count in 0usize..=3 {
        let mut buf = blank_points(count);
        assert!(archive.read_points(BucketName(1440392092), &mut buf).is_ok());
        assert_eq!(buf.len(), count);
        let all = [
            point(1440392092, 100.0),
            point(1440392088, 100.0),
            point(1440392090, 100.0),
        ];
        assert_eq!(buf, all[..count].to_vec());
    }
    let mut buf = blank_points(5);
    assert_eq!(
        archive.read_points(BucketName(1440392092), &mut buf),
        Err(ReadError::RequestTooLarge { requested: 5, available: 3 })
    );
}

#[test]
fn ragged_data_is_a_malformed_point() {
    let data = build_data();
    let mut buf = blank_points(3);
    let result = Archive::write_data_as_points_to_slice(&data[..29], &mut buf[1..]);
    assert_eq!(result, Err(ReadError::MalformedPoint(5)));
    assert_eq!(
        result.unwrap_err().message(),
        "Could not divide archive into points- got malformed point of size 5"
    );
    assert_eq!(
        buf,
        vec![Point(0, 0), point(1440392088, 100.0), point(1440392090, 100.0)]
    );
}
