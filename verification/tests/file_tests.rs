use whisper::admission::admits_points;
use whisper::file::{Cascade, Pending, DEFAULT_X_FILES_FACTOR};
use whisper::header::{AggregationType, ArchiveInfo, Header, ParseError, STATIC_HEADER_SIZE};
use whisper::archive::{BucketName, ARCHIVE_INFO_SIZE};
use whisper::{Point, Schema, WhisperFile};
use whisper::schema::RetentionPolicy;

// whisper-create.py blah.wsp 60:5
const SAMPLE_FILE: [u8; 88] = [
    //  agg type
    0x00, 0x00, 0x00, 0x01,
    //  max ret
    0x00, 0x00, 0x01, 0x2C,
    // x_files_factor
    0x3F, 0x00, 0x00, 0x00,
    // archive_count
    0x00, 0x00, 0x00, 0x01,
    // archive_info[0].offset
    0x00, 0x00, 0x00, 0x1C,
    // archive_info[0].seconds_per_point
    0x00, 0x00, 0x00, 0x3C,
    // archive_info[0].points
    0x00, 0x00, 0x00, 0x05,
    // archive[0] data
    0x55, 0xD9, 0x33, 0xE8, 0x40, 0x59, 0x00, 0x00,
    0x00, 0x00, 0x00, 0x00, 0x00, 0x00, 0x00, 0x00,
    0x00, 0x00, 0x00, 0x00, 0x00, 0x00, 0x00, 0x00,
    0x00, 0x00, 0x00, 0x00, 0x00, 0x00, 0x00, 0x00,
    0x00, 0x00, 0x00, 0x00, 0x00, 0x00, 0x00, 0x00,
    0x00, 0x00, 0x00, 0x00, 0x00, 0x00, 0x00, 0x00,
    0x00, 0x00, 0x00, 0x00, 0x00, 0x00, 0x00, 0x00,
    0x00, 0x00, 0x00, 0x00,
];

fn schema(policies: &[(u32, u32)]) -> Schema {
    Schema {
        retention_policies: policies
            .iter()
            .map(|&(precision, points)| RetentionPolicy { precision, points })
            .collect(),
    }
}

fn point(timestamp: u32, value: f64) -> Point {
    Point(timestamp, value.to_bits())
}

fn average(values: &[u64]) -> u64 {
    let sum: f64 = values.iter().map(|&bits| f64::from_bits(bits)).sum();
    (sum / values.len() as f64).to_bits()
}

/// Writes a point, averaging, and returns the archives that changed.
fn write_through(file: &mut WhisperFile, p: &Point, now: i64) -> Vec<usize> {
    let before: Vec<Vec<u8>> = file.archives.iter().map(|a| a.slice().to_vec()).collect();
    file.write_at(p, now, |values: &Vec<u64>| average(values));
    (0..file.archives.len()).filter(|&i| file.archives[i].slice() != &before[i][..]).collect()
}

#[test]
fn test_header() {
    let hdr = Header::new_from_slice(&SAMPLE_FILE).unwrap();

    assert_eq!(hdr.aggregation_type(), AggregationType::Average);
    assert_eq!(hdr.max_retention(), 300);
    assert_eq!(f32::from_bits(hdr.x_files_factor()), 0.5);

    let archives = hdr.to_archives(&SAMPLE_FILE).unwrap();
    assert_eq!(archives.len(), 1);
    assert_eq!(archives[0].seconds_per_point(), 60);
    assert_eq!(archives[0].points(), 5);
    assert_eq!(archives[0].size(), 60); // 5 points * (8 bytes float + 4 bytes ts) = 60 bytes
    assert_eq!(archives[0].slice(), &SAMPLE_FILE[28..]);
    assert_eq!(archives[0].anchor_bucket_name(), BucketName(0x55D933E8));
}

#[test]
fn mod_test_write() {
    let schema = schema(&[(1, 60), (60, 525600)]);
    assert!(schema.is_valid());

    let mut file = WhisperFile::new(&schema);

    // Ten seconds after the epoch is far older than a year: the point is dropped.
    file.write(&point(10, 0.0), |values: &Vec<u64>| average(values));
    assert!(file.archives[0].slice().iter().all(|&b| b == 0));
    assert!(file.archives[1].slice().iter().all(|&b| b == 0));
}

#[test]
fn test_read_all() {
    let schema = schema(&[(1, 60), (60, 5)]);
    let mut file = WhisperFile::new_transient(&schema);
    assert_eq!(file.header.x_files_factor(), 0);
    for &(t, v) in [
        (2, 1.1),
        (3, 3.1),
        (9, 9.1),
        (15, 15.1),
        (65, 65.1),
        (122, 122.1),
        (133, 133.1),
    ]
    .iter()
    {
        let written = write_through(&mut file, &point(1000 + t, v), 1000 + t as i64);
        assert_eq!(written, vec![0, 1]);
    }

    let result = file.read_all();
    let mut fine = vec![Point(0, 0); 60];
    fine[0] = point(1122, 122.1);
    fine[1] = point(1003, 3.1);
    fine[3] = point(1065, 65.1);
    fine[7] = point(1009, 9.1);
    fine[11] = point(1133, 133.1);
    fine[13] = point(1015, 15.1);
    let coarse = vec![
        point(960, (1.1 + 3.1 + 9.1 + 15.1) / 4.0),
        point(1020, 65.1),
        point(1080, (122.1 + 133.1) / 2.0),
        Point(0, 0),
        Point(0, 0),
    ];
    assert_eq!(result, vec![fine, coarse]);
}

#[test]
fn test_write_outside_retention() {
    let schema = schema(&[(1, 60), (60, 5)]);
    let mut file = WhisperFile::new(&schema);
    // Older than the coarsest archive spans, and of the future.
    for &(ts, now) in [(1000u32, 1300i64), (1000, 999), (1000, 5000), (0, i64::MAX), (7, i64::MIN)]
        .iter()
    {
        assert_eq!(file.primary_archive(ts, now), None);
        let written = write_through(&mut file, &point(ts, 1.0), now);
        assert!(written.is_empty());
    }
    assert_eq!(file.read_all(), vec![vec![Point(0, 0); 60], vec![Point(0, 0); 5]]);
}

#[test]
fn primary_is_the_finest_archive_that_covers() {
    let file = WhisperFile::new(&schema(&[(1, 60), (60, 5)]));
    assert_eq!(file.primary_archive(1000, 1000), Some(0));
    assert_eq!(file.primary_archive(1000, 1059), Some(0));
    assert_eq!(file.primary_archive(1000, 1060), Some(1));
    assert_eq!(file.primary_archive(1000, 1299), Some(1));
    assert_eq!(file.primary_archive(1000, 1300), None);
    assert_eq!(file.primary_archive(1000, 999), None);
}

#[test]
fn write_into_the_coarser_archive_leaves_the_finer_alone() {
    let mut file = WhisperFile::new(&schema(&[(1, 60), (60, 5)]));
    let written = write_through(&mut file, &point(1000, 4.0), 1100);
    assert_eq!(written, vec![1]);
    let all = file.read_all();
    assert_eq!(all[0], vec![Point(0, 0); 60]);
    assert_eq!(all[1][0], point(960, 4.0));
}

#[test]
fn cascade_halts_where_too_few_points_are_kept() {
    // One half asks for 30 of the 60 candidates; three archives.
    let mut file = WhisperFile::new(&schema(&[(1, 60), (60, 5), (300, 4)]));
    assert_eq!(file.header.x_files_factor(), DEFAULT_X_FILES_FACTOR);
    for t in 0u32..29 {
        let written = write_through(&mut file, &point(1020 + t, 2.0), 1020 + t as i64);
        assert_eq!(written, vec![0]);
    }
    let all = file.read_all();
    assert_eq!(all[1], vec![Point(0, 0); 5]);
    assert_eq!(all[2], vec![Point(0, 0); 4]);

    // The thirtieth point makes one half: the second archive is written. It
    // then holds one of five candidates of the third, which is too few.
    let written = write_through(&mut file, &point(1049, 2.0), 1049);
    assert_eq!(written, vec![0, 1]);
    let all = file.read_all();
    assert_eq!(all[1][0], point(1020, 2.0));
    assert_eq!(all[2], vec![Point(0, 0); 4]);
}

#[test]
fn cascade_reaches_every_archive_that_admits() {
    let mut file = WhisperFile::new_transient(&schema(&[(1, 60), (60, 5), (300, 4)]));
    let written = write_through(&mut file, &point(1234, 6.0), 1234);
    assert_eq!(written, vec![0, 1, 2]);
    let all = file.read_all();
    assert_eq!(all[0][0], point(1234, 6.0));
    assert_eq!(all[1][0], point(1200, 6.0));
    assert_eq!(all[2][0], point(1200, 6.0));
}

#[test]
fn plan_hands_out_the_kept_values_in_order() {
    let mut file = WhisperFile::new_transient(&schema(&[(1, 60), (60, 5)]));
    write_through(&mut file, &point(1002, 1.5), 1002);
    write_through(&mut file, &point(1005, 2.5), 1005);
    match file.plan(0, 1005) {
        Cascade::Aggregate(Pending { archive, timestamp, values }) => {
            assert_eq!(archive, 1);
            assert_eq!(timestamp, 960);
            assert_eq!(values, vec![1.5f64.to_bits(), 2.5f64.to_bits()]);
        }
        Cascade::Finished => panic!("the coarser archive admits every aggregate"),
    }
    assert!(matches!(file.plan(1, 960), Cascade::Finished));
    assert!(matches!(file.plan(2, 960), Cascade::Finished));
}

#[test]
fn write_takes_each_aggregate_from_its_function() {
    let mut file = WhisperFile::new_transient(&schema(&[(1, 60), (60, 5), (300, 4)]));
    file.write_at(&point(1234, 6.0), 1234, |values: &Vec<u64>| values.len() as u64 + 40);
    let all = file.read_all();
    assert_eq!(all[0][0], point(1234, 6.0));
    assert_eq!(all[1][0], Point(1200, 41));
    assert_eq!(all[2][0], Point(1200, 41));
    file.write_at(&point(1235, 6.0), 1235, |values: &Vec<u64>| values.len() as u64 + 40);
    let all = file.read_all();
    assert_eq!(all[1][0], Point(1200, 42));
    assert_eq!(all[2][0], Point(1200, 41));
}

#[test]
fn writing_a_point_twice_changes_nothing() {
    let mut once = WhisperFile::new_transient(&schema(&[(1, 60), (60, 5)]));
    let mut twice = WhisperFile::new_transient(&schema(&[(1, 60), (60, 5)]));
    for &(t, v) in [(1002u32, 1.1), (1003, 3.1), (1065, 65.1)].iter() {
        write_through(&mut once, &point(t, v), t as i64);
        write_through(&mut twice, &point(t, v), t as i64);
        write_through(&mut twice, &point(t, v), t as i64);
    }
    assert_eq!(once.read_all(), twice.read_all());
    assert_eq!(once.archives[0].slice(), twice.archives[0].slice());
    assert_eq!(once.archives[1].slice(), twice.archives[1].slice());
}

#[test]
fn file_creation() {
    let schema = schema(&[(1, 60), (60, 525600)]);
    assert_eq!(schema.max_retention(), 31_536_000);
    assert_eq!(schema.size_on_disk(), 16 + 24 + 720 + 6_307_200);
    let file = WhisperFile::new(&schema);
    let image = file.header.to_bytes();
    let mut expected = Vec::new();
    expected.extend_from_slice(&1u32.to_be_bytes());
    expected.extend_from_slice(&31_536_000u32.to_be_bytes());
    expected.extend_from_slice(&0.5f32.to_be_bytes());
    expected.extend_from_slice(&2u32.to_be_bytes());
    assert_eq!(&image[..16], &expected[..]);
    assert_eq!(image.len(), STATIC_HEADER_SIZE + 2 * ARCHIVE_INFO_SIZE);
    assert_eq!(&image[16..28], &[0, 0, 0, 40, 0, 0, 0, 1, 0, 0, 0, 60]);
    assert_eq!(&image[28..40], &[0, 0, 0x02, 0xF8, 0, 0, 0, 60, 0x00, 0x08, 0x05, 0x20]);
    assert_eq!(
        file.header.archive_infos,
        vec![
            ArchiveInfo { offset: 40, seconds_per_point: 1, points: 60 },
            ArchiveInfo { offset: 760, seconds_per_point: 60, points: 525600 },
        ]
    );
    assert_eq!(file.archives[0].size(), 720);
    assert_eq!(file.archives[1].size(), 6_307_200);
    assert_eq!(Header::archives_start(2), 40);

    let header = Header::for_schema(AggregationType::Sum, 0.25f32.to_bits(), &schema);
    assert_eq!(header.aggregation_type(), AggregationType::Sum);
    assert_eq!(header.max_retention(), 31_536_000);
    assert_eq!(header.archive_infos, file.header.archive_infos);
    assert_eq!(&header.to_bytes()[..4], &[0, 0, 0, 2]);
    assert_eq!(&header.to_bytes()[8..12], &[0x3E, 0x80, 0, 0]);
}

#[test]
fn open_reads_back_what_was_created() {
    let schema = schema(&[(1, 60), (60, 5)]);
    let mut file = WhisperFile::new(&schema);
    write_through(&mut file, &point(1002, 1.5), 1002);
    let mut image = file.header.to_bytes();
    for archive in &file.archives {
        image.extend_from_slice(archive.slice());
    }
    assert_eq!(image.len() as u64, schema.size_on_disk());
    let opened = WhisperFile::open(&image).unwrap();
    assert_eq!(opened.header.aggregation_type(), AggregationType::Average);
    assert_eq!(opened.header.max_retention(), 300);
    assert_eq!(opened.header.archive_infos, file.header.archive_infos);
    assert_eq!(opened.read_all(), file.read_all());
}

#[test]
fn open_refuses_what_is_no_file() {
    assert_eq!(WhisperFile::open(&SAMPLE_FILE[..15]).err(), Some(ParseError::TruncatedHeader));
    assert_eq!(WhisperFile::open(&SAMPLE_FILE[..27]).err(), Some(ParseError::TruncatedHeader));
    assert_eq!(WhisperFile::open(&SAMPLE_FILE[..87]).err(), Some(ParseError::InvalidArchive(0)));
    assert!(WhisperFile::open(&SAMPLE_FILE).is_ok());

    let mut unknown = SAMPLE_FILE;
    unknown[3] = 6;
    assert_eq!(WhisperFile::open(&unknown).err(), Some(ParseError::UnknownAggregation(6)));
    unknown[3] = 0;
    assert_eq!(WhisperFile::open(&unknown).err(), Some(ParseError::UnknownAggregation(0)));
    // The aggregation is looked at before the table's length.
    assert_eq!(
        Header::new_from_slice(&unknown[..16]).err(),
        Some(ParseError::UnknownAggregation(0))
    );

    let mut zero_resolution = SAMPLE_FILE;
    zero_resolution[23] = 0;
    assert_eq!(
        Header::new_from_slice(&zero_resolution).err(),
        Some(ParseError::InvalidArchive(0))
    );
    let mut zero_points = SAMPLE_FILE;
    zero_points[27] = 0;
    assert_eq!(Header::new_from_slice(&zero_points).err(), Some(ParseError::InvalidArchive(0)));

    // Slots that begin inside the archive table.
    let mut overlapping = SAMPLE_FILE;
    overlapping[19] = 0x1B;
    assert_eq!(WhisperFile::open(&overlapping).err(), Some(ParseError::InvalidArchive(0)));
}

#[test]
fn aggregation_codes() {
    let all = [
        (AggregationType::Average, 1u32),
        (AggregationType::Sum, 2),
        (AggregationType::Last, 3),
        (AggregationType::Max, 4),
        (AggregationType::Min, 5),
    ];
    for &(method, code) in all.iter() {
        assert_eq!(method.to_u32(), code);
        assert_eq!(AggregationType::from_u32(code), Some(method));
    }
    assert_eq!(AggregationType::from_u32(0), None);
    assert_eq!(AggregationType::from_u32(6), None);
}

#[test]
fn schema_validity() {
    assert!(schema(&[(1, 60), (60, 5)]).is_valid());
    assert!(!schema(&[]).is_valid());
    assert!(!schema(&[(0, 60)]).is_valid());
    assert!(!schema(&[(1, 0)]).is_valid());
    assert!(!schema(&[(1, 60), (65536, 65536)]).is_valid());
    assert!(!schema(&[(1, 357_913_940)]).is_valid());
    assert!(schema(&[(1, 357_913_938)]).is_valid());
}

#[test]
fn admission_compares_exactly() {
    let half = 0.5f32.to_bits();
    assert!(admits_points(1, 2, half));
    assert!(admits_points(30, 60, half));
    assert!(!admits_points(29, 60, half));
    assert!(!admits_points(1, 3, half));
    assert!(!admits_points(0, 0, half));
    assert!(!admits_points(0, 0, 0));

    // Zero admits even when nothing is kept.
    assert!(admits_points(0, 5, 0.0f32.to_bits()));
    assert!(admits_points(0, 5, (-0.0f32).to_bits()));
    assert!(admits_points(0, 5, (-1.0f32).to_bits()));
    assert!(admits_points(0, 5, f32::NEG_INFINITY.to_bits()));
    assert!(!admits_points(5, 5, f32::INFINITY.to_bits()));
    assert!(!admits_points(5, 5, f32::NAN.to_bits()));

    let one = 1.0f32.to_bits();
    assert!(admits_points(5, 5, one));
    assert!(!admits_points(4, 5, one));
    assert!(!admits_points(5, 5, 1.5f32.to_bits()));
    assert!(admits_points(3, 2, 1.5f32.to_bits()));
    assert!(!admits_points(u32::MAX, 1, 4294967296.0f32.to_bits()));
    assert!(admits_points(u32::MAX, 1, 4294967040.0f32.to_bits()));
    assert!(admits_points(16_777_216, 1, 16_777_216.0f32.to_bits()));
    assert!(!admits_points(16_777_215, 1, 16_777_216.0f32.to_bits()));

    // The smallest positive single asks for something, however little.
    assert!(!admits_points(0, 1, 1));
    assert!(admits_points(1, u32::MAX, 1));
    assert!(admits_points(1, u32::MAX, f32::MIN_POSITIVE.to_bits()));

    // One third is a little more than the single nearest to it is not.
    let third = (1.0f32 / 3.0).to_bits();
    assert_eq!(third, 0x3EAA_AAAB);
    assert!(!admits_points(1, 3, third));
    assert!(admits_points(11_184_811, 33_554_432, third));
    assert!(!admits_points(11_184_810, 33_554_432, third));
}

#[test]
fn write_stores_a_point_of_this_moment() {
    let mut file = WhisperFile::new(&schema(&[(1, 60), (60, 5)]));
    let now = std::time::SystemTime::now()
        .duration_since(std::time::UNIX_EPOCH)
        .unwrap()
        .as_secs() as u32;
    file.write(&point(now, 2.5), |values: &Vec<u64>| average(values));
    assert_eq!(file.read_all()[0][0], point(now, 2.5));
}

#[test]
fn header_round_trip() {
    let mut header = Header::new(AggregationType::Max, 86400, 0.25f32.to_bits());
    header.archive_infos.push(ArchiveInfo { offset: 40, seconds_per_point: 10, points: 6 });
    header.archive_infos.push(ArchiveInfo { offset: 112, seconds_per_point: 60, points: 1440 });
    let bytes = header.to_bytes();
    assert_eq!(bytes.len(), 40);
    let back = Header::new_from_slice(&bytes).unwrap();
    assert_eq!(back.aggregation_type(), AggregationType::Max);
    assert_eq!(back.max_retention(), 86400);
    assert_eq!(f32::from_bits(back.x_files_factor()), 0.25);
    assert_eq!(back.archive_infos, header.archive_infos);
    // The table is there, the slots are not.
    assert_eq!(back.to_archives(&bytes).err(), Some(ParseError::InvalidArchive(0)));
}

#[test]
fn no_candidates_admit_nothing() {
    // The second archive is the finer one: none of its points stands for
    // several of the first.
    let mut file = WhisperFile::new_transient(&schema(&[(60, 5), (1, 60)]));
    let written = write_through(&mut file, &point(1000, 3.0), 1000);
    assert_eq!(written, vec![0]);
    assert!(matches!(file.plan(0, 1000), Cascade::Finished));
}
