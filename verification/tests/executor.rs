use mix_compression::algorithms::bzip2::Bzip2;
use mix_compression::algorithms::bzip2::Bzip2CompressionLevel;
use mix_compression::algorithms::felics::FELICS;
use mix_compression::algorithms::gzip::Gzip;
use mix_compression::algorithms::gzip::GzipCompressionLevel;
use mix_compression::algorithms::jpegxl::JPEGXL;
use mix_compression::algorithms::losslessjpeg::LosslessJPEG;
use mix_compression::algorithms::xz2::Xz2;
use mix_compression::algorithms::xz2::Xz2CompressionLevel;
use mix_compression::container::parse_split_header;
use mix_compression::container::split_header;
use mix_compression::mixing_policy::split_offset;
use mix_compression::workload::FolderWorkload;

#[test]
fn split_offset_bounds_and_rounding() {
    // Plain cases.
    assert_eq!(split_offset(100, 50), 50);
    assert_eq!(split_offset(1000, 25), 250);
    // The whole input and none of it.
    assert_eq!(split_offset(12345, 100), 12345);
    assert_eq!(split_offset(12345, 0), 0);
    assert_eq!(split_offset(0, 73), 0);
    // Ties round half to even: 0.5 rounds down to 0, 1.5 rounds up
    // to 2.
    assert_eq!(split_offset(1, 50), 0);
    assert_eq!(split_offset(3, 50), 2);
    // A non-tie just rounds to nearest.
    assert_eq!(split_offset(7, 21), 1);
    // The offset never exceeds the length.
    for f in 0..=100u32 {
        assert!(split_offset(9, f) <= 9);
    }
}

#[test]
fn split_container_round_trip() {
    let header = split_header(90_210, 640, 480);
    assert_eq!(header.len(), 27);
    assert_eq!(
        &header[0..11],
        &[137u8, 77, 73, 88, 80, 78, 71, 13, 10, 26, 10]
    );
    let parsed = parse_split_header(&header).expect("a fresh header parses");
    assert_eq!(parsed, (90_210, 640, 480));
}

#[test]
fn split_container_rejects_bad_input() {
    // Too short.
    assert!(parse_split_header(&vec![137u8, 77, 73]).is_none());
    // Wrong signature byte.
    let mut header = split_header(1, 2, 3);
    header[5] = 0;
    assert!(parse_split_header(&header).is_none());
    // Trailing payload bytes after the head are fine.
    let mut long = split_header(7, 8, 9);
    long.push(42);
    long.push(43);
    assert_eq!(parse_split_header(&long), Some((7, 8, 9)));
}

#[test]
fn folder_workload_counts_and_sizes() {
    let folder = FolderWorkload::new(String::from("photos"), 60, vec![10, 20, 30]);
    assert_eq!(folder.data_files_count(), 3);
    assert_eq!(folder.data_files_size(), 60);
    folder.get_results_folder();
    let empty = FolderWorkload::new(String::from("empty"), 60, Vec::new());
    assert_eq!(empty.data_files_count(), 0);
    assert_eq!(empty.data_files_size(), 0);
}

#[test]
fn codec_configurations_carry_measured_metrics() {
    let gzip = Gzip::new(GzipCompressionLevel(9), 2529, 120);
    assert_eq!(gzip.level(), 9);
    assert_eq!(gzip.compressed_size(), 2529);
    assert_eq!(gzip.time_required(), 120);
    let m = gzip.metrics(0);
    assert_eq!(m.compressed_size, 2529);
    assert_eq!(m.time_required, 120);
    assert_eq!(m.algorithm, 0);

    let bzip2 = Bzip2::new(Bzip2CompressionLevel(6), 2300, 200);
    assert_eq!(bzip2.level(), 6);
    assert_eq!(bzip2.metrics(1).algorithm, 1);

    let xz = Xz2::new(Xz2CompressionLevel(3), 2100, 340);
    assert_eq!(xz.level(), 3);
    assert_eq!(xz.metrics(2).compressed_size, 2100);

    let felics = FELICS::new(5000, 40);
    assert_eq!(felics.compressed_size(), 5000);
    let jxl = JPEGXL::new(4500, 90);
    assert_eq!(jxl.time_required(), 90);
}

#[test]
fn lossless_jpeg_records_metrics_later() {
    let mut lossless = LosslessJPEG::new(4);
    assert_eq!(lossless.predictor(), 4);
    lossless.record_metrics(7777, 55);
    assert_eq!(lossless.compressed_size(), 7777);
    assert_eq!(lossless.time_required(), 55);
    let m = lossless.metrics(3);
    assert_eq!(m.time_required, 55);
    assert_eq!(m.algorithm, 3);
}
