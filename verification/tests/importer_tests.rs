use draw_order::importer::BufferSource;
use draw_order::importer::Buffers;
use draw_order::importer::ImageFormat;
use draw_order::importer::buffer_uri_errors;
use draw_order::importer::classify_buffer_uri;
use draw_order::importer::first_short_buffer;
use draw_order::importer::is_binary_gltf;
use draw_order::importer::parse_data_uri;

#[test]
fn mime_type_jpeg() {
    assert_eq!(ImageFormat::from_mime_type("image/jpeg"), ImageFormat::Jpeg);
}

#[test]
fn mime_type_png() {
    assert_eq!(ImageFormat::from_mime_type("image/png"), ImageFormat::Png);
}

#[test]
fn extension_formats() {
    assert_eq!(ImageFormat::from_extension("jpg"), ImageFormat::Jpeg);
    assert_eq!(ImageFormat::from_extension("jpeg"), ImageFormat::Jpeg);
    assert_eq!(ImageFormat::from_extension("png"), ImageFormat::Png);
}

#[test]
fn binary_gltf_magic_is_recognised() {
    let mut data = b"glTF".to_vec();
    data.extend_from_slice(&[2, 0, 0, 0]);
    assert!(is_binary_gltf(&data));
    assert!(is_binary_gltf(&b"glTF".to_vec()));
}

#[test]
fn standard_gltf_is_not_binary() {
    assert!(!is_binary_gltf(&b"{ \"asset\": {} }".to_vec()));
    assert!(!is_binary_gltf(&b"glT".to_vec()));
    assert!(!is_binary_gltf(&Vec::new()));
}

#[test]
fn buffers_take_round_trip() {
    let data = vec![vec![1u8, 2, 3], vec![4u8, 5]];
    let buffers = Buffers::new(data.clone());
    assert_eq!(buffers.take(), data);
}

#[test]
fn buffer_lookup() {
    let buffers = Buffers::new(vec![vec![1u8, 2, 3], vec![4u8, 5]]);
    assert_eq!(buffers.buffer(0), Some(&vec![1u8, 2, 3]));
    assert_eq!(buffers.buffer(1), Some(&vec![4u8, 5]));
    assert_eq!(buffers.buffer(2), None);
}

#[test]
fn buffer_view_slices() {
    let buffers = Buffers::new(vec![vec![10u8, 11, 12, 13, 14]]);
    assert_eq!(buffers.view_bytes(0, 1, 3), Some(vec![11u8, 12, 13]));
    assert_eq!(buffers.view_bytes(0, 0, 5), Some(vec![10u8, 11, 12, 13, 14]));
    assert_eq!(buffers.view_bytes(0, 5, 0), Some(vec![]));
}

#[test]
fn buffer_view_out_of_range() {
    let buffers = Buffers::new(vec![vec![10u8, 11, 12]]);
    assert_eq!(buffers.view_bytes(0, 2, 2), None);
    assert_eq!(buffers.view_bytes(0, 4, 0), None);
    assert_eq!(buffers.view_bytes(1, 0, 1), None);
}

#[test]
fn data_uri_payload_is_decoded() {
    assert_eq!(
        parse_data_uri("data:application/octet-stream;base64,aGVsbG8="),
        Some(b"hello".to_vec())
    );
}

#[test]
fn data_uri_takes_the_second_comma_separated_segment() {
    assert_eq!(
        parse_data_uri("data:;base64,aGVsbG8=,ignored"),
        Some(b"hello".to_vec())
    );
    assert_eq!(parse_data_uri("data:;base64,,aGVsbG8="), Some(Vec::new()));
}

#[test]
fn data_uri_invalid_payload_is_rejected() {
    assert_eq!(parse_data_uri("data:;base64,!!!"), None);
}

#[test]
fn buffer_uri_classification() {
    assert_eq!(classify_buffer_uri("#bin"), BufferSource::Bin);
    assert_eq!(
        classify_buffer_uri("data:application/octet-stream;base64,AAAA"),
        BufferSource::DataUri
    );
    assert_eq!(classify_buffer_uri("mesh.bin"), BufferSource::External);
    assert_eq!(classify_buffer_uri("data"), BufferSource::External);
    assert_eq!(classify_buffer_uri("#binx"), BufferSource::External);
}

#[test]
fn short_buffer_is_reported_first() {
    assert_eq!(first_short_buffer(&vec![10, 5, 3], &vec![10, 6, 9]), Some(1));
    assert_eq!(first_short_buffer(&vec![10, 5], &vec![10, 5]), None);
    assert_eq!(first_short_buffer(&vec![], &vec![]), None);
    assert_eq!(first_short_buffer(&vec![0], &vec![1]), Some(0));
}

#[test]
fn binary_first_buffer_must_not_name_a_uri() {
    // With an embedded binary chunk, a URI on buffer 0 is the violation.
    assert_eq!(buffer_uri_errors(&vec![true, true], true), vec![0]);
    assert_eq!(buffer_uri_errors(&vec![false, true], true), Vec::<usize>::new());
}

#[test]
fn later_buffers_must_name_a_uri() {
    assert_eq!(buffer_uri_errors(&vec![false, false], true), vec![1]);
    assert_eq!(buffer_uri_errors(&vec![false, true, false, false], true), vec![2, 3]);
}

#[test]
fn without_binary_chunk_every_buffer_needs_a_uri() {
    assert_eq!(buffer_uri_errors(&vec![false, true], false), vec![0]);
    assert_eq!(buffer_uri_errors(&vec![true, true], false), Vec::<usize>::new());
}
