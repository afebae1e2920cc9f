use dicom_viewer_rs::image::DecodedSlice;
use dicom_viewer_rs::image_repository::ImageRepository;

fn slice_with(
    table_position: Option<i64>,
    instance_number: Option<i32>,
) -> DecodedSlice {
    DecodedSlice {
        width: 1,
        height: 1,
        series_instance_uid: String::from("S1"),
        table_position,
        instance_number,
        pixels: vec![0u16],
    }
}

#[test]
fn key_prefers_table_position() {
    // table position 12.5 units (thousandths) together with an instance
    // number: the table position wins.
    let s = slice_with(Some(12_500), Some(3));
    assert_eq!(ImageRepository::get_image_order(&s), 12_500);
}

#[test]
fn key_falls_back_to_instance_number() {
    // instance number 3 alone resolves to 3.0 in key units
    let s = slice_with(None, Some(3));
    assert_eq!(ImageRepository::get_image_order(&s), 3_000);
}

#[test]
fn key_defaults_to_zero() {
    let s = slice_with(None, None);
    assert_eq!(ImageRepository::get_image_order(&s), 0);
}

#[test]
fn key_keeps_negative_table_positions() {
    let s = slice_with(Some(-7_250), Some(12));
    assert_eq!(ImageRepository::get_image_order(&s), -7_250);
}

#[test]
fn key_scales_negative_instance_numbers() {
    let s = slice_with(None, Some(-4));
    assert_eq!(ImageRepository::get_image_order(&s), -4_000);
}
