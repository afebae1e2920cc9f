use dicom_viewer_rs::image::DecodedSlice;
use dicom_viewer_rs::image_repository::{ImageRepository, ImageRepositoryError};

fn slice_in_series(series: &str, table_position: i64, pixel: u16) -> DecodedSlice {
    DecodedSlice {
        width: 1,
        height: 1,
        series_instance_uid: String::from(series),
        table_position: Some(table_position),
        instance_number: None,
        pixels: vec![pixel],
    }
}

#[test]
fn rebuild_filter_counts_matching_series() {
    let mut repo = ImageRepository::new();
    repo.add_image(slice_in_series("S1", 30_000, 0)).unwrap();
    repo.add_image(slice_in_series("S2", 10_000, 0)).unwrap();
    repo.add_image(slice_in_series("S1", 20_000, 0)).unwrap();
    repo.add_image(slice_in_series("S1", 10_000, 0)).unwrap();

    let count = repo.filter_indices(&Some(String::from("S1")));
    assert_eq!(count, 3);
    // sorted ascending by key: offsets 3 (10.0), 2 (20.0), 0 (30.0)
    assert_eq!(repo.lookup(0), Some(3));
    assert_eq!(repo.lookup(1), Some(2));
    assert_eq!(repo.lookup(2), Some(0));
    assert_eq!(repo.lookup(3), None);
}

#[test]
fn rebuild_filter_without_series_takes_all() {
    let mut repo = ImageRepository::new();
    repo.add_image(slice_in_series("S1", 20_000, 0)).unwrap();
    repo.add_image(slice_in_series("S2", 10_000, 0)).unwrap();

    let count = repo.filter_indices(&None);
    assert_eq!(count, 2);
    // sorted by ordering key alone, regardless of series
    assert_eq!(repo.lookup(0), Some(1));
    assert_eq!(repo.lookup(1), Some(0));
}

#[test]
fn rebuild_filter_unknown_series_is_empty() {
    let mut repo = ImageRepository::new();
    repo.add_image(slice_in_series("S1", 0, 0)).unwrap();
    let count = repo.filter_indices(&Some(String::from("missing")));
    assert_eq!(count, 0);
    assert_eq!(repo.lookup(0), None);
}

#[test]
fn equal_keys_keep_arrival_order() {
    // stable tie-break: equal ordering keys retain relative arrival order
    let mut repo = ImageRepository::new();
    repo.add_image(slice_in_series("S1", 5_000, 1)).unwrap();
    repo.add_image(slice_in_series("S1", 5_000, 2)).unwrap();
    repo.add_image(slice_in_series("S1", 1_000, 3)).unwrap();
    repo.add_image(slice_in_series("S1", 5_000, 4)).unwrap();

    let count = repo.filter_indices(&Some(String::from("S1")));
    assert_eq!(count, 4);
    assert_eq!(repo.lookup(0), Some(2));
    assert_eq!(repo.lookup(1), Some(0));
    assert_eq!(repo.lookup(2), Some(1));
    assert_eq!(repo.lookup(3), Some(3));
}

#[test]
fn rebuild_filter_is_repeatable() {
    let mut repo = ImageRepository::new();
    repo.add_image(slice_in_series("S1", 5_000, 0)).unwrap();
    repo.add_image(slice_in_series("S1", 5_000, 0)).unwrap();
    repo.add_image(slice_in_series("S1", 2_000, 0)).unwrap();

    let filter = Some(String::from("S1"));
    let first_count = repo.filter_indices(&filter);
    let first: Vec<Option<usize>> = (0..4).map(|p| repo.lookup(p)).collect();
    let second_count = repo.filter_indices(&filter);
    let second: Vec<Option<usize>> = (0..4).map(|p| repo.lookup(p)).collect();
    assert_eq!(first_count, second_count);
    assert_eq!(first, second);
}

#[test]
fn add_image_rejects_empty_frame() {
    let mut repo = ImageRepository::new();
    let bad = DecodedSlice {
        width: 0,
        height: 1,
        series_instance_uid: String::from("S1"),
        table_position: None,
        instance_number: None,
        pixels: vec![],
    };
    assert_eq!(repo.add_image(bad), Err(ImageRepositoryError::DecodeFieldMissing));
    assert_eq!(repo.filter_indices(&None), 0);
}

#[test]
fn add_image_rejects_short_pixel_buffer() {
    let mut repo = ImageRepository::new();
    let bad = DecodedSlice {
        width: 2,
        height: 2,
        series_instance_uid: String::from("S1"),
        table_position: None,
        instance_number: None,
        pixels: vec![0u16; 3],
    };
    assert_eq!(repo.add_image(bad), Err(ImageRepositoryError::DecodeFieldMissing));
}

#[test]
fn first_image_in_series_is_earliest_arrival() {
    let mut repo = ImageRepository::new();
    repo.add_image(slice_in_series("S2", 9_000, 0)).unwrap();
    repo.add_image(slice_in_series("S1", 8_000, 0)).unwrap();
    repo.add_image(slice_in_series("S1", 1_000, 0)).unwrap();

    let img = repo.get_first_image_in_series(&String::from("S1")).unwrap();
    assert_eq!(img.order, 8_000);
    assert!(repo.get_first_image_in_series(&String::from("S9")).is_none());
}

#[test]
fn image_at_index_follows_filter() {
    let mut repo = ImageRepository::new();
    repo.add_image(slice_in_series("S1", 4_000, 0)).unwrap();
    repo.add_image(slice_in_series("S1", 2_000, 0)).unwrap();
    repo.filter_indices(&None);

    let first = repo.get_image_at_index(0).unwrap();
    assert_eq!(first.order, 2_000);
    assert!(repo.get_image_at_index(2).is_none());
}

#[test]
fn reset_images_clears_everything() {
    let mut repo = ImageRepository::new();
    repo.add_image(slice_in_series("S1", 0, 5)).unwrap();
    repo.filter_indices(&None);
    repo.create_slice_array();
    repo.reset_images();
    assert_eq!(repo.get_total(), 0);
    assert_eq!(repo.lookup(0), None);
    assert!(repo.get_image_from_volume(0).is_none());
}
