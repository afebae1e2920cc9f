use dicom_viewer_rs::image::DecodedSlice;
use dicom_viewer_rs::image_repository::ImageRepository;
use dicom_viewer_rs::{MetaData, Orientation};

// A raw sample of `257 * v` displays as exactly the 8-bit level `v`:
// 257 * v * 255 / 65535 == v.
fn pixel_for_level(v: u8) -> u16 {
    257 * (v as u16)
}

fn frame(series: &str, table_position: i64, width: u32, height: u32, levels: &[u8]) -> DecodedSlice {
    DecodedSlice {
        width,
        height,
        series_instance_uid: String::from(series),
        table_position: Some(table_position),
        instance_number: None,
        pixels: levels.iter().map(|&v| pixel_for_level(v)).collect(),
    }
}

fn intensities(repo: &mut ImageRepository) -> Vec<u8> {
    let mut all = Vec::new();
    let total = repo.get_total();
    for i in 0..total {
        let ds = repo.get_image_from_volume(i).unwrap();
        assert_eq!(ds.bytes.len(), (ds.width * ds.height * 4) as usize);
        for chunk in ds.bytes.chunks(4) {
            assert_eq!(chunk[0], chunk[1]);
            assert_eq!(chunk[0], chunk[2]);
            assert_eq!(chunk[3], 255);
            all.push(chunk[0]);
        }
    }
    all
}

#[test]
fn end_to_end_three_slices() {
    // ingest three 1x1 slices of series "S1" with (table_position, pixel
    // value) = (10.0, 100), (5.0, 50), (0.0, 0); the assembler requires
    // caller-sorted input, so sort by resolved key before ingesting
    let mut inputs = vec![(10_000i64, 100u16), (5_000, 50), (0, 0)];
    inputs.sort_by_key(|&(key, _)| key);

    let mut repo = ImageRepository::new();
    for (key, raw) in inputs {
        let slice = DecodedSlice {
            width: 1,
            height: 1,
            series_instance_uid: String::from("S1"),
            table_position: Some(key),
            instance_number: None,
            pixels: vec![raw],
        };
        repo.add_image(slice).unwrap();
    }
    repo.create_slice_array();
    repo.set_volume_orientation(&Orientation::Axial);

    // the slice with table position 0.0 sorts first; its raw value 0
    // normalizes to round((0 + 0) / (0 + 65535) * 255) = 0
    let ds = repo.get_image_from_volume(0).unwrap();
    assert_eq!(ds.width, 1);
    assert_eq!(ds.height, 1);
    assert_eq!(ds.bytes, vec![0, 0, 0, 255]);
}

#[test]
fn extraction_normalizes_fixed_range() {
    let mut repo = ImageRepository::new();
    let slice = DecodedSlice {
        width: 2,
        height: 1,
        series_instance_uid: String::from("S1"),
        table_position: Some(0),
        instance_number: None,
        pixels: vec![0u16, 65535],
    };
    repo.add_image(slice).unwrap();
    repo.create_slice_array();
    let ds = repo.get_image_from_volume(0).unwrap();
    // 0 maps to level 0 and 65535 to level 255; truncation keeps the
    // midtones below: 32768 * 255 / 65535 = 127 (checked next test)
    assert_eq!(ds.bytes, vec![0, 0, 0, 255, 255, 255, 255, 255]);
}

#[test]
fn extraction_truncates_midtones() {
    let mut repo = ImageRepository::new();
    let slice = DecodedSlice {
        width: 1,
        height: 1,
        series_instance_uid: String::from("S1"),
        table_position: Some(0),
        instance_number: None,
        pixels: vec![32768u16],
    };
    repo.add_image(slice).unwrap();
    repo.create_slice_array();
    let ds = repo.get_image_from_volume(0).unwrap();
    assert_eq!(ds.bytes[0], 127);
}

#[test]
fn extract_past_end_is_none() {
    let mut repo = ImageRepository::new();
    repo.add_image(frame("S1", 0, 1, 1, &[1])).unwrap();
    repo.create_slice_array();
    assert_eq!(repo.get_total(), 1);
    assert!(repo.get_image_from_volume(0).is_some());
    // index == current_volume.shape[0] is past the end
    assert!(repo.get_image_from_volume(1).is_none());
}

#[test]
fn extract_on_empty_repository_is_none() {
    let mut repo = ImageRepository::new();
    assert_eq!(repo.get_total(), 0);
    assert!(repo.get_image_from_volume(0).is_none());
}

#[test]
fn orientation_round_trip_restores_assembled_volume() {
    // axial -> coronal -> axial yields the volume produced right after
    // assembly, shape and values alike
    let mut repo = ImageRepository::new();
    repo.add_image(frame("S1", 0, 2, 2, &[0, 1, 2, 3])).unwrap();
    repo.add_image(frame("S1", 1_000, 2, 2, &[4, 5, 6, 7])).unwrap();
    repo.create_slice_array();

    let assembled = intensities(&mut repo);
    let assembled_total = repo.get_total();

    repo.set_volume_orientation(&Orientation::Axial);
    repo.set_volume_orientation(&Orientation::Coronal);
    repo.set_volume_orientation(&Orientation::Axial);

    assert_eq!(repo.get_total(), assembled_total);
    assert_eq!(intensities(&mut repo), assembled);
}

#[test]
fn setting_same_orientation_twice_is_idempotent() {
    let mut repo = ImageRepository::new();
    repo.add_image(frame("S1", 0, 2, 2, &[0, 1, 2, 3])).unwrap();
    repo.add_image(frame("S1", 1_000, 2, 2, &[4, 5, 6, 7])).unwrap();
    repo.create_slice_array();

    repo.set_volume_orientation(&Orientation::Sagittal);
    let once = intensities(&mut repo);
    repo.set_volume_orientation(&Orientation::Sagittal);
    assert_eq!(intensities(&mut repo), once);
}

#[test]
fn reorientation_conserves_sample_multiset() {
    // every orientation holds the same number of samples and the same
    // multiset of intensity values as the canonical volume
    let mut repo = ImageRepository::new();
    repo.add_image(frame("S1", 0, 2, 2, &[0, 1, 2, 3])).unwrap();
    repo.add_image(frame("S1", 1_000, 2, 2, &[4, 5, 6, 7])).unwrap();
    repo.create_slice_array();

    let mut canonical = intensities(&mut repo);
    canonical.sort();

    for orientation in [Orientation::Axial, Orientation::Coronal, Orientation::Sagittal] {
        repo.set_volume_orientation(&orientation);
        let mut values = intensities(&mut repo);
        assert_eq!(values.len(), canonical.len());
        values.sort();
        assert_eq!(values, canonical);
    }
}

#[test]
fn coronal_permutes_and_flips_rows() {
    // two 1x1 slices stacked: the coronal view has one plane of two rows,
    // with the slice axis reversed
    let mut repo = ImageRepository::new();
    repo.add_image(frame("S1", 0, 1, 1, &[7])).unwrap();
    repo.add_image(frame("S1", 1_000, 1, 1, &[9])).unwrap();
    repo.create_slice_array();

    repo.set_volume_orientation(&Orientation::Coronal);
    assert_eq!(repo.get_total(), 1);
    let ds = repo.get_image_from_volume(0).unwrap();
    assert_eq!((ds.width, ds.height), (1, 2));
    assert_eq!(ds.bytes, vec![9, 9, 9, 255, 7, 7, 7, 255]);
}

#[test]
fn sagittal_permutes_columns_to_planes() {
    // one 3x2 slice (width 3, height 2): the sagittal view serves one
    // plane per canonical column, each height 1 and width 2
    let mut repo = ImageRepository::new();
    repo.add_image(frame("S1", 0, 3, 2, &[0, 1, 2, 3, 4, 5])).unwrap();
    repo.create_slice_array();

    repo.set_volume_orientation(&Orientation::Sagittal);
    assert_eq!(repo.get_total(), 3);
    let plane = repo.get_image_from_volume(1).unwrap();
    assert_eq!((plane.width, plane.height), (2, 1));
    // column 1 of the canonical slice holds rows (1, 4)
    assert_eq!(plane.bytes, vec![1, 1, 1, 255, 4, 4, 4, 255]);
}

#[test]
fn permutation_table_matches_specification() {
    assert_eq!(Orientation::Axial.get_permutation(), (0, 1, 2));
    assert_eq!(Orientation::Coronal.get_permutation(), (1, 0, 2));
    assert_eq!(Orientation::Sagittal.get_permutation(), (2, 0, 1));
}

#[test]
fn metadata_defaults_and_filter_label() {
    let meta = MetaData::new();
    assert_eq!(meta.total, 0);
    assert_eq!(meta.current_index, 0);
    assert_eq!(meta.series_total, 0);
    assert_eq!(meta.get_current_series_instance_uid(), "Not filtered");

    let named = MetaData {
        total: 3,
        current_index: 1,
        series_total: 2,
        current_series_instance_uid: Some(String::from("S1")),
    };
    assert_eq!(named.get_current_series_instance_uid(), "S1");
}
