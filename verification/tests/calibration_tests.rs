use funscript_control::calibration::{bpm_segment, get_bpm_intensity_mapping, BpmIntensityPoint};

#[test]
fn mapping_is_the_calibration_table() {
    let expected: Vec<(u64, u64)> = vec![
        (0, 0),
        (42, 10),
        (66, 20),
        (90, 30),
        (116, 40),
        (140, 50),
        (160, 60),
        (182, 70),
        (218, 80),
        (245, 90),
        (270, 100),
    ];
    let mapping: Vec<(u64, u64)> =
        get_bpm_intensity_mapping().iter().map(|p: &BpmIntensityPoint| (p.bpm, p.intensity)).collect();
    assert_eq!(mapping, expected);
}

#[test]
fn mapping_increases_in_both_columns() {
    let mapping = get_bpm_intensity_mapping();
    assert!(mapping.windows(2).all(|w| w[0].bpm < w[1].bpm && w[0].intensity < w[1].intensity));
}

#[test]
fn segments_hold_their_ceiling() {
    assert_eq!(bpm_segment(1), 0);
    assert_eq!(bpm_segment(42), 0);
    assert_eq!(bpm_segment(43), 1);
    assert_eq!(bpm_segment(140), 4);
    assert_eq!(bpm_segment(141), 5);
    assert_eq!(bpm_segment(270), 9);
}
