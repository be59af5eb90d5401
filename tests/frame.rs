use rs_raytracer::frame::{channel_byte, pack_rgb, pixel_seed};

#[test]
fn bytes_in_range_are_kept() {
    assert_eq!(channel_byte(0), 0);
    assert_eq!(channel_byte(128), 128);
    assert_eq!(channel_byte(255), 255);
}

#[test]
fn out_of_range_levels_wrap() {
    assert_eq!(channel_byte(256), 0);
    assert_eq!(channel_byte(300), 44);
    assert_eq!(channel_byte(-1), 255);
    assert_eq!(channel_byte(-256), 0);
    assert_eq!(channel_byte(i64::MIN), 0);
    assert_eq!(channel_byte(i64::MAX), 255);
}

#[test]
fn packs_top_row_first() {
    // camera order: bottom row first
    let rows = vec![
        vec![(1, 2, 3), (4, 5, 6)],
        vec![(7, 8, 9), (10, 11, 12)],
    ];
    assert_eq!(
        pack_rgb(&rows, 2),
        vec![7, 8, 9, 10, 11, 12, 1, 2, 3, 4, 5, 6]
    );
}

#[test]
fn packs_with_wrapping_levels() {
    let rows = vec![vec![(256, -1, 255)]];
    assert_eq!(pack_rgb(&rows, 1), vec![0, 255, 255]);
}

#[test]
fn empty_frame_packs_to_nothing() {
    assert_eq!(pack_rgb(&vec![], 4), Vec::<u8>::new());
    assert_eq!(pack_rgb(&vec![vec![], vec![]], 0), Vec::<u8>::new());
}

#[test]
fn buffer_has_three_bytes_per_pixel() {
    let rows = vec![vec![(0, 0, 0); 5]; 3];
    assert_eq!(pack_rgb(&rows, 5).len(), 45);
}

#[test]
fn seeds_follow_scan_order() {
    assert_eq!(pixel_seed(100, 4, 0, 0), 100);
    assert_eq!(pixel_seed(100, 4, 3, 0), 103);
    assert_eq!(pixel_seed(100, 4, 0, 1), 104);
    assert_eq!(pixel_seed(100, 4, 2, 5), 122);
}

#[test]
fn seeds_wrap_around() {
    assert_eq!(pixel_seed(u64::MAX, 10, 1, 0), 0);
    assert_eq!(pixel_seed(u64::MAX - 1, 10, 0, 1), 8);
}

#[test]
fn seeds_of_a_frame_are_distinct() {
    let mut seen = std::collections::HashSet::new();
    for j in 0..20u32 {
        for i in 0..30u32 {
            assert!(seen.insert(pixel_seed(42, 30, i, j)));
        }
    }
}
