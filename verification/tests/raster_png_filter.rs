use pixelkit::raster::png::filter::{adam7_passes, paeth, pass_dims, unfilter};

#[test]
fn paeth_prefers_the_closest_neighbour() {
    // The three reference cases from the PNG spec's worked example.
    assert_eq!(paeth(0, 0, 0), 0);
    assert_eq!(
        paeth(10, 0, 0),
        10,
        "left wins when it is the only nonzero one"
    );
    assert_eq!(paeth(0, 10, 0), 10, "and up");
    // A tie between left and up is broken in favour of left.
    assert_eq!(paeth(5, 5, 0), 5);
}

#[test]
fn filter_type_zero_is_a_pass_through() {
    let mut data = vec![0u8]; // filter type 0
    data.extend_from_slice(&[1, 2, 3, 4, 5, 6]);
    let out = unfilter(&data, 2, 1, 3).unwrap();
    assert_eq!(out, vec![1, 2, 3, 4, 5, 6]);
}

#[test]
fn each_filter_type_round_trips_a_hand_filtered_row() {
    // Two 3-byte pixels over two rows, filtered by hand for each type,
    // then unfiltered and checked against the original bytes.
    let bpp = 3;
    let width = 2;
    let rows: [[u8; 6]; 2] = [[10, 20, 30, 200, 210, 220], [1, 2, 3, 250, 251, 252]];

    for filter_type in 0u8..=4 {
        let mut prev = [0u8; 6];
        let mut data = Vec::new();
        for row in &rows {
            data.push(filter_type);
            for i in 0..6 {
                let left = if i >= bpp { row[i - bpp] } else { 0 };
                let up = prev[i];
                let up_left = if i >= bpp { prev[i - bpp] } else { 0 };
                let filtered = match filter_type {
                    0 => row[i],
                    1 => row[i].wrapping_sub(left),
                    2 => row[i].wrapping_sub(up),
                    3 => row[i].wrapping_sub(((u16::from(left) + u16::from(up)) / 2) as u8),
                    4 => row[i].wrapping_sub(paeth(left, up, up_left)),
                    _ => unreachable!(),
                };
                data.push(filtered);
            }
            prev = *row;
        }
        let out = unfilter(&data, width, 2, bpp).unwrap();
        assert_eq!(out, rows.concat(), "filter type {filter_type}");
    }
}

#[test]
fn an_unknown_filter_type_is_rejected_not_guessed_at() {
    let data = vec![5u8, 1, 2, 3];
    assert!(unfilter(&data, 1, 1, 3).is_none());
}

#[test]
fn a_short_buffer_is_rejected_rather_than_read_out_of_bounds() {
    // Two 1-byte pixels need a filter byte plus 2 bytes; only 1 is here.
    let data = vec![0u8, 1];
    assert!(unfilter(&data, 2, 1, 1).is_none());
}

#[test]
fn a_zero_sized_image_has_no_scanlines_to_unfilter() {
    assert_eq!(unfilter(&[], 0, 0, 4), Some(Vec::new()));
}

#[test]
fn adam7_pass_sizes_match_the_classic_eight_by_eight_breakdown() {
    // The textbook example: an 8x8 image's seven passes are exactly
    // 1, 1, 2, 4, 8, 16, 32 pixels, in that order, summing to all 64.
    let expected = [(1, 1), (1, 1), (2, 1), (2, 2), (4, 2), (4, 4), (8, 4)];
    let mut total = 0u32;
    for (pass, &(w, h)) in adam7_passes().iter().zip(&expected) {
        let dims = pass_dims(pass, 8, 8);
        assert_eq!(dims, (w, h));
        total += dims.0 * dims.1;
    }
    assert_eq!(total, 64);
}

#[test]
fn a_one_pixel_image_only_fills_the_first_pass() {
    let mut total = 0u32;
    for pass in &adam7_passes() {
        let (w, h) = pass_dims(pass, 1, 1);
        total += w * h;
    }
    assert_eq!(total, 1);
    assert_eq!(pass_dims(&adam7_passes()[0], 1, 1), (1, 1));
}

#[test]
fn every_pass_over_a_range_of_sizes_accounts_for_every_pixel_exactly_once() {
    for width in 1u32..=20 {
        for height in 1u32..=20 {
            let total: u32 = adam7_passes()
                .iter()
                .map(|pass| {
                    let (w, h) = pass_dims(pass, width, height);
                    w * h
                })
                .sum();
            assert_eq!(total, width * height, "at {width}x{height}");
        }
    }
}
