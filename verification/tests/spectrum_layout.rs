use waterui_visualizer::spectrum::{band_bins, band_edge};

#[test]
fn edges_are_spaced_logarithmically_over_the_usable_bins() {
    let edges: Vec<usize> = (0..=16).map(|index| band_edge(512, 16, index)).collect();
    assert_eq!(
        edges,
        vec![1, 2, 3, 4, 5, 7, 10, 15, 22, 33, 49, 72, 107, 159, 235, 347, 513]
    );
}

#[test]
fn low_edges_are_forced_one_bin_apart() {
    let edges: Vec<usize> = (0..=32).map(|index| band_edge(128, 32, index)).collect();
    assert_eq!(&edges[..21], &(1..=21).collect::<Vec<usize>>()[..]);
    assert_eq!(&edges[21..], &[24, 28, 32, 38, 44, 51, 60, 70, 81, 95, 110, 129]);
    for pair in edges.windows(2) {
        assert!(pair[0] < pair[1]);
    }
}

#[test]
fn the_first_edge_is_the_first_bin_past_dc_and_the_last_is_past_the_end() {
    for (usable, bands) in [(1, 1), (7, 3), (512, 24), (1000, 64)] {
        assert_eq!(band_edge(usable, bands, 0), 1);
        assert_eq!(band_edge(usable, bands, bands), usable + 1);
    }
}

#[test]
fn edges_past_the_last_band_stay_at_the_end() {
    assert_eq!(band_edge(512, 16, 40), 513);
}

#[test]
fn no_bands_put_every_later_edge_at_the_end() {
    assert_eq!(band_edge(10, 0, 0), 1);
    assert_eq!(band_edge(10, 0, 3), 11);
}

#[test]
fn band_bins_tile_the_spectrum() {
    let bins: Vec<(usize, usize)> = (0..16).map(|index| band_bins(513, 16, index)).collect();
    assert_eq!(
        bins,
        vec![
            (1, 2),
            (2, 3),
            (3, 4),
            (4, 5),
            (5, 7),
            (7, 10),
            (10, 15),
            (15, 22),
            (22, 33),
            (33, 49),
            (49, 72),
            (72, 107),
            (107, 159),
            (159, 235),
            (235, 347),
            (347, 513)
        ]
    );
    for pair in bins.windows(2) {
        assert_eq!(pair[0].1, pair[1].0);
    }
}

#[test]
fn more_bands_than_bins_leave_the_top_bands_empty() {
    let bins: Vec<(usize, usize)> = (0..8).map(|index| band_bins(5, 8, index)).collect();
    assert_eq!(
        bins,
        vec![(1, 2), (2, 3), (3, 4), (4, 5), (5, 5), (5, 5), (5, 5), (5, 5)]
    );
}
