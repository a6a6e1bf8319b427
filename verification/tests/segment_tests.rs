use pixelsort::{segments, Pixel};

fn px(r: u8, g: u8, b: u8, a: u8) -> Pixel {
    Pixel { r, g, b, a }
}

fn grey(v: u8) -> Pixel {
    px(v, v, v, 255)
}

fn sample_line() -> Vec<Pixel> {
    vec![
        grey(10),
        grey(12),
        grey(40),
        grey(41),
        grey(41),
        grey(100),
        grey(90),
        grey(91),
        grey(250),
        grey(0),
    ]
}

#[test]
fn an_empty_line_has_no_segments() {
    assert_eq!(segments(&Vec::new(), 10), Vec::<(usize, usize)>::new());
}

#[test]
fn a_line_of_one_pixel_is_one_segment() {
    assert_eq!(segments(&vec![grey(5)], 0), vec![(0, 1)]);
    assert_eq!(segments(&vec![grey(5)], 65535), vec![(0, 1)]);
}

#[test]
fn the_four_pixel_column_splits_in_the_middle() {
    let line = vec![
        px(10, 10, 10, 255),
        px(12, 11, 10, 255),
        px(200, 200, 200, 255),
        px(201, 199, 200, 255),
    ];
    assert_eq!(segments(&line, 10), vec![(0, 2), (2, 4)]);
}

#[test]
fn a_distance_equal_to_the_level_does_not_split() {
    let line = vec![px(0, 0, 0, 0), px(3, 3, 3, 1)];
    assert_eq!(segments(&line, 10), vec![(0, 2)]);
    assert_eq!(segments(&line, 9), vec![(0, 1), (1, 2)]);
}

#[test]
fn each_pixel_is_held_against_the_one_before_it() {
    // Each step is 6, within the level, though the ends are 18 apart.
    let line = vec![grey(0), grey(2), grey(4), grey(6)];
    assert_eq!(segments(&line, 6), vec![(0, 4)]);
    assert_eq!(segments(&line, 5), vec![(0, 1), (1, 2), (2, 3), (3, 4)]);
}

#[test]
fn alpha_counts_towards_the_distance() {
    let line = vec![px(1, 1, 1, 0), px(1, 1, 1, 50)];
    assert_eq!(segments(&line, 49), vec![(0, 1), (1, 2)]);
    assert_eq!(segments(&line, 50), vec![(0, 2)]);
}

#[test]
fn the_sample_line_is_cut_at_every_jump() {
    assert_eq!(
        segments(&sample_line(), 10),
        vec![(0, 2), (2, 5), (5, 6), (6, 8), (8, 9), (9, 10)]
    );
}

#[test]
fn the_segments_are_a_partition_of_the_line() {
    let line = sample_line();
    for level in [0u16, 1, 3, 6, 10, 29, 30, 84, 200, 476, 477, 749, 750, 65535] {
        let segs = segments(&line, level);
        assert!(!segs.is_empty());
        assert_eq!(segs[0].0, 0);
        assert_eq!(segs[segs.len() - 1].1, line.len());
        for k in 0..segs.len() {
            assert!(segs[k].0 < segs[k].1);
            if k + 1 < segs.len() {
                assert_eq!(segs[k].1, segs[k + 1].0);
            }
        }
        for i in 0..line.len() {
            let holders = segs.iter().filter(|s| s.0 <= i && i < s.1).count();
            assert_eq!(holders, 1);
        }
    }
}

#[test]
fn a_higher_level_never_gives_more_segments() {
    let line = sample_line();
    let mut before = segments(&line, 0).len();
    assert_eq!(before, 9);
    for level in 1..=800u16 {
        let now = segments(&line, level).len();
        assert!(now <= before);
        before = now;
    }
    assert_eq!(before, 1);
}

#[test]
fn at_level_zero_unequal_neighbours_are_all_apart() {
    let line = vec![grey(1), grey(2), grey(1), grey(2), grey(3)];
    assert_eq!(segments(&line, 0), vec![(0, 1), (1, 2), (2, 3), (3, 4), (4, 5)]);
}

#[test]
fn at_level_zero_equal_neighbours_stay_together() {
    let line = vec![grey(1), grey(1), grey(2), grey(2), grey(2), grey(1)];
    assert_eq!(segments(&line, 0), vec![(0, 2), (2, 5), (5, 6)]);
}

#[test]
fn the_highest_level_gives_one_segment() {
    let line = vec![px(0, 0, 0, 0), px(255, 255, 255, 255), px(0, 0, 0, 0)];
    assert_eq!(segments(&line, 1019), vec![(0, 1), (1, 2), (2, 3)]);
    assert_eq!(segments(&line, 1020), vec![(0, 3)]);
    assert_eq!(segments(&line, 65535), vec![(0, 3)]);
    assert_eq!(segments(&sample_line(), 65535), vec![(0, 10)]);
}
