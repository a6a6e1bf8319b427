use pixelsort::{sort_line, sort_lines, sort_run, sort_segments, Pixel};

fn px(r: u8, g: u8, b: u8, a: u8) -> Pixel {
    Pixel { r, g, b, a }
}

fn grey(v: u8) -> Pixel {
    px(v, v, v, 255)
}

/// A pixel of brightness `key` that carries `tag` so that equals can be told apart.
fn tagged(key: u8, tag: u8) -> Pixel {
    px(key - tag, tag, 0, 0)
}

struct Lcg(u64);

impl Lcg {
    fn next(&mut self) -> u8 {
        self.0 = self.0.wrapping_mul(6364136223846793005).wrapping_add(1442695040888963407);
        (self.0 >> 33) as u8
    }
}

#[test]
fn a_run_comes_out_by_descending_brightness() {
    let mut line = vec![grey(3), grey(9), grey(1), grey(7), grey(5)];
    sort_run(&mut line, 0, 5);
    assert_eq!(line, vec![grey(9), grey(7), grey(5), grey(3), grey(1)]);
}

#[test]
fn equally_bright_pixels_keep_their_order() {
    let mut line = vec![
        tagged(50, 0),
        tagged(90, 1),
        tagged(50, 2),
        tagged(90, 3),
        tagged(50, 4),
        tagged(70, 5),
        tagged(90, 6),
    ];
    for p in &line {
        assert!(p.brightness() == 50 || p.brightness() == 70 || p.brightness() == 90);
    }
    sort_run(&mut line, 0, 7);
    assert_eq!(
        line,
        vec![
            tagged(90, 1),
            tagged(90, 3),
            tagged(90, 6),
            tagged(70, 5),
            tagged(50, 0),
            tagged(50, 2),
            tagged(50, 4),
        ]
    );
}

#[test]
fn pixels_that_differ_only_in_how_the_sum_is_made_are_ties() {
    let mut line = vec![px(0, 0, 0, 30), px(30, 0, 0, 0), px(10, 10, 10, 0), px(0, 31, 0, 0)];
    sort_run(&mut line, 0, 4);
    assert_eq!(
        line,
        vec![px(0, 31, 0, 0), px(0, 0, 0, 30), px(30, 0, 0, 0), px(10, 10, 10, 0)]
    );
}

#[test]
fn only_the_run_is_touched() {
    let mut line = vec![grey(1), grey(2), grey(3), grey(4), grey(5), grey(6)];
    sort_run(&mut line, 2, 5);
    assert_eq!(line, vec![grey(1), grey(2), grey(5), grey(4), grey(3), grey(6)]);
}

#[test]
fn an_empty_run_and_a_run_of_one_change_nothing() {
    let before = vec![grey(1), grey(2), grey(3)];
    let mut line = before.clone();
    sort_run(&mut line, 1, 1);
    assert_eq!(line, before);
    sort_run(&mut line, 3, 3);
    assert_eq!(line, before);
    sort_run(&mut line, 2, 3);
    assert_eq!(line, before);
}

#[test]
fn a_run_sorts_as_the_standard_stable_sort_does() {
    let mut rng = Lcg(7);
    for len in [0usize, 1, 2, 3, 4, 5, 8, 13, 31, 32, 33, 100, 257] {
        let mut line = Vec::new();
        for _ in 0..len {
            // Few distinct values, so that ties are frequent.
            line.push(px(rng.next() % 4, rng.next() % 4, rng.next() % 3, rng.next() % 2));
        }
        let mut expected = line.clone();
        expected.sort_by_key(|p| -p.brightness());
        sort_run(&mut line, 0, len);
        assert_eq!(line, expected);
    }
}

#[test]
fn a_sorted_run_stays_as_it_is() {
    let mut line = vec![tagged(9, 0), tagged(9, 1), tagged(5, 2), tagged(5, 3), tagged(4, 1)];
    let before = line.clone();
    sort_run(&mut line, 0, 5);
    assert_eq!(line, before);
}

#[test]
fn segments_are_sorted_each_on_its_own() {
    let mut line = vec![grey(1), grey(2), grey(3), grey(7), grey(8), grey(9), grey(4)];
    sort_segments(&mut line, &vec![(0, 3), (3, 6), (6, 7)]);
    assert_eq!(line, vec![grey(3), grey(2), grey(1), grey(9), grey(8), grey(7), grey(4)]);
}

#[test]
fn sorting_no_segments_of_an_empty_line_gives_the_empty_line() {
    let mut line: Vec<Pixel> = Vec::new();
    sort_segments(&mut line, &Vec::new());
    assert_eq!(line, Vec::new());
}

#[test]
fn a_line_is_cut_and_then_sorted() {
    let mut line = vec![grey(10), grey(12), grey(11), grey(100), grey(101), grey(50), grey(52)];
    sort_line(&mut line, 9);
    assert_eq!(
        line,
        vec![grey(12), grey(11), grey(10), grey(101), grey(100), grey(52), grey(50)]
    );
}

#[test]
fn the_cuts_are_those_of_the_line_before_sorting() {
    // 0, 4, 8 hang together step by step; after sorting, 8 stands next to the
    // pixel that was cut off, and that changes nothing.
    let mut line = vec![grey(0), grey(4), grey(8), grey(30)];
    sort_line(&mut line, 12);
    assert_eq!(line, vec![grey(8), grey(4), grey(0), grey(30)]);
}

#[test]
fn at_level_zero_a_line_of_unequal_neighbours_is_left_alone() {
    let before = vec![grey(1), grey(9), grey(1), grey(200), grey(3), grey(4)];
    let mut line = before.clone();
    sort_line(&mut line, 0);
    assert_eq!(line, before);
}

#[test]
fn at_level_zero_a_stretch_of_equal_pixels_is_left_alone_too() {
    let before = vec![grey(1), grey(5), grey(5), grey(5), grey(7)];
    let mut line = before.clone();
    sort_line(&mut line, 0);
    assert_eq!(line, before);
}

#[test]
fn at_the_highest_level_the_whole_line_is_sorted() {
    let mut line = vec![
        px(0, 0, 0, 0),
        px(255, 255, 255, 255),
        tagged(40, 0),
        px(1, 0, 0, 0),
        tagged(40, 1),
        px(255, 255, 255, 254),
    ];
    sort_line(&mut line, 65535);
    assert_eq!(
        line,
        vec![
            px(255, 255, 255, 255),
            px(255, 255, 255, 254),
            tagged(40, 0),
            tagged(40, 1),
            px(1, 0, 0, 0),
            px(0, 0, 0, 0),
        ]
    );
}

#[test]
fn a_line_keeps_its_pixels() {
    let mut rng = Lcg(99);
    let mut line = Vec::new();
    for _ in 0..300 {
        line.push(px(rng.next(), rng.next(), rng.next(), rng.next()));
    }
    for level in [0u16, 50, 200, 400, 1020] {
        let mut sorted = line.clone();
        sort_line(&mut sorted, level);
        assert_eq!(sorted.len(), line.len());
        let key = |p: &Pixel| (p.r, p.g, p.b, p.a);
        let mut a: Vec<_> = line.iter().map(key).collect();
        let mut b: Vec<_> = sorted.iter().map(key).collect();
        a.sort();
        b.sort();
        assert_eq!(a, b);
    }
}

#[test]
fn lines_are_sorted_independently() {
    let first = vec![grey(1), grey(2), grey(3)];
    let second = vec![grey(1), grey(200), grey(3)];
    let third: Vec<Pixel> = Vec::new();
    let mut lines = vec![first, second, third];
    sort_lines(&mut lines, 10);
    assert_eq!(
        lines,
        vec![
            vec![grey(3), grey(2), grey(1)],
            vec![grey(1), grey(200), grey(3)],
            Vec::new(),
        ]
    );
}
