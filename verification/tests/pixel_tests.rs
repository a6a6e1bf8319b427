use pixelsort::pixel::MAX_CHANNEL_SUM;
use pixelsort::Pixel;

fn px(r: u8, g: u8, b: u8, a: u8) -> Pixel {
    Pixel { r, g, b, a }
}

#[test]
fn brightness_is_the_sum_of_the_four_channels() {
    assert_eq!(px(10, 10, 10, 255).brightness(), 285);
    assert_eq!(px(12, 11, 10, 255).brightness(), 288);
    assert_eq!(px(200, 200, 200, 255).brightness(), 855);
    assert_eq!(px(1, 2, 3, 4).brightness(), 10);
}

#[test]
fn brightness_counts_alpha() {
    assert_eq!(px(0, 0, 0, 200).brightness(), 200);
    assert_ne!(px(9, 9, 9, 0).brightness(), px(9, 9, 9, 1).brightness());
}

#[test]
fn brightness_runs_from_zero_to_the_maximum() {
    assert_eq!(px(0, 0, 0, 0).brightness(), 0);
    assert_eq!(px(255, 255, 255, 255).brightness(), 1020);
    assert_eq!(MAX_CHANNEL_SUM, 1020);
}

#[test]
fn distance_is_the_sum_of_the_channel_differences() {
    assert_eq!(px(10, 10, 10, 255).distance(&px(12, 11, 10, 255)), 3);
    assert_eq!(px(12, 11, 10, 255).distance(&px(200, 200, 200, 255)), 567);
    assert_eq!(px(200, 200, 200, 255).distance(&px(201, 199, 200, 255)), 2);
    assert_eq!(px(0, 0, 0, 0).distance(&px(0, 0, 0, 9)), 9);
}

#[test]
fn distance_is_the_same_both_ways() {
    let p = px(3, 250, 17, 80);
    let q = px(200, 4, 18, 90);
    assert_eq!(p.distance(&q), 197 + 246 + 1 + 10);
    assert_eq!(q.distance(&p), p.distance(&q));
}

#[test]
fn distance_runs_from_zero_to_the_maximum() {
    let p = px(7, 8, 9, 10);
    assert_eq!(p.distance(&p), 0);
    assert_eq!(px(0, 255, 0, 255).distance(&px(255, 0, 255, 0)), 1020);
}
