use rand::rngs::StdRng;
use rand::SeedableRng;
use rtc::random::rand_int;

#[test]
fn draws_stay_in_the_inclusive_range() {
    let mut rng = StdRng::seed_from_u64(0);
    let mut seen = [false; 3];
    for _ in 0..300 {
        let r = rand_int(0, 2, &mut rng);
        assert!((0..=2).contains(&r));
        seen[r as usize] = true;
    }
    assert!(seen.iter().all(|&s| s));
}

#[test]
fn draw_from_a_single_value() {
    let mut rng = StdRng::seed_from_u64(1);
    assert_eq!(rand_int(5, 5, &mut rng), 5);
    assert_eq!(rand_int(-3, -3, &mut rng), -3);
}
