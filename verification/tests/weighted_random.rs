use mon2y_rs::mon2y::weighted_random::{pick_weighted, sum_weights, weighted_random, Dice};

#[test]
fn a_number_falls_on_the_item_that_covers_it() {
    let items = vec![('a', 1u32), ('b', 2), ('c', 0), ('d', 3)];
    assert_eq!(sum_weights(&items), 6);
    assert_eq!(pick_weighted(&items, 0), 0);
    assert_eq!(pick_weighted(&items, 1), 1);
    assert_eq!(pick_weighted(&items, 2), 1);
    assert_eq!(pick_weighted(&items, 3), 3);
    assert_eq!(pick_weighted(&items, 5), 3);
}

#[test]
fn rolls_stay_below_the_bound() {
    let mut dice = Dice::new();
    for bound in [1u64, 2, 7, 1000] {
        for _ in 0..200 {
            assert!(dice.roll(bound) < bound);
        }
    }
    let mut seen = [false; 6];
    for _ in 0..600 {
        seen[dice.roll(6) as usize] = true;
    }
    assert!(seen.iter().all(|s| *s));
}

#[test]
fn seeded_dice_fall_the_same_way() {
    let mut first = Dice::seeded(42);
    let mut second = Dice::seeded(42);
    let mut other = Dice::seeded(43);
    let a: Vec<u64> = (0..20).map(|_| first.roll(1_000_000)).collect();
    let b: Vec<u64> = (0..20).map(|_| second.roll(1_000_000)).collect();
    let c: Vec<u64> = (0..20).map(|_| other.roll(1_000_000)).collect();
    assert_eq!(a, b);
    assert_ne!(a, c);
}

#[test]
fn an_item_without_weight_is_never_drawn() {
    let mut dice = Dice::seeded(5);
    let mut counts = [0u32; 3];
    for _ in 0..3000 {
        let item = weighted_random(vec![(0usize, 1u32), (1, 0), (2, 3)], &mut dice);
        counts[item] += 1;
    }
    assert_eq!(counts[1], 0);
    assert!(counts[0] > 600 && counts[0] < 900, "{:?}", counts);
    assert_eq!(counts[0] + counts[2], 3000);
}
