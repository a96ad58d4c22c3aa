use combat_collisions::damage::{contact_damage, lifesteal_heal, thorns_damage};

#[test]
fn contact_damage_without_defence_is_the_attack() {
    assert_eq!(contact_damage(10, 0), 10);
    assert_eq!(contact_damage(0, 0), 0);
    assert_eq!(contact_damage(i32::MAX, 0), i32::MAX);
    assert_eq!(contact_damage(i32::MIN, 0), i32::MIN);
}

#[test]
fn contact_damage_falls_off_by_a_hundredth_per_point() {
    assert_eq!(contact_damage(10, 50), 6);
    assert_eq!(contact_damage(100, 1), 99);
    assert_eq!(contact_damage(200, 100), 73);
    assert_eq!(contact_damage(37, 3), 36);
    assert_eq!(contact_damage(i32::MAX, 1), 2126008811);
}

#[test]
fn contact_damage_rounds_a_half_away_from_zero() {
    assert_eq!(contact_damage(50, 1), 50);
    assert_eq!(contact_damage(150, 1), 149);
    assert_eq!(contact_damage(-50, 1), -50);
    assert_eq!(contact_damage(-10, 50), -6);
    assert_eq!(contact_damage(i32::MIN, 1), -2126008812);
}

#[test]
fn contact_damage_dies_out_under_much_defence() {
    assert_eq!(contact_damage(1, 68), 1);
    assert_eq!(contact_damage(1, 69), 0);
    assert_eq!(contact_damage(i32::MAX, 2207), 0);
    assert_eq!(contact_damage(i32::MAX, 2300), 0);
    assert_eq!(contact_damage(i32::MAX, i32::MAX), 0);
    assert_eq!(contact_damage(i32::MIN, i32::MAX), 0);
}

#[test]
fn contact_damage_grows_under_negative_defence() {
    assert_eq!(contact_damage(10, -1), 10);
    assert_eq!(contact_damage(1000, -10), 1106);
    assert_eq!(contact_damage(1, -2137), 2126126718);
}

#[test]
fn contact_damage_is_cut_to_32_bits() {
    assert_eq!(contact_damage(1, -2138), i32::MAX);
    assert_eq!(contact_damage(1, -3000), i32::MAX);
    assert_eq!(contact_damage(-1, -3000), i32::MIN);
    assert_eq!(contact_damage(i32::MAX, -1), i32::MAX);
    assert_eq!(contact_damage(7, i32::MIN), i32::MAX);
    assert_eq!(contact_damage(-7, i32::MIN), i32::MIN);
    assert_eq!(contact_damage(0, i32::MIN), 0);
}

#[test]
fn contact_damage_never_rises_with_defence() {
    for attack in [0, 1, 9, 10, 777, 65_536, i32::MAX] {
        let mut last = contact_damage(attack, -40);
        for defence in -39..=120 {
            let now = contact_damage(attack, defence);
            assert!(now <= last, "attack {attack}, defence {defence}");
            last = now;
        }
    }
}

#[test]
fn contact_damage_agrees_with_the_float_curve_on_small_values() {
    for attack in [1, 10, 25, 99, 1000] {
        for defence in 0..40 {
            let exact = contact_damage(attack, defence);
            let float = f64::round(attack as f64 * 0.99_f64.powi(defence)) as i32;
            assert!((exact - float).abs() <= 1, "attack {attack}, defence {defence}");
        }
    }
}

#[test]
fn lifesteal_heal_rounds_down() {
    assert_eq!(lifesteal_heal(10, 25), 2);
    assert_eq!(lifesteal_heal(7, 15), 1);
    assert_eq!(lifesteal_heal(3, 1), 0);
    assert_eq!(lifesteal_heal(10, 100), 10);
    assert_eq!(lifesteal_heal(33, 50), 16);
    assert_eq!(lifesteal_heal(-7, 15), -2);
    assert_eq!(lifesteal_heal(-33, 50), -17);
    assert_eq!(lifesteal_heal(0, 50), 0);
}

#[test]
fn lifesteal_heal_is_cut_to_32_bits() {
    assert_eq!(lifesteal_heal(i32::MAX, i32::MAX), i32::MAX);
    assert_eq!(lifesteal_heal(i32::MIN, i32::MAX), i32::MIN);
    assert_eq!(lifesteal_heal(i32::MIN, i32::MIN), i32::MAX);
}

#[test]
fn thorns_damage_rounds_up() {
    assert_eq!(thorns_damage(10, 15), 2);
    assert_eq!(thorns_damage(10, 25), 3);
    assert_eq!(thorns_damage(7, 15), 2);
    assert_eq!(thorns_damage(3, 1), 1);
    assert_eq!(thorns_damage(10, 100), 10);
    assert_eq!(thorns_damage(33, 50), 17);
    assert_eq!(thorns_damage(-7, 15), -1);
    assert_eq!(thorns_damage(-33, 50), -16);
    assert_eq!(thorns_damage(0, 50), 0);
}

#[test]
fn thorns_damage_is_cut_to_32_bits() {
    assert_eq!(thorns_damage(i32::MAX, i32::MAX), i32::MAX);
    assert_eq!(thorns_damage(i32::MIN, i32::MAX), i32::MIN);
}
