use relay_board_five_chn::board::{init, Level, RelayBank, RELAY_COUNT};
use relay_board_five_chn::network::w5500::network_seed;

fn levels<const N: usize>(bank: &RelayBank<N>) -> Vec<Level> {
    (0..N).map(|i| bank.level(i).unwrap()).collect()
}

#[test]
fn board_powers_up_with_every_relay_off() {
    let bank = init();
    assert_eq!(bank.count(), 5);
    assert_eq!(RELAY_COUNT, 5);
    assert_eq!(levels(&bank), vec![Level::Low; 5]);
}

#[test]
fn active_high_bank_drives_high_for_on() {
    let mut bank = RelayBank::new([Level::Low; 3], true);
    assert_eq!(bank.set(1, true), Ok(()));
    assert_eq!(levels(&bank), vec![Level::Low, Level::High, Level::Low]);
    assert_eq!(bank.set(1, false), Ok(()));
    assert_eq!(levels(&bank), vec![Level::Low; 3]);
    bank.all_on();
    assert_eq!(levels(&bank), vec![Level::High; 3]);
    bank.all_off();
    assert_eq!(levels(&bank), vec![Level::Low; 3]);
}

#[test]
fn active_low_bank_drives_low_for_on() {
    let mut bank = RelayBank::new([Level::Low; 3], false);
    bank.all_off();
    assert_eq!(levels(&bank), vec![Level::High; 3]);
    assert_eq!(bank.set(2, true), Ok(()));
    assert_eq!(levels(&bank), vec![Level::High, Level::High, Level::Low]);
    bank.all_on();
    assert_eq!(levels(&bank), vec![Level::Low; 3]);
}

#[test]
fn opposite_polarity_means_opposite_levels() {
    let mut high = RelayBank::new([Level::Low; 2], true);
    let mut low = RelayBank::new([Level::Low; 2], false);
    high.all_off();
    low.all_off();
    assert_eq!(high.set(0, true), Ok(()));
    assert_eq!(low.set(0, true), Ok(()));
    for i in 0..2 {
        assert_ne!(high.level(i), low.level(i));
    }
}

#[test]
fn unknown_relay_is_refused_and_changes_nothing() {
    let mut bank = RelayBank::new([Level::Low; 5], true);
    assert_eq!(bank.set(5, true), Err(()));
    assert_eq!(bank.set(usize::MAX, true), Err(()));
    assert_eq!(levels(&bank), vec![Level::Low; 5]);
    assert_eq!(bank.level(5), None);
}

#[test]
fn bank_without_relays_refuses_all() {
    let mut bank: RelayBank<0> = RelayBank::new([], true);
    assert_eq!(bank.count(), 0);
    assert_eq!(bank.set(0, true), Err(()));
    bank.all_on();
}

#[test]
fn seed_is_the_address_as_a_number() {
    assert_eq!(network_seed([0x24, 0x6f, 0x28, 0xaa, 0xbb, 0xcd]), 0x0000_246f_28aa_bbcd);
    assert_eq!(network_seed([0; 6]), 0);
    assert_eq!(network_seed([0xff; 6]), 0x0000_ffff_ffff_ffff);
    assert_eq!(
        network_seed([1, 2, 3, 4, 5, 6]),
        u64::from_be_bytes([0, 0, 1, 2, 3, 4, 5, 6])
    );
    assert_ne!(network_seed([1, 0, 0, 0, 0, 0]), network_seed([0, 1, 0, 0, 0, 0]));
}
