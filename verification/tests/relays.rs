use relay_board_five_chn::board::{init, Level, RelayBank, RELAY_COUNT};
use relay_board_five_chn::relay::{
    relay_task, start, RelayCommand, RelayControl, RelayError, Submission, COMMAND_QUEUE_DEPTH,
};

fn on(bank: &RelayBank<RELAY_COUNT>) -> Vec<bool> {
    (0..RELAY_COUNT).map(|i| bank.level(i) == Some(Level::High)).collect()
}

#[test]
fn new_control_shows_every_relay_off() {
    let mut control = RelayControl::new();
    let mut bank = init();
    assert_eq!(control.state_mask(), 0);
    assert_eq!(relay_task(&mut control, &mut bank), None);
}

#[test]
fn invalid_index_is_refused() {
    let mut control = RelayControl::new();
    assert_eq!(control.set(5, true), Err(RelayError::InvalidIndex));
    assert_eq!(control.set(usize::MAX, false), Err(RelayError::InvalidIndex));
    let mut bank = init();
    assert_eq!(relay_task(&mut control, &mut bank), None);
}

#[test]
fn mask_follows_the_relays() {
    let mut control = RelayControl::new();
    let mut bank = init();
    start(&mut control, &mut bank);
    assert_eq!(control.set(0, true), Ok(Submission::Accepted));
    assert_eq!(control.set(4, true), Ok(Submission::Accepted));
    assert_eq!(control.state_mask(), 0);
    assert_eq!(
        relay_task(&mut control, &mut bank),
        Some(RelayCommand::Switch { index: 0, on: true })
    );
    assert_eq!(control.state_mask(), 0b00001);
    assert_eq!(
        relay_task(&mut control, &mut bank),
        Some(RelayCommand::Switch { index: 4, on: true })
    );
    assert_eq!(control.state_mask(), 0b10001);
    assert_eq!(on(&bank), vec![true, false, false, false, true]);
    assert_eq!(control.set(0, false), Ok(Submission::Accepted));
    relay_task(&mut control, &mut bank);
    assert_eq!(control.state_mask(), 0b10000);
    assert_eq!(relay_task(&mut control, &mut bank), None);
}

#[test]
fn all_on_and_all_off_reach_every_relay() {
    let mut control = RelayControl::new();
    let mut bank = init();
    assert_eq!(control.all_on(), Submission::Accepted);
    assert_eq!(control.all_off(), Submission::Accepted);
    assert_eq!(relay_task(&mut control, &mut bank), Some(RelayCommand::AllOn));
    assert_eq!(control.state_mask(), 0b11111);
    assert_eq!(on(&bank), vec![true; 5]);
    assert_eq!(relay_task(&mut control, &mut bank), Some(RelayCommand::AllOff));
    assert_eq!(control.state_mask(), 0);
    assert_eq!(on(&bank), vec![false; 5]);
}

#[test]
fn commands_are_carried_out_first_in_first_out() {
    let mut control = RelayControl::new();
    let mut bank = init();
    control.set(1, true).unwrap();
    control.all_off();
    control.set(2, true).unwrap();
    control.set(2, false).unwrap();
    control.set(3, true).unwrap();
    let mut done = Vec::new();
    while let Some(command) = relay_task(&mut control, &mut bank) {
        done.push(command);
    }
    assert_eq!(
        done,
        vec![
            RelayCommand::Switch { index: 1, on: true },
            RelayCommand::AllOff,
            RelayCommand::Switch { index: 2, on: true },
            RelayCommand::Switch { index: 2, on: false },
            RelayCommand::Switch { index: 3, on: true },
        ]
    );
    assert_eq!(on(&bank), vec![false, false, false, true, false]);
    assert_eq!(control.state_mask(), 0b01000);
}

#[test]
fn full_queue_takes_no_more_until_a_command_leaves() {
    let mut control = RelayControl::new();
    let mut bank = init();
    for i in 0..COMMAND_QUEUE_DEPTH {
        assert_eq!(control.set(i % 5, i % 2 == 0), Ok(Submission::Accepted));
    }
    assert_eq!(COMMAND_QUEUE_DEPTH, 8);
    assert_eq!(control.set(0, true), Ok(Submission::Full));
    assert_eq!(control.all_on(), Submission::Full);
    assert_eq!(control.all_off(), Submission::Full);
    assert_eq!(control.set(9, true), Err(RelayError::InvalidIndex));
    assert_eq!(
        relay_task(&mut control, &mut bank),
        Some(RelayCommand::Switch { index: 0, on: true })
    );
    assert_eq!(control.all_off(), Submission::Accepted);
    assert_eq!(control.all_off(), Submission::Full);
    let mut left = 0;
    while relay_task(&mut control, &mut bank).is_some() {
        left += 1;
    }
    assert_eq!(left, 8);
    assert_eq!(control.state_mask(), 0);
}

#[test]
fn queue_keeps_its_order_while_it_wraps_around() {
    let mut control = RelayControl::new();
    let mut bank = init();
    for round in 0..20usize {
        control.set(round % 5, true).unwrap();
        control.set((round + 1) % 5, false).unwrap();
        assert_eq!(
            relay_task(&mut control, &mut bank),
            Some(RelayCommand::Switch { index: round % 5, on: true })
        );
        assert_eq!(
            relay_task(&mut control, &mut bank),
            Some(RelayCommand::Switch { index: (round + 1) % 5, on: false })
        );
    }
}

#[test]
fn starting_switches_off_and_keeps_what_waits() {
    let mut control = RelayControl::new();
    let mut bank = RelayBank::new([Level::High; RELAY_COUNT], true);
    control.set(2, true).unwrap();
    start(&mut control, &mut bank);
    assert_eq!(on(&bank), vec![false; 5]);
    assert_eq!(control.state_mask(), 0);
    assert_eq!(
        relay_task(&mut control, &mut bank),
        Some(RelayCommand::Switch { index: 2, on: true })
    );
    assert_eq!(control.state_mask(), 0b00100);
}

#[test]
fn commands_concern_the_relays_they_name() {
    for relay in 0..RELAY_COUNT {
        assert!(RelayCommand::AllOn.concerns(relay));
        assert!(RelayCommand::AllOff.concerns(relay));
        assert_eq!(RelayCommand::Switch { index: 2, on: true }.concerns(relay), relay == 2);
    }
}

#[test]
fn last_command_for_a_relay_decides() {
    let mut control = RelayControl::new();
    let mut bank = init();
    control.set(1, false).unwrap();
    control.all_on();
    control.set(4, false).unwrap();
    control.set(4, true).unwrap();
    control.set(2, false).unwrap();
    while relay_task(&mut control, &mut bank).is_some() {}
    assert_eq!(on(&bank), vec![true, true, false, true, true]);
    assert_eq!(control.state_mask(), 0b11011);
}
