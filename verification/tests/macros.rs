use cibos::macros::{check_entry, next_arm, EntryFault, NextArm};

#[test]
fn entry_points_are_async_and_take_nothing() {
    assert_eq!(check_entry(true, 0), Ok(()));
    assert_eq!(check_entry(false, 0), Err(EntryFault::NotAsync));
    assert_eq!(check_entry(false, 2), Err(EntryFault::NotAsync));
    assert_eq!(check_entry(true, 1), Err(EntryFault::TakesArguments));
    assert_eq!(EntryFault::NotAsync.message(), "#[cibos::main] requires an `async fn`");
    assert_eq!(
        EntryFault::TakesArguments.message(),
        "#[cibos::main] entry point takes no arguments"
    );
}

#[test]
fn arms_are_separated_by_commas() {
    assert_eq!(next_arm(0, false, true), NextArm::Missing);
    assert_eq!(next_arm(0, false, false), NextArm::Parse);
    assert_eq!(next_arm(1, true, false), NextArm::Parse);
    assert_eq!(next_arm(1, true, true), NextArm::Done);
    assert_eq!(next_arm(2, false, false), NextArm::Done);
    assert_eq!(next_arm(2, false, true), NextArm::Done);
}
