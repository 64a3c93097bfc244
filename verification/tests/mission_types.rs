use mission_core::mission::DroneAction;

#[test]
fn drone_actions_are_distinct() {
    let actions = [DroneAction::TakeOff, DroneAction::TakePhoto, DroneAction::Recharge];
    assert_eq!(actions.len(), 3);
    assert_eq!(actions[0], DroneAction::TakeOff);
    assert_ne!(DroneAction::TakeOff, DroneAction::Recharge);
    assert_ne!(DroneAction::TakePhoto, DroneAction::Recharge);
}
