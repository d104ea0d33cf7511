use sway::library::Library;
use sway::power::{
    current, hold, metered, BatteryReading, Conditions, CostKind, Hold, Limits, NetworkCost,
};

fn cond(metered: Option<bool>, pct: Option<u8>, charging: Option<bool>) -> Conditions {
    Conditions { metered, battery_pct: pct, charging }
}

#[test]
fn knowing_nothing_does_not_hold() {
    assert_eq!(hold(&Conditions::default(), &Limits::default(), true), None);
}

#[test]
fn metered_network_holds_the_server_but_not_the_local_network() {
    let c = cond(Some(true), None, None);
    let l = Limits::default();
    assert_eq!(hold(&c, &l, true), Some(Hold::Metered));
    assert_eq!(
        hold(&c, &l, false),
        None,
        "moving a file within the same network doesn't spend data"
    );
}

#[test]
fn with_permission_set_metered_network_does_not_hold() {
    let c = cond(Some(true), None, None);
    let l = Limits { on_metered: true, ..Limits::default() };
    assert_eq!(hold(&c, &l, true), None);
}

#[test]
fn low_battery_holds_everything_not_just_the_server() {
    let c = cond(Some(false), Some(9), Some(false));
    let l = Limits::default();
    assert_eq!(hold(&c, &l, true), Some(Hold::Battery));
    assert_eq!(hold(&c, &l, false), Some(Hold::Battery));
}

#[test]
fn plugged_in_battery_left_does_not_matter() {
    let c = cond(Some(false), Some(3), Some(true));
    assert_eq!(hold(&c, &Limits::default(), true), None);
}

#[test]
fn at_zero_the_battery_limit_is_off() {
    let c = cond(Some(false), Some(1), Some(false));
    let l = Limits { min_battery: 0, ..Limits::default() };
    assert_eq!(hold(&c, &l, true), None);
}

#[test]
fn battery_wins_when_both_apply() {
    let c = cond(Some(true), Some(5), Some(false));
    assert_eq!(hold(&c, &Limits::default(), true), Some(Hold::Battery));
}

#[test]
fn the_battery_counts_from_below_the_limit() {
    let l = Limits::default();
    assert_eq!(hold(&cond(None, Some(20), Some(false)), &l, false), None);
    assert_eq!(hold(&cond(None, Some(19), Some(false)), &l, false), Some(Hold::Battery));
}

#[test]
fn not_knowing_whether_it_charges_does_not_hold() {
    let c = cond(Some(false), Some(5), None);
    assert_eq!(hold(&c, &Limits::default(), false), None);
    assert_eq!(hold(&c, &Limits::default(), true), None);
}

#[test]
fn reasons_are_worded() {
    assert_eq!(Hold::Metered.reason(), "the network is metered");
    assert_eq!(Hold::Battery.reason(), "battery is low");
}

#[test]
fn networks_cost_by_their_plan() {
    let cost = |roaming, over_limit, kind| Some(NetworkCost { roaming, over_limit, kind });
    assert_eq!(metered(None), None);
    assert_eq!(metered(cost(false, false, CostKind::Unrestricted)), Some(false));
    assert_eq!(metered(cost(false, false, CostKind::Fixed)), Some(true));
    assert_eq!(metered(cost(false, false, CostKind::Variable)), Some(true));
    assert_eq!(metered(cost(false, false, CostKind::Unknown)), None);
    assert_eq!(metered(cost(true, false, CostKind::Unrestricted)), Some(true));
    assert_eq!(metered(cost(false, true, CostKind::Unknown)), Some(true));
}

#[test]
fn what_is_measured_comes_before_what_was_reported() {
    let native = Conditions::read(None, Some(BatteryReading { pct: 50, charging: true }));
    assert_eq!(native, cond(None, Some(50), Some(true)));
    let reported = cond(Some(true), Some(10), Some(false));
    assert_eq!(current(&native, &reported), cond(Some(true), Some(50), Some(true)));
}

#[test]
fn limits_are_stored_and_read_back() {
    let mut lib = Library::new();
    assert_eq!(Limits::load(&lib), Limits { on_metered: false, min_battery: 20 });
    let l = Limits::new(true, 35);
    l.save(&mut lib);
    assert_eq!(Limits::load(&lib), l);
    assert_eq!(Limits::new(false, 200).min_battery, 100);
    sway::db::set_setting(&mut lib, "sync_min_battery", "250");
    assert_eq!(Limits::load(&lib).min_battery, 100);
    sway::db::set_setting(&mut lib, "sync_min_battery", "300");
    assert_eq!(Limits::load(&lib).min_battery, 20);
}
