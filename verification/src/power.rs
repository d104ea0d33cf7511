//! The state this device is in for synchronising: what its network costs, and how
//! much battery is left.
//!
//! Not knowing never holds anything up: a desktop computer has no battery, and
//! most networks do not say what they cost.

use crate::db::{get_setting, set_setting, setting_of, with_setting};
use crate::library::{Library, LibraryView};
use crate::text::{decimal, digits, parse_up_to, parsed_nat, same};
use vstd::prelude::*;

verus! {

broadcast use vstd::string::group_string_axioms;

/// What is known of network and battery.
#[derive(Debug, Clone, Copy, PartialEq, Eq, Structural)]
pub struct Conditions {
    /// The network is paid by use; nothing where that is not known.
    pub metered: Option<bool>,
    /// From 0 to 100; nothing where there is no battery, or it is not known.
    pub battery_pct: Option<u8>,
    pub charging: Option<bool>,
}

impl Default for Conditions {
    fn default() -> (r: Self)
        ensures
            r == (Conditions { metered: None, battery_pct: None, charging: None }),
    {
        Conditions { metered: None, battery_pct: None, charging: None }
    }
}

/// How a network is paid.
#[derive(Debug, Clone, Copy, PartialEq, Eq, Structural)]
pub enum CostKind {
    Unrestricted,
    /// A plan with a limit.
    Fixed,
    /// By the megabyte.
    Variable,
    Unknown,
}

/// What the operating system says of the cost of the network.
#[derive(Debug, Clone, Copy, PartialEq, Eq, Structural)]
pub struct NetworkCost {
    pub roaming: bool,
    pub over_limit: bool,
    pub kind: CostKind,
}

/// Whether the network is paid by use, by what the operating system says of it.
/// Roaming, or being over the limit, costs whatever the plan.
pub fn metered(cost: Option<NetworkCost>) -> (r: Option<bool>)
    ensures
        r == match cost {
            None => None::<bool>,
            Some(c) => if c.roaming || c.over_limit {
                Some(true)
            } else {
                match c.kind {
                    CostKind::Fixed => Some(true),
                    CostKind::Variable => Some(true),
                    CostKind::Unrestricted => Some(false),
                    CostKind::Unknown => None::<bool>,
                }
            },
        },
{
    match cost {
        None => None,
        Some(c) => {
            if c.roaming || c.over_limit {
                return Some(true);
            }
            match c.kind {
                CostKind::Fixed => Some(true),
                CostKind::Variable => Some(true),
                CostKind::Unrestricted => Some(false),
                CostKind::Unknown => None,
            }
        },
    }
}

/// What a battery says.
#[derive(Debug, Clone, Copy, PartialEq, Eq, Structural)]
pub struct BatteryReading {
    pub pct: u8,
    /// It is charging, or full.
    pub charging: bool,
}

impl Conditions {
    /// What this device can find out by itself, from the cost of its network and
    /// its battery, if it has one.
    pub fn read(cost: Option<NetworkCost>, battery: Option<BatteryReading>) -> (r: Self)
        ensures
            r.metered is Some <==> (cost is Some && (cost->0.roaming || cost->0.over_limit
                || cost->0.kind != CostKind::Unknown)),
            r.metered is Some ==> r.metered->0 == (cost->0.roaming || cost->0.over_limit
                || cost->0.kind != CostKind::Unrestricted),
            battery is Some ==> r.battery_pct == Some(battery->0.pct) && r.charging == Some(
                battery->0.charging,
            ),
            battery is None ==> r.battery_pct is None && r.charging is None,
    {
        match battery {
            Some(b) => Conditions {
                metered: metered(cost),
                battery_pct: Some(b.pct),
                charging: Some(b.charging),
            },
            None => Conditions { metered: metered(cost), battery_pct: None, charging: None },
        }
    }
}

pub open spec fn first_known<T>(a: Option<T>, b: Option<T>) -> Option<T> {
    if a is Some {
        a
    } else {
        b
    }
}

/// What is known now: what this device measures, and where it cannot, what the
/// screen reported.
pub fn current(native: &Conditions, reported: &Conditions) -> (r: Conditions)
    ensures
        r.metered == first_known(native.metered, reported.metered),
        r.battery_pct == first_known(native.battery_pct, reported.battery_pct),
        r.charging == first_known(native.charging, reported.charging),
{
    Conditions {
        metered: if native.metered.is_some() {
            native.metered
        } else {
            reported.metered
        },
        battery_pct: if native.battery_pct.is_some() {
            native.battery_pct
        } else {
            reported.battery_pct
        },
        charging: if native.charging.is_some() {
            native.charging
        } else {
            reported.charging
        },
    }
}

/// What this device allows.
#[derive(Debug, Clone, Copy, PartialEq, Eq, Structural)]
pub struct Limits {
    /// Synchronise with the server even where the network is paid by use.
    pub on_metered: bool,
    /// Below this percentage nothing is synchronised by itself; 0 is no limit.
    pub min_battery: u8,
}

impl Default for Limits {
    fn default() -> (r: Self)
        ensures
            r == (Limits { on_metered: false, min_battery: 20 }),
    {
        Limits { on_metered: false, min_battery: 20 }
    }
}

/// The limits that are stored.
pub open spec fn limits_of(l: LibraryView) -> Limits {
    Limits {
        on_metered: match setting_of(l, "sync_on_metered"@) {
            Some(v) => v == "1"@,
            None => false,
        },
        min_battery: match setting_of(l, "sync_min_battery"@) {
            Some(v) => match parsed_nat(v, 255) {
                Some(n) => if n > 100 {
                    100
                } else {
                    n as u8
                },
                None => 20,
            },
            None => 20,
        },
    }
}

impl Limits {
    /// The limits with a percentage that is one.
    pub fn new(on_metered: bool, min_battery: u8) -> (r: Self)
        ensures
            r.on_metered == on_metered,
            r.min_battery == if min_battery > 100 {
                100u8
            } else {
                min_battery
            },
    {
        Limits {
            on_metered,
            min_battery: if min_battery > 100 {
                100
            } else {
                min_battery
            },
        }
    }

    /// The limits that are stored.
    pub fn load(lib: &Library) -> (r: Self)
        ensures
            r == limits_of(lib@),
    {
        let on_metered: bool = match get_setting(lib, "sync_on_metered") {
            Some(v) => same(v.as_str(), "1"),
            None => false,
        };
        let min_battery: u8 = match get_setting(lib, "sync_min_battery") {
            Some(v) => match parse_up_to(v.as_str(), 255) {
                Some(n) => if n > 100 {
                    100
                } else {
                    n as u8
                },
                None => 20,
            },
            None => 20,
        };
        Limits { on_metered, min_battery }
    }

    /// Stores the limits.
    pub fn save(&self, lib: &mut Library)
        ensures
            final(lib)@ == with_setting(
                with_setting(
                    old(lib)@,
                    "sync_on_metered"@,
                    if self.on_metered {
                        "1"@
                    } else {
                        "0"@
                    },
                ),
                "sync_min_battery"@,
                digits(self.min_battery as nat),
            ),
            old(lib)@.wf() ==> final(lib)@.wf(),
    {
        let flag: &str = if self.on_metered {
            "1"
        } else {
            "0"
        };
        set_setting(lib, "sync_on_metered", flag);
        let pct: String = decimal(self.min_battery as u64);
        set_setting(lib, "sync_min_battery", pct.as_str());
    }
}

/// The library once limits were stored.
pub open spec fn limits_saved(l: LibraryView, limits: Limits) -> LibraryView {
    with_setting(
        with_setting(
            l,
            "sync_on_metered"@,
            if limits.on_metered {
                "1"@
            } else {
                "0"@
            },
        ),
        "sync_min_battery"@,
        digits(limits.min_battery as nat),
    )
}

/// Limits that were stored are read back as they were.
pub proof fn stored_limits_are_read_back(l: LibraryView, limits: Limits)
    requires
        limits.min_battery <= 100,
    ensures
        limits_of(limits_saved(l, limits)) == limits,
{
    let flag = if limits.on_metered {
        "1"@
    } else {
        "0"@
    };
    let m = with_setting(l, "sync_on_metered"@, flag);
    let pct = digits(limits.min_battery as nat);
    reveal_strlit("sync_on_metered");
    reveal_strlit("sync_min_battery");
    reveal_strlit("0");
    reveal_strlit("1");
    assert("sync_on_metered"@.len() != "sync_min_battery"@.len());
    assert("0"@[0] != "1"@[0]);
    crate::db::stored_settings_are_read_back(l, "sync_on_metered"@, flag, Seq::empty());
    crate::db::stored_settings_are_read_back(m, "sync_min_battery"@, pct, "sync_on_metered"@);
    crate::text::decimals_are_read_back(limits.min_battery as nat);
    assert(crate::text::is_decimal(pct[0]));
}

/// Why nothing is synchronised by itself now.
#[derive(Debug, Clone, Copy, PartialEq, Eq, Structural)]
pub enum Hold {
    Metered,
    Battery,
}

impl Hold {
    pub open spec fn text(self) -> Seq<char> {
        match self {
            Hold::Metered => "the network is metered"@,
            Hold::Battery => "battery is low"@,
        }
    }

    /// The reason, in words.
    pub fn reason(&self) -> (r: &'static str)
        ensures
            r@ == self.text(),
    {
        match self {
            Hold::Metered => "the network is metered",
            Hold::Battery => "battery is low",
        }
    }
}

/// The battery is known to be below the limit, and known not to be charging.
pub open spec fn battery_is_low(c: Conditions, l: Limits) -> bool {
    &&& c.battery_pct is Some
    &&& c.charging == Some(false)
    &&& l.min_battery > 0
    &&& c.battery_pct->0 < l.min_battery
}

/// What holds up synchronising by itself, if anything does.
pub open spec fn held_by(c: Conditions, l: Limits, remote: bool) -> Option<Hold> {
    if battery_is_low(c, l) {
        Some(Hold::Battery)
    } else if remote && !l.on_metered && c.metered == Some(true) {
        Some(Hold::Metered)
    } else {
        None
    }
}

/// Whether synchronising by itself has to wait. Only what goes out to the server
/// (`remote`) can cost money: within the local network nothing does. What the user
/// asks for does not come by here.
pub fn hold(c: &Conditions, l: &Limits, remote: bool) -> (r: Option<Hold>)
    ensures
        r == held_by(*c, *l, remote),
{
    let draining: bool = match c.charging {
        Some(x) => !x,
        None => false,
    };
    if let Some(pct) = c.battery_pct {
        if draining && l.min_battery > 0 && pct < l.min_battery {
            return Some(Hold::Battery);
        }
    }
    let paid: bool = match c.metered {
        Some(x) => x,
        None => false,
    };
    if remote && !l.on_metered && paid {
        return Some(Hold::Metered);
    }
    None
}

/// What is not known holds nothing up, and neither does the cost of the network
/// where nothing leaves the local one.
pub proof fn not_knowing_holds_nothing_up(c: Conditions, l: Limits, remote: bool)
    ensures
        c.metered is None ==> held_by(c, l, remote) != Some(Hold::Metered),
        c.battery_pct is None ==> held_by(c, l, remote) != Some(Hold::Battery),
        c.charging is None ==> held_by(c, l, remote) != Some(Hold::Battery),
        held_by(c, l, false) != Some(Hold::Metered),
        c.charging == Some(true) ==> held_by(c, l, remote) != Some(Hold::Battery),
        l.min_battery == 0 ==> held_by(c, l, remote) != Some(Hold::Battery),
{
}

} // verus!
