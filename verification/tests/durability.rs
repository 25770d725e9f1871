//! What each reach names on each platform.
use kura_core::durability::{Call, Platform, Reach};

const REACHES: [Reach; 3] = [Reach::Platter, Reach::Device, Reach::Ordered];

const PLATFORMS: [Platform; 4] = [
    Platform::MacOs,
    Platform::Linux,
    Platform::Windows,
    Platform::Other,
];

#[test]
fn every_reach_names_a_call_and_a_promise() {
    for reach in REACHES {
        for platform in PLATFORMS {
            assert!(!reach.call(platform).is_empty(), "a reach with no call to name");
        }
        assert!(!reach.promise().is_empty(), "a reach with no promise");
    }
}

#[test]
fn the_default_is_the_one_that_survives_the_power_going() {
    assert_eq!(Reach::default(), Reach::Platter);
    assert_eq!(Reach::Platter.promise(), "the power going");
}

#[test]
fn the_reaches_order_from_the_strongest_promise_to_the_weakest() {
    assert!(Reach::Platter < Reach::Device);
    assert!(Reach::Device < Reach::Ordered);
}

#[test]
fn the_three_reaches_are_three_different_calls_here() {
    assert_eq!(Reach::Platter.call(Platform::MacOs), "F_FULLFSYNC");
    assert_eq!(Reach::Device.call(Platform::MacOs), "fsync");
    assert_eq!(Reach::Ordered.call(Platform::MacOs), "F_BARRIERFSYNC");
}

#[test]
fn a_platform_with_one_call_names_it_for_every_reach() {
    for platform in [Platform::Linux, Platform::Windows, Platform::Other] {
        assert_eq!(Reach::Platter.call(platform), Reach::Device.call(platform));
        assert_eq!(Reach::Device.call(platform), Reach::Ordered.call(platform));
    }
}

#[test]
fn a_sync_makes_the_call_the_reach_asks_for() {
    assert_eq!(Reach::Platter.sync(Platform::MacOs), Call::FullFsync);
    assert_eq!(Reach::Device.sync(Platform::MacOs), Call::SyncData);
    assert_eq!(Reach::Ordered.sync(Platform::MacOs), Call::BarrierFsync);
    assert_eq!(Reach::Ordered.sync(Platform::Linux), Call::SyncData);
    assert_eq!(Reach::Device.sync(Platform::Other), Call::SyncAll);
}

#[test]
fn a_file_that_grew_has_its_length_synced_first() {
    assert_eq!(
        Reach::Platter.sync_all(Platform::MacOs),
        vec![Call::SyncAll, Call::FullFsync]
    );
    for reach in [Reach::Device, Reach::Ordered] {
        assert_eq!(reach.sync_all(Platform::MacOs), vec![Call::SyncAll]);
    }
    for reach in REACHES {
        assert_eq!(reach.sync_all(Platform::Windows), vec![Call::SyncAll]);
    }
}
