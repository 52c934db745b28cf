use conmx::{update_dmx, ConMXMsg, DMXChannel, DMXUniverse, ViewMain, DMX, UNIVERSE_SIZE};

#[test]
fn channel_set_then_get() {
    let mut c = DMXChannel::new();
    assert_eq!(c.get_val(), 0);
    c.set_val(77);
    assert_eq!(c.get_val(), 77);
}

#[test]
fn channel_override_and_revert() {
    let mut c = DMXChannel::new();
    c.set_val(10);
    c.override_val(200);
    assert_eq!(c.get_val(), 200);
    c.set_val(11);
    assert_eq!(c.get_val(), 200);
    c.revert_override();
    assert_eq!(c.get_val(), 11);
    c.override_val(1).revert_override().set_val(3);
    assert_eq!(c.get_val(), 3);
}

#[test]
fn universe_every_channel_reads_back() {
    let mut u = DMXUniverse::new(3);
    for i in 0..UNIVERSE_SIZE {
        u.set_channel(i, (i as u32) * 2 + 1);
    }
    for i in 0..UNIVERSE_SIZE {
        assert_eq!(u.get_channel(i).unwrap().get_val(), (i as u32) * 2 + 1);
    }
    assert_eq!(u.get_id(), 3);
}

#[test]
fn universe_out_of_range_is_ignored() {
    let mut u = DMXUniverse::new(0);
    u.set_channel(512, 9);
    u.set_channel(999999, 9);
    u.set_override_channel(512, 9);
    assert!(u.get_channel(512).is_none());
    assert!(u.get_channel(511).is_some());
    assert_eq!(u.get_channel(511).unwrap().get_val(), 0);
    let count = (0..1000).filter(|i| u.get_channel(*i).is_some()).count();
    assert_eq!(count, 512);
}

#[test]
fn scenario_override_then_revert_in_universe() {
    let mut u = DMXUniverse::new(0);
    u.set_channel(5, 128);
    assert_eq!(u.get_channel(5).unwrap().get_val(), 128);
    u.set_override_channel(5, 255);
    assert_eq!(u.get_channel(5).unwrap().get_val(), 255);
    let mut c = *u.get_channel(5).unwrap();
    c.revert_override();
    assert_eq!(c.get_val(), 128);
}

#[test]
fn universes_compare_by_id() {
    let mut a = DMXUniverse::new(4);
    let b = DMXUniverse::new(4);
    a.set_channel(0, 1);
    assert_eq!(a, b);
    assert_ne!(a, DMXUniverse::new(5));
}

#[test]
fn registry_add_get_and_overwrite() {
    let mut dmx = DMX::new();
    assert!(dmx.get_universe(0).is_none());
    let mut first = DMXUniverse::new(0);
    first.set_channel(1, 50);
    dmx.add_universe(first).add_universe(DMXUniverse::new(7));
    assert_eq!(dmx.get_universe(0).unwrap().get_channel(1).unwrap().get_val(), 50);
    dmx.add_universe(DMXUniverse::new(0));
    assert_eq!(dmx.get_universe(0).unwrap().get_channel(1).unwrap().get_val(), 0);
    dmx.get_universe(7).unwrap().set_channel(2, 9);
    assert_eq!(dmx.get_universe(7).unwrap().get_channel(2).unwrap().get_val(), 9);
    assert!(dmx.get_universe(1).is_none());
}

#[test]
fn slider_message_sets_channel() {
    let mut dmx = DMX::new();
    dmx.add_universe(DMXUniverse::new(2));
    assert!(update_dmx(&mut dmx, ConMXMsg::SliderChange(2, 10, 99)));
    assert_eq!(dmx.get_universe(2).unwrap().get_channel(10).unwrap().get_val(), 99);
    assert!(!update_dmx(&mut dmx, ConMXMsg::SliderChange(3, 10, 99)));
    assert!(update_dmx(&mut dmx, ConMXMsg::SwitchTab(ViewMain::Direct)));
    assert!(update_dmx(&mut dmx, ConMXMsg::ButtonPressed));
}
