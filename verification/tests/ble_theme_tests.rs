use portfolio::ble::{
    ble_clear, ble_device_html, ble_has_room, ble_mark_found, ble_try_spawn, ble_list_order, ble_render_list, ble_scan_pressed,
    ble_uuid, scan_button_classes, scan_label, signal_percent, BleDevice, MAX_DEVICES,
};
use portfolio::theme::{is_dark, next_theme, pal, toggle_label};

fn dev(rssi: i32, found: bool) -> BleDevice {
    BleDevice { name: format!("dev{}", rssi), rssi, found, uuid: String::from("6E400000-B5A3-F393-E0A9-E50E24DCCA9E") }
}

fn named(name: &str, rssi: i32, found: bool, uuid: &str) -> BleDevice {
    BleDevice { name: name.to_string(), rssi, found, uuid: uuid.to_string() }
}

// The entry markup the page has always written for a device.
fn expected_entry(d: &BleDevice) -> String {
    let pct = (((d.rssi + 90) as f64 / 60.0 * 100.0).round() as i32).clamp(4, 100);
    format!(
        "<div class=\"dev\"><div class=\"row1\"><span class=\"nm\">{}</span><span class=\"rssi\">{} dBm</span></div><div class=\"bar\"><i style=\"width:{}%\"></i></div><div class=\"gatt\"><b>service</b> {}<br><b>Shared</b> Read · Write · Notify<br><b>Custom</b> Read</div></div>",
        d.name, d.rssi, pct, d.uuid
    )
}

#[test]
fn list_shows_found_devices_strongest_first_stably() {
    let devs = vec![dev(-70, true), dev(-40, true), dev(-50, false), dev(-70, true), dev(-40, true)];
    assert_eq!(ble_list_order(&devs), vec![1, 4, 0, 3]);
}

#[test]
fn list_messages_when_nothing_found() {
    let devs = vec![dev(-70, false)];
    assert_eq!(ble_render_list(&devs, true), "<div class=\"ble-empty\">Scanning…</div>");
    assert_eq!(
        ble_render_list(&[], false),
        "<div class=\"ble-empty\">Press Scan to discover<br>nearby BLE devices</div>"
    );
    let one = vec![dev(-60, true)];
    assert_eq!(ble_render_list(&one, false), expected_entry(&one[0]));
}

#[test]
fn signal_percent_exact_values() {
    assert_eq!(signal_percent(-30), 100);
    assert_eq!(signal_percent(-20), 100);
    assert_eq!(signal_percent(-60), 50);
    assert_eq!(signal_percent(-31), 98);
    assert_eq!(signal_percent(-32), 97);
    assert_eq!(signal_percent(-84), 10);
    assert_eq!(signal_percent(-88), 4);
    assert_eq!(signal_percent(-90), 4);
    assert_eq!(signal_percent(i32::MIN), 4);
}

#[test]
fn signal_percent_matches_float_formula() {
    for rssi in -200..=40 {
        let f = ((((rssi + 90) as f64 / 60.0 * 100.0).round()) as i32).clamp(4, 100);
        assert_eq!(signal_percent(rssi), f);
    }
}

#[test]
fn signal_bars_shrink_down_the_list() {
    let devs = vec![dev(-33, true), dev(-80, true), dev(-55, true)];
    let order = ble_list_order(&devs);
    let pcts: Vec<i32> = order.iter().map(|&i| signal_percent(devs[i].rssi)).collect();
    assert!(pcts.windows(2).all(|w| w[0] >= w[1]));
}

#[test]
fn uuid_layout() {
    assert_eq!(ble_uuid(&[0, 10, 15, 3]), "6E400AF3-B5A3-F393-E0A9-E50E24DCCA9E");
    assert_eq!(ble_uuid(&[9, 9, 11, 12]), "6E4099BC-B5A3-F393-E0A9-E50E24DCCA9E");
}

#[test]
fn scan_button_toggles_and_asks_for_redraw_when_empty() {
    assert_eq!(ble_scan_pressed(false, &[]), (true, true));
    assert_eq!(ble_scan_pressed(true, &[dev(-50, false)]), (false, true));
    assert_eq!(ble_scan_pressed(true, &[dev(-50, false), dev(-40, true)]), (false, false));
}

#[test]
fn entry_markup_matches_format() {
    for d in [
        named("iPhone", -42, true, "6E4012AB-B5A3-F393-E0A9-E50E24DCCA9E"),
        named("Quest 3", -84, true, "6E40FFFF-B5A3-F393-E0A9-E50E24DCCA9E"),
        named("", 0, true, ""),
        named("Watch", 10, true, "x"),
        named("Far", -100, true, "y"),
        named("Min", i32::MIN, true, "z"),
    ] {
        assert_eq!(ble_device_html(&d), expected_entry(&d));
    }
}

#[test]
fn list_markup() {
    let devs = vec![
        named("A", -70, true, "u1"),
        named("B", -40, true, "u2"),
        named("C", -50, false, "u3"),
        named("D", -70, true, "u4"),
    ];
    let expected: String = [1usize, 0, 3].iter().map(|&i| expected_entry(&devs[i])).collect();
    assert_eq!(ble_render_list(&devs, true), expected);
    let hidden = vec![named("C", -50, false, "u3")];
    assert_eq!(ble_render_list(&hidden, true), "<div class=\"ble-empty\">Scanning…</div>");
    assert_eq!(
        ble_render_list(&hidden, false),
        "<div class=\"ble-empty\">Press Scan to discover<br>nearby BLE devices</div>"
    );
}

#[test]
fn scan_button_look() {
    assert_eq!(scan_label(true), "Stop");
    assert_eq!(scan_label(false), "Scan");
    assert_eq!(scan_button_classes(true), ("ghost", "pri"));
    assert_eq!(scan_button_classes(false), ("pri", "ghost"));
}

#[test]
fn device_cap() {
    assert!(ble_has_room(0));
    assert!(ble_has_room(MAX_DEVICES - 1));
    assert!(!ble_has_room(MAX_DEVICES));
}

#[test]
fn theme_attribute_wins_over_preference() {
    assert!(is_dark(Some("dark"), false));
    assert!(!is_dark(Some("light"), true));
    assert!(is_dark(Some("sepia"), true));
    assert!(!is_dark(Some(""), false));
    assert!(is_dark(None, true));
    assert!(!is_dark(None, false));
}

#[test]
fn toggle_flips_theme() {
    for dark in [false, true] {
        for pref in [false, true] {
            assert_eq!(is_dark(Some(next_theme(dark)), pref), !dark);
        }
    }
    assert_eq!(toggle_label(true), "Light");
    assert_eq!(toggle_label(false), "Dark");
    assert_eq!(next_theme(true), "light");
    assert_eq!(next_theme(false), "dark");
}

#[test]
fn palettes() {
    let d = pal(true);
    assert_eq!((d.accent, d.muted, d.line), ("#2997ff", "#86868b", "#2a2a2c"));
    let l = pal(false);
    assert_eq!((l.accent, l.muted, l.line), ("#0071e3", "#6e6e73", "#d2d2d7"));
}

#[test]
fn spawning_stops_at_the_cap() {
    let mut devs: Vec<BleDevice> = Vec::new();
    for k in 0..10 {
        let added = ble_try_spawn(&mut devs, true, true, named("d", -40 - k, true, "u"));
        assert_eq!(added, (k as usize) < MAX_DEVICES);
        assert!(devs.len() <= MAX_DEVICES);
    }
    assert_eq!(devs.len(), MAX_DEVICES);
    assert!(devs.iter().all(|d| !d.found));
    let mut idle: Vec<BleDevice> = Vec::new();
    assert!(!ble_try_spawn(&mut idle, false, true, dev(-40, false)));
    assert!(!ble_try_spawn(&mut idle, true, false, dev(-40, false)));
    assert!(idle.is_empty());
}

#[test]
fn sweep_discovers_and_found_stays_found() {
    let mut devs = vec![dev(-40, false), dev(-50, true), dev(-60, false), dev(-70, false)];
    let newly = ble_mark_found(&mut devs, true, &[true, true, false, true]);
    assert_eq!(newly, vec![0, 3]);
    assert_eq!(devs.iter().map(|d| d.found).collect::<Vec<_>>(), vec![true, true, false, true]);
    let newly = ble_mark_found(&mut devs, true, &[false, false, false, false]);
    assert!(newly.is_empty());
    assert_eq!(devs.iter().map(|d| d.found).collect::<Vec<_>>(), vec![true, true, false, true]);
    let newly = ble_mark_found(&mut devs, false, &[true, true, true, true]);
    assert!(newly.is_empty());
    assert!(!devs[2].found);
    ble_clear(&mut devs);
    assert!(devs.is_empty());
}

#[test]
fn undiscovered_devices_need_no_signal_bound() {
    let devs = vec![dev(-40, true), named("x", i32::MAX, false, "u")];
    assert_eq!(ble_render_list(&devs, true), expected_entry(&devs[0]));
}
