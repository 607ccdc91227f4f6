//! The rules of the BLE scanner demo: which discovered devices the list
//! shows and in what order, the signal bar of each, the service UUIDs it
//! makes up, and the scan button.

use vstd::prelude::*;
use crate::cipher::{hex_char, hex_digit};

verus! {

/// What the device list reads of a simulated device: its name, its signal
/// strength in dBm, whether the radar sweep has discovered it yet, and its
/// service UUID.
#[derive(Debug)]
pub struct BleDevice {
    pub name: String,
    pub rssi: i32,
    pub found: bool,
    pub uuid: String,
}

/// The most devices a scan shows at once.
pub const MAX_DEVICES: usize = 6;

/// Device `x` is listed above device `y`: it has the stronger signal, or the
/// same signal and was spawned first.
pub open spec fn listed_before(devs: Seq<BleDevice>, x: int, y: int) -> bool {
    devs[x].rssi > devs[y].rssi || (devs[x].rssi == devs[y].rssi && x < y)
}

/// `order` lists exactly the discovered devices, strongest signal first,
/// devices of equal signal in the order they were spawned.
pub open spec fn is_list_order(devs: Seq<BleDevice>, order: Seq<usize>) -> bool {
    &&& forall|p: int| 0 <= p < order.len() ==> #[trigger] order[p] < devs.len() && devs[order[p] as int].found
    &&& forall|k: int| 0 <= k < devs.len() && #[trigger] devs[k].found ==> order.contains(k as usize)
    &&& forall|p: int, q: int|
        0 <= p < q < order.len() ==> listed_before(devs, order[p] as int, order[q] as int)
}

/// Some device has been discovered.
pub open spec fn any_found(devs: Seq<BleDevice>) -> bool {
    exists|k: int| 0 <= k < devs.len() && #[trigger] devs[k].found
}

/// The discovered devices, strongest signal first, equal signals in the
/// order they were spawned (a stable sort by descending signal).
pub fn ble_list_order(devices: &[BleDevice]) -> (order: Vec<usize>)
    ensures
        is_list_order(devices@, order@),
{
    let ghost devs = devices@;
    let mut order: Vec<usize> = Vec::new();
    let n = devices.len();
    let mut k: usize = 0;
    while k < n
        invariant
            n == devs.len(),
            devs == devices@,
            k <= n,
            forall|p: int| 0 <= p < order@.len() ==> #[trigger] order@[p] < k && devs[order@[p] as int].found,
            forall|x: int| 0 <= x < k && #[trigger] devs[x].found ==> order@.contains(x as usize),
            forall|p: int, q: int|
                0 <= p < q < order@.len() ==> listed_before(devs, order@[p] as int, order@[q] as int),
        decreases n - k,
    {
        if devices[k].found {
            let r = devices[k].rssi;
            let mut p: usize = 0;
            while p < order.len() && devices[order[p]].rssi >= r
                invariant
                    n == devs.len(),
                    devs == devices@,
                    k < n,
                    r == devs[k as int].rssi,
                    p <= order@.len(),
                    forall|x: int| 0 <= x < order@.len() ==> #[trigger] order@[x] < k,
                    forall|q: int| 0 <= q < p ==> devs[#[trigger] order@[q] as int].rssi >= r,
                decreases order@.len() - p,
            {
                p = p + 1;
            }
            let ghost old_order = order@;
            assert forall|q: int| p <= q < old_order.len() implies devs[#[trigger] old_order[q] as int].rssi < r by {
                assert(listed_before(devs, old_order[p as int] as int, old_order[q] as int) || q == p);
            }
            order.insert(p, k);
            assert forall|a: int, b: int| 0 <= a < b < order@.len() implies listed_before(devs, order@[a] as int, order@[b] as int) by {
                if b < p {
                    assert(order@[a] == old_order[a] && order@[b] == old_order[b]);
                } else if b == p {
                    assert(order@[a] == old_order[a]);
                } else if a == p {
                    assert(order@[b] == old_order[b - 1]);
                } else if a < p {
                    assert(order@[a] == old_order[a] && order@[b] == old_order[b - 1]);
                } else {
                    assert(order@[a] == old_order[a - 1] && order@[b] == old_order[b - 1]);
                }
            }
            assert forall|x: int| 0 <= x < k + 1 && #[trigger] devs[x].found implies order@.contains(x as usize) by {
                if x == k {
                    assert(order@[p as int] == k);
                } else {
                    let w = choose|w: int| 0 <= w < old_order.len() && old_order[w] == x as usize;
                    if w < p {
                        assert(order@[w] == x as usize);
                    } else {
                        assert(order@[w + 1] == x as usize);
                    }
                }
            }
        }
        k = k + 1;
    }
    order
}

/// The length of a device's signal bar, in percent: `(rssi + 90) / 60` of
/// the full bar rounded to the nearest percent (the exact value is never
/// halfway between two), kept between 4 and 100.
pub open spec fn spec_signal_percent(rssi: int) -> int {
    let v = (5 * (rssi + 90) + 1) / 3;
    if v < 4 {
        4
    } else if v > 100 {
        100
    } else {
        v
    }
}

/// The length of a device's signal bar, in percent.
pub fn signal_percent(rssi: i32) -> (pct: i32)
    requires
        rssi <= i32::MAX - 90,
    ensures
        pct == spec_signal_percent(rssi as int),
        4 <= pct <= 100,
{
    let num: i64 = 5 * (rssi as i64 + 90) + 1;
    if num < 12 {
        4
    } else {
        let v = num / 3;
        if v > 100 {
            100
        } else {
            v as i32
        }
    }
}

/// A stronger signal never shows a shorter bar, so the bars shrink down the
/// list, which is ordered by signal.
pub proof fn lemma_signal_percent_monotone(a: int, b: int)
    requires
        a <= b,
    ensures
        spec_signal_percent(a) <= spec_signal_percent(b),
{
    let x = 5 * (a + 90) + 1;
    let y = 5 * (b + 90) + 1;
    assert(x / 3 <= y / 3) by (nonlinear_arith)
        requires
            x <= y,
    ;
}

/// The uppercase hex digit of a nibble.
pub open spec fn upper_hex_char(n: int) -> char {
    if n < 10 {
        (n + 48) as char
    } else {
        (n + 55) as char
    }
}

fn upper_hex_digit(n: usize) -> (s: &'static str)
    requires
        n < 16,
    ensures
        s@ == seq![upper_hex_char(n as int)],
{
    if n < 10 {
        let s = hex_digit(n as u8);
        assert(hex_char(n as int) == upper_hex_char(n as int));
        s
    } else {
        match n {
            10 => { proof { reveal_strlit("A"); } "A" },
            11 => { proof { reveal_strlit("B"); } "B" },
            12 => { proof { reveal_strlit("C"); } "C" },
            13 => { proof { reveal_strlit("D"); } "D" },
            14 => { proof { reveal_strlit("E"); } "E" },
            _ => { proof { reveal_strlit("F"); } "F" },
        }
    }
}

/// The service UUID of a simulated device: `6E40`, then the four uppercase
/// hex digits `digits`, then `-B5A3-F393-E0A9-E50E24DCCA9E`.
pub fn ble_uuid(digits: &[usize]) -> (s: String)
    requires
        digits@.len() == 4,
        forall|k: int| 0 <= k < 4 ==> #[trigger] digits@[k] < 16,
    ensures
        s@ == "6E40"@ + Seq::new(4, |k: int| upper_hex_char(digits@[k] as int))
            + "-B5A3-F393-E0A9-E50E24DCCA9E"@,
{
    let mut s = "6E40".to_owned();
    let ghost head = s@;
    let mut k: usize = 0;
    while k < 4
        invariant
            k <= 4,
            digits@.len() == 4,
            forall|x: int| 0 <= x < 4 ==> #[trigger] digits@[x] < 16,
            head == "6E40"@,
            s@ == head + Seq::new(k as nat, |x: int| upper_hex_char(digits@[x] as int)),
        decreases 4 - k,
    {
        s.append(upper_hex_digit(digits[k]));
        assert(s@ =~= head + Seq::new((k + 1) as nat, |x: int| upper_hex_char(digits@[x] as int)));
        k = k + 1;
    }
    s.append("-B5A3-F393-E0A9-E50E24DCCA9E");
    s
}

/// The Scan button: flips scanning on or off, and says whether the list must
/// be redrawn, which it must when nothing has been discovered (its empty
/// message depends on scanning).
pub fn ble_scan_pressed(scanning: bool, devices: &[BleDevice]) -> (r: (bool, bool))
    ensures
        r.0 == !scanning,
        r.1 == !any_found(devices@),
{
    let mut k: usize = 0;
    let mut found = false;
    while k < devices.len()
        invariant
            k <= devices@.len(),
            found == exists|x: int| 0 <= x < k && #[trigger] devices@[x].found,
        decreases devices@.len() - k,
    {
        if devices[k].found {
            found = true;
        }
        k = k + 1;
    }
    (!scanning, !found)
}

/// A scan may spawn another device while fewer than `MAX_DEVICES` exist.
pub fn ble_has_room(count: usize) -> (room: bool)
    ensures
        room == (count < MAX_DEVICES),
{
    count < MAX_DEVICES
}


/// Two sequences of device positions, each in strictly increasing list
/// order, that hold the same positions are the same sequence.
proof fn lemma_sorted_same_members(devs: Seq<BleDevice>, o1: Seq<usize>, o2: Seq<usize>)
    requires
        forall|p: int| 0 <= p < o1.len() ==> #[trigger] o1[p] < devs.len(),
        forall|p: int| 0 <= p < o2.len() ==> #[trigger] o2[p] < devs.len(),
        forall|p: int, q: int| 0 <= p < q < o1.len() ==> listed_before(devs, o1[p] as int, o1[q] as int),
        forall|p: int, q: int| 0 <= p < q < o2.len() ==> listed_before(devs, o2[p] as int, o2[q] as int),
        forall|x: usize| o1.contains(x) <==> o2.contains(x),
    ensures
        o1 == o2,
    decreases o1.len(),
{
    if o1.len() == 0 {
        if o2.len() > 0 {
            assert(o2.contains(o2[0]));
        }
        assert(o1 =~= o2);
    } else {
        assert(o1.contains(o1[0]));
        let w = choose|w: int| 0 <= w < o2.len() && o2[w] == o1[0];
        assert(o2.contains(o2[0]));
        let v = choose|v: int| 0 <= v < o1.len() && o1[v] == o2[0];
        if w > 0 {
            assert(listed_before(devs, o2[0] as int, o2[w] as int));
            if v > 0 {
                assert(listed_before(devs, o1[0] as int, o1[v] as int));
            }
        }
        assert(o1[0] == o2[0]);
        let t1 = o1.drop_first();
        let t2 = o2.drop_first();
        assert forall|x: usize| t1.contains(x) implies t2.contains(x) by {
            let a = choose|a: int| 0 <= a < t1.len() && t1[a] == x;
            assert(listed_before(devs, o1[0] as int, o1[a + 1] as int));
            assert(o2.contains(x));
            let b = choose|b: int| 0 <= b < o2.len() && o2[b] == x;
            assert(b != 0);
            assert(t2[b - 1] == x);
        }
        assert forall|x: usize| t2.contains(x) implies t1.contains(x) by {
            let a = choose|a: int| 0 <= a < t2.len() && t2[a] == x;
            assert(listed_before(devs, o2[0] as int, o2[a + 1] as int));
            assert(o1.contains(x));
            let b = choose|b: int| 0 <= b < o1.len() && o1[b] == x;
            assert(b != 0);
            assert(t1[b - 1] == x);
        }
        lemma_sorted_same_members(devs, t1, t2);
        assert(o1.len() == o2.len());
        assert forall|k: int| 0 <= k < o1.len() implies o1[k] == o2[k] by {
            if k > 0 {
                assert(o1[k] == t1[k - 1] && o2[k] == t2[k - 1]);
            }
        }
        assert(o1 =~= o2);
    }
}

/// The device list's order is determined by the devices alone: at most one
/// order lists exactly the discovered devices, strongest first with ties in
/// spawn order, so `ble_list_order` returns that one.
pub proof fn lemma_list_order_unique(devs: Seq<BleDevice>, o1: Seq<usize>, o2: Seq<usize>)
    requires
        is_list_order(devs, o1),
        is_list_order(devs, o2),
    ensures
        o1 == o2,
{
    assert forall|x: usize| o1.contains(x) implies o2.contains(x) by {
        let a = choose|a: int| 0 <= a < o1.len() && o1[a] == x;
        assert(devs[o1[a] as int].found);
    }
    assert forall|x: usize| o2.contains(x) implies o1.contains(x) by {
        let a = choose|a: int| 0 <= a < o2.len() && o2[a] == x;
        assert(devs[o2[a] as int].found);
    }
    lemma_sorted_same_members(devs, o1, o2);
}


/// The decimal digit `d` as a character.
pub open spec fn digit_char(d: int) -> char {
    (d + 48) as char
}

/// The decimal digits of `n`, without leading zeros.
pub open spec fn nat_decimal(n: nat) -> Seq<char>
    decreases n,
{
    if n < 10 {
        seq![digit_char(n as int)]
    } else {
        nat_decimal(n / 10) + seq![digit_char((n % 10) as int)]
    }
}

/// `n` in decimal, with a leading `-` when negative, as `format!("{}")`
/// writes an integer.
pub open spec fn int_decimal(n: int) -> Seq<char> {
    if n < 0 {
        seq!['-'] + nat_decimal((-n) as nat)
    } else {
        nat_decimal(n as nat)
    }
}

fn push_nat_decimal(s: &mut String, n: u64)
    ensures
        final(s)@ == old(s)@ + nat_decimal(n as nat),
    decreases n,
{
    if n >= 10 {
        push_nat_decimal(s, n / 10);
    }
    s.append(hex_digit((n % 10) as u8));
}

fn push_decimal(s: &mut String, n: i32)
    ensures
        final(s)@ == old(s)@ + int_decimal(n as int),
{
    if n < 0 {
        proof { reveal_strlit("-"); }
        s.append("-");
        push_nat_decimal(s, (-(n as i64)) as u64);
    } else {
        push_nat_decimal(s, n as u64);
    }
}

/// The message the device list shows while scanning with nothing found.
pub const LIST_SCANNING: &'static str = "<div class=\"ble-empty\">Scanning…</div>";

/// The prompt the device list shows when not scanning and nothing found.
pub const LIST_IDLE: &'static str = "<div class=\"ble-empty\">Press Scan to discover<br>nearby BLE devices</div>";

/// The pieces of a device's entry, around its name, signal, bar length and
/// service UUID.
pub const DEV_OPEN: &'static str = "<div class=\"dev\"><div class=\"row1\"><span class=\"nm\">";
pub const DEV_AFTER_NAME: &'static str = "</span><span class=\"rssi\">";
pub const DEV_AFTER_RSSI: &'static str = " dBm</span></div><div class=\"bar\"><i style=\"width:";
pub const DEV_AFTER_PCT: &'static str = "%\"></i></div><div class=\"gatt\"><b>service</b> ";
pub const DEV_CLOSE: &'static str = "<br><b>Shared</b> Read · Write · Notify<br><b>Custom</b> Read</div></div>";

/// A device's entry in the list: its name, its signal in dBm, its signal
/// bar and its service with the demo's characteristics.
pub open spec fn device_html(d: BleDevice) -> Seq<char> {
    DEV_OPEN@ + d.name@ + DEV_AFTER_NAME@ + int_decimal(d.rssi as int) + DEV_AFTER_RSSI@
        + int_decimal(spec_signal_percent(d.rssi as int)) + DEV_AFTER_PCT@ + d.uuid@ + DEV_CLOSE@
}

/// The entries of the devices at `order`, one after the other.
pub open spec fn devices_html(devs: Seq<BleDevice>, order: Seq<usize>) -> Seq<char>
    decreases order.len(),
{
    if order.len() == 0 {
        Seq::empty()
    } else {
        devices_html(devs, order.drop_last()) + device_html(devs[order.last() as int])
    }
}

/// The order of the device list (the only one, see `lemma_list_order_unique`).
pub open spec fn spec_list_order(devs: Seq<BleDevice>) -> Seq<usize> {
    choose|order: Seq<usize>| is_list_order(devs, order)
}

/// The markup of the device list.
pub open spec fn spec_list_html(devs: Seq<BleDevice>, scanning: bool) -> Seq<char> {
    if !any_found(devs) {
        if scanning { LIST_SCANNING@ } else { LIST_IDLE@ }
    } else {
        devices_html(devs, spec_list_order(devs))
    }
}

/// A device's entry in the list.
pub fn ble_device_html(d: &BleDevice) -> (s: String)
    requires
        d.rssi <= i32::MAX - 90,
    ensures
        s@ == device_html(*d),
{
    let mut s = DEV_OPEN.to_owned();
    s.append(d.name.as_str());
    s.append(DEV_AFTER_NAME);
    push_decimal(&mut s, d.rssi);
    s.append(DEV_AFTER_RSSI);
    push_decimal(&mut s, signal_percent(d.rssi));
    s.append(DEV_AFTER_PCT);
    s.append(d.uuid.as_str());
    s.append(DEV_CLOSE);
    s
}

/// The markup of the device list: the entries of the discovered devices,
/// strongest signal first and equal signals in spawn order, or, when none
/// has been discovered, the scanning message or the prompt to press Scan.
pub fn ble_render_list(devices: &[BleDevice], scanning: bool) -> (s: String)
    requires
        forall|k: int|
            0 <= k < devices@.len() && #[trigger] devices@[k].found ==> devices@[k].rssi <= i32::MAX
                - 90,
    ensures
        s@ == spec_list_html(devices@, scanning),
{
    let order = ble_list_order(devices);
    proof {
        if any_found(devices@) {
            lemma_list_order_unique(devices@, order@, spec_list_order(devices@));
        }
    }
    if order.len() == 0 {
        assert(!any_found(devices@)) by {
            if any_found(devices@) {
                let k = choose|k: int| 0 <= k < devices@.len() && #[trigger] devices@[k].found;
                assert(order@.contains(k as usize));
            }
        }
        if scanning {
            LIST_SCANNING.to_owned()
        } else {
            LIST_IDLE.to_owned()
        }
    } else {
        assert(any_found(devices@)) by {
            assert(devices@[order@[0] as int].found);
        }
        let mut s = String::new();
        let mut k: usize = 0;
        while k < order.len()
            invariant
                k <= order@.len(),
                is_list_order(devices@, order@),
                forall|x: int|
                    0 <= x < devices@.len() && #[trigger] devices@[x].found ==> devices@[x].rssi
                        <= i32::MAX - 90,
                s@ == devices_html(devices@, order@.take(k as int)),
            decreases order@.len() - k,
        {
            let entry = ble_device_html(&devices[order[k]]);
            s.append(entry.as_str());
            assert(order@.take(k + 1).drop_last() =~= order@.take(k as int));
            k = k + 1;
        }
        assert(order@.take(order@.len() as int) =~= order@);
        s
    }
}

/// The Scan button's label: `"Stop"` while scanning, else `"Scan"`.
pub fn scan_label(scanning: bool) -> (label: &'static str)
    ensures
        scanning ==> label@ == "Stop"@,
        !scanning ==> label@ == "Scan"@,
{
    if scanning {
        "Stop"
    } else {
        "Scan"
    }
}

/// The Scan button's style classes, as (added, removed): it turns from the
/// primary `"pri"` to the quiet `"ghost"` style while scanning, and back.
pub fn scan_button_classes(scanning: bool) -> (c: (&'static str, &'static str))
    ensures
        scanning ==> c.0@ == "ghost"@ && c.1@ == "pri"@,
        !scanning ==> c.0@ == "pri"@ && c.1@ == "ghost"@,
{
    if scanning {
        ("ghost", "pri")
    } else {
        ("pri", "ghost")
    }
}


/// A device the radar can spawn: a new device starts undiscovered.
pub open spec fn spawned(candidate: BleDevice) -> BleDevice {
    BleDevice { found: false, ..candidate }
}

/// One animation frame's spawn, as values: while scanning, when a spawn is
/// due and fewer than `MAX_DEVICES` devices exist, the candidate joins the
/// list undiscovered.
pub open spec fn spec_try_spawn(devs: Seq<BleDevice>, scanning: bool, due: bool, candidate: BleDevice) -> Seq<BleDevice> {
    if scanning && due && devs.len() < MAX_DEVICES {
        devs.push(spawned(candidate))
    } else {
        devs
    }
}

/// One animation frame's sweep, as values: while scanning, every device the
/// sweep passes over (`sighted`) becomes discovered; discovered devices stay
/// discovered.
pub open spec fn spec_mark_found(devs: Seq<BleDevice>, scanning: bool, sighted: Seq<bool>) -> Seq<BleDevice> {
    if scanning {
        Seq::new(devs.len(), |k: int| BleDevice { found: devs[k].found || sighted[k], ..devs[k] })
    } else {
        devs
    }
}

/// The radar's spawn step: adds the candidate, undiscovered, when scanning,
/// a spawn is due and there is room. Returns whether it spawned.
pub fn ble_try_spawn(devices: &mut Vec<BleDevice>, scanning: bool, due: bool, candidate: BleDevice) -> (added: bool)
    ensures
        final(devices)@ == spec_try_spawn(old(devices)@, scanning, due, candidate),
        added == (scanning && due && old(devices)@.len() < MAX_DEVICES),
{
    if scanning && due && ble_has_room(devices.len()) {
        let d = BleDevice { found: false, ..candidate };
        devices.push(d);
        true
    } else {
        false
    }
}

/// The radar's sweep step: marks every device that the sweep passed over
/// (`sighted[k]` for device `k`) as discovered, while scanning. Returns the
/// positions of the devices it newly discovered, in list order.
pub fn ble_mark_found(devices: &mut Vec<BleDevice>, scanning: bool, sighted: &[bool]) -> (newly: Vec<usize>)
    requires
        sighted@.len() == old(devices)@.len(),
    ensures
        final(devices)@ == spec_mark_found(old(devices)@, scanning, sighted@),
        forall|p: int| 0 <= p < newly@.len() ==> #[trigger] newly@[p] < old(devices)@.len(),
        forall|k: int|
            0 <= k < old(devices)@.len() ==> (newly@.contains(k as usize) <==> (scanning && sighted@[k]
                && !old(devices)@[k].found)),
        forall|p: int, q: int| 0 <= p < q < newly@.len() ==> newly@[p] < newly@[q],
{
    let mut newly: Vec<usize> = Vec::new();
    if !scanning {
        return newly;
    }
    let ghost old_devs = devices@;
    let n = devices.len();
    let mut k: usize = 0;
    while k < n
        invariant
            n == old_devs.len(),
            sighted@.len() == n,
            devices@.len() == n,
            k <= n,
            forall|x: int|
                0 <= x < k ==> #[trigger] devices@[x] == (BleDevice {
                    found: old_devs[x].found || sighted@[x],
                    ..old_devs[x]
                }),
            forall|x: int| k <= x < n ==> #[trigger] devices@[x] == old_devs[x],
            forall|p: int| 0 <= p < newly@.len() ==> #[trigger] newly@[p] < k,
            forall|x: int|
                0 <= x < k ==> (#[trigger] newly@.contains(x as usize) <==> (sighted@[x]
                    && !old_devs[x].found)),
            forall|p: int, q: int| 0 <= p < q < newly@.len() ==> newly@[p] < newly@[q],
        decreases n - k,
    {
        let ghost before = newly@;
        if sighted[k] && !devices[k].found {
            devices[k].found = true;
            newly.push(k);
        }
        assert(newly@ == before || newly@ == before.push(k));
        assert forall|x: int| 0 <= x < k + 1 implies #[trigger] newly@.contains(x as usize) <==> (
            sighted@[x] && !old_devs[x].found) by {
            if x < k {
                assert(before.contains(x as usize) <==> (sighted@[x] && !old_devs[x].found));
                if before.contains(x as usize) {
                    let w = choose|w: int| 0 <= w < before.len() && before[w] == x as usize;
                    assert(newly@[w] == x as usize);
                }
                if newly@.contains(x as usize) {
                    let w = choose|w: int| 0 <= w < newly@.len() && newly@[w] == x as usize;
                    if w < before.len() {
                        assert(before[w] == x as usize);
                    } else {
                        assert(newly@[w] == k);
                    }
                }
            } else {
                if newly@.contains(x as usize) && newly@ == before {
                    let w = choose|w: int| 0 <= w < newly@.len() && newly@[w] == x as usize;
                    assert(before[w] < k);
                }
                if newly@ != before {
                    assert(newly@[before.len() as int] == k);
                }
            }
        }
        k = k + 1;
    }
    assert(devices@ =~= spec_mark_found(old_devs, scanning, sighted@));
    newly
}

/// The Clear button: removes every device.
pub fn ble_clear(devices: &mut Vec<BleDevice>)
    ensures
        final(devices)@ == Seq::<BleDevice>::empty(),
{
    devices.clear();
}

/// The scanner's state law: spawning never takes the list past
/// `MAX_DEVICES` devices, a sweep keeps the devices and never undiscovers
/// one, and clearing empties the list. So every list the scanner reaches
/// holds at most `MAX_DEVICES` devices, and a device once discovered stays
/// discovered until cleared.
pub proof fn lemma_scanner_state(
    devs: Seq<BleDevice>,
    scanning: bool,
    due: bool,
    candidate: BleDevice,
    sighted: Seq<bool>,
)
    requires
        devs.len() <= MAX_DEVICES,
        sighted.len() == devs.len(),
    ensures
        spec_try_spawn(devs, scanning, due, candidate).len() <= MAX_DEVICES,
        forall|k: int|
            0 <= k < devs.len() ==> #[trigger] spec_try_spawn(devs, scanning, due, candidate)[k] == devs[k],
        spec_mark_found(devs, scanning, sighted).len() == devs.len(),
        forall|k: int|
            0 <= k < devs.len() && devs[k].found ==> #[trigger] spec_mark_found(devs, scanning, sighted)[k].found,
        forall|k: int|
            0 <= k < devs.len() ==> #[trigger] spec_mark_found(devs, scanning, sighted)[k].rssi == devs[k].rssi,
{
}


/// The entries of the devices at `order`, each device's entry once, in order.
pub open spec fn entries(devs: Seq<BleDevice>, order: Seq<usize>) -> Seq<Seq<char>> {
    order.map_values(|x: usize| device_html(devs[x as int]))
}

proof fn lemma_devices_html_flat(devs: Seq<BleDevice>, order: Seq<usize>)
    ensures
        devices_html(devs, order) == entries(devs, order).flatten_alt(),
    decreases order.len(),
{
    if order.len() > 0 {
        lemma_devices_html_flat(devs, order.drop_last());
        assert(entries(devs, order).drop_last() =~= entries(devs, order.drop_last()));
    }
}

/// The device list's markup, once something is discovered, is one entry per
/// discovered device, each exactly once, one after the other in list order
/// (strongest signal first, equal signals in spawn order), whatever the
/// devices' names; the list has as many entries as discovered devices, and
/// nothing else.
pub proof fn lemma_list_markup_entries(devs: Seq<BleDevice>, order: Seq<usize>, scanning: bool)
    requires
        is_list_order(devs, order),
        any_found(devs),
    ensures
        spec_list_html(devs, scanning) == entries(devs, order).flatten(),
        entries(devs, order).len() == order.len(),
        order.no_duplicates(),
        forall|k: int| 0 <= k < devs.len() && #[trigger] devs[k].found ==> order.contains(k as usize),
        forall|p: int| 0 <= p < order.len() ==> #[trigger] devs[order[p] as int].found,
{
    lemma_list_order_unique(devs, order, spec_list_order(devs));
    lemma_devices_html_flat(devs, order);
    entries(devs, order).lemma_flatten_and_flatten_alt_are_equivalent();
    assert forall|p: int, q: int| 0 <= p < order.len() && 0 <= q < order.len() && p != q implies order[p]
        != order[q] by {
        if p < q {
            assert(listed_before(devs, order[p] as int, order[q] as int));
        } else {
            assert(listed_before(devs, order[q] as int, order[p] as int));
        }
    }
}

} // verus!
