//! Temperatures, from the thermal zones of the chip and from the monitoring
//! devices beside it.

use vstd::prelude::*;

use crate::file_cache::{integer_in, read_cached_i32};
use crate::number::integer_within;
use crate::order::{are_the_places, lemma_places_extend};
use crate::outside::optional_text;
use crate::text::{
    begins_with, chars_of, ends, finishes_with, replace, replaced, starts, string_of, trim, trimmed,
};

verus! {

/// A directory among the thermal zones: its name, and what its files with the
/// temperature and the type hold, as far as they could be read.
pub struct Zone {
    pub name: String,
    pub temp: Option<String>,
    pub kind: Option<String>,
}

/// A file of a monitoring device: its name, what it holds, and what the file
/// with its label holds, as far as they could be read.
pub struct Sensor {
    pub file: String,
    pub label: Option<String>,
    pub temp: Option<String>,
}

/// A monitoring device: what the file with its name holds, and its files.
pub struct Device {
    pub name: Option<String>,
    pub sensors: Vec<Sensor>,
}

/// The value of a [`Zone`].
pub struct ZoneView {
    pub name: Seq<char>,
    pub temp: Option<Seq<char>>,
    pub kind: Option<Seq<char>>,
}

/// The value of a [`Sensor`].
pub struct SensorView {
    pub file: Seq<char>,
    pub label: Option<Seq<char>>,
    pub temp: Option<Seq<char>>,
}

/// The value of a [`Device`].
pub struct DeviceView {
    pub name: Option<Seq<char>>,
    pub sensors: Seq<SensorView>,
}

impl View for Zone {
    type V = ZoneView;

    open spec fn view(&self) -> ZoneView {
        ZoneView {
            name: self.name@,
            temp: optional_text(self.temp),
            kind: optional_text(self.kind),
        }
    }
}

impl View for Sensor {
    type V = SensorView;

    open spec fn view(&self) -> SensorView {
        SensorView {
            file: self.file@,
            label: optional_text(self.label),
            temp: optional_text(self.temp),
        }
    }
}

impl View for Device {
    type V = DeviceView;

    open spec fn view(&self) -> DeviceView {
        DeviceView { name: optional_text(self.name), sensors: sensors_in(self.sensors@) }
    }
}

/// The values of several zones.
pub open spec fn zones_in(zones: Seq<Zone>) -> Seq<ZoneView> {
    zones.map_values(|z: Zone| z@)
}

/// The values of several sensors.
pub open spec fn sensors_in(sensors: Seq<Sensor>) -> Seq<SensorView> {
    sensors.map_values(|s: Sensor| s@)
}

/// The values of several devices.
pub open spec fn devices_in(devices: Seq<Device>) -> Seq<DeviceView> {
    devices.map_values(|d: Device| d@)
}

/// Whole degrees of a temperature in thousandths, the fraction cut off.
pub open spec fn degrees(thousandths: int) -> int {
    if thousandths >= 0 {
        thousandths / 1000
    } else {
        -((-thousandths) / 1000)
    }
}

/// The temperature in whole degrees that a file holds in thousandths.
pub open spec fn degrees_in(content: Option<Seq<char>>) -> Option<int> {
    match integer_in(content, i32::MIN as int, i32::MAX as int) {
        Some(t) => Some(degrees(t)),
        None => None,
    }
}

fn as_text(content: &Option<String>) -> (r: Option<&str>)
    ensures
        crate::file_cache::text_in(r) == optional_text(*content),
{
    match content {
        Some(s) => Some(s.as_str()),
        None => None,
    }
}

fn degrees_of(content: &Option<String>) -> (r: Option<i32>)
    ensures
        match r {
            Some(t) => degrees_in(optional_text(*content)) == Some(t as int),
            None => degrees_in(optional_text(*content)) is None,
        },
{
    match read_cached_i32(as_text(content)) {
        Some(t) => if t >= 0 {
            Some(t / 1000)
        } else {
            let t: i64 = -(t as i64);
            Some((-(t / 1000)) as i32)
        },
        None => None,
    }
}

/// The reading of a thermal zone: its type without the ending that all of them
/// have, and its temperature.
pub open spec fn zone_reading(z: ZoneView) -> Option<(Seq<char>, int)> {
    if starts(z.name, "thermal_zone"@) {
        match (degrees_in(z.temp), z.kind) {
            (Some(t), Some(kind)) => Some((replaced(trim(kind), "_thermal"@, Seq::empty()), t)),
            _ => None,
        }
    } else {
        None
    }
}

/// The readings of thermal zones, in order.
pub open spec fn zone_readings(zones: Seq<ZoneView>) -> Seq<(Seq<char>, int)>
    decreases zones.len(),
{
    if zones.len() == 0 {
        Seq::empty()
    } else {
        let before = zone_readings(zones.drop_last());
        match zone_reading(zones.last()) {
            Some(r) => before.push(r),
            None => before,
        }
    }
}

/// Whether a file of a monitoring device holds a temperature, by its name.
pub open spec fn is_input(file: Seq<char>) -> bool {
    starts(file, "temp"@) && ends(file, "_input"@)
}

/// The name of the file with the label of a temperature, where the file holds
/// one.
pub fn label_file(file: &str) -> (r: Option<String>)
    ensures
        optional_text(r) == if is_input(file@) {
            Some(replaced(file@, "_input"@, "_label"@))
        } else {
            None
        },
{
    let cs = chars_of(file);
    if begins_with(cs.as_slice(), "temp") && finishes_with(cs.as_slice(), "_input") {
        proof {
            reveal_strlit("_input");
        }
        Some(string_of(replace(cs.as_slice(), "_input", "_label").as_slice()))
    } else {
        None
    }
}

/// The reading of a sensor: its label, or the name of its device where it has
/// none, and its temperature.
pub open spec fn sensor_reading(device: Seq<char>, s: SensorView) -> Option<(Seq<char>, int)> {
    if is_input(s.file) {
        match degrees_in(s.temp) {
            Some(t) => Some(
                (
                    match s.label {
                        Some(l) => trim(l),
                        None => device,
                    },
                    t,
                ),
            ),
            None => None,
        }
    } else {
        None
    }
}

/// The readings of the sensors of a device, in order.
pub open spec fn sensor_readings(device: Seq<char>, sensors: Seq<SensorView>) -> Seq<
    (Seq<char>, int),
>
    decreases sensors.len(),
{
    if sensors.len() == 0 {
        Seq::empty()
    } else {
        let before = sensor_readings(device, sensors.drop_last());
        match sensor_reading(device, sensors.last()) {
            Some(r) => before.push(r),
            None => before,
        }
    }
}

/// The readings of a monitoring device. One that shows a thermal zone again,
/// which its name tells, has none.
pub open spec fn device_readings(d: DeviceView) -> Seq<(Seq<char>, int)> {
    match d.name {
        Some(n) => if ends(trim(n), "_thermal"@) {
            Seq::empty()
        } else {
            sensor_readings(trim(n), d.sensors)
        },
        None => Seq::empty(),
    }
}

/// The readings of monitoring devices, in order.
pub open spec fn all_device_readings(devices: Seq<DeviceView>) -> Seq<(Seq<char>, int)>
    decreases devices.len(),
{
    if devices.len() == 0 {
        Seq::empty()
    } else {
        all_device_readings(devices.drop_last()) + device_readings(devices.last())
    }
}

/// The labels and temperatures of a list of readings.
pub open spec fn readings_in(temps: Seq<(String, i32)>) -> Seq<(Seq<char>, int)> {
    temps.map_values(|t: (String, i32)| (t.0@, t.1 as int))
}

fn add_reading(temps: &mut Vec<(String, i32)>, label: &[char], t: i32)
    ensures
        readings_in(final(temps)@) == readings_in(old(temps)@).push((label@, t as int)),
{
    let ghost before = temps@;
    temps.push((string_of(label), t));
    assert(readings_in(temps@) =~= readings_in(before).push((label@, t as int)));
}

fn add_zones(temps: &mut Vec<(String, i32)>, zones: &Vec<Zone>)
    ensures
        readings_in(final(temps)@) == readings_in(old(temps)@) + zone_readings(zones_in(zones@)),
{
    let ghost before = readings_in(temps@);
    let ghost all = zones_in(zones@);
    let mut i: usize = 0;
    assert(before + zone_readings(all.take(0)) =~= before);
    while i < zones.len()
        invariant
            i <= zones@.len(),
            all == zones_in(zones@),
            readings_in(temps@) == before + zone_readings(all.take(i as int)),
        decreases zones.len() - i,
    {
        let z = &zones[i];
        let ghost so_far = zone_readings(all.take(i as int));
        assert(all.take(i + 1).drop_last() == all.take(i as int));
        assert(all.take(i + 1).last() == z@);
        let name = chars_of(z.name.as_str());
        if begins_with(name.as_slice(), "thermal_zone") {
            match (degrees_of(&z.temp), &z.kind) {
                (Some(t), Some(kind)) => {
                    proof {
                        reveal_strlit("_thermal");
                        reveal_strlit("");
                        assert(""@ =~= Seq::<char>::empty());
                    }
                    let kind = chars_of(kind.as_str());
                    let kind = trimmed(kind.as_slice());
                    let label = replace(kind.as_slice(), "_thermal", "");
                    add_reading(temps, label.as_slice(), t);
                    assert(before + so_far.push((label@, t as int)) =~= (before + so_far).push(
                        (label@, t as int),
                    ));
                },
                _ => {},
            }
        }
        i += 1;
    }
    assert(all.take(i as int) == all);
}

fn add_sensors(temps: &mut Vec<(String, i32)>, device: &[char], sensors: &Vec<Sensor>)
    ensures
        readings_in(final(temps)@) == readings_in(old(temps)@) + sensor_readings(
            device@,
            sensors_in(sensors@),
        ),
{
    let ghost before = readings_in(temps@);
    let ghost all = sensors_in(sensors@);
    let mut i: usize = 0;
    assert(before + sensor_readings(device@, all.take(0)) =~= before);
    while i < sensors.len()
        invariant
            i <= sensors@.len(),
            all == sensors_in(sensors@),
            readings_in(temps@) == before + sensor_readings(device@, all.take(i as int)),
        decreases sensors.len() - i,
    {
        let s = &sensors[i];
        let ghost so_far = sensor_readings(device@, all.take(i as int));
        assert(all.take(i + 1).drop_last() == all.take(i as int));
        assert(all.take(i + 1).last() == s@);
        let file = chars_of(s.file.as_str());
        if begins_with(file.as_slice(), "temp") && finishes_with(file.as_slice(), "_input") {
            match degrees_of(&s.temp) {
                Some(t) => {
                    let label = match &s.label {
                        Some(l) => trimmed(chars_of(l.as_str()).as_slice()),
                        None => {
                            let l = crate::text::copy_range(device, 0, device.len());
                            assert(l@ =~= device@);
                            l
                        },
                    };
                    add_reading(temps, label.as_slice(), t);
                    assert(before + so_far.push((label@, t as int)) =~= (before + so_far).push(
                        (label@, t as int),
                    ));
                },
                None => {},
            }
        }
        i += 1;
    }
    assert(all.take(i as int) == all);
}

/// The readings of the thermal zones, then those of the monitoring devices.
pub open spec fn all_readings(zones: Seq<ZoneView>, devices: Seq<DeviceView>) -> Seq<
    (Seq<char>, int),
> {
    zone_readings(zones) + all_device_readings(devices)
}

/// The temperatures with their labels: those of the thermal zones, then those
/// of the monitoring devices.
pub fn get_thermal(zones: &Vec<Zone>, devices: &Vec<Device>) -> (temps: Vec<(String, i32)>)
    ensures
        readings_in(temps@) == zone_readings(zones_in(zones@)) + all_device_readings(
            devices_in(devices@),
        ),
        readings_in(temps@) == all_readings(zones_in(zones@), devices_in(devices@)),
{
    let mut temps: Vec<(String, i32)> = Vec::new();
    assert(readings_in(temps@) =~= Seq::empty());
    add_zones(&mut temps, zones);
    let ghost before = zone_readings(zones_in(zones@));
    assert(readings_in(temps@) =~= before);
    let ghost all = devices_in(devices@);
    let mut i: usize = 0;
    assert(before + all_device_readings(all.take(0)) =~= before);
    while i < devices.len()
        invariant
            i <= devices@.len(),
            all == devices_in(devices@),
            readings_in(temps@) == before + all_device_readings(all.take(i as int)),
        decreases devices.len() - i,
    {
        let d = &devices[i];
        let ghost so_far = all_device_readings(all.take(i as int));
        assert(all.take(i + 1).drop_last() == all.take(i as int));
        assert(all.take(i + 1).last() == d@);
        match &d.name {
            Some(n) => {
                let name = trimmed(chars_of(n.as_str()).as_slice());
                if !finishes_with(name.as_slice(), "_thermal") {
                    add_sensors(&mut temps, name.as_slice(), &d.sensors);
                }
            },
            None => {},
        }
        assert(readings_in(temps@) =~= before + (so_far + device_readings(d@)));
        i += 1;
    }
    assert(all.take(i as int) == all);
    temps
}

/// A monitoring device that shows a thermal zone again adds nothing, wherever
/// it stands.
pub proof fn duplicates_add_nothing(before: Seq<DeviceView>, d: DeviceView, after: Seq<DeviceView>)
    requires
        d.name matches Some(n) && ends(trim(n), "_thermal"@),
    ensures
        all_device_readings(before.push(d) + after) == all_device_readings(before + after),
    decreases after.len(),
{
    if after.len() == 0 {
        assert(before.push(d) + after =~= before.push(d));
        assert(before + after =~= before);
        assert(before.push(d).drop_last() =~= before);
        assert(all_device_readings(before) + Seq::empty() =~= all_device_readings(before));
    } else {
        duplicates_add_nothing(before, d, after.drop_last());
        assert((before.push(d) + after).drop_last() =~= before.push(d) + after.drop_last());
        assert((before + after).drop_last() =~= before + after.drop_last());
    }
}

/// Whole degrees are nearer to zero than the temperature, by less than one.
pub proof fn degrees_are_cut_towards_zero(thousandths: int)
    ensures
        thousandths >= 0 ==> 0 <= thousandths - 1000 * degrees(thousandths) < 1000,
        thousandths <= 0 ==> -1000 < thousandths - 1000 * degrees(thousandths) <= 0,
{
}

/// Whether a file holds a temperature: an integer of 32 bits, white space around
/// it aside.
pub open spec fn holds_temperature(content: Option<Seq<char>>) -> bool {
    content matches Some(s) && integer_within(trim(s), i32::MIN as int, i32::MAX as int) is Some
}

/// The whole degrees in a file that holds thousandths of degrees.
pub open spec fn whole_degrees(content: Option<Seq<char>>, t: int) -> bool {
    content matches Some(s) && (integer_within(trim(s), i32::MIN as int, i32::MAX as int) matches
        Some(v) && if v >= 0 {
        1000 * t <= v < 1000 * (t + 1)
    } else {
        1000 * (t - 1) < v <= 1000 * t
    })
}

/// The thermal zones that have a reading.
pub open spec fn readable_zones(zones: Seq<ZoneView>) -> spec_fn(int) -> bool {
    |i: int|
        starts(zones[i].name, "thermal_zone"@) && holds_temperature(zones[i].temp)
            && zones[i].kind is Some
}

proof fn lemma_zones(zones: Seq<ZoneView>, n: int) -> (at: Seq<int>)
    requires
        0 <= n <= zones.len(),
    ensures
        are_the_places(at, n, readable_zones(zones)),
        zone_readings(zones.take(n)).len() == at.len(),
        forall|k: int|
            0 <= k < at.len() ==> {
                let z = zones[#[trigger] at[k]];
                let r = zone_readings(zones.take(n))[k];
                r.0 == replaced(trim(z.kind->0), "_thermal"@, Seq::empty()) && whole_degrees(
                    z.temp,
                    r.1,
                )
            },
    decreases n,
{
    if n == 0 {
        Seq::empty()
    } else {
        let at = lemma_zones(zones, n - 1);
        assert(zones.take(n).drop_last() =~= zones.take(n - 1));
        assert(zones.take(n).last() == zones[n - 1]);
        lemma_places_extend(at, n - 1, readable_zones(zones));
        if readable_zones(zones)(n - 1) {
            at.push(n - 1)
        } else {
            at
        }
    }
}

/// Each thermal zone whose files can be read has one reading, in order, and
/// nothing else has: its type without the ending, and its whole degrees.
pub proof fn every_zone_has_its_reading(zones: Seq<ZoneView>) -> (at: Seq<int>)
    ensures
        are_the_places(at, zones.len() as int, readable_zones(zones)),
        zone_readings(zones).len() == at.len(),
        forall|k: int|
            0 <= k < at.len() ==> {
                let z = zones[#[trigger] at[k]];
                let r = zone_readings(zones)[k];
                r.0 == replaced(trim(z.kind->0), "_thermal"@, Seq::empty()) && whole_degrees(
                    z.temp,
                    r.1,
                )
            },
{
    assert(zones.take(zones.len() as int) =~= zones);
    lemma_zones(zones, zones.len() as int)
}

/// The files of a device that have a reading.
pub open spec fn readable_sensors(sensors: Seq<SensorView>) -> spec_fn(int) -> bool {
    |i: int|
        starts(sensors[i].file, "temp"@) && ends(sensors[i].file, "_input"@) && holds_temperature(
            sensors[i].temp,
        )
}

proof fn lemma_sensors(device: Seq<char>, sensors: Seq<SensorView>, n: int) -> (at: Seq<int>)
    requires
        0 <= n <= sensors.len(),
    ensures
        are_the_places(at, n, readable_sensors(sensors)),
        sensor_readings(device, sensors.take(n)).len() == at.len(),
        forall|k: int|
            0 <= k < at.len() ==> {
                let s = sensors[#[trigger] at[k]];
                let r = sensor_readings(device, sensors.take(n))[k];
                r.0 == (match s.label {
                    Some(l) => trim(l),
                    None => device,
                }) && whole_degrees(s.temp, r.1)
            },
    decreases n,
{
    if n == 0 {
        Seq::empty()
    } else {
        let at = lemma_sensors(device, sensors, n - 1);
        assert(sensors.take(n).drop_last() =~= sensors.take(n - 1));
        assert(sensors.take(n).last() == sensors[n - 1]);
        lemma_places_extend(at, n - 1, readable_sensors(sensors));
        if readable_sensors(sensors)(n - 1) {
            at.push(n - 1)
        } else {
            at
        }
    }
}

/// Each temperature file of a device that can be read has one reading, in order,
/// and no other file has: its label, or the name of the device where it has none,
/// and its whole degrees. A device without name has no readings, nor has one whose
/// name ends as those of the thermal zones do.
pub proof fn every_sensor_has_its_reading(d: DeviceView, name: Seq<char>) -> (at: Seq<int>)
    requires
        d.name == Some(name),
        !ends(trim(name), "_thermal"@),
    ensures
        are_the_places(at, d.sensors.len() as int, readable_sensors(d.sensors)),
        device_readings(d).len() == at.len(),
        forall|k: int|
            0 <= k < at.len() ==> {
                let s = d.sensors[#[trigger] at[k]];
                let r = device_readings(d)[k];
                r.0 == (match s.label {
                    Some(l) => trim(l),
                    None => trim(name),
                }) && whole_degrees(s.temp, r.1)
            },
        device_readings(DeviceView { name: None, ..d }).len() == 0,
{
    assert(d.sensors.take(d.sensors.len() as int) =~= d.sensors);
    lemma_sensors(trim(name), d.sensors, d.sensors.len() as int)
}

/// The readings of devices follow each other, all of them.
pub proof fn readings_of_devices_follow_each_other(devices: Seq<DeviceView>, d: DeviceView)
    ensures
        all_device_readings(Seq::empty()) == Seq::<(Seq<char>, int)>::empty(),
        all_device_readings(devices.push(d)) == all_device_readings(devices) + device_readings(d),
{
    assert(devices.push(d).drop_last() =~= devices);
}

/// The readings of the zones stand before those of the devices, and none is left out:
/// a reading stands where it stands among those of the zones, or as far behind all of
/// these as it stands among those of the devices.
pub proof fn zones_stand_before_devices(
    zones: Seq<ZoneView>,
    devices: Seq<DeviceView>,
    d: DeviceView,
    i: int,
)
    ensures
        all_readings(zones, Seq::empty()) == zone_readings(zones),
        all_readings(zones, devices.push(d)) == all_readings(zones, devices) + device_readings(d),
        0 <= i < zone_readings(zones).len() ==> all_readings(zones, devices)[i] == zone_readings(
            zones,
        )[i],
{
    readings_of_devices_follow_each_other(devices, d);
    assert(all_readings(zones, Seq::empty()) =~= zone_readings(zones));
    assert(all_readings(zones, devices.push(d)) =~= all_readings(zones, devices) + device_readings(
        d,
    ));
}

} // verus!
