use usc_lights::device::{BoundDevice, MappedTarget, OutputField, Report, find_field, find_report, sort_fields};
use usc_lights::mapping::LightingMap;
use usc_lights::state::{LightingData, LightsError, Rgb};
use usc_lights::target::{BtLane, Channel, LightingTarget, Side};
use usc_lights::worker::{Command, WriteRequest, Worker};

fn field(start_bit: u32, value: u8) -> OutputField {
    OutputField { start_bit, value }
}

fn report(id: u32, bits: &[u32]) -> Report {
    Report { id, outputs: bits.iter().map(|b| field(*b, 0)).collect() }
}

fn mapped(report_id: u32, start_bit: u32, target: LightingTarget) -> MappedTarget {
    MappedTarget { report_id, start_bit, target }
}

fn values(r: &Report) -> Vec<(u32, u8)> {
    r.outputs.iter().map(|f| (f.start_bit, f.value)).collect()
}

#[test]
fn enumerate_all_has_25_distinct_targets() {
    let all = LightingTarget::iter();
    assert_eq!(all.len(), 25);
    for i in 0..all.len() {
        for j in 0..all.len() {
            if i != j {
                assert_ne!(all[i], all[j]);
            }
        }
    }
    assert_eq!(all[0], LightingTarget::Start);
    assert_eq!(all[1], LightingTarget::Bt(BtLane::A));
    assert_eq!(all[5], LightingTarget::Fx(Side::Left));
    assert_eq!(all[7], LightingTarget::Top(Side::Left, Channel::R));
    assert_eq!(all[10], LightingTarget::Top(Side::Right, Channel::R));
    assert_eq!(all[24], LightingTarget::Bottom(Side::Right, Channel::B));
}

#[test]
fn enumerate_all_is_restartable() {
    assert_eq!(LightingTarget::iter(), LightingTarget::iter());
}

#[test]
fn target_names() {
    assert_eq!(LightingTarget::Start.name(), "Start");
    assert_eq!(LightingTarget::Bt(BtLane::C).name(), "BT C");
    assert_eq!(LightingTarget::Fx(Side::Right).name(), "FX Right");
    assert_eq!(LightingTarget::Top(Side::Left, Channel::R).name(), "Top Left Red");
    assert_eq!(LightingTarget::Middle(Side::Right, Channel::G).name(), "Middle Right Green");
    assert_eq!(LightingTarget::Bottom(Side::Left, Channel::B).name(), "Bottom Left Blue");
}

#[test]
fn target_names_are_unique() {
    let names: Vec<String> = LightingTarget::iter().iter().map(|t| t.name()).collect();
    for i in 0..names.len() {
        for j in (i + 1)..names.len() {
            assert_ne!(names[i], names[j]);
        }
    }
}

#[test]
fn channel_get_selects_component() {
    let c = Rgb { r: 1u8, g: 2u8, b: 3u8 };
    assert_eq!(Channel::R.get(c), 1);
    assert_eq!(Channel::G.get(c), 2);
    assert_eq!(Channel::B.get(c), 3);
}

#[test]
fn find_field_exact_match_only() {
    let outs = vec![field(0, 0), field(8, 0), field(16, 0), field(24, 0), field(40, 0)];
    assert_eq!(find_field(&outs, 0), Some(0));
    assert_eq!(find_field(&outs, 16), Some(2));
    assert_eq!(find_field(&outs, 40), Some(4));
    assert_eq!(find_field(&outs, 9), None);
    assert_eq!(find_field(&outs, 39), None);
    assert_eq!(find_field(&outs, 41), None);
    assert_eq!(find_field(&Vec::new(), 0), None);
}

#[test]
fn find_field_returns_first_of_equal_bits() {
    let outs = vec![field(0, 0), field(8, 1), field(8, 2), field(8, 3)];
    assert_eq!(find_field(&outs, 8), Some(1));
}

#[test]
fn find_report_takes_last_with_id() {
    let reps = vec![report(1, &[0]), report(2, &[0]), report(1, &[8])];
    assert_eq!(find_report(&reps, 1), Some(2));
    assert_eq!(find_report(&reps, 2), Some(1));
    assert_eq!(find_report(&reps, 3), None);
}

#[test]
fn sort_fields_orders_by_start_bit() {
    let sorted = sort_fields(vec![field(16, 1), field(0, 2), field(8, 3), field(0, 4)]);
    assert_eq!(sorted, vec![field(0, 2), field(0, 4), field(8, 3), field(16, 1)]);
}

#[test]
fn set_buttons_from_bitfield() {
    let mut d = LightingData::new();
    d.set_buttons(0b1010001);
    assert_eq!(d.buttons, [true, false, false, false, true, false, true]);
    d.set_buttons(0xFFFF_FF80);
    assert_eq!(d.buttons, [false; 7]);
}

#[test]
fn set_lights_positions() {
    let mut d = LightingData::new();
    assert_eq!(d.set_lights(1, 0, 1, 2, 3), Ok(()));
    assert_eq!(d.set_lights(0, 1, 4, 5, 6), Ok(()));
    assert_eq!(d.set_lights(7, 2, 7, 8, 9), Ok(()));
    assert_eq!(d.bottom[0], Rgb { r: 1, g: 2, b: 3 });
    assert_eq!(d.middle[1], Rgb { r: 4, g: 5, b: 6 });
    assert_eq!(d.top[1], Rgb { r: 7, g: 8, b: 9 });
    assert_eq!(d.top[0], Rgb { r: 0, g: 0, b: 0 });
}

#[test]
fn set_lights_rejects_bad_position() {
    let mut d = LightingData::new();
    assert_eq!(d.set_lights(1, 3, 1, 2, 3), Err(LightsError::InvalidPosition(3)));
    assert_eq!(d, LightingData::new());
}

#[test]
fn resolve_targets() {
    let mut d = LightingData::new();
    d.set_buttons(0b1000010);
    d.set_lights(0, 1, 10, 20, 30).unwrap();
    assert_eq!(d.get(LightingTarget::Start), 255);
    assert_eq!(d.get(LightingTarget::Bt(BtLane::B)), 255);
    assert_eq!(d.get(LightingTarget::Bt(BtLane::A)), 0);
    assert_eq!(d.get(LightingTarget::Fx(Side::Left)), 0);
    assert_eq!(d.get(LightingTarget::Middle(Side::Right, Channel::G)), 20);
    assert_eq!(d.get(LightingTarget::Middle(Side::Left, Channel::G)), 0);
}

#[test]
fn bind_sorts_fields() {
    let dev = BoundDevice::bind(vec![], vec![Report { id: 4, outputs: vec![field(8, 0), field(0, 1)] }]);
    assert_eq!(dev.reports[0].id, 4);
    assert_eq!(values(&dev.reports[0]), vec![(0, 1), (8, 0)]);
}

#[test]
fn end_to_end_one_field() {
    let mut map = LightingMap::new();
    map.insert("dev1".to_string(), vec![mapped(1, 0, LightingTarget::Top(Side::Left, Channel::R))]);
    let conf = map.remove(&"dev1".to_string()).unwrap();
    let reps = vec![Report { id: 1, outputs: vec![field(0, 0), field(8, 7), field(16, 9)] }];
    let mut worker = Worker::new(vec![BoundDevice::bind(conf, reps)]);
    let mut d = LightingData::new();
    d.set_lights(1, 2, 128, 0, 0).unwrap();
    let writes = worker.handle(&Command::Update(d));
    assert_eq!(writes, vec![WriteRequest { device: 0, report: 0 }]);
    assert_eq!(values(&worker.devices[0].reports[0]), vec![(0, 128), (8, 7), (16, 9)]);
}

#[test]
fn unknown_report_or_bit_is_skipped() {
    let conf = vec![mapped(2, 0, LightingTarget::Start), mapped(1, 4, LightingTarget::Start)];
    let mut worker = Worker::new(vec![BoundDevice::bind(conf, vec![report(1, &[0, 8])])]);
    let mut d = LightingData::new();
    d.set_buttons(0x7F);
    assert_eq!(worker.handle(&Command::Update(d)), vec![]);
    assert_eq!(values(&worker.devices[0].reports[0]), vec![(0, 0), (8, 0)]);
}

#[test]
fn later_mapping_entry_wins() {
    let conf = vec![mapped(1, 0, LightingTarget::Start), mapped(1, 0, LightingTarget::Bt(BtLane::A))];
    let mut worker = Worker::new(vec![BoundDevice::bind(conf, vec![report(1, &[0])])]);
    let mut d = LightingData::new();
    d.set_buttons(0b0000001);
    worker.handle(&Command::Update(d));
    assert_eq!(values(&worker.devices[0].reports[0]), vec![(0, 255)]);
}

fn two_device_worker() -> Worker {
    let a = BoundDevice::bind(
        vec![mapped(1, 0, LightingTarget::Start), mapped(3, 8, LightingTarget::Fx(Side::Right))],
        vec![report(1, &[0, 8]), report(2, &[0]), report(3, &[0, 8])],
    );
    let b = BoundDevice::bind(
        vec![mapped(5, 16, LightingTarget::Bottom(Side::Right, Channel::B))],
        vec![report(5, &[16, 0])],
    );
    Worker::new(vec![a, b])
}

fn snapshot(buttons: u32, blue: u8) -> LightingData {
    let mut d = LightingData::new();
    d.set_buttons(buttons);
    d.set_lights(0, 0, 0, 0, blue).unwrap();
    d
}

fn contents(w: &Worker, writes: &[WriteRequest]) -> Vec<(u32, Vec<(u32, u8)>)> {
    writes
        .iter()
        .map(|r| {
            let rep = &w.devices[r.device].reports[r.report];
            (rep.id, values(rep))
        })
        .collect()
}

#[test]
fn same_snapshot_twice_writes_identical_reports() {
    let mut w = two_device_worker();
    let d = snapshot(0b1100000, 200);
    let first = w.handle(&Command::Update(d));
    let first_contents = contents(&w, &first);
    let second = w.handle(&Command::Update(d));
    assert_eq!(first, second);
    assert_eq!(first_contents, contents(&w, &second));
    assert_eq!(
        first,
        vec![
            WriteRequest { device: 0, report: 0 },
            WriteRequest { device: 0, report: 2 },
            WriteRequest { device: 1, report: 0 },
        ]
    );
    assert_eq!(first_contents[1], (3, vec![(0, 0), (8, 255)]));
    assert_eq!(first_contents[2], (5, vec![(0, 0), (16, 200)]));
}

#[test]
fn failed_write_is_offered_again() {
    let mut w = two_device_worker();
    let d = snapshot(0b1000000, 17);
    let tick_t = w.handle(&Command::Update(d));
    let offered_t = contents(&w, &tick_t);
    // The write of tick T is dropped: nothing is reported back to the worker.
    let tick_next = w.handle(&Command::Update(d));
    assert_eq!(tick_t, tick_next);
    assert_eq!(offered_t, contents(&w, &tick_next));
}

#[test]
fn shutdown_stops_later_updates() {
    let mut w = two_device_worker();
    let a = snapshot(0b1000000, 10);
    let b = snapshot(0, 99);
    let mut all = Vec::new();
    for cmd in [Command::Update(a), Command::Shutdown, Command::Update(b)] {
        all.extend(w.handle(&cmd));
    }
    assert!(w.is_terminated());
    assert_eq!(all.len(), 3);
    assert_eq!(values(&w.devices[0].reports[0]), vec![(0, 255), (8, 0)]);
    assert_eq!(values(&w.devices[1].reports[0]), vec![(0, 0), (16, 10)]);
}

#[test]
fn lighting_map_insert_and_remove() {
    let mut m = LightingMap::new();
    m.insert("a".to_string(), vec![mapped(1, 0, LightingTarget::Start)]);
    m.insert("b".to_string(), vec![]);
    m.insert("a".to_string(), vec![mapped(2, 0, LightingTarget::Start)]);
    assert_eq!(m.len(), 2);
    assert_eq!(m.devices[0].path, "a");
    assert_eq!(m.remove(&"a".to_string()), Some(vec![mapped(2, 0, LightingTarget::Start)]));
    assert_eq!(m.remove(&"a".to_string()), None);
    assert_eq!(m.len(), 1);
}
