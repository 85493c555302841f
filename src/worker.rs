use vstd::prelude::*;

use crate::device::{
    BoundDevice, Layout, MappedTarget, OutputField, layout_after, lemma_layout_after_idempotent,
    lemma_layout_after_shape, touched_upto,
};
use crate::state::LightingData;

verus! {

/// What the producer hands to the worker.
#[derive(Debug, Clone, Copy)]
pub enum Command {
    /// Show this snapshot.
    Update(LightingData),
    /// Stop; nothing after this is read.
    Shutdown,
}

/// "Send report `report` of device `device` to the hardware."
#[derive(Debug, Clone, Copy, PartialEq, Eq, Hash, Structural)]
pub struct WriteRequest {
    pub device: usize,
    pub report: usize,
}

/// What the update logic sees of one device: its mapping and its reports.
pub type DeviceModel = (Seq<MappedTarget>, Layout);

/// What the update logic sees of all devices.
pub type Devices = Seq<DeviceModel>;

pub open spec fn devices_after(devs: Devices, data: LightingData) -> Devices {
    Seq::new(devs.len(), |i: int| (devs[i].0, layout_after(devs[i].0, devs[i].1, data)))
}

/// The writes that device `i` asks for on an update.
pub open spec fn device_writes(devs: Devices, i: int) -> Seq<WriteRequest> {
    touched_upto(devs[i].0, devs[i].1, devs[i].1.len() as int).map_values(
        |j: usize| WriteRequest { device: i as usize, report: j },
    )
}

/// The writes that the first `n` devices ask for on an update, device by device.
pub open spec fn writes_upto(devs: Devices, n: int) -> Seq<WriteRequest>
    decreases n,
{
    if n <= 0 {
        Seq::empty()
    } else {
        writes_upto(devs, n - 1) + device_writes(devs, n - 1)
    }
}

pub open spec fn update_writes(devs: Devices) -> Seq<WriteRequest> {
    writes_upto(devs, devs.len() as int)
}

/// The worker's state: its devices, and whether it has stopped.
pub type WorkerState = (Devices, bool);

/// One command taken in: the next state and the writes that it asks for.
pub open spec fn step(s: WorkerState, cmd: Command) -> (WorkerState, Seq<WriteRequest>) {
    if s.1 {
        (s, Seq::empty())
    } else {
        match cmd {
            Command::Shutdown => ((s.0, true), Seq::empty()),
            Command::Update(data) => ((devices_after(s.0, data), false), update_writes(s.0)),
        }
    }
}

/// A queue of commands taken in order: the final state and every write asked
/// for, in order.
pub open spec fn run(s: WorkerState, cmds: Seq<Command>) -> (WorkerState, Seq<WriteRequest>)
    decreases cmds.len(),
{
    if cmds.len() == 0 {
        (s, Seq::empty())
    } else {
        let (s1, w1) = step(s, cmds[0]);
        let (s2, w2) = run(s1, cmds.drop_first());
        (s2, w1 + w2)
    }
}

/// The report that a write request sends, as the devices hold it.
pub open spec fn offered(devs: Devices, w: WriteRequest) -> (u32, Seq<OutputField>) {
    devs[w.device as int].1[w.report as int]
}

proof fn lemma_writes_upto_same(a: Devices, b: Devices, n: int)
    requires
        forall|i: int| 0 <= i < n ==> device_writes(a, i) == device_writes(b, i),
    ensures
        writes_upto(a, n) == writes_upto(b, n),
    decreases n,
{
    if n > 0 {
        lemma_writes_upto_same(a, b, n - 1);
    }
}

/// The same snapshot taken in twice gives the same devices and asks for the
/// same writes both times, so the reports sent are identical.
pub proof fn lemma_same_snapshot_twice(devs: Devices, data: LightingData)
    ensures
        ({
            let (s1, w1) = step((devs, false), Command::Update(data));
            let (s2, w2) = step(s1, Command::Update(data));
            &&& s2 == s1
            &&& w2 == w1
        }),
{
    let d1 = devices_after(devs, data);
    assert forall|i: int| 0 <= i < devs.len() implies #[trigger] devices_after(d1, data)[i] == d1[i] by {
        lemma_layout_after_idempotent(devs[i].0, devs[i].1, data);
    }
    assert(devices_after(d1, data) =~= d1);
    assert forall|i: int| 0 <= i < devs.len() implies #[trigger] device_writes(d1, i) == device_writes(devs, i) by {
        lemma_layout_after_idempotent(devs[i].0, devs[i].1, data);
        lemma_layout_after_shape(devs[i].0, devs[i].1, data);
    }
    lemma_writes_upto_same(d1, devs, devs.len() as int);
}

/// A write that fails changes nothing the worker holds: on the next tick with
/// the same snapshot, each report offered before is offered again, at the same
/// place in the writes and with the same content.
pub proof fn lemma_failed_write_resent(devs: Devices, data: LightingData, p: int)
    requires
        0 <= p < update_writes(devs).len(),
    ensures
        ({
            let (s1, w1) = step((devs, false), Command::Update(data));
            let (s2, w2) = step(s1, Command::Update(data));
            &&& p < w2.len()
            &&& w2[p] == w1[p]
            &&& offered(s2.0, w2[p]) == offered(s1.0, w1[p])
        }),
{
    lemma_same_snapshot_twice(devs, data);
}

/// Once stopped, the worker ignores every command: no writes, no change.
pub proof fn lemma_stopped_ignores(s: WorkerState, cmds: Seq<Command>)
    requires
        s.1,
    ensures
        run(s, cmds) == (s, Seq::<WriteRequest>::empty()),
    decreases cmds.len(),
{
    if cmds.len() > 0 {
        lemma_stopped_ignores(s, cmds.drop_first());
        assert(Seq::<WriteRequest>::empty() + Seq::<WriteRequest>::empty() =~= Seq::<WriteRequest>::empty());
    }
}

/// An update, a shutdown, then another update: only the first update's writes
/// are asked for, and nothing of the second snapshot reaches the devices.
pub proof fn lemma_shutdown_drops_later(devs: Devices, a: LightingData, b: LightingData)
    ensures
        run((devs, false), seq![Command::Update(a), Command::Shutdown, Command::Update(b)]) == (
            (devices_after(devs, a), true),
            update_writes(devs),
        ),
{
    let cmds = seq![Command::Update(a), Command::Shutdown, Command::Update(b)];
    let s1 = (devices_after(devs, a), false);
    let s2 = (devices_after(devs, a), true);
    assert(cmds.drop_first() =~= seq![Command::Shutdown, Command::Update(b)]);
    assert(cmds.drop_first().drop_first() =~= seq![Command::Update(b)]);
    lemma_stopped_ignores(s2, seq![Command::Update(b)]);
    assert(run(s1, cmds.drop_first()) == (s2, Seq::<WriteRequest>::empty() + Seq::<WriteRequest>::empty()));
    assert(update_writes(devs) + (Seq::<WriteRequest>::empty() + Seq::<WriteRequest>::empty()) =~= update_writes(devs));
}

/// The worker: it owns the bound devices and turns commands into writes.
#[derive(Debug)]
pub struct Worker {
    pub devices: Vec<BoundDevice>,
    pub terminated: bool,
}

impl Worker {
    pub open spec fn wf(&self) -> bool {
        forall|i: int| 0 <= i < self.devices@.len() ==> (#[trigger] self.devices@[i]).wf()
    }

    pub open spec fn model(&self) -> Devices {
        Seq::new(
            self.devices@.len(),
            |i: int| (self.devices@[i].targets@, self.devices@[i].layout()),
        )
    }

    pub open spec fn state(&self) -> WorkerState {
        (self.model(), self.terminated)
    }

    /// A worker, waiting for its first command.
    pub fn new(devices: Vec<BoundDevice>) -> (r: Worker)
        ensures
            r.devices@ == devices@,
            !r.terminated,
    {
        Worker { devices, terminated: false }
    }

    pub fn is_terminated(&self) -> (r: bool)
        ensures
            r == self.terminated,
    {
        self.terminated
    }

    /// Takes in one command. An update writes the snapshot into every bound
    /// device and returns the reports to send, device by device; a shutdown
    /// stops the worker, after which every command is ignored.
    pub fn handle(&mut self, cmd: &Command) -> (writes: Vec<WriteRequest>)
        requires
            old(self).wf(),
        ensures
            final(self).wf(),
            (final(self).state(), writes@) == step(old(self).state(), *cmd),
    {
        if self.terminated {
            return Vec::new();
        }
        match cmd {
            Command::Shutdown => {
                self.terminated = true;
                Vec::new()
            },
            Command::Update(data) => self.update_all(data),
        }
    }

    fn update_all(&mut self, data: &LightingData) -> (writes: Vec<WriteRequest>)
        requires
            old(self).wf(),
        ensures
            final(self).wf(),
            final(self).terminated == old(self).terminated,
            final(self).model() == devices_after(old(self).model(), *data),
            writes@ == update_writes(old(self).model()),
    {
        let ghost m0 = self.model();
        let n = self.devices.len();
        let mut writes: Vec<WriteRequest> = Vec::new();
        let mut i: usize = 0;
        while i < n
            invariant
                i <= n == self.devices@.len() == m0.len(),
                self.wf(),
                self.terminated == old(self).terminated,
                forall|k: int| 0 <= k < i ==> #[trigger] self.model()[k] == devices_after(m0, *data)[k],
                forall|k: int| i <= k < n ==> #[trigger] self.model()[k] == m0[k],
                writes@ == writes_upto(m0, i as int),
            decreases n - i,
        {
            let ghost d0 = self.devices@;
            assert(self.model()[i as int] == m0[i as int]);
            let mut dev = self.devices.remove(i);
            assert(d0[i as int].wf());
            let touched = dev.update(data);
            let ghost dv = dev;
            self.devices.insert(i, dev);
            proof {
                assert(self.devices@ =~= d0.update(i as int, dv));
                assert forall|k: int| 0 <= k < n implies (#[trigger] self.devices@[k]).wf() by {
                    if k != i {
                        assert(d0[k].wf());
                    }
                }
                assert forall|k: int| 0 <= k < n && k != i implies #[trigger] self.model()[k]
                    == Seq::new(
                    d0.len(),
                    |q: int| (d0[q].targets@, d0[q].layout()),
                )[k] by {}
                assert(self.model()[i as int] == devices_after(m0, *data)[i as int]);
                assert(touched@.take(touched@.len() as int) =~= touched@);
            }
            let mut k: usize = 0;
            while k < touched.len()
                invariant
                    k <= touched@.len(),
                    writes@ == writes_upto(m0, i as int) + touched@.take(k as int).map_values(
                        |j: usize| WriteRequest { device: i, report: j },
                    ),
                decreases touched@.len() - k,
            {
                writes.push(WriteRequest { device: i, report: touched[k] });
                k = k + 1;
                assert(writes@ =~= writes_upto(m0, i as int) + touched@.take(k as int).map_values(
                    |j: usize| WriteRequest { device: i, report: j },
                ));
            }
            assert(writes@ =~= writes_upto(m0, i as int + 1));
            i = i + 1;
        }
        assert(self.model() =~= devices_after(m0, *data));
        writes
    }
}

} // verus!
