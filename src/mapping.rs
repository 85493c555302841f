use vstd::prelude::*;

use crate::device::MappedTarget;

verus! {

/// The mapping of one device, named by the path that the transport reports
/// for it.
#[derive(Debug)]
pub struct DeviceMapping {
    pub path: String,
    pub targets: Vec<MappedTarget>,
}

/// The mappings of all configured devices; no path occurs twice.
#[derive(Debug)]
pub struct LightingMap {
    pub devices: Vec<DeviceMapping>,
}

impl LightingMap {
    /// Paths are unique.
    pub open spec fn wf(&self) -> bool {
        forall|i: int, j: int|
            0 <= i < j < self.devices@.len() ==> (#[trigger] self.devices@[i]).path@
                != (#[trigger] self.devices@[j]).path@
    }

    /// The paths and mappings, in order.
    pub open spec fn entries(&self) -> Seq<(Seq<char>, Seq<MappedTarget>)> {
        Seq::new(
            self.devices@.len(),
            |i: int| (self.devices@[i].path@, self.devices@[i].targets@),
        )
    }

    /// The position of `path`, if it is configured.
    pub open spec fn index_of(&self, path: Seq<char>) -> Option<int> {
        if exists|i: int| 0 <= i < self.devices@.len() && self.devices@[i].path@ == path {
            Some(choose|i: int| 0 <= i < self.devices@.len() && self.devices@[i].path@ == path)
        } else {
            None
        }
    }

    /// No device configured.
    pub fn new() -> (r: LightingMap)
        ensures
            r.wf(),
            r.entries().len() == 0,
    {
        LightingMap { devices: Vec::new() }
    }

    pub fn len(&self) -> (r: usize)
        ensures
            r == self.entries().len(),
    {
        self.devices.len()
    }

    fn position(&self, path: &String) -> (r: Option<usize>)
        ensures
            match r {
                Some(i) => i < self.devices@.len() && self.devices@[i as int].path@ == path@,
                None => forall|i: int|
                    0 <= i < self.devices@.len() ==> self.devices@[i].path@ != path@,
            },
    {
        let mut i: usize = 0;
        while i < self.devices.len()
            invariant
                i <= self.devices@.len(),
                forall|k: int| 0 <= k < i ==> self.devices@[k].path@ != path@,
            decreases self.devices@.len() - i,
        {
            if self.devices[i].path == *path {
                return Some(i);
            }
            i = i + 1;
        }
        None
    }

    /// Sets the mapping of `path`: an existing entry is replaced where it
    /// stands, a new one goes last.
    pub fn insert(&mut self, path: String, targets: Vec<MappedTarget>)
        requires
            old(self).wf(),
        ensures
            final(self).wf(),
            ({
                let e = old(self).entries();
                let n = (path@, targets@);
                match old(self).index_of(path@) {
                    Some(i) => final(self).entries() == e.update(i, n),
                    None => final(self).entries() == e.push(n),
                }
            }),
    {
        let ghost e = self.entries();
        let ghost d0 = self.devices@;
        let ghost p = path@;
        let ghost t = targets@;
        match self.position(&path) {
            Some(i) => {
                proof {
                    assert forall|k: int| 0 <= k < d0.len() && d0[k].path@ == p implies k == i by {
                        if k < i {
                            assert(d0[k].path@ != d0[i as int].path@);
                        } else if k > i {
                            assert(d0[i as int].path@ != d0[k].path@);
                        }
                    }
                }
                self.devices.remove(i);
                self.devices.insert(i, DeviceMapping { path, targets });
                proof {
                    assert(self.devices@ =~= d0.update(
                        i as int,
                        self.devices@[i as int],
                    ));
                    assert(self.entries() =~= e.update(i as int, (p, t)));
                    assert forall|a: int, b: int|
                        0 <= a < b < self.devices@.len() implies (#[trigger] self.devices@[a]).path@
                        != (#[trigger] self.devices@[b]).path@ by {
                        assert(d0[a].path@ != d0[b].path@);
                    }
                }
            },
            None => {
                self.devices.push(DeviceMapping { path, targets });
                assert(self.entries() =~= e.push((p, t)));
            },
        }
    }

    /// Takes the mapping of `path` out of the map, if it is configured; the
    /// other entries keep their order.
    pub fn remove(&mut self, path: &String) -> (r: Option<Vec<MappedTarget>>)
        requires
            old(self).wf(),
        ensures
            final(self).wf(),
            match old(self).index_of(path@) {
                Some(i) => r is Some && r.unwrap()@ == old(self).entries()[i].1
                    && final(self).entries() == old(self).entries().remove(i),
                None => r is None && final(self).entries() == old(self).entries(),
            },
    {
        let ghost e = self.entries();
        let ghost d0 = self.devices@;
        match self.position(path) {
            Some(i) => {
                proof {
                    assert forall|k: int| 0 <= k < d0.len() && d0[k].path@ == path@ implies k
                        == i by {
                        if k < i {
                            assert(d0[k].path@ != d0[i as int].path@);
                        } else if k > i {
                            assert(d0[i as int].path@ != d0[k].path@);
                        }
                    }
                }
                let d = self.devices.remove(i);
                proof {
                    assert(self.entries() =~= e.remove(i as int));
                    assert forall|a: int, b: int|
                        0 <= a < b < self.devices@.len() implies (#[trigger] self.devices@[a]).path@
                        != (#[trigger] self.devices@[b]).path@ by {
                        if a < i && b >= i {
                            assert(d0[a].path@ != d0[b + 1].path@);
                        } else if a >= i {
                            assert(d0[a + 1].path@ != d0[b + 1].path@);
                        } else {
                            assert(d0[a].path@ != d0[b].path@);
                        }
                    }
                }
                Some(d.targets)
            },
            None => None,
        }
    }
}

} // verus!
