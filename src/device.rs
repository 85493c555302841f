use vstd::prelude::*;

use crate::state::{LightingData, level_of};
use crate::target::LightingTarget;

verus! {

/// One output field of a hardware report: where it starts in the report, in
/// bits, and the intensity (in 255ths) that it currently holds.
#[derive(Debug, Clone, Copy, PartialEq, Eq, Hash, Structural)]
pub struct OutputField {
    pub start_bit: u32,
    pub value: u8,
}

/// A hardware report: its id and its output fields.
#[derive(Debug)]
pub struct Report {
    pub id: u32,
    pub outputs: Vec<OutputField>,
}

/// "The value of `target` lives in the field that starts at `start_bit` of
/// report `report_id`."
#[derive(Debug, Clone, Copy, PartialEq, Eq, Hash, Structural)]
pub struct MappedTarget {
    pub report_id: u32,
    pub start_bit: u32,
    pub target: LightingTarget,
}

/// What the update logic sees of a list of reports: ids and fields.
pub type Layout = Seq<(u32, Seq<OutputField>)>;

pub open spec fn layout_of(reports: Seq<Report>) -> Layout {
    Seq::new(reports.len(), |j: int| (reports[j].id, reports[j].outputs@))
}

/// Fields in ascending order of start bit.
pub open spec fn sorted_fields(s: Seq<OutputField>) -> bool {
    forall|i: int, j: int| 0 <= i < j < s.len() ==> s[i].start_bit <= s[j].start_bit
}

pub open spec fn has_field(s: Seq<OutputField>, bit: u32) -> bool {
    exists|k: int| 0 <= k < s.len() && s[k].start_bit == bit
}

/// Field `k` is the first one that starts where it starts.
pub open spec fn first_at_bit(s: Seq<OutputField>, k: int) -> bool {
    forall|i: int| 0 <= i < k ==> s[i].start_bit != s[k].start_bit
}

/// Report `j` is the one that its id names: no later report has that id.
pub open spec fn live(reps: Layout, j: int) -> bool {
    forall|i: int| j < i < reps.len() ==> reps[i].0 != reps[j].0
}

/// The target that the mapping places at `bit` of report `id`; where several
/// entries name the same place, the last one counts.
pub open spec fn mapped(targets: Seq<MappedTarget>, id: u32, bit: u32) -> Option<LightingTarget>
    decreases targets.len(),
{
    if targets.len() == 0 {
        None
    } else if targets.last().report_id == id && targets.last().start_bit == bit {
        Some(targets.last().target)
    } else {
        mapped(targets.drop_last(), id, bit)
    }
}

pub open spec fn field_after(
    targets: Seq<MappedTarget>,
    id: u32,
    outs: Seq<OutputField>,
    k: int,
    data: LightingData,
) -> OutputField {
    let f = outs[k];
    if first_at_bit(outs, k) {
        match mapped(targets, id, f.start_bit) {
            Some(t) => OutputField { start_bit: f.start_bit, value: level_of(t, data) },
            None => f,
        }
    } else {
        f
    }
}

pub open spec fn report_after(
    targets: Seq<MappedTarget>,
    reps: Layout,
    j: int,
    data: LightingData,
) -> (u32, Seq<OutputField>) {
    let id = reps[j].0;
    let outs = reps[j].1;
    if live(reps, j) {
        (id, Seq::new(outs.len(), |k: int| field_after(targets, id, outs, k, data)))
    } else {
        reps[j]
    }
}

/// The reports after one update from `data`: each field that the mapping
/// names takes the current value of its target; every other field keeps its
/// value.
pub open spec fn layout_after(targets: Seq<MappedTarget>, reps: Layout, data: LightingData) -> Layout {
    Seq::new(reps.len(), |j: int| report_after(targets, reps, j, data))
}

/// Report `j` has a field that some entry of the mapping names.
pub open spec fn touched(targets: Seq<MappedTarget>, reps: Layout, j: int) -> bool {
    live(reps, j) && exists|m: int|
        0 <= m < targets.len() && #[trigger] targets[m].report_id == reps[j].0 && has_field(
            reps[j].1,
            targets[m].start_bit,
        )
}

/// The indices of the touched reports among the first `n`, ascending.
pub open spec fn touched_upto(targets: Seq<MappedTarget>, reps: Layout, n: int) -> Seq<usize>
    decreases n,
{
    if n <= 0 {
        Seq::empty()
    } else if touched(targets, reps, n - 1) {
        touched_upto(targets, reps, n - 1).push((n - 1) as usize)
    } else {
        touched_upto(targets, reps, n - 1)
    }
}

/// The number of binary digits of `n`: how often it can be halved before it
/// reaches zero.
pub open spec fn bit_length(n: nat) -> nat
    decreases n,
{
    if n == 0 {
        0
    } else {
        1 + bit_length(n / 2)
    }
}

proof fn lemma_bit_length_monotone(a: nat, b: nat)
    requires
        a <= b,
    ensures
        bit_length(a) <= bit_length(b),
    decreases b,
{
    if a > 0 {
        lemma_bit_length_monotone(a / 2, b / 2);
    }
}

/// The index of the first field that starts at `bit`, found by binary search
/// over fields sorted by start bit; `None` where no field starts there, even
/// where a neighbouring field exists. The second result counts the fields
/// probed: at most one more than the number of binary digits of the length.
pub fn find_field_counted(outputs: &Vec<OutputField>, bit: u32) -> (r: (Option<usize>, Ghost<nat>))
    requires
        sorted_fields(outputs@),
    ensures
        match r.0 {
            Some(k) => k < outputs@.len() && outputs@[k as int].start_bit == bit && first_at_bit(
                outputs@,
                k as int,
            ),
            None => !has_field(outputs@, bit),
        },
        r.1@ <= bit_length(outputs@.len()) + 1,
{
    let mut lo: usize = 0;
    let mut hi: usize = outputs.len();
    let ghost mut probes: nat = 0;
    while lo < hi
        invariant
            lo <= hi <= outputs@.len(),
            sorted_fields(outputs@),
            forall|i: int| 0 <= i < lo ==> outputs@[i].start_bit < bit,
            forall|i: int| hi <= i < outputs@.len() ==> outputs@[i].start_bit >= bit,
            probes + bit_length((hi - lo) as nat) <= bit_length(outputs@.len()),
        decreases hi - lo,
    {
        let ghost size: nat = (hi - lo) as nat;
        let mid = lo + (hi - lo) / 2;
        if outputs[mid].start_bit < bit {
            assert forall|i: int| 0 <= i <= mid implies outputs@[i].start_bit < bit by {
                if i < mid {
                    assert(outputs@[i].start_bit <= outputs@[mid as int].start_bit);
                }
            }
            lo = mid + 1;
        } else {
            assert forall|i: int| mid <= i < outputs@.len() implies outputs@[i].start_bit
                >= bit by {
                if i > mid {
                    assert(outputs@[mid as int].start_bit <= outputs@[i].start_bit);
                }
            }
            hi = mid;
        }
        proof {
            lemma_bit_length_monotone((hi - lo) as nat, size / 2);
            probes = probes + 1;
        }
    }
    if lo < outputs.len() && outputs[lo].start_bit == bit {
        (Some(lo), Ghost(probes + 1))
    } else {
        (None, Ghost(probes + 1))
    }
}

/// The index of the first field that starts at `bit`, found by binary search
/// over fields sorted by start bit; `None` where no field starts there, even
/// where a neighbouring field exists.
pub fn find_field(outputs: &Vec<OutputField>, bit: u32) -> (r: Option<usize>)
    requires
        sorted_fields(outputs@),
    ensures
        match r {
            Some(k) => k < outputs@.len() && outputs@[k as int].start_bit == bit && first_at_bit(
                outputs@,
                k as int,
            ),
            None => !has_field(outputs@, bit),
        },
{
    find_field_counted(outputs, bit).0
}

/// The index of the report that `id` names: the last one with that id.
pub fn find_report(reports: &Vec<Report>, id: u32) -> (r: Option<usize>)
    ensures
        match r {
            Some(j) => j < reports@.len() && reports@[j as int].id == id && live(
                layout_of(reports@),
                j as int,
            ),
            None => forall|j: int| 0 <= j < reports@.len() ==> reports@[j].id != id,
        },
{
    let mut i: usize = reports.len();
    while i > 0
        invariant
            i <= reports@.len(),
            forall|j: int| i <= j < reports@.len() ==> reports@[j].id != id,
        decreases i,
    {
        if reports[i - 1].id == id {
            return Some(i - 1);
        }
        i = i - 1;
    }
    None
}

/// An updated layout keeps every report's id and every field's start bit.
pub proof fn lemma_layout_after_shape(targets: Seq<MappedTarget>, reps: Layout, data: LightingData)
    ensures
        layout_after(targets, reps, data).len() == reps.len(),
        forall|j: int|
            0 <= j < reps.len() ==> {
                &&& (#[trigger] layout_after(targets, reps, data)[j]).0 == reps[j].0
                &&& layout_after(targets, reps, data)[j].1.len() == reps[j].1.len()
                &&& forall|k: int|
                    0 <= k < reps[j].1.len() ==> (#[trigger] layout_after(
                        targets,
                        reps,
                        data,
                    )[j].1[k]).start_bit == reps[j].1[k].start_bit
            },
{
}

proof fn lemma_mapped_step(t: Seq<MappedTarget>, m: int, id: u32, bit: u32)
    requires
        0 <= m < t.len(),
    ensures
        mapped(t.take(m + 1), id, bit) == if t[m].report_id == id && t[m].start_bit == bit {
            Some(t[m].target)
        } else {
            mapped(t.take(m), id, bit)
        },
{
    assert(t.take(m + 1).drop_last() =~= t.take(m));
}

/// Entry `m` of the mapping names no field of any live report: taking it in
/// changes nothing.
proof fn lemma_step_miss(t: Seq<MappedTarget>, m: int, l0: Layout, data: LightingData)
    requires
        0 <= m < t.len(),
        forall|i: int|
            0 <= i < l0.len() && live(l0, i) && l0[i].0 == t[m].report_id ==> !has_field(
                l0[i].1,
                t[m].start_bit,
            ),
    ensures
        layout_after(t.take(m + 1), l0, data) == layout_after(t.take(m), l0, data),
        forall|i: int|
            0 <= i < l0.len() ==> touched(t.take(m + 1), l0, i) == touched(t.take(m), l0, i),
{
    let a1 = layout_after(t.take(m + 1), l0, data);
    let a0 = layout_after(t.take(m), l0, data);
    assert forall|i: int| 0 <= i < l0.len() implies a1[i] == a0[i] by {
        if live(l0, i) {
            assert forall|k: int| 0 <= k < l0[i].1.len() implies a1[i].1[k] == a0[i].1[k] by {
                lemma_mapped_step(t, m, l0[i].0, l0[i].1[k].start_bit);
            }
            assert(a1[i].1 =~= a0[i].1);
        }
    }
    assert(a1 =~= a0);
    assert forall|i: int| 0 <= i < l0.len() implies touched(t.take(m + 1), l0, i) == touched(
        t.take(m),
        l0,
        i,
    ) by {
        if touched(t.take(m + 1), l0, i) {
            let w = choose|w: int|
                0 <= w < t.take(m + 1).len() && #[trigger] t.take(m + 1)[w].report_id == l0[i].0
                    && has_field(l0[i].1, t.take(m + 1)[w].start_bit);
            assert(w != m);
            assert(t.take(m)[w] == t.take(m + 1)[w]);
        }
        if touched(t.take(m), l0, i) {
            let w = choose|w: int|
                0 <= w < t.take(m).len() && #[trigger] t.take(m)[w].report_id == l0[i].0
                    && has_field(l0[i].1, t.take(m)[w].start_bit);
            assert(t.take(m)[w] == t.take(m + 1)[w]);
        }
    }
}

/// Entry `m` of the mapping names field `k` of live report `jr`: taking it in
/// sets that field and nothing else.
proof fn lemma_step_hit(t: Seq<MappedTarget>, m: int, l0: Layout, data: LightingData, jr: int, k: int)
    requires
        0 <= m < t.len(),
        0 <= jr < l0.len(),
        live(l0, jr),
        l0[jr].0 == t[m].report_id,
        0 <= k < l0[jr].1.len(),
        l0[jr].1[k].start_bit == t[m].start_bit,
        first_at_bit(l0[jr].1, k),
    ensures
        ({
            let a0 = layout_after(t.take(m), l0, data);
            layout_after(t.take(m + 1), l0, data) == a0.update(
                jr,
                (
                    a0[jr].0,
                    a0[jr].1.update(
                        k,
                        OutputField {
                            start_bit: t[m].start_bit,
                            value: level_of(t[m].target, data),
                        },
                    ),
                ),
            )
        }),
        forall|i: int|
            0 <= i < l0.len() ==> touched(t.take(m + 1), l0, i) == (touched(t.take(m), l0, i) || i
                == jr),
{
    let a1 = layout_after(t.take(m + 1), l0, data);
    let a0 = layout_after(t.take(m), l0, data);
    let v = OutputField { start_bit: t[m].start_bit, value: level_of(t[m].target, data) };
    let b = a0.update(jr, (a0[jr].0, a0[jr].1.update(k, v)));
    assert forall|i: int| 0 <= i < l0.len() implies a1[i] == b[i] by {
        if i == jr {
            assert forall|kk: int| 0 <= kk < l0[i].1.len() implies a1[i].1[kk] == b[i].1[kk] by {
                lemma_mapped_step(t, m, l0[i].0, l0[i].1[kk].start_bit);
                if kk != k && l0[i].1[kk].start_bit == t[m].start_bit {
                    if kk > k {
                        assert(!first_at_bit(l0[i].1, kk));
                    }
                }
            }
            assert(a1[i].1 =~= b[i].1);
        } else if live(l0, i) {
            if l0[i].0 == t[m].report_id {
                if i < jr {
                    assert(l0[jr].0 != l0[i].0);
                } else {
                    assert(l0[i].0 != l0[jr].0);
                }
            }
            assert forall|kk: int| 0 <= kk < l0[i].1.len() implies a1[i].1[kk] == a0[i].1[kk] by {
                lemma_mapped_step(t, m, l0[i].0, l0[i].1[kk].start_bit);
            }
            assert(a1[i].1 =~= a0[i].1);
        }
    }
    assert(a1 =~= b);
    assert forall|i: int| 0 <= i < l0.len() implies touched(t.take(m + 1), l0, i) == (touched(
        t.take(m),
        l0,
        i,
    ) || i == jr) by {
        if i == jr {
            assert(t.take(m + 1)[m] == t[m]);
            assert(has_field(l0[jr].1, t[m].start_bit));
        }
        if touched(t.take(m + 1), l0, i) && i != jr {
            let w = choose|w: int|
                0 <= w < t.take(m + 1).len() && #[trigger] t.take(m + 1)[w].report_id == l0[i].0
                    && has_field(l0[i].1, t.take(m + 1)[w].start_bit);
            if w == m {
                if i < jr {
                    assert(l0[jr].0 != l0[i].0);
                } else {
                    assert(l0[i].0 != l0[jr].0);
                }
            }
            assert(t.take(m)[w] == t.take(m + 1)[w]);
        }
        if touched(t.take(m), l0, i) {
            let w = choose|w: int|
                0 <= w < t.take(m).len() && #[trigger] t.take(m)[w].report_id == l0[i].0
                    && has_field(l0[i].1, t.take(m)[w].start_bit);
            assert(t.take(m)[w] == t.take(m + 1)[w]);
        }
    }
}

/// Updating twice from the same snapshot leaves the reports as one update
/// does, and touches the same reports.
pub proof fn lemma_layout_after_idempotent(t: Seq<MappedTarget>, reps: Layout, data: LightingData)
    ensures
        layout_after(t, layout_after(t, reps, data), data) == layout_after(t, reps, data),
        forall|n: int|
            0 <= n <= reps.len() ==> touched_upto(t, layout_after(t, reps, data), n)
                == #[trigger] touched_upto(t, reps, n),
{
    let a = layout_after(t, reps, data);
    let a2 = layout_after(t, a, data);
    lemma_layout_after_shape(t, reps, data);
    assert forall|j: int| 0 <= j < reps.len() implies live(a, j) == live(reps, j) by {
        if live(a, j) {
            assert forall|i: int| j < i < reps.len() implies reps[i].0 != reps[j].0 by {
                assert(a[i].0 != a[j].0);
            }
        }
    }
    assert forall|j: int, k: int|
        0 <= j < reps.len() && 0 <= k < reps[j].1.len() implies first_at_bit(a[j].1, k)
        == first_at_bit(reps[j].1, k) by {
        if first_at_bit(reps[j].1, k) {
            assert forall|i: int| 0 <= i < k implies a[j].1[i].start_bit != a[j].1[k].start_bit by {
                assert(reps[j].1[i].start_bit != reps[j].1[k].start_bit);
            }
        }
        if first_at_bit(a[j].1, k) {
            assert forall|i: int| 0 <= i < k implies reps[j].1[i].start_bit
                != reps[j].1[k].start_bit by {
                assert(a[j].1[i].start_bit != a[j].1[k].start_bit);
            }
        }
    }
    assert forall|j: int| 0 <= j < reps.len() implies a2[j] == a[j] by {
        if live(reps, j) {
            assert forall|k: int| 0 <= k < reps[j].1.len() implies a2[j].1[k] == a[j].1[k] by {
                assert(first_at_bit(a[j].1, k) == first_at_bit(reps[j].1, k));
            }
            assert(a2[j].1 =~= a[j].1);
        }
    }
    assert(a2 =~= a);
    assert forall|j: int, b: u32|
        0 <= j < reps.len() implies #[trigger] has_field(a[j].1, b) == has_field(reps[j].1, b) by {
        if has_field(a[j].1, b) {
            let k = choose|k: int| 0 <= k < a[j].1.len() && a[j].1[k].start_bit == b;
            assert(reps[j].1[k].start_bit == b);
        }
        if has_field(reps[j].1, b) {
            let k = choose|k: int| 0 <= k < reps[j].1.len() && reps[j].1[k].start_bit == b;
            assert(a[j].1[k].start_bit == b);
        }
    }
    assert forall|j: int| 0 <= j < reps.len() implies touched(t, a, j) == touched(t, reps, j) by {
        if touched(t, a, j) {
            let m = choose|m: int|
                0 <= m < t.len() && #[trigger] t[m].report_id == a[j].0 && has_field(
                    a[j].1,
                    t[m].start_bit,
                );
            assert(has_field(reps[j].1, t[m].start_bit));
        }
        if touched(t, reps, j) {
            let m = choose|m: int|
                0 <= m < t.len() && #[trigger] t[m].report_id == reps[j].0 && has_field(
                    reps[j].1,
                    t[m].start_bit,
                );
            assert(has_field(a[j].1, t[m].start_bit));
        }
    }
    assert forall|n: int| 0 <= n <= reps.len() implies touched_upto(t, a, n)
        == #[trigger] touched_upto(t, reps, n) by {
        lemma_touched_upto_same(t, a, reps, n);
    }
}

proof fn lemma_touched_upto_same(t: Seq<MappedTarget>, a: Layout, b: Layout, n: int)
    requires
        forall|j: int| 0 <= j < n ==> touched(t, a, j) == touched(t, b, j),
    ensures
        touched_upto(t, a, n) == touched_upto(t, b, n),
    decreases n,
{
    if n > 0 {
        lemma_touched_upto_same(t, a, b, n - 1);
    }
}

/// The fields of `outputs` ordered by start bit. Fields that start at the same
/// bit keep their relative order.
pub fn sort_fields(outputs: Vec<OutputField>) -> (r: Vec<OutputField>)
    ensures
        sorted_fields(r@),
        r@.to_multiset() == outputs@.to_multiset(),
        sorted_fields(outputs@) ==> r@ == outputs@,
{
    let mut r: Vec<OutputField> = Vec::new();
    let mut i: usize = 0;
    assert(r@ =~= outputs@.take(0));
    while i < outputs.len()
        invariant
            i <= outputs@.len(),
            sorted_fields(r@),
            r@.to_multiset() == outputs@.take(i as int).to_multiset(),
            sorted_fields(outputs@) ==> r@ == outputs@.take(i as int),
        decreases outputs@.len() - i,
    {
        let f = outputs[i];
        let mut p: usize = r.len();
        while p > 0 && r[p - 1].start_bit > f.start_bit
            invariant
                p <= r@.len(),
                forall|q: int| p <= q < r@.len() ==> r@[q].start_bit > f.start_bit,
            decreases p,
        {
            p = p - 1;
        }
        proof {
            vstd::seq_lib::to_multiset_insert(r@, p as int, f);
            assert(outputs@.take(i as int + 1) =~= outputs@.take(i as int).push(f));
            vstd::seq_lib::to_multiset_build(outputs@.take(i as int), f);
        }
        let ghost r0 = r@;
        proof {
            if sorted_fields(outputs@) && p < r0.len() {
                assert(r0[p as int] == outputs@[p as int]);
                assert(outputs@[p as int].start_bit <= outputs@[i as int].start_bit);
            }
        }
        r.insert(p, f);
        proof {
            if sorted_fields(outputs@) {
                assert(r@ =~= outputs@.take(i as int + 1));
            }
        }
        proof {
            assert forall|a: int, b: int| 0 <= a < b < r@.len() implies r@[a].start_bit
                <= r@[b].start_bit by {
                if a < p && b > p {
                    assert(r0[a].start_bit <= r0[b - 1].start_bit);
                    if p > 0 {
                        assert(r0[a].start_bit <= r0[p - 1].start_bit);
                    }
                } else if a < p && b < p {
                    assert(r0[a].start_bit <= r0[b].start_bit);
                } else if a == p {
                    assert(r0[b - 1].start_bit > f.start_bit);
                } else if b == p {
                    assert(r0[a].start_bit <= r0[p - 1].start_bit);
                } else {
                    assert(r0[a - 1].start_bit <= r0[b - 1].start_bit);
                }
            }
        }
        i = i + 1;
    }
    assert(outputs@.take(outputs@.len() as int) =~= outputs@);
    r
}

/// A device that the binder has opened: its mapping and its report layouts.
#[derive(Debug)]
pub struct BoundDevice {
    pub targets: Vec<MappedTarget>,
    pub reports: Vec<Report>,
}

impl BoundDevice {
    /// Every report's fields are sorted by start bit.
    pub open spec fn wf(&self) -> bool {
        forall|j: int|
            0 <= j < self.reports@.len() ==> sorted_fields(#[trigger] self.reports@[j].outputs@)
    }

    pub open spec fn layout(&self) -> Layout {
        layout_of(self.reports@)
    }

    /// Binds a device's mapping to the report layouts that its hardware
    /// reported: each report keeps its id and place, with its fields sorted
    /// by start bit.
    pub fn bind(targets: Vec<MappedTarget>, reports: Vec<Report>) -> (r: BoundDevice)
        ensures
            r.wf(),
            r.targets@ == targets@,
            r.reports@.len() == reports@.len(),
            forall|j: int|
                0 <= j < reports@.len() ==> {
                    &&& (#[trigger] r.reports@[j]).id == reports@[j].id
                    &&& r.reports@[j].outputs@.to_multiset() == reports@[j].outputs@.to_multiset()
                },
    {
        let ghost given = reports@;
        let mut rest = reports;
        let mut sorted: Vec<Report> = Vec::new();
        while rest.len() > 0
            invariant
                sorted@.len() + rest@.len() == given.len(),
                rest@ == given.skip(sorted@.len() as int),
                forall|j: int| 0 <= j < sorted@.len() ==> sorted_fields(#[trigger] sorted@[j].outputs@),
                forall|j: int|
                    0 <= j < sorted@.len() ==> {
                        &&& (#[trigger] sorted@[j]).id == given[j].id
                        &&& sorted@[j].outputs@.to_multiset() == given[j].outputs@.to_multiset()
                    },
            decreases rest@.len(),
        {
            let ghost k = sorted@.len();
            let rep = rest.remove(0);
            assert(rest@ =~= given.skip(k as int + 1));
            let outputs = sort_fields(rep.outputs);
            sorted.push(Report { id: rep.id, outputs });
        }
        BoundDevice { targets, reports: sorted }
    }

    fn store(&mut self, j: usize, k: usize, value: u8)
        requires
            j < old(self).reports@.len(),
            k < old(self).reports@[j as int].outputs@.len(),
        ensures
            final(self).targets == old(self).targets,
            final(self).reports@.len() == old(self).reports@.len(),
            forall|i: int|
                0 <= i < old(self).reports@.len() && i != j ==> final(self).reports@[i]
                    == old(self).reports@[i],
            final(self).reports@[j as int].id == old(self).reports@[j as int].id,
            final(self).reports@[j as int].outputs@ == old(self).reports@[j as int].outputs@.update(
                k as int,
                OutputField {
                    start_bit: old(self).reports@[j as int].outputs@[k as int].start_bit,
                    value,
                },
            ),
    {
        let mut rep = self.reports.remove(j);
        let f = rep.outputs[k];
        rep.outputs.set(k, OutputField { start_bit: f.start_bit, value });
        self.reports.insert(j, rep);
    }

    /// Writes the current value of every mapped target from `data` into its
    /// field, and returns the indices of the reports that changed hands, in
    /// ascending order. Entries whose report or field does not exist are
    /// passed over.
    pub fn update(&mut self, data: &LightingData) -> (written: Vec<usize>)
        requires
            old(self).wf(),
        ensures
            final(self).wf(),
            final(self).targets@ == old(self).targets@,
            final(self).layout() == layout_after(old(self).targets@, old(self).layout(), *data),
            written@ == touched_upto(old(self).targets@, old(self).layout(), old(self).layout().len() as int),
    {
        let ghost l0 = self.layout();
        let ghost t = self.targets@;
        let n = self.reports.len();
        let mut flags: Vec<bool> = Vec::new();
        let mut j: usize = 0;
        while j < n
            invariant
                j <= n == l0.len(),
                flags@.len() == j,
                forall|i: int| 0 <= i < j ==> !flags@[i],
            decreases n - j,
        {
            flags.push(false);
            j = j + 1;
        }
        assert forall|i: int| 0 <= i < n implies !touched(t.take(0), l0, i) by {}
        assert(layout_after(t.take(0), l0, *data) =~= l0) by {
            assert forall|i: int| 0 <= i < n implies (#[trigger] layout_after(t.take(0), l0, *data)[i])
                == l0[i] by {
                assert(layout_after(t.take(0), l0, *data)[i].1 =~= l0[i].1);
            }
        }
        let mut m: usize = 0;
        while m < self.targets.len()
            invariant
                self.wf(),
                self.targets@ == t,
                self.layout().len() == n,
                flags@.len() == n,
                m <= t.len(),
                l0.len() == n,
                self.layout() == layout_after(t.take(m as int), l0, *data),
                forall|i: int| 0 <= i < n ==> flags@[i] == touched(t.take(m as int), l0, i),
            decreases t.len() - m,
        {
            let e = self.targets[m];
            let value = data.get(e.target);
            let ghost cur = self.layout();
            proof {
                lemma_layout_after_shape(t.take(m as int), l0, *data);
                assert(t.take(m as int + 1).drop_last() =~= t.take(m as int));
            }
            match find_report(&self.reports, e.report_id) {
                Some(jr) => {
                    proof {
                        assert(cur[jr as int].0 == e.report_id);
                        assert(l0[jr as int].0 == e.report_id);
                        assert forall|i: int| jr < i < n implies l0[i].0 != l0[jr as int].0 by {
                            assert(cur[i].0 != cur[jr as int].0);
                        }
                        assert forall|i: int|
                            0 <= i < n && live(l0, i) && l0[i].0 == e.report_id implies i
                            == jr by {
                            if i < jr {
                                assert(l0[jr as int].0 != l0[i].0);
                            } else if i > jr {
                                assert(l0[i].0 != l0[jr as int].0);
                            }
                        }
                        assert forall|kk: int| 0 <= kk < cur[jr as int].1.len() implies #[trigger] cur[jr as int].1[kk].start_bit
                            == l0[jr as int].1[kk].start_bit by {
                            assert(cur[jr as int].1[kk] == layout_after(t.take(m as int), l0, *data)[jr as int].1[kk]);
                        }
                    }
                    assert(self.reports@[jr as int].outputs@ == cur[jr as int].1);
                    match find_field(&self.reports[jr].outputs, e.start_bit) {
                        Some(k) => {
                            proof {
                                assert(cur[jr as int].1[k as int].start_bit == e.start_bit);
                                assert forall|i: int| 0 <= i < k implies l0[jr as int].1[i].start_bit
                                    != l0[jr as int].1[k as int].start_bit by {
                                    assert(cur[jr as int].1[i].start_bit != cur[jr as int].1[k as int].start_bit);
                                }
                                assert(first_at_bit(l0[jr as int].1, k as int));
                                lemma_step_hit(t, m as int, l0, *data, jr as int, k as int);
                            }
                            self.store(jr, k, value);
                            let ghost f0 = flags@;
                            flags.set(jr, true);
                            proof {
                                let a0 = layout_after(t.take(m as int), l0, *data);
                                let b = a0.update(
                                    jr as int,
                                    (
                                        a0[jr as int].0,
                                        a0[jr as int].1.update(
                                            k as int,
                                            OutputField {
                                                start_bit: e.start_bit,
                                                value: level_of(e.target, *data),
                                            },
                                        ),
                                    ),
                                );
                                assert forall|i: int| 0 <= i < n implies self.layout()[i] == b[i] by {
                                    if i == jr {
                                        assert(self.layout()[i].1 =~= b[i].1);
                                    }
                                }
                                assert(self.layout() =~= b);
                                assert forall|i: int| 0 <= i < n implies flags@[i] == touched(
                                    t.take(m as int + 1),
                                    l0,
                                    i,
                                ) by {
                                    assert(f0[i] == touched(t.take(m as int), l0, i));
                                    if i != jr {
                                        assert(flags@[i] == f0[i]);
                                    }
                                }
                                assert forall|i: int| 0 <= i < n implies sorted_fields(
                                    #[trigger] self.reports@[i].outputs@,
                                ) by {
                                    if i == jr {
                                        assert(sorted_fields(cur[i].1));
                                    }
                                }
                            }
                        },
                        None => {
                            proof {
                                assert(!has_field(l0[jr as int].1, e.start_bit)) by {
                                    if has_field(l0[jr as int].1, e.start_bit) {
                                        let kk = choose|kk: int| 0 <= kk < l0[jr as int].1.len() && l0[jr as int].1[kk].start_bit == e.start_bit;
                                        assert(cur[jr as int].1[kk].start_bit == e.start_bit);
                                    }
                                }
                                lemma_step_miss(t, m as int, l0, *data);
                            }
                        },
                    }
                },
                None => {
                    proof {
                        assert forall|i: int| 0 <= i < n implies l0[i].0 != e.report_id by {
                            assert(cur[i].0 == self.reports@[i].id);
                        }
                        lemma_step_miss(t, m as int, l0, *data);
                    }
                },
            }
            m = m + 1;
        }
        assert(t.take(t.len() as int) =~= t);
        let mut written: Vec<usize> = Vec::new();
        let mut j: usize = 0;
        while j < n
            invariant
                j <= n,
                flags@.len() == n,
                l0.len() == n,
                forall|i: int| 0 <= i < n ==> flags@[i] == touched(t, l0, i),
                written@ == touched_upto(t, l0, j as int),
            decreases n - j,
        {
            if flags[j] {
                written.push(j);
            }
            j = j + 1;
        }
        written
    }
}

} // verus!
