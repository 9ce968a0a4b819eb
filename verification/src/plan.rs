//! The plan of every routed expert of a model: where its three matrices are, and how large a slot
//! must be to hold any of them.

use vstd::prelude::*;

verus! {

/// Where the three matrices of one expert are: byte ranges of a shard, and their shapes.
#[derive(Clone, Debug, PartialEq, Eq)]
pub struct PlannedExpert {
    pub shard_id: u32,
    pub regions: [(u64, usize); 3],
    pub dims: [(usize, usize); 3],
}

impl PlannedExpert {
    /// The bytes of the three matrices together.
    pub open spec fn size(self) -> int {
        self.regions[0].1 + self.regions[1].1 + self.regions[2].1
    }

    /// The bytes of the three matrices together.
    pub fn slot_bytes(&self) -> (n: usize)
        requires
            self.size() <= usize::MAX,
        ensures
            n == self.size(),
    {
        self.regions[0].1 + self.regions[1].1 + self.regions[2].1
    }
}

/// What a package says of one expert: its shard, and its matrices where they can be loaded as they
/// are stored.
#[derive(Clone, Debug)]
pub struct ExpertRecord {
    pub shard_id: u32,
    pub matrices: Option<(Vec<(u64, usize)>, Vec<(usize, usize)>)>,
}

/// Why an expert cannot be planned.
#[derive(Clone, Copy, Debug, PartialEq, Eq, Structural)]
pub enum PlanFault {
    /// The package has no record of it.
    NoRecord,
    /// Its matrices are not stored for direct loading.
    NotRaw,
    /// Fewer than three matrices.
    Malformed,
}

/// What is wrong with the record of an expert, if anything.
pub open spec fn record_fault(r: Option<ExpertRecord>) -> Option<PlanFault> {
    match r {
        None => Some(PlanFault::NoRecord),
        Some(rec) => match rec.matrices {
            None => Some(PlanFault::NotRaw),
            Some(m) => if m.0.len() < 3 || m.1.len() < 3 {
                Some(PlanFault::Malformed)
            } else {
                None
            },
        },
    }
}

/// Whether a planned expert is what its record says.
pub open spec fn planned_from(p: PlannedExpert, r: Option<ExpertRecord>) -> bool {
    match r {
        Some(rec) => match rec.matrices {
            Some(m) => {
                &&& p.shard_id == rec.shard_id
                &&& forall|i: int| 0 <= i < 3 ==> #[trigger] p.regions[i] == m.0[i]
                &&& forall|i: int| 0 <= i < 3 ==> #[trigger] p.dims[i] == m.1[i]
            },
            None => false,
        },
        None => false,
    }
}

/// The bytes that the record of an expert names.
pub open spec fn record_size(r: Option<ExpertRecord>) -> int {
    match r {
        Some(rec) => match rec.matrices {
            Some(m) => if m.0.len() >= 3 {
                m.0[0].1 + m.0[1].1 + m.0[2].1
            } else {
                0
            },
            None => 0,
        },
        None => 0,
    }
}

/// Every expert of a model, planned.
#[derive(Clone, Debug)]
pub struct Plan {
    pub layers: Vec<Vec<PlannedExpert>>,
    pub max_slot_bytes: usize,
}

/// The sum of the sizes of a list of experts.
pub open spec fn layer_total(layer: Seq<PlannedExpert>) -> int
    decreases layer.len(),
{
    if layer.len() == 0 {
        0
    } else {
        layer_total(layer.drop_last()) + layer.last().size()
    }
}

/// The sum of the sizes of all experts.
pub open spec fn plan_total(layers: Seq<Vec<PlannedExpert>>) -> int
    decreases layers.len(),
{
    if layers.len() == 0 {
        0
    } else {
        plan_total(layers.drop_last()) + layer_total(layers.last()@)
    }
}

proof fn lemma_layer_total_grows(layer: Seq<PlannedExpert>, n: int)
    requires
        0 <= n <= layer.len(),
    ensures
        0 <= layer_total(layer.take(n)) <= layer_total(layer),
    decreases layer.len(),
{
    if n == layer.len() {
        assert(layer.take(n) =~= layer);
        if n > 0 {
            lemma_layer_total_grows(layer.drop_last(), n - 1);
            assert(layer.drop_last().take(n - 1) =~= layer.drop_last());
        }
    } else {
        lemma_layer_total_grows(layer.drop_last(), n);
        assert(layer.drop_last().take(n) =~= layer.take(n));
    }
}

proof fn lemma_plan_total_grows(layers: Seq<Vec<PlannedExpert>>, n: int)
    requires
        0 <= n <= layers.len(),
    ensures
        0 <= plan_total(layers.take(n)) <= plan_total(layers),
    decreases layers.len(),
{
    if layers.len() > 0 {
        lemma_layer_total_grows(layers.last()@, 0);
    }
    if n == layers.len() {
        assert(layers.take(n) =~= layers);
        if n > 0 {
            lemma_plan_total_grows(layers.drop_last(), n - 1);
            assert(layers.drop_last().take(n - 1) =~= layers.drop_last());
        }
    } else {
        lemma_plan_total_grows(layers.drop_last(), n);
        assert(layers.drop_last().take(n) =~= layers.take(n));
    }
}

/// Whether expert `(l, e)` comes before expert `(m, f)`.
pub open spec fn earlier(l: int, e: int, m: int, f: int) -> bool {
    l < m || (l == m && e < f)
}

impl Plan {
    /// The plan covers `layers` layers of `experts` experts as the records say, and `max_slot_bytes`
    /// is the size of the largest.
    pub open spec fn covers(
        self,
        records: Seq<Vec<Option<ExpertRecord>>>,
        layers: int,
        experts: int,
    ) -> bool {
        &&& self.layers.len() == layers
        &&& forall|l: int| 0 <= l < layers ==> (#[trigger] self.layers[l]).len() == experts
        &&& forall|l: int, e: int|
            0 <= l < layers && 0 <= e < experts ==> planned_from(
                #[trigger] self.layers[l][e],
                records[l][e],
            ) && self.layers[l][e].size() <= self.max_slot_bytes
        &&& self.max_slot_bytes == 0 || exists|l: int, e: int|
            0 <= l < layers && 0 <= e < experts && (#[trigger] self.layers[l][e]).size()
                == self.max_slot_bytes
    }

    /// Plans every expert, or names the first one that cannot be planned.
    pub fn resolve(records: &Vec<Vec<Option<ExpertRecord>>>, layers: usize, experts: usize) -> (r:
        Result<Plan, (usize, usize, PlanFault)>)
        requires
            records.len() >= layers,
            forall|l: int| 0 <= l < layers ==> (#[trigger] records[l]).len() >= experts,
            forall|l: int, e: int|
                0 <= l < layers && 0 <= e < experts ==> record_size(#[trigger] records[l][e])
                    <= usize::MAX,
        ensures
            match r {
                Ok(plan) => plan.covers(records@, layers as int, experts as int) && forall|
                    l: int,
                    e: int,
                |
                    0 <= l < layers && 0 <= e < experts ==> record_fault(#[trigger] records[l][e])
                        is None,
                Err((l, e, fault)) => {
                    &&& l < layers && e < experts
                    &&& record_fault(records[l as int][e as int]) == Some(fault)
                    &&& forall|m: int, f: int|
                        0 <= m < layers && 0 <= f < experts && earlier(m, f, l as int, e as int)
                            ==> record_fault(#[trigger] records[m][f]) is None
                },
            },
    {
        let mut max_slot_bytes: usize = 0;
        let mut out: Vec<Vec<PlannedExpert>> = Vec::new();
        let mut l: usize = 0;
        let ghost mut top: (int, int) = (0, 0);
        while l < layers
            invariant
                l <= layers,
                records.len() >= layers,
                forall|l: int| 0 <= l < layers ==> (#[trigger] records[l]).len() >= experts,
                forall|l: int, e: int|
                    0 <= l < layers && 0 <= e < experts ==> record_size(#[trigger] records[l][e])
                        <= usize::MAX,
                out.len() == l,
                forall|m: int| 0 <= m < l ==> (#[trigger] out[m]).len() == experts,
                forall|m: int, f: int|
                    0 <= m < l && 0 <= f < experts ==> planned_from(
                        #[trigger] out[m][f],
                        records[m][f],
                    ) && out[m][f].size() <= max_slot_bytes,
                forall|m: int, f: int|
                    0 <= m < l && 0 <= f < experts ==> record_fault(#[trigger] records[m][f])
                        is None,
                max_slot_bytes == 0 || (0 <= top.0 < l && 0 <= top.1 < experts
                    && out[top.0][top.1].size() == max_slot_bytes),
            decreases layers - l,
        {
            let mut layer: Vec<PlannedExpert> = Vec::new();
            let mut e: usize = 0;
            let ghost max_before = max_slot_bytes;
            let ghost mut best: int = -1;
            while e < experts
                invariant
                    e <= experts,
                    l < layers,
                    records.len() >= layers,
                    forall|l: int| 0 <= l < layers ==> (#[trigger] records[l]).len() >= experts,
                    forall|l: int, e: int|
                        0 <= l < layers && 0 <= e < experts ==> record_size(
                            #[trigger] records[l][e],
                        ) <= usize::MAX,
                    layer.len() == e,
                    max_before <= max_slot_bytes,
                    forall|f: int|
                        0 <= f < e ==> planned_from(#[trigger] layer[f], records[l as int][f])
                            && layer[f].size() <= max_slot_bytes,
                    forall|m: int, f: int|
                        0 <= m < l && 0 <= f < experts ==> record_fault(#[trigger] records[m][f])
                            is None,
                    forall|f: int|
                        0 <= f < e ==> record_fault(#[trigger] records[l as int][f]) is None,
                    max_slot_bytes == max_before || (0 <= best < e && layer[best].size()
                        == max_slot_bytes),
                decreases experts - e,
            {
                let rec: &ExpertRecord = match &records[l][e] {
                    None => {
                        return Err((l, e, PlanFault::NoRecord));
                    },
                    Some(rec) => rec,
                };
                let m: &(Vec<(u64, usize)>, Vec<(usize, usize)>) = match &rec.matrices {
                    None => {
                        return Err((l, e, PlanFault::NotRaw));
                    },
                    Some(m) => m,
                };
                if m.0.len() < 3 || m.1.len() < 3 {
                    return Err((l, e, PlanFault::Malformed));
                }
                let planned = PlannedExpert {
                    shard_id: rec.shard_id,
                    regions: [m.0[0], m.0[1], m.0[2]],
                    dims: [m.1[0], m.1[1], m.1[2]],
                };
                assert(record_size(records[l as int][e as int]) == planned.size());
                let size: usize = planned.slot_bytes();
                if size > max_slot_bytes {
                    max_slot_bytes = size;
                    proof {
                        best = e as int;
                    }
                }
                layer.push(planned);
                e += 1;
            }
            out.push(layer);
            proof {
                if max_slot_bytes != max_before {
                    top = (l as int, best);
                }
            }
            l += 1;
        }
        let plan = Plan { layers: out, max_slot_bytes };
        assert(max_slot_bytes == 0 || plan.layers[top.0][top.1].size() == max_slot_bytes);
        Ok(plan)
    }

    /// The bytes of all experts together.
    pub fn total_bytes(&self) -> (n: usize)
        requires
            plan_total(self.layers@) <= usize::MAX,
        ensures
            n == plan_total(self.layers@),
    {
        let mut total: usize = 0;
        let mut l: usize = 0;
        while l < self.layers.len()
            invariant
                l <= self.layers.len(),
                plan_total(self.layers@) <= usize::MAX,
                total == plan_total(self.layers@.take(l as int)),
            decreases self.layers.len() - l,
        {
            let layer = &self.layers[l];
            proof {
                lemma_plan_total_grows(self.layers@, l + 1);
                assert(self.layers@.take(l + 1).drop_last() =~= self.layers@.take(l as int));
            }
            let ghost before = total;
            let mut e: usize = 0;
            while e < layer.len()
                invariant
                    e <= layer.len(),
                    before + layer_total(layer@) <= usize::MAX,
                    total == before + layer_total(layer@.take(e as int)),
                decreases layer.len() - e,
            {
                proof {
                    lemma_layer_total_grows(layer@, e + 1);
                    lemma_layer_total_grows(layer@, e as int);
                    assert(layer@.take(e + 1).drop_last() =~= layer@.take(e as int));
                }
                total = total + layer[e].slot_bytes();
                e += 1;
            }
            assert(layer@.take(e as int) =~= layer@);
            l += 1;
        }
        assert(self.layers@.take(l as int) =~= self.layers@);
        total
    }

    /// The plan of one expert, where it has one.
    pub fn planned(&self, layer: usize, expert: usize) -> (r: Option<&PlannedExpert>)
        ensures
            match r {
                Some(p) => layer < self.layers.len() && expert < self.layers[layer as int].len()
                    && *p == self.layers[layer as int][expert as int],
                None => layer >= self.layers.len() || expert >= self.layers[layer as int].len(),
            },
    {
        if layer < self.layers.len() && expert < self.layers[layer].len() {
            Some(&self.layers[layer][expert])
        } else {
            None
        }
    }
}

/// The bytes of a plan are those of its layers together, and those of a layer those of its experts:
/// parts of a plan add up to the whole, and one expert is its three matrices.
pub proof fn law_the_bytes_of_a_plan_add_up(
    a: Seq<Vec<PlannedExpert>>,
    b: Seq<Vec<PlannedExpert>>,
    e: PlannedExpert,
)
    ensures
        plan_total(a + b) == plan_total(a) + plan_total(b),
        layer_total(seq![e]) == e.regions[0].1 + e.regions[1].1 + e.regions[2].1,
        forall|v: Vec<PlannedExpert>| #[trigger] plan_total(seq![v]) == layer_total(v@),
    decreases b.len(),
{
    if b.len() == 0 {
        assert(a + b =~= a);
    } else {
        law_the_bytes_of_a_plan_add_up(a, b.drop_last(), e);
        assert((a + b).drop_last() =~= a + b.drop_last());
        assert((a + b).last() == b.last());
    }
    reveal_with_fuel(layer_total, 2);
    reveal_with_fuel(plan_total, 2);
    assert(seq![e].drop_last() =~= Seq::empty());
    assert forall|v: Vec<PlannedExpert>| #[trigger] plan_total(seq![v]) == layer_total(v@) by {
        assert(seq![v].drop_last() =~= Seq::empty());
    }
}

/// The bytes of a layer are those of its experts together.
pub proof fn law_the_bytes_of_a_layer_add_up(a: Seq<PlannedExpert>, b: Seq<PlannedExpert>)
    ensures
        layer_total(a + b) == layer_total(a) + layer_total(b),
    decreases b.len(),
{
    if b.len() == 0 {
        assert(a + b =~= a);
    } else {
        law_the_bytes_of_a_layer_add_up(a, b.drop_last());
        assert((a + b).drop_last() =~= a + b.drop_last());
        assert((a + b).last() == b.last());
    }
}

/// A planned expert has its three matrices where its record has them and with the shapes it says, in the
/// order of the record, and only a record with less than three of either is malformed.
pub proof fn law_a_planned_expert_is_its_record(p: PlannedExpert, rec: ExpertRecord)
    requires
        planned_from(p, Some(rec)),
    ensures
        rec.matrices is Some,
        p.shard_id == rec.shard_id,
        p.regions[0] == (rec.matrices->0).0[0] && p.regions[1] == (rec.matrices->0).0[1]
            && p.regions[2] == (rec.matrices->0).0[2],
        p.dims[0] == (rec.matrices->0).1[0] && p.dims[1] == (rec.matrices->0).1[1] && p.dims[2] == (
        rec.matrices->0).1[2],
        record_fault(None) == Some(PlanFault::NoRecord),
        record_fault(Some(rec)) is None <==> (rec.matrices->0).0.len() >= 3 && (
        rec.matrices->0).1.len() >= 3,
{
    let m = rec.matrices->0;
    assert(p.regions[0] == m.0[0] && p.regions[1] == m.0[1] && p.regions[2] == m.0[2]);
    assert(p.dims[0] == m.1[0] && p.dims[1] == m.1[1] && p.dims[2] == m.1[2]);
}

/// A record of an expert is as large as its three matrices are together, and one without them has no size.
pub proof fn law_the_size_of_a_record(r: ExpertRecord)
    ensures
        r.matrices matches Some(m) ==> {
            &&& m.0.len() >= 3 ==> record_size(Some(r)) == m.0[0].1 + m.0[1].1 + m.0[2].1
            &&& m.0.len() < 3 ==> record_size(Some(r)) == 0
        },
        r.matrices is None ==> record_size(Some(r)) == 0,
        record_size(None) == 0,
{
}

} // verus!
