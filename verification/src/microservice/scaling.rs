//! More cores and replicas for the microservices of a call graph, with or without longer
//! service times to match, and the flags that ask for it.

use super::callgraph::{CallGraph, GraphModel, MicroserviceSpec};
use crate::key_map::NameMap;
use crate::text::{decimal, quoted, quoted_of, Text};
use vstd::prelude::*;

verus! {

/// `delta` more cores and replicas.
pub open spec fn scaled(spec: MicroserviceSpec, delta: u32) -> MicroserviceSpec {
    MicroserviceSpec {
        cpu: (spec.cpu + delta) as u32,
        replicas: (spec.replicas + delta) as u32,
    }
}

/// `delta` more cores and replicas as far as they can be counted, the cores first.
pub open spec fn scaled_as_far(spec: MicroserviceSpec, delta: u32) -> MicroserviceSpec {
    if spec.cpu + delta > u32::MAX {
        spec
    } else if spec.replicas + delta > u32::MAX {
        MicroserviceSpec { cpu: (spec.cpu + delta) as u32, ..spec }
    } else {
        scaled(spec, delta)
    }
}

/// Why `delta` more cores and replicas cannot be counted.
pub open spec fn scale_fault(
    id: Seq<char>,
    spec: MicroserviceSpec,
    delta: u32,
    flag: Seq<char>,
) -> Option<Seq<char>> {
    if spec.cpu + delta > u32::MAX {
        Some("node "@ + id + " cpu overflow after "@ + flag + " "@ + decimal(delta as nat))
    } else if spec.replicas + delta > u32::MAX {
        Some("node "@ + id + " replicas overflow after "@ + flag + " "@ + decimal(delta as nat))
    } else {
        None
    }
}

fn scale_spec(id: &String, spec: &mut MicroserviceSpec, delta: u32, flag: &str) -> (r: Result<
    (),
    String,
>)
    ensures
        *final(spec) == scaled_as_far(*old(spec), delta),
        match r {
            Ok(_) => scale_fault(id@, *old(spec), delta, flag@) is None,
            Err(text) => scale_fault(id@, *old(spec), delta, flag@) == Some(text@),
        },
{
    let cpu: u32 = match spec.cpu.checked_add(delta) {
        Some(cpu) => cpu,
        None => {
            return Err(
                Text::of("node ").lit(id).lit(" cpu overflow after ").lit(flag).lit(" ").num(
                    delta as u64,
                ).done(),
            );
        },
    };
    spec.cpu = cpu;
    let replicas: u32 = match spec.replicas.checked_add(delta) {
        Some(replicas) => replicas,
        None => {
            return Err(
                Text::of("node ").lit(id).lit(" replicas overflow after ").lit(flag).lit(" ").num(
                    delta as u64,
                ).done(),
            );
        },
    };
    spec.replicas = replicas;
    Ok(())
}

/// `before` and `after` differ in their microservices only, which have the same names.
pub open spec fn same_but_specs(before: GraphModel, after: GraphModel) -> bool {
    &&& after == (GraphModel { specs: after.specs, ..before })
    &&& after.specs.dom() == before.specs.dom()
}

/// The endpoints of `microservice` take longer, by `cpu + delta` over `cpu`.
#[derive(Clone, Debug)]
pub struct Stretch {
    pub microservice: String,
    pub cpu: u32,
    pub delta: u32,
}

/// A stretch as a mathematical value.
#[verifier::ext_equal]
pub struct StretchModel {
    pub microservice: Seq<char>,
    pub cpu: u32,
    pub delta: u32,
}

impl Stretch {
    pub open spec fn model(self) -> StretchModel {
        StretchModel { microservice: self.microservice@, cpu: self.cpu, delta: self.delta }
    }
}

pub open spec fn stretches_of(list: Seq<Stretch>) -> Seq<StretchModel> {
    list.map_values(|s: Stretch| s.model())
}

/// How the microservices and the service times are scaled together.
#[verifier::ext_equal]
pub struct Scaling {
    pub specs: Map<Seq<char>, MicroserviceSpec>,
    pub stretches: Seq<StretchModel>,
}

/// Why scaling stopped, and what the microservices had become by then.
#[verifier::ext_equal]
pub struct Stop {
    pub text: Seq<char>,
    pub specs: Map<Seq<char>, MicroserviceSpec>,
}

impl Scaling {
    /// `delta` more cores and replicas for `id`, whose endpoints take longer in turn.
    pub open spec fn step(self, id: Seq<char>, delta: u32) -> Result<Scaling, Stop> {
        if delta == 0 {
            Ok(self)
        } else if !self.specs.dom().contains(id) {
            Err(Stop { text: "--eq-scale unknown microservice "@ + id, specs: self.specs })
        } else {
            match scale_fault(id, self.specs[id], delta, "--eq-scale"@) {
                Some(text) => Err(
                    Stop {
                        text,
                        specs: self.specs.insert(id, scaled_as_far(self.specs[id], delta)),
                    },
                ),
                None => Ok(
                    Scaling {
                        specs: self.specs.insert(id, scaled(self.specs[id], delta)),
                        stretches: self.stretches.push(
                            StretchModel { microservice: id, cpu: self.specs[id].cpu, delta },
                        ),
                    },
                ),
            }
        }
    }

    /// The first `k` of `steps`, one after the other, up to the first that fails.
    pub open spec fn steps(self, steps: Seq<(Seq<char>, u32)>, k: nat) -> Result<Scaling, Stop>
        decreases k,
    {
        if k == 0 {
            Ok(self)
        } else {
            match self.steps(steps, (k - 1) as nat) {
                Err(stop) => Err(stop),
                Ok(before) => before.step(steps[k - 1].0, steps[k - 1].1),
            }
        }
    }
}

/// Every microservice in the order of the file, then each named one.
pub open spec fn scale_steps(
    order: Seq<Seq<char>>,
    all: Option<u32>,
    named: NameMap<u32>,
) -> Seq<(Seq<char>, u32)> {
    let every = match all {
        Some(delta) => Seq::new(order.len(), |i: int| (order[i], delta)),
        None => Seq::empty(),
    };
    every + Seq::new(named.ids().len(), |i: int| (named.ids()[i], named@[named.ids()[i]]))
}

/// The first of the first `k` names that is no microservice.
pub open spec fn unknown_name(
    names: Seq<Seq<char>>,
    specs: Map<Seq<char>, MicroserviceSpec>,
    k: nat,
) -> Option<Seq<char>>
    decreases k,
{
    if k == 0 {
        None
    } else {
        match unknown_name(names, specs, (k - 1) as nat) {
            Some(name) => Some(name),
            None => if specs.dom().contains(names[k - 1]) {
                None
            } else {
                Some(names[k - 1])
            },
        }
    }
}

/// What scaling all microservices by `all` and each named one by its own number comes to.
/// An unknown name stops it before anything is scaled.
pub open spec fn eq_scaled(graph: GraphModel, all: Option<u32>, named: NameMap<u32>) -> Result<
    Scaling,
    Stop,
> {
    match unknown_name(named.ids(), graph.specs, named.ids().len()) {
        Some(name) => Err(
            Stop { text: "--eq-scale unknown microservice "@ + name, specs: graph.specs },
        ),
        None => {
            let steps = scale_steps(graph.order, all, named);
            Scaling { specs: graph.specs, stretches: Seq::empty() }.steps(steps, steps.len())
        },
    }
}

impl CallGraph {
    /// Gives every microservice `delta` more cores and replicas. Fails where a count would
    /// overflow: that microservice is then scaled as far as it can be counted, and each other
    /// one is scaled or left as it was.
    pub fn apply_scale(&mut self, delta: u32) -> (r: Result<(), String>)
        requires
            old(self).wf(),
        ensures
            final(self).wf(),
            same_but_specs(old(self)@, final(self)@),
            final(self).service_dist == old(self).service_dist,
            r is Ok && old(self)@.is_complete() ==> final(self)@.is_complete(),
            forall|id: Seq<char>| #[trigger]
                old(self)@.specs.dom().contains(id) ==> final(self)@.specs[id] == scaled_as_far(
                    old(self)@.specs[id],
                    delta,
                ) || r is Err && final(self)@.specs[id] == old(self)@.specs[id],
            match r {
                Ok(_) => forall|id: Seq<char>| #[trigger]
                    old(self)@.specs.dom().contains(id) ==> scale_fault(
                        id,
                        old(self)@.specs[id],
                        delta,
                        "--scale"@,
                    ) is None && final(self)@.specs[id] == scaled(old(self)@.specs[id], delta),
                Err(text) => exists|id: Seq<char>| #[trigger]
                    old(self)@.specs.dom().contains(id) && scale_fault(
                        id,
                        old(self)@.specs[id],
                        delta,
                        "--scale"@,
                    ) == Some(text@) && final(self)@.specs[id] == scaled_as_far(
                        old(self)@.specs[id],
                        delta,
                    ),
            },
    {
        if delta == 0 {
            return Ok(());
        }
        let ghost start = self@;
        proof {
            self.microservices.lemma_ids();
        }
        let ghost names = self.microservices.ids();
        let mut i: usize = 0;
        while i < self.microservices.len()
            invariant
                self.wf(),
                self.service_dist == old(self).service_dist,
                start == old(self)@,
                names == self.microservices.ids(),
                names.no_duplicates(),
                forall|name: Seq<char>| #[trigger]
                    start.specs.dom().contains(name) <==> names.contains(name),
                i <= names.len(),
                same_but_specs(start, self@),
                forall|j: int|
                    0 <= j < i ==> scale_fault(
                        #[trigger] names[j],
                        start.specs[names[j]],
                        delta,
                        "--scale"@,
                    ) is None && self@.specs[names[j]] == scaled(start.specs[names[j]], delta),
                forall|j: int|
                    i <= j < names.len() ==> self@.specs[#[trigger] names[j]]
                        == start.specs[names[j]],
            decreases names.len() - i,
        {
            let mut spec = *self.microservices.value_at(i);
            assert(names.contains(names[i as int]));
            let scaling = scale_spec(self.microservices.key_at(i), &mut spec, delta, "--scale");
            *self.microservices.value_mut(i) = spec;
            assert(self@.specs.dom() =~= start.specs.dom());
            match scaling {
                Ok(_) => {},
                Err(text) => {
                    assert(start.specs.dom().contains(names[i as int]));
                    proof {
                        assert forall|id: Seq<char>| #[trigger]
                            start.specs.dom().contains(id) implies self@.specs[id] == scaled_as_far(
                            start.specs[id],
                            delta,
                        ) || self@.specs[id] == start.specs[id] by {
                            assert(names.contains(id));
                            let j = choose|j: int| 0 <= j < names.len() && names[j] == id;
                            assert(names[j] == id);
                        }
                    }
                    return Err(text);
                },
            }
            i += 1;
        }
        proof {
            assert forall|id: Seq<char>| #[trigger] start.specs.dom().contains(id) implies scale_fault(
                id,
                start.specs[id],
                delta,
                "--scale"@,
            ) is None && self@.specs[id] == scaled(start.specs[id], delta) by {
                assert(names.contains(id));
                let j = choose|j: int| 0 <= j < names.len() && names[j] == id;
                assert(names[j] == id);
            }
        }
        Ok(())
    }

    fn eq_scale_service(&mut self, id: &String, delta: u32, stretches: &mut Vec<Stretch>) -> (r:
        Result<(), String>)
        requires
            old(self).wf(),
        ensures
            final(self).wf(),
            same_but_specs(old(self)@, final(self)@),
            final(self).service_dist == old(self).service_dist,
            ({
                let before = Scaling {
                    specs: old(self)@.specs,
                    stretches: stretches_of(old(stretches)@),
                };
                match r {
                    Ok(_) => before.step(id@, delta) == Ok::<Scaling, Stop>(
                        Scaling {
                            specs: final(self)@.specs,
                            stretches: stretches_of(final(stretches)@),
                        },
                    ),
                    Err(text) => before.step(id@, delta) == Err::<Scaling, Stop>(
                        Stop { text: text@, specs: final(self)@.specs },
                    ),
                }
            }),
    {
        if delta == 0 {
            return Ok(());
        }
        let i: usize = match self.microservices.find(id) {
            Some(i) => i,
            None => {
                return Err(Text::of("--eq-scale unknown microservice ").lit(id).done());
            },
        };
        let mut spec = *self.microservices.value_at(i);
        let cpu: u32 = spec.cpu;
        let scaling = scale_spec(id, &mut spec, delta, "--eq-scale");
        *self.microservices.value_mut(i) = spec;
        assert(self@.specs.dom() =~= old(self)@.specs.dom());
        match scaling {
            Ok(_) => {
                stretches.push(Stretch { microservice: id.clone(), cpu, delta });
                assert(stretches_of(stretches@) =~= stretches_of(old(stretches)@).push(
                    StretchModel { microservice: id@, cpu, delta },
                ));
                Ok(())
            },
            Err(text) => Err(text),
        }
    }

    /// Gives cores and replicas to microservices, and lists by how much the service times
    /// of their endpoints grow so that cores over service time stays constant. `all` is
    /// applied first, then each named number adds on top. An unknown name leaves the graph as
    /// it was; where a count would overflow, the microservices before that one are scaled, and
    /// that one as far as it can be counted.
    pub fn apply_eq_scale(&mut self, all: Option<u32>, named: &NameMap<u32>) -> (r: Result<
        Vec<Stretch>,
        String,
    >)
        requires
            old(self).wf(),
            named.wf(),
        ensures
            final(self).wf(),
            same_but_specs(old(self)@, final(self)@),
            final(self).service_dist == old(self).service_dist,
            r is Ok && old(self)@.is_complete() ==> final(self)@.is_complete(),
            match r {
                Ok(stretches) => eq_scaled(old(self)@, all, *named) == Ok::<Scaling, Stop>(
                    Scaling { specs: final(self)@.specs, stretches: stretches_of(stretches@) },
                ),
                Err(text) => eq_scaled(old(self)@, all, *named) == Err::<Scaling, Stop>(
                    Stop { text: text@, specs: final(self)@.specs },
                ),
            },
            unknown_name(named.ids(), old(self)@.specs, named.ids().len()) is Some ==> r is Err
                && final(self)@ == old(self)@,
    {
        let ghost start = self@;
        let mut i: usize = 0;
        while i < named.len()
            invariant
                self.wf(),
                named.wf(),
                i <= named.ids().len(),
                unknown_name(named.ids(), self@.specs, i as nat) is None,
                self@ == start,
                start == old(self)@,
                *self == *old(self),
            decreases named.ids().len() - i,
        {
            let name = named.key_at(i);
            if !self.microservices.contains(name) {
                proof {
                    lemma_unknown_name(
                        named.ids(),
                        start.specs,
                        (i + 1) as nat,
                        named.ids().len(),
                    );
                }
                return Err(Text::of("--eq-scale unknown microservice ").lit(name).done());
            }
            i += 1;
        }
        let ghost first = Scaling { specs: start.specs, stretches: Seq::<StretchModel>::empty() };
        let ghost steps = scale_steps(start.order, all, *named);
        let mut stretches: Vec<Stretch> = Vec::new();
        assert(stretches_of(stretches@) =~= Seq::<StretchModel>::empty());
        let ghost mut done: nat = 0;
        match all {
            Some(delta) => {
                let mut k: usize = 0;
                while k < self.microservice_order.len()
                    invariant
                        self.wf(),
                        self.service_dist == old(self).service_dist,
                        start == old(self)@,
                        same_but_specs(start, self@),
                        k <= start.order.len(),
                        all == Some(delta),
                        steps == scale_steps(start.order, all, *named),
                        first.steps(steps, k as nat) == Ok::<Scaling, Stop>(
                            Scaling {
                                specs: self@.specs,
                                stretches: stretches_of(stretches@),
                            },
                        ),
                        eq_scaled(start, all, *named) == first.steps(steps, steps.len()),
                    decreases start.order.len() - k,
                {
                    let id = self.microservice_order[k].clone();
                    assert(steps[k as int] == (id@, delta));
                    match self.eq_scale_service(&id, delta, &mut stretches) {
                        Ok(_) => {},
                        Err(text) => {
                            proof {
                                lemma_steps_stop(first, steps, (k + 1) as nat, steps.len());
                            }
                            return Err(text);
                        },
                    }
                    k += 1;
                }
                proof {
                    done = start.order.len();
                }
            },
            None => {},
        }
        let mut k: usize = 0;
        while k < named.len()
            invariant
                self.wf(),
                named.wf(),
                self.service_dist == old(self).service_dist,
                start == old(self)@,
                same_but_specs(start, self@),
                k <= named.ids().len(),
                done == (if all is Some {
                    start.order.len()
                } else {
                    0
                }),
                steps == scale_steps(start.order, all, *named),
                first.steps(steps, done + k as nat) == Ok::<Scaling, Stop>(
                    Scaling { specs: self@.specs, stretches: stretches_of(stretches@) },
                ),
                eq_scaled(start, all, *named) == first.steps(steps, steps.len()),
            decreases named.ids().len() - k,
        {
            let id = named.key_at(k);
            let delta: u32 = *named.value_at(k);
            assert(steps[done + k] == (id@, delta));
            match self.eq_scale_service(id, delta, &mut stretches) {
                Ok(_) => {},
                Err(text) => {
                    proof {
                        lemma_steps_stop(first, steps, done + (k + 1) as nat, steps.len());
                    }
                    return Err(text);
                },
            }
            k += 1;
        }
        assert(done + k == steps.len());
        proof {
            if start.is_complete() {
                law_scaling_keeps_graph_complete(start, self@, all, *named);
            }
        }
        Ok(stretches)
    }
}

/// Scaling up takes nothing away: a graph that is complete stays complete.
pub proof fn law_scaling_keeps_graph_complete(
    before: GraphModel,
    after: GraphModel,
    all: Option<u32>,
    named: NameMap<u32>,
)
    requires
        before.is_complete(),
        same_but_specs(before, after),
        eq_scaled(before, all, named) matches Ok(scaling) && scaling.specs == after.specs,
    ensures
        after.is_complete(),
{
    let steps = scale_steps(before.order, all, named);
    let first = Scaling { specs: before.specs, stretches: Seq::empty() };
    assert forall|id: Seq<char>| #[trigger] after.specs.dom().contains(id) implies after.specs[id].cpu
        > 0 && after.specs[id].replicas > 0 by {
        lemma_steps_grow(first, steps, steps.len(), id);
        assert(before.specs.dom().contains(id));
    }
}

proof fn lemma_steps_grow(first: Scaling, steps: Seq<(Seq<char>, u32)>, k: nat, id: Seq<char>)
    requires
        first.steps(steps, k) is Ok,
        first.specs.dom().contains(id),
    ensures
        ({
            let after = first.steps(steps, k)->Ok_0;
            &&& after.specs.dom().contains(id)
            &&& after.specs[id].cpu >= first.specs[id].cpu
            &&& after.specs[id].replicas >= first.specs[id].replicas
        }),
    decreases k,
{
    if k > 0 {
        lemma_steps_grow(first, steps, (k - 1) as nat, id);
    }
}

/// What the first `k` of `steps` add to `id`, all together.
pub open spec fn added(steps: Seq<(Seq<char>, u32)>, k: nat, id: Seq<char>) -> nat
    decreases k,
{
    if k == 0 {
        0
    } else {
        added(steps, (k - 1) as nat, id) + if steps[k - 1].0 == id {
            steps[k - 1].1 as nat
        } else {
            0
        }
    }
}

proof fn lemma_steps_add(first: Scaling, steps: Seq<(Seq<char>, u32)>, k: nat, id: Seq<char>)
    requires
        first.steps(steps, k) is Ok,
        first.specs.dom().contains(id),
    ensures
        ({
            let after = first.steps(steps, k)->Ok_0;
            &&& after.specs.dom().contains(id)
            &&& after.specs[id].cpu == first.specs[id].cpu + added(steps, k, id)
            &&& after.specs[id].replicas == first.specs[id].replicas + added(steps, k, id)
        }),
    decreases k,
{
    if k > 0 {
        lemma_steps_add(first, steps, (k - 1) as nat, id);
    }
}

/// A step that comes once counts once, and one that does not come counts for nothing.
proof fn lemma_added_once(steps: Seq<(Seq<char>, u32)>, from: nat, k: nat, id: Seq<char>, at: int)
    requires
        from <= k <= steps.len(),
        forall|i: int| from <= i < k && i != at ==> (#[trigger] steps[i]).0 != id,
        from <= at < k ==> steps[at].0 == id,
    ensures
        added(steps, k, id) == added(steps, from, id) + if from <= at < k {
            steps[at].1 as nat
        } else {
            0
        },
    decreases k,
{
    if k > from {
        lemma_added_once(steps, from, (k - 1) as nat, id, at);
    }
}

/// Scaling gives a microservice that comes once in the order exactly the number for all
/// microservices and its own number, in cores and in replicas. Where both are zero or
/// missing, it stays as it is.
pub proof fn law_eq_scale_adds_both_numbers(
    graph: GraphModel,
    all: Option<u32>,
    named: NameMap<u32>,
    id: Seq<char>,
)
    requires
        named.wf(),
        eq_scaled(graph, all, named) is Ok,
        graph.specs.dom().contains(id),
        graph.order.contains(id),
        graph.order.no_duplicates(),
    ensures
        ({
            let after = eq_scaled(graph, all, named)->Ok_0.specs[id];
            let more = (match all {
                Some(delta) => delta as nat,
                None => 0,
            }) + if named@.dom().contains(id) {
                named@[id] as nat
            } else {
                0
            };
            &&& after.cpu == graph.specs[id].cpu + more
            &&& after.replicas == graph.specs[id].replicas + more
        }),
{
    let steps = scale_steps(graph.order, all, named);
    let first = Scaling { specs: graph.specs, stretches: Seq::empty() };
    lemma_steps_add(first, steps, steps.len(), id);
    named.lemma_ids();
    let every = match all {
        Some(_) => graph.order.len(),
        None => 0,
    };
    let at = choose|at: int| 0 <= at < graph.order.len() && graph.order[at] == id;
    assert forall|i: int| 0 <= i < every && i != at implies (#[trigger] steps[i]).0 != id by {
        assert(graph.order[i] != graph.order[at]);
    }
    lemma_added_once(steps, 0, every, id, at);
    if named@.dom().contains(id) {
        assert(named.ids().contains(id));
        let own = choose|own: int| 0 <= own < named.ids().len() && named.ids()[own] == id;
        assert forall|i: int| every <= i < steps.len() && i != every + own implies (
        #[trigger] steps[i]).0 != id by {
            assert(named.ids()[i - every] != named.ids()[own]);
        }
        lemma_added_once(steps, every, steps.len(), id, every + own);
    } else {
        assert forall|i: int| every <= i < steps.len() implies (#[trigger] steps[i]).0 != id by {
            assert(named.ids().contains(named.ids()[i - every]));
        }
        lemma_added_once(steps, every, steps.len(), id, -1);
    }
}

/// The stretches of `id` lead from `from` cores to `to` cores, each one starting where the
/// one before it ended.
pub open spec fn chained(stretches: Seq<StretchModel>, id: Seq<char>, from: int, to: int) -> bool
    decreases stretches.len(),
{
    if stretches.len() == 0 {
        from == to
    } else {
        let last = stretches.last();
        if last.microservice == id {
            last.cpu + last.delta == to && chained(stretches.drop_last(), id, from, last.cpu as int)
        } else {
            chained(stretches.drop_last(), id, from, to)
        }
    }
}

/// Scaling keeps cores over service time constant: the factors by which the service times
/// of a microservice grow multiply up to its cores after scaling over its cores before.
pub proof fn law_eq_scale_keeps_capacity(
    graph: GraphModel,
    all: Option<u32>,
    named: NameMap<u32>,
    id: Seq<char>,
)
    requires
        eq_scaled(graph, all, named) is Ok,
        graph.specs.dom().contains(id),
    ensures
        ({
            let after = eq_scaled(graph, all, named)->Ok_0;
            &&& after.specs.dom().contains(id)
            &&& chained(
                after.stretches,
                id,
                graph.specs[id].cpu as int,
                after.specs[id].cpu as int,
            )
        }),
{
    let steps = scale_steps(graph.order, all, named);
    let first = Scaling { specs: graph.specs, stretches: Seq::empty() };
    lemma_steps_chained(first, steps, steps.len(), id);
}

proof fn lemma_steps_chained(first: Scaling, steps: Seq<(Seq<char>, u32)>, k: nat, id: Seq<char>)
    requires
        first.stretches.len() == 0,
        first.specs.dom().contains(id),
        first.steps(steps, k) is Ok,
    ensures
        ({
            let after = first.steps(steps, k)->Ok_0;
            &&& after.specs.dom().contains(id)
            &&& chained(
                after.stretches,
                id,
                first.specs[id].cpu as int,
                after.specs[id].cpu as int,
            )
        }),
    decreases k,
{
    if k > 0 {
        lemma_steps_chained(first, steps, (k - 1) as nat, id);
        let before = first.steps(steps, (k - 1) as nat)->Ok_0;
        let after = first.steps(steps, k)->Ok_0;
        if steps[k - 1].1 != 0 {
            assert(after.stretches.drop_last() =~= before.stretches);
        }
    }
}

#[derive(Clone, Debug, PartialEq, Eq)]
pub enum EqScaleSpec {
    All(u32),
    Named(String, u32),
}

/// A scaling flag as a mathematical value.
pub enum EqScaleModel {
    All(u32),
    Named(Seq<char>, u32),
}

impl EqScaleSpec {
    pub open spec fn model(self) -> EqScaleModel {
        match self {
            EqScaleSpec::All(n) => EqScaleModel::All(n),
            EqScaleSpec::Named(name, n) => EqScaleModel::Named(name@, n),
        }
    }
}

/// The number that the decimal digits of `s` stand for.
pub open spec fn digits_value(s: Seq<char>) -> nat
    decreases s.len(),
{
    if s.len() == 0 {
        0
    } else {
        digits_value(s.drop_last()) * 10 + (s.last() as nat - '0' as nat) as nat
    }
}

pub open spec fn all_digits(s: Seq<char>) -> bool {
    forall|i: int| 0 <= i < s.len() ==> '0' <= (#[trigger] s[i]) && s[i] <= '9'
}

/// Digits read as a count.
pub open spec fn digits_of(body: Seq<char>) -> Option<u32> {
    if body.len() > 0 && all_digits(body) && digits_value(body) <= u32::MAX {
        Some(digits_value(body) as u32)
    } else {
        None
    }
}

/// `s` read as a count: digits, with at most a plus sign before them.
pub open spec fn count_of(s: Seq<char>) -> Option<u32> {
    if s.len() > 0 && s[0] == '+' {
        digits_of(s.skip(1))
    } else {
        digits_of(s)
    }
}

proof fn lemma_one_more_digit(head: Seq<char>, c: char)
    ensures
        all_digits(head) && '0' <= c && c <= '9' ==> all_digits(head.push(c)),
        digits_value(head.push(c)) == digits_value(head) * 10 + (c as nat - '0' as nat) as nat,
{
    let longer = head.push(c);
    assert(longer.drop_last() =~= head);
    if all_digits(head) && '0' <= c && c <= '9' {
        assert forall|j: int| 0 <= j < longer.len() implies '0' <= (#[trigger] longer[j])
            && longer[j] <= '9' by {
            if j < head.len() {
                assert(head[j] == longer[j]);
            }
        }
    }
}

/// Reads the characters of `s` from `start` on as a count.
fn parse_digits(s: &str, start: usize) -> (r: Option<u32>)
    requires
        start <= s@.len(),
    ensures
        r == digits_of(s@.skip(start as int)),
{
    let n: usize = s.unicode_len();
    let ghost body = s@.skip(start as int);
    if start == n {
        return None;
    }
    let mut value: u64 = 0;
    let mut over = false;
    let mut i: usize = start;
    assert(body.take(0) =~= Seq::<char>::empty());
    while i < n
        invariant
            n == s@.len(),
            start <= i <= n,
            body == s@.skip(start as int),
            all_digits(body.take(i - start)),
            over <==> digits_value(body.take(i - start)) > u32::MAX,
            !over ==> value == digits_value(body.take(i - start)),
        decreases n - i,
    {
        let c: char = s.get_char(i);
        assert(body[i - start] == c);
        if !('0' <= c && c <= '9') {
            return None;
        }
        proof {
            assert(body.take(i + 1 - start) =~= body.take(i - start).push(c));
            lemma_one_more_digit(body.take(i - start), c);
        }
        if !over {
            value = value * 10 + (c as u64 - '0' as u64);
            if value > u32::MAX as u64 {
                over = true;
            }
        }
        i += 1;
    }
    assert(body.take(n - start) =~= body);
    if over {
        None
    } else {
        Some(value as u32)
    }
}

fn parse_count(s: &str) -> (r: Option<u32>)
    ensures
        r == count_of(s@),
{
    if s.unicode_len() > 0 && s.get_char(0) == '+' {
        parse_digits(s, 1)
    } else {
        assert(s@.skip(0) =~= s@);
        parse_digits(s, 0)
    }
}

/// What a scaling flag means: a bare number, or a name, an equals sign and a number.
pub open spec fn eq_scale_of(s: Seq<char>) -> Result<EqScaleModel, Seq<char>> {
    match s.index_of_first('=') {
        Some(at) => if at == 0 {
            Err("--eq-scale NAME=N requires a microservice name"@)
        } else {
            match count_of(s.skip(at + 1)) {
                Some(n) => Ok(EqScaleModel::Named(s.take(at), n)),
                None => Err("invalid --eq-scale count "@ + quoted_of(s.skip(at + 1))),
            }
        },
        None => match count_of(s) {
            Some(n) => Ok(EqScaleModel::All(n)),
            None => Err(
                "invalid --eq-scale value "@ + quoted_of(s) + " (expected N or NAME=N)"@,
            ),
        },
    }
}

/// Reads a scaling flag.
pub fn parse_eq_scale_spec(s: &str) -> (r: Result<EqScaleSpec, String>)
    ensures
        match r {
            Ok(spec) => eq_scale_of(s@) == Ok::<EqScaleModel, Seq<char>>(spec.model()),
            Err(text) => eq_scale_of(s@) == Err::<EqScaleModel, Seq<char>>(text@),
        },
{
    let n: usize = s.unicode_len();
    proof {
        s@.index_of_first_ensures('=');
    }
    let mut at: usize = 0;
    while at < n
        invariant
            n == s@.len(),
            at <= n,
            forall|j: int| 0 <= j < at ==> s@[j] != '=',
            match s@.index_of_first('=') {
                Some(index) => {
                    &&& 0 <= index < s@.len()
                    &&& s@[index] == '='
                    &&& forall|j: int| 0 <= j < index ==> s@[j] != '='
                },
                None => !s@.contains('='),
            },
        decreases n - at,
    {
        if s.get_char(at) == '=' {
            assert(s@.contains('='));
            assert(s@.index_of_first('=') == Some(at as int)) by {
                let index = s@.index_of_first('=')->0;
                if index < at {
                    assert(s@[index] != '=');
                } else if at < index {
                    assert(s@[at as int] != '=');
                }
            }
            if at == 0 {
                return Err("--eq-scale NAME=N requires a microservice name".to_owned());
            }
            let name = s.substring_char(0, at);
            let count = s.substring_char(at + 1, n);
            assert(name@ =~= s@.take(at as int));
            assert(count@ =~= s@.skip(at + 1));
            return match parse_count(count) {
                Some(n) => Ok(EqScaleSpec::Named(name.to_owned(), n)),
                None => Err(Text::of("invalid --eq-scale count ").lit(&quoted(count)).done()),
            };
        }
        at += 1;
    }
    match parse_count(s) {
        Some(n) => Ok(EqScaleSpec::All(n)),
        None => Err(
            Text::of("invalid --eq-scale value ").lit(&quoted(s)).lit(
                " (expected N or NAME=N)",
            ).done(),
        ),
    }
}

/// The scaling flags put together: the bare number, and the numbers by name.
pub open spec fn collected(specs: Seq<EqScaleSpec>, k: nat) -> Result<
    (Option<u32>, Map<Seq<char>, u32>),
    Seq<char>,
>
    decreases k,
{
    if k == 0 {
        Ok((None, Map::empty()))
    } else {
        match collected(specs, (k - 1) as nat) {
            Err(text) => Err(text),
            Ok((all, named)) => match specs[k - 1].model() {
                EqScaleModel::All(n) => if all is Some {
                    Err("at most one bare --eq-scale N is allowed"@)
                } else {
                    Ok((Some(n), named))
                },
                EqScaleModel::Named(name, n) => if named.dom().contains(name) {
                    Err("duplicate --eq-scale microservice "@ + name)
                } else {
                    Ok((all, named.insert(name, n)))
                },
            },
        }
    }
}

/// Puts the scaling flags together. A bare number, or a name, may stand once only.
pub fn collect_eq_scale(specs: &[EqScaleSpec]) -> (r: Result<(Option<u32>, NameMap<u32>), String>)
    ensures
        match r {
            Ok(both) => both.1.wf() && collected(specs@, specs@.len()) == Ok::<
                (Option<u32>, Map<Seq<char>, u32>),
                Seq<char>,
            >((both.0, both.1@)),
            Err(text) => collected(specs@, specs@.len()) == Err::<
                (Option<u32>, Map<Seq<char>, u32>),
                Seq<char>,
            >(text@),
        },
{
    let mut all: Option<u32> = None;
    let mut named: NameMap<u32> = NameMap::new();
    let mut i: usize = 0;
    while i < specs.len()
        invariant
            i <= specs@.len(),
            named.wf(),
            collected(specs@, i as nat) == Ok::<(Option<u32>, Map<Seq<char>, u32>), Seq<char>>(
                (all, named@),
            ),
        decreases specs@.len() - i,
    {
        match &specs[i] {
            EqScaleSpec::All(n) => {
                if all.is_some() {
                    proof {
                        lemma_collected_stops(specs@, (i + 1) as nat, specs@.len());
                    }
                    return Err("at most one bare --eq-scale N is allowed".to_owned());
                }
                all = Some(*n);
            },
            EqScaleSpec::Named(name, n) => {
                if named.insert(name.clone(), *n).is_some() {
                    proof {
                        lemma_collected_stops(specs@, (i + 1) as nat, specs@.len());
                    }
                    return Err(Text::of("duplicate --eq-scale microservice ").lit(name).done());
                }
            },
        }
        i += 1;
    }
    Ok((all, named))
}

proof fn lemma_collected_stops(specs: Seq<EqScaleSpec>, k: nat, n: nat)
    requires
        k <= n,
        collected(specs, k) is Err,
    ensures
        collected(specs, n) == collected(specs, k),
    decreases n - k,
{
    if k < n {
        lemma_collected_stops(specs, k, (n - 1) as nat);
    }
}

proof fn lemma_unknown_name(
    names: Seq<Seq<char>>,
    specs: Map<Seq<char>, MicroserviceSpec>,
    k: nat,
    n: nat,
)
    requires
        k <= n,
        unknown_name(names, specs, k) is Some,
    ensures
        unknown_name(names, specs, n) == unknown_name(names, specs, k),
    decreases n - k,
{
    if k < n {
        lemma_unknown_name(names, specs, k, (n - 1) as nat);
    }
}

proof fn lemma_steps_stop(first: Scaling, steps: Seq<(Seq<char>, u32)>, k: nat, n: nat)
    requires
        k <= n,
        first.steps(steps, k) is Err,
    ensures
        first.steps(steps, n) == first.steps(steps, k),
    decreases n - k,
{
    if k < n {
        lemma_steps_stop(first, steps, k, (n - 1) as nat);
    }
}

/// More cores and replicas are added to both numbers alike, and it is a fault exactly where one
/// of the sums is too large to be counted. Nothing is ever taken away.
pub proof fn law_scaling_adds_to_both_numbers(
    id: Seq<char>,
    spec: MicroserviceSpec,
    delta: u32,
    flag: Seq<char>,
)
    ensures
        scale_fault(id, spec, delta, flag) is None <==> spec.cpu + delta <= u32::MAX
            && spec.replicas + delta <= u32::MAX,
        scale_fault(id, spec, delta, flag) is None ==> scaled(spec, delta).cpu == spec.cpu + delta
            && scaled(spec, delta).replicas == spec.replicas + delta && scaled_as_far(spec, delta)
            == scaled(spec, delta),
        scaled_as_far(spec, delta).cpu >= spec.cpu,
        scaled_as_far(spec, delta).replicas >= spec.replicas,
        scaled_as_far(spec, 0) == spec,
{
}

/// A count is read digit by digit: one more digit makes ten times the number and the digit of
/// it. A plus sign before the digits changes nothing, and anything else is no count.
pub proof fn law_count_is_read_digit_by_digit(head: Seq<char>, c: char, digit: u32)
    requires
        digit <= 9,
        c as nat == '0' as nat + digit,
    ensures
        digits_value(Seq::empty()) == 0,
        digits_value(head.push(c)) == 10 * digits_value(head) + digit,
        digits_of(head) matches Some(n) ==> (10 * n + digit <= u32::MAX ==> digits_of(head.push(c))
            == Some((10 * n + digit) as u32)),
        digits_of(Seq::empty()) is None,
        count_of(seq!['+'] + head) == digits_of(head),
        forall|i: int|
            0 <= i < head.len() && !('0' <= #[trigger] head[i] && head[i] <= '9') ==> digits_of(
                head,
            ) is None,
{
    lemma_one_more_digit(head, c);
    assert((seq!['+'] + head).skip(1) =~= head);
}

/// A scaling flag with an equals sign scales the microservice that is named before it by the
/// count behind it, and one without scales all microservices.
pub proof fn law_scaling_flag_names_its_microservice(name: Seq<char>, count: Seq<char>, n: u32)
    requires
        !name.contains('='),
        count_of(count) == Some(n),
    ensures
        name.len() > 0 ==> eq_scale_of(name.push('=') + count) == Ok::<EqScaleModel, Seq<char>>(
            EqScaleModel::Named(name, n),
        ),
        eq_scale_of(seq!['='] + count) is Err,
        !count.contains('=') ==> eq_scale_of(count) == Ok::<EqScaleModel, Seq<char>>(
            EqScaleModel::All(n),
        ),
{
    let s = name.push('=') + count;
    s.index_of_first_ensures('=');
    assert(s[name.len() as int] == '=');
    assert(s.contains('='));
    let at = s.index_of_first('=')->0;
    if at < name.len() {
        assert(name[at] == '=');
        assert(name.contains('='));
    } else if at > name.len() {
        assert(s[name.len() as int] != '=');
    }
    assert(s.take(at) =~= name);
    assert(s.skip(at + 1) =~= count);
    let bare = seq!['='] + count;
    bare.index_of_first_ensures('=');
    assert(bare[0] == '=');
    assert(bare.contains('='));
    let first = bare.index_of_first('=')->0;
    if first > 0 {
        assert(bare[0] != '=');
    }
    count.index_of_first_ensures('=');
}

/// Scaling flags are put together one by one: a bare number counts for all microservices and may
/// come once, a named one counts for its microservice and each name may come once. Whatever was
/// put together before stays.
pub proof fn law_scaling_flags_are_put_together(specs: Seq<EqScaleSpec>, next: EqScaleSpec)
    ensures
        collected(Seq::empty(), 0) == Ok::<(Option<u32>, Map<Seq<char>, u32>), Seq<char>>(
            (None, Map::empty()),
        ),
        collected(specs, specs.len()) matches Ok((all, named)) ==> {
            let after = collected(specs.push(next), specs.len() + 1);
            match next {
                EqScaleSpec::All(n) => {
                    &&& all is None ==> after == Ok::<
                        (Option<u32>, Map<Seq<char>, u32>),
                        Seq<char>,
                    >((Some(n), named))
                    &&& all is Some ==> after is Err
                },
                EqScaleSpec::Named(name, n) => {
                    &&& !named.dom().contains(name@) ==> after == Ok::<
                        (Option<u32>, Map<Seq<char>, u32>),
                        Seq<char>,
                    >((all, named.insert(name@, n)))
                    &&& named.dom().contains(name@) ==> after is Err
                },
            }
        },
        collected(specs, specs.len()) is Err ==> collected(specs.push(next), specs.len() + 1) is Err,
{
    lemma_collected_prefix(specs, next, specs.len());
}

proof fn lemma_collected_prefix(specs: Seq<EqScaleSpec>, next: EqScaleSpec, k: nat)
    requires
        k <= specs.len(),
    ensures
        collected(specs.push(next), k) == collected(specs, k),
    decreases k,
{
    if k > 0 {
        lemma_collected_prefix(specs, next, (k - 1) as nat);
    }
}

} // verus!
