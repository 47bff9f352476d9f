use vstd::prelude::*;

use crate::schedule::{
    all_indices, ids_at, ids_of_layers, spec_layering, spec_stages, ConfigError, StagesBuilder,
    SysHints, SystemInfo, SystemType,
};

verus! {

/// How many systems one stage may hold at most, unless configured
/// otherwise: a deliberate fan-out cap, not derived from hardware.
pub const DEFAULT_STAGE_CAP: usize = 5;

/// How many elapsed time units still let the logic phase run in an
/// iteration, unless configured otherwise.
pub const DEFAULT_LOGIC_GATE_MS: u64 = 50;

/// What the registry remembers about one system after registration: its
/// id, its hard dependencies (existence checks only), and its phase.
pub struct SystemRecord {
    pub id: String,
    pub depends: Vec<String>,
    pub sys_type: SystemType,
}

/// Collects system registrations, then builds the stage pipeline once:
/// duplicate ids are rejected as they arrive, hard dependencies are
/// validated before scheduling, and each phase is layered and cut into
/// bounded stages independently.
pub struct DispatcherBuilder {
    pub systems: Vec<SystemRecord>,
    pub preproc: StagesBuilder,
    pub logic: StagesBuilder,
    pub postproc: StagesBuilder,
    pub stage_cap: usize,
    pub logic_gate_ms: u64,
}

impl DispatcherBuilder {
    /// Whether a system with this id has been registered.
    pub open spec fn spec_has_system(self, name: Seq<char>) -> bool {
        exists|i: int| 0 <= i < self.systems@.len() && (#[trigger] self.systems@[i].id@) == name
    }

    /// Every hard dependency of every registered system names a
    /// registered system.
    pub open spec fn spec_deps_ok(self) -> bool {
        forall|i: int, j: int|
            0 <= i < self.systems@.len() && 0 <= j < self.systems@[i].depends@.len()
                ==> self.spec_has_system(#[trigger] self.systems@[i].depends@[j]@)
    }

    /// An empty builder with the default stage cap and logic gate.
    pub fn new() -> (r: Self)
        ensures
            r.systems@.len() == 0,
            r.preproc.graph.entries@.len() == 0,
            r.logic.graph.entries@.len() == 0,
            r.postproc.graph.entries@.len() == 0,
            r.stage_cap == DEFAULT_STAGE_CAP,
            r.logic_gate_ms == DEFAULT_LOGIC_GATE_MS,
    {
        DispatcherBuilder {
            systems: Vec::new(),
            preproc: StagesBuilder::new(),
            logic: StagesBuilder::new(),
            postproc: StagesBuilder::new(),
            stage_cap: DEFAULT_STAGE_CAP,
            logic_gate_ms: DEFAULT_LOGIC_GATE_MS,
        }
    }

    /// Use a different bound on stage size.
    pub fn set_stage_cap(&mut self, cap: usize)
        requires
            cap >= 1,
        ensures
            *final(self) == (DispatcherBuilder { stage_cap: cap, ..*old(self) }),
    {
        self.stage_cap = cap;
    }

    /// Use a different logic-phase time budget.
    pub fn set_logic_gate(&mut self, ms: u64)
        ensures
            *final(self) == (DispatcherBuilder { logic_gate_ms: ms, ..*old(self) }),
    {
        self.logic_gate_ms = ms;
    }

    /// Whether a system with this id has been registered.
    pub fn has_system(&self, name: &String) -> (b: bool)
        ensures
            b == self.spec_has_system(name@),
    {
        let mut i: usize = 0;
        while i < self.systems.len()
            invariant
                i <= self.systems@.len(),
                forall|p: int| 0 <= p < i ==> (#[trigger] self.systems@[p].id@) != name@,
            decreases self.systems@.len() - i,
        {
            if self.systems[i].id == *name {
                return true;
            }
            i = i + 1;
        }
        false
    }

    /// Register a system: record it for dependency validation and hand its
    /// ordering hints to its phase. A second registration under the same
    /// id is refused and changes nothing.
    pub fn add(&mut self, info: SystemInfo) -> (r: Result<(), ConfigError>)
        ensures
            r is Ok <==> !old(self).spec_has_system(info.id@),
            r is Err ==> *final(self) == *old(self) && r->Err_0 == ConfigError::DuplicateSystem(
                info.id,
            ),
            r is Ok ==> final(self).systems@ == old(self).systems@.push(
                SystemRecord { id: info.id, depends: info.depends, sys_type: info.sys_type },
            ),
            r is Ok ==> final(self).stage_cap == old(self).stage_cap && final(self).logic_gate_ms
                == old(self).logic_gate_ms,
            r is Ok && info.sys_type == SystemType::Preprocessor ==> final(self).preproc.graph.entries@
                == old(self).preproc.graph.entries@.push(SysHints { id: info.id, hints: info.run_ord })
                && final(self).logic == old(self).logic && final(self).postproc == old(self).postproc,
            r is Ok && info.sys_type == SystemType::Logic ==> final(self).logic.graph.entries@
                == old(self).logic.graph.entries@.push(SysHints { id: info.id, hints: info.run_ord })
                && final(self).preproc == old(self).preproc
                && final(self).postproc == old(self).postproc,
            r is Ok && info.sys_type == SystemType::Postprocessor
                ==> final(self).postproc.graph.entries@
                == old(self).postproc.graph.entries@.push(SysHints { id: info.id, hints: info.run_ord })
                && final(self).preproc == old(self).preproc && final(self).logic == old(self).logic,
    {
        if self.has_system(&info.id) {
            return Result::Err(ConfigError::DuplicateSystem(info.id));
        }
        let SystemInfo { id, depends, run_ord, sys_type } = info;
        let graph_id = id.clone();
        self.systems.push(SystemRecord { id, depends, sys_type });
        match sys_type {
            SystemType::Preprocessor => self.preproc.add(graph_id, run_ord),
            SystemType::Logic => self.logic.add(graph_id, run_ord),
            SystemType::Postprocessor => self.postproc.add(graph_id, run_ord),
        }
        Result::Ok(())
    }

    /// Check that every hard dependency of every system names a registered
    /// system. Hard dependencies assert existence only; they never order.
    pub fn verify_deps(&self) -> (r: Result<(), ConfigError>)
        ensures
            r is Ok <==> self.spec_deps_ok(),
            r is Err ==> (r->Err_0 matches ConfigError::MissingDependency(sys, dep)
                && !self.spec_has_system(dep@) && exists|i: int, j: int|
                0 <= i < self.systems@.len() && 0 <= j < self.systems@[i].depends@.len()
                    && sys@ == self.systems@[i].id@ && dep@
                    == (#[trigger] self.systems@[i].depends@[j]@)),
    {
        let mut i: usize = 0;
        while i < self.systems.len()
            invariant
                i <= self.systems@.len(),
                forall|p: int, j: int|
                    0 <= p < i && 0 <= j < self.systems@[p].depends@.len()
                        ==> self.spec_has_system(#[trigger] self.systems@[p].depends@[j]@),
            decreases self.systems@.len() - i,
        {
            let deps = &self.systems[i].depends;
            let mut j: usize = 0;
            while j < deps.len()
                invariant
                    i < self.systems@.len(),
                    j <= deps@.len(),
                    deps@ == self.systems@[i as int].depends@,
                    forall|q: int|
                        0 <= q < j ==> self.spec_has_system(#[trigger] deps@[q]@),
                decreases deps@.len() - j,
            {
                if !self.has_system(&deps[j]) {
                    return Result::Err(
                        ConfigError::MissingDependency(self.systems[i].id.clone(), deps[j].clone()),
                    );
                }
                j = j + 1;
            }
            i = i + 1;
        }
        Result::Ok(())
    }

    /// Validate hard dependencies, then layer each phase's systems and cut
    /// the layers into stages. Any configuration mistake aborts the build;
    /// nothing of a half-built pipeline survives.
    pub fn build(self) -> (r: Result<Dispatcher, ConfigError>)
        requires
            self.stage_cap >= 1,
        ensures
            r is Ok ==> ({
                let d = r->Ok_0;
                let pre = spec_layering(
                    self.preproc.graph.entries@,
                    all_indices(self.preproc.graph.entries@.len()),
                );
                let log = spec_layering(
                    self.logic.graph.entries@,
                    all_indices(self.logic.graph.entries@.len()),
                );
                let post = spec_layering(
                    self.postproc.graph.entries@,
                    all_indices(self.postproc.graph.entries@.len()),
                );
                &&& self.spec_deps_ok()
                &&& d.registry@ == self.systems@
                &&& d.logic_gate_ms == self.logic_gate_ms
                &&& pre is Ok && d.preproc.deep_view() == spec_stages(
                    ids_of_layers(self.preproc.graph.entries@, pre->Ok_0),
                    self.stage_cap as int,
                )
                &&& log is Ok && d.logic.deep_view() == spec_stages(
                    ids_of_layers(self.logic.graph.entries@, log->Ok_0),
                    self.stage_cap as int,
                )
                &&& post is Ok && d.postproc.deep_view() == spec_stages(
                    ids_of_layers(self.postproc.graph.entries@, post->Ok_0),
                    self.stage_cap as int,
                )
            }),
            r is Err ==> (r->Err_0 matches ConfigError::MissingDependency(_, _)
                && !self.spec_deps_ok()) || (r->Err_0 matches ConfigError::CircularOrder(ids) && (
            (spec_layering(self.preproc.graph.entries@, all_indices(self.preproc.graph.entries@.len()))
                is Err && ids.deep_view() == ids_at(
                self.preproc.graph.entries@,
                spec_layering(
                    self.preproc.graph.entries@,
                    all_indices(self.preproc.graph.entries@.len()),
                )->Err_0,
            )) || (spec_layering(self.logic.graph.entries@, all_indices(self.logic.graph.entries@.len()))
                is Err && ids.deep_view() == ids_at(
                self.logic.graph.entries@,
                spec_layering(
                    self.logic.graph.entries@,
                    all_indices(self.logic.graph.entries@.len()),
                )->Err_0,
            )) || (spec_layering(
                self.postproc.graph.entries@,
                all_indices(self.postproc.graph.entries@.len()),
            ) is Err && ids.deep_view() == ids_at(
                self.postproc.graph.entries@,
                spec_layering(
                    self.postproc.graph.entries@,
                    all_indices(self.postproc.graph.entries@.len()),
                )->Err_0,
            )))),
    {
        match self.verify_deps() {
            Result::Ok(()) => {},
            Result::Err(e) => {
                return Result::Err(e);
            },
        }
        let DispatcherBuilder { systems, preproc, logic, postproc, stage_cap, logic_gate_ms } =
            self;
        let pre_stages = match preproc.build(stage_cap) {
            Result::Ok(st) => st,
            Result::Err(e) => {
                return Result::Err(e);
            },
        };
        let logic_stages = match logic.build(stage_cap) {
            Result::Ok(st) => st,
            Result::Err(e) => {
                return Result::Err(e);
            },
        };
        let post_stages = match postproc.build(stage_cap) {
            Result::Ok(st) => st,
            Result::Err(e) => {
                return Result::Err(e);
            },
        };
        Result::Ok(
            Dispatcher {
                registry: systems,
                preproc: pre_stages,
                logic: logic_stages,
                postproc: post_stages,
                logic_gate_ms,
            },
        )
    }
}

/// The built pipeline: the system registry and the three phases' stage
/// lists, plus the logic gate budget. Each loop iteration runs the
/// preprocessor stages, then — only when the elapsed time is within the
/// gate — the logic stages, then the postprocessor stages.
pub struct Dispatcher {
    pub registry: Vec<SystemRecord>,
    pub preproc: Vec<Vec<String>>,
    pub logic: Vec<Vec<String>>,
    pub postproc: Vec<Vec<String>>,
    pub logic_gate_ms: u64,
}

impl Dispatcher {
    /// The fixed-step gate: logic runs in an iteration exactly when the
    /// time elapsed since the last reference point is below the budget.
    pub fn logic_should_run(&self, elapsed_ms: u128) -> (b: bool)
        ensures
            b == (elapsed_ms < self.logic_gate_ms as u128),
    {
        elapsed_ms < self.logic_gate_ms as u128
    }

    /// The stages one loop iteration executes, in order: every
    /// preprocessor stage, the logic stages only when the budget allows,
    /// and every postprocessor stage.
    pub fn iteration_plan(&self, run_logic: bool) -> (r: Vec<Vec<String>>)
        ensures
            r.deep_view() == self.preproc.deep_view() + (if run_logic {
                self.logic.deep_view()
            } else {
                Seq::empty()
            }) + self.postproc.deep_view(),
    {
        let mut out: Vec<Vec<String>> = Vec::new();
        append_stages(&mut out, &self.preproc);
        if run_logic {
            append_stages(&mut out, &self.logic);
        }
        append_stages(&mut out, &self.postproc);
        proof {
            if !run_logic {
                assert(self.preproc.deep_view() + Seq::<Seq<Seq<char>>>::empty()
                    =~= self.preproc.deep_view());
            }
        }
        out
    }
}

/// Append a copy of every stage in `src` to `out`.
fn append_stages(out: &mut Vec<Vec<String>>, src: &Vec<Vec<String>>)
    ensures
        final(out).deep_view() == old(out).deep_view() + src.deep_view(),
{
    let ghost base = out.deep_view();
    let mut i: usize = 0;
    while i < src.len()
        invariant
            i <= src@.len(),
            out.deep_view() =~~= base + src.deep_view().take(i as int),
        decreases src@.len() - i,
    {
        let ghost pre = out.deep_view();
        let stage = crate::schedule::clone_names(&src[i]);
        out.push(stage);
        proof {
            assert(out.deep_view() =~~= pre.push(src.deep_view()[i as int]));
            assert(base + src.deep_view().take(i as int + 1) =~= (base + src.deep_view().take(
                i as int,
            )).push(src.deep_view()[i as int]));
        }
        i = i + 1;
    }
    proof {
        assert(src.deep_view().take(src.deep_view().len() as int) =~= src.deep_view());
    }
}

} // verus!
