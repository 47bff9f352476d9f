use manufacture_core::dispatcher::{Dispatcher, DispatcherBuilder};
use manufacture_core::schedule::{
    ConfigError, RunOrder, RunOrderGraph, StagesBuilder, SystemInfo, SystemType,
};

fn info(id: &str, run_ord: Vec<RunOrder>, phase: SystemType) -> SystemInfo {
    SystemInfo::new(id.to_owned(), Vec::new(), run_ord, phase)
}

#[test]
fn run_order_value_returns_the_named_system() {
    let b = RunOrder::Before("X".to_owned());
    let a = RunOrder::After("Y".to_owned());
    assert_eq!(b.value(), "X");
    assert_eq!(a.value(), "Y");
}

#[test]
fn before_puts_the_other_system_in_a_later_layer() {
    // S1 has no hints, S2 declares Before("S1"): S2's layer is earlier
    let mut g = RunOrderGraph::new();
    g.add("S1".to_owned(), Vec::new());
    g.add("S2".to_owned(), vec![RunOrder::Before("S1".to_owned())]);
    let layers = g.build().ok().unwrap();
    assert_eq!(layers, vec![vec!["S2".to_owned()], vec!["S1".to_owned()]]);
}

#[test]
fn after_shifts_the_declaring_system() {
    let mut g = RunOrderGraph::new();
    g.add("S1".to_owned(), vec![RunOrder::After("S2".to_owned())]);
    g.add("S2".to_owned(), Vec::new());
    let layers = g.build().ok().unwrap();
    assert_eq!(layers, vec![vec!["S2".to_owned()], vec!["S1".to_owned()]]);
}

#[test]
fn layering_is_deterministic_across_runs() {
    let build = || {
        let mut g = RunOrderGraph::new();
        g.add("A".to_owned(), vec![RunOrder::Before("B".to_owned())]);
        g.add("B".to_owned(), vec![RunOrder::Before("C".to_owned())]);
        g.add("C".to_owned(), Vec::new());
        g.add("D".to_owned(), vec![RunOrder::After("A".to_owned())]);
        g.build().ok().unwrap()
    };
    let first = build();
    let second = build();
    assert_eq!(first, second);
}

#[test]
fn chained_hints_spread_over_three_layers() {
    let mut g = RunOrderGraph::new();
    g.add("A".to_owned(), vec![RunOrder::Before("B".to_owned())]);
    g.add("B".to_owned(), vec![RunOrder::Before("C".to_owned())]);
    g.add("C".to_owned(), Vec::new());
    let layers = g.build().ok().unwrap();
    assert_eq!(
        layers,
        vec![vec!["A".to_owned()], vec!["B".to_owned()], vec!["C".to_owned()]]
    );
}

#[test]
fn two_cycle_is_reported_with_the_offending_systems() {
    let mut g = RunOrderGraph::new();
    g.add("X".to_owned(), vec![RunOrder::Before("Y".to_owned())]);
    g.add("Y".to_owned(), vec![RunOrder::Before("X".to_owned())]);
    let err = match g.build() {
        Ok(_) => panic!("a circular constraint set must be reported"),
        Err(ids) => ids,
    };
    assert_eq!(err.len(), 2);
    assert!(err.contains(&"X".to_owned()));
    assert!(err.contains(&"Y".to_owned()));
}

#[test]
fn twelve_systems_make_three_stages_of_five_five_two() {
    let mut sb = StagesBuilder::new();
    for i in 0..12u32 {
        sb.add(format!("S{}", i), Vec::new());
    }
    let stages = sb.build(5).ok().unwrap();
    assert_eq!(stages.len(), 3);
    assert_eq!(stages[0].len(), 5);
    assert_eq!(stages[1].len(), 5);
    assert_eq!(stages[2].len(), 2);
}

#[test]
fn no_systems_make_no_stages() {
    let sb = StagesBuilder::new();
    let stages = sb.build(5).ok().unwrap();
    assert!(stages.is_empty());
}

#[test]
fn exactly_cap_systems_make_one_full_stage() {
    let mut sb = StagesBuilder::new();
    for i in 0..5u32 {
        sb.add(format!("S{}", i), Vec::new());
    }
    let stages = sb.build(5).ok().unwrap();
    assert_eq!(stages.len(), 1);
    assert_eq!(stages[0].len(), 5);
}

#[test]
fn duplicate_system_registration_is_refused() {
    let mut b = DispatcherBuilder::new();
    assert!(b.add(info("S1", Vec::new(), SystemType::Logic)).is_ok());
    let r = b.add(info("S1", Vec::new(), SystemType::Logic));
    assert!(matches!(r, Err(ConfigError::DuplicateSystem(id)) if id == "S1"));
}

#[test]
fn missing_hard_dependency_is_reported_before_scheduling() {
    let mut b = DispatcherBuilder::new();
    let i = SystemInfo::new(
        "S1".to_owned(),
        vec!["Ghost".to_owned()],
        Vec::new(),
        SystemType::Logic,
    );
    assert!(b.add(i).is_ok());
    let r = b.build();
    match r {
        Err(ConfigError::MissingDependency(sys, dep)) => {
            assert_eq!(sys, "S1");
            assert_eq!(dep, "Ghost");
        }
        _ => panic!("a missing hard dependency must abort the build"),
    }
}

#[test]
fn hard_dependencies_do_not_order() {
    // S1 depends on S2 but declares no ordering hint: both stay in layer 0
    let mut b = DispatcherBuilder::new();
    let i1 = SystemInfo::new(
        "S1".to_owned(),
        vec!["S2".to_owned()],
        Vec::new(),
        SystemType::Logic,
    );
    assert!(b.add(i1).is_ok());
    assert!(b.add(info("S2", Vec::new(), SystemType::Logic)).is_ok());
    let d = b.build().ok().unwrap();
    assert_eq!(d.logic.len(), 1);
    assert_eq!(d.logic[0].len(), 2);
}

#[test]
fn builder_splits_phases() {
    let mut b = DispatcherBuilder::new();
    assert!(b.add(info("P", Vec::new(), SystemType::Preprocessor)).is_ok());
    assert!(b.add(info("L", Vec::new(), SystemType::Logic)).is_ok());
    assert!(b.add(info("Q", Vec::new(), SystemType::Postprocessor)).is_ok());
    let d = b.build().ok().unwrap();
    assert_eq!(d.preproc, vec![vec!["P".to_owned()]]);
    assert_eq!(d.logic, vec![vec!["L".to_owned()]]);
    assert_eq!(d.postproc, vec![vec!["Q".to_owned()]]);
}

#[test]
fn before_hint_orders_logic_phase_in_the_built_dispatcher() {
    let mut b = DispatcherBuilder::new();
    assert!(b.add(info("S1", Vec::new(), SystemType::Logic)).is_ok());
    assert!(b
        .add(info("S2", vec![RunOrder::Before("S1".to_owned())], SystemType::Logic))
        .is_ok());
    let d = b.build().ok().unwrap();
    let s2_stage = d.logic.iter().position(|s| s.contains(&"S2".to_owned())).unwrap();
    let s1_stage = d.logic.iter().position(|s| s.contains(&"S1".to_owned())).unwrap();
    assert!(s2_stage < s1_stage);
}

#[test]
fn cycle_in_one_phase_fails_the_whole_build() {
    let mut b = DispatcherBuilder::new();
    assert!(b
        .add(info("X", vec![RunOrder::Before("Y".to_owned())], SystemType::Logic))
        .is_ok());
    assert!(b
        .add(info("Y", vec![RunOrder::Before("X".to_owned())], SystemType::Logic))
        .is_ok());
    match b.build() {
        Err(ConfigError::CircularOrder(ids)) => {
            assert!(ids.contains(&"X".to_owned()));
            assert!(ids.contains(&"Y".to_owned()));
        }
        _ => panic!("a cycle must be reported, never silently broken"),
    }
}

#[test]
fn logic_gate_runs_logic_only_under_budget() {
    let d = Dispatcher {
        registry: Vec::new(),
        preproc: Vec::new(),
        logic: Vec::new(),
        postproc: Vec::new(),
        logic_gate_ms: 50,
    };
    assert!(d.logic_should_run(0));
    assert!(d.logic_should_run(49));
    assert!(!d.logic_should_run(50));
    assert!(!d.logic_should_run(51));
}

#[test]
fn iteration_plan_gates_logic_between_pre_and_post() {
    let d = Dispatcher {
        registry: Vec::new(),
        preproc: vec![vec!["P".to_owned()]],
        logic: vec![vec!["L".to_owned()]],
        postproc: vec![vec!["Q".to_owned()]],
        logic_gate_ms: 50,
    };
    let with_logic = d.iteration_plan(true);
    assert_eq!(
        with_logic,
        vec![vec!["P".to_owned()], vec!["L".to_owned()], vec!["Q".to_owned()]]
    );
    let without_logic = d.iteration_plan(false);
    assert_eq!(without_logic, vec![vec!["P".to_owned()], vec!["Q".to_owned()]]);
}
