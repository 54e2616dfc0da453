use lb::key_map::NameMap;
use lb::microservice::callgraph::{
    entry_api, mean_source, CallGraph, CallGraphFile, Edge, Interface, LoadEntry, MeanSource, Node,
};
use lb::microservice::hop::{
    filtered_children, microservice_for_endpoint, BIMODAL_MODES_TENTHS, BIMODAL_PROBS_TENTHS,
};
use lb::microservice::scaling::{collect_eq_scale, parse_eq_scale_spec, EqScaleSpec, Stretch};
use lb::microservice::simulate::{
    all_downstream_targets, downstream_targets, entry_microservices_by_api,
};

fn interface(name: &str) -> Interface {
    Interface {
        name: name.to_string(),
        has_avg_rt: true,
        has_exponential: false,
    }
}

fn node(id: &str, interfaces: &[&str], size: u32) -> Node {
    Node {
        id: id.to_string(),
        interfaces: interfaces.iter().map(|name| interface(name)).collect(),
        cpu: Some(size),
        replicas: Some(size),
    }
}

fn edge(source: &str, target: &str, api: Option<&str>) -> Edge {
    Edge {
        source: source.to_string(),
        target: target.to_string(),
        api: api.map(str::to_string),
    }
}

fn user() -> Node {
    Node {
        id: "USER".to_string(),
        interfaces: vec![],
        cpu: None,
        replicas: None,
    }
}

fn fanin_file(sizes: [u32; 4]) -> CallGraphFile {
    CallGraphFile {
        nodes: vec![
            user(),
            node("frontend", &["f1", "g1"], sizes[0]),
            node("backend1", &["f2"], sizes[1]),
            node("backend2", &["f4"], sizes[2]),
            node("shared", &["f5"], sizes[3]),
        ],
        edges: vec![
            edge("USER", "frontend:f1", None),
            edge("USER", "frontend:g1", None),
            edge("frontend:f1", "backend1:f2", Some("f1")),
            edge("frontend:f1", "backend2:f4", Some("f1")),
            edge("frontend:g1", "backend1:f2", Some("g1")),
            edge("backend1:f2", "shared:f5", Some("f1")),
            edge("backend1:f2", "shared:f5", Some("g1")),
            edge("backend2:f4", "shared:f5", Some("f1")),
        ],
    }
}

fn chain3_graph() -> CallGraph {
    CallGraph::from_file_data(&CallGraphFile {
        nodes: vec![
            node("frontend", &["handle"], 10),
            node("backend1", &["f1"], 10),
            node("backend2", &["f2"], 10),
        ],
        edges: vec![
            edge("USER", "frontend:handle", None),
            edge("frontend:handle", "backend1:f1", Some("handle")),
            edge("backend1:f1", "backend2:f2", Some("handle")),
        ],
    })
    .unwrap()
}

fn cpu(graph: &CallGraph, id: &str) -> u32 {
    graph.microservices.get(&id.to_string()).unwrap().cpu
}

fn replicas(graph: &CallGraph, id: &str) -> u32 {
    graph.microservices.get(&id.to_string()).unwrap().replicas
}

fn names(pairs: &[(&str, u32)]) -> NameMap<u32> {
    let mut map = NameMap::new();
    for (name, delta) in pairs {
        map.insert(name.to_string(), *delta);
    }
    map
}

/// The mean of an interface of `microservice` that was `mean` before the stretches.
fn stretched(stretches: &[Stretch], microservice: &str, mean: f32) -> f32 {
    let mut mean = mean;
    for s in stretches {
        if s.microservice == microservice {
            mean *= (s.cpu as f32 + s.delta as f32) / s.cpu as f32;
        }
    }
    mean
}

#[test]
fn fanin_children() {
    let graph = CallGraph::from_file_data(&fanin_file([1, 1, 1, 1])).unwrap();
    let f1_children: Vec<&str> = graph
        .children
        .get(&"frontend:f1".to_string())
        .unwrap()
        .iter()
        .filter(|edge| edge.api.as_deref() == Some("f1"))
        .map(|edge| edge.target.as_str())
        .collect();
    assert_eq!(f1_children, vec!["backend1:f2", "backend2:f4"]);
    assert_eq!(
        graph.entrypoints.get(&"g1".to_string()).map(String::as_str),
        Some("frontend:g1")
    );
    assert_eq!(
        filtered_children(&graph, &"frontend:f1".to_string(), &"f1".to_string()),
        vec!["backend1:f2", "backend2:f4"]
    );
    assert_eq!(
        filtered_children(&graph, &"backend1:f2".to_string(), &"g1".to_string()),
        vec!["shared:f5"]
    );
    assert!(filtered_children(&graph, &"shared:f5".to_string(), &"f1".to_string()).is_empty());
    assert_eq!(
        microservice_for_endpoint(&graph, &"shared:f5".to_string()).unwrap(),
        "shared"
    );
    assert!(microservice_for_endpoint(&graph, &"shared:none".to_string()).is_err());
}

#[test]
fn targets_follow_the_edges() {
    let graph = CallGraph::from_file_data(&fanin_file([1, 1, 1, 1])).unwrap();
    assert_eq!(
        downstream_targets(&graph, &"frontend".to_string()),
        vec!["backend1", "backend2"]
    );
    assert_eq!(
        all_downstream_targets(&graph),
        vec!["backend1", "backend2", "shared"]
    );
    let entries = entry_microservices_by_api(&graph);
    assert_eq!(entries.len(), 2);
    assert_eq!(entries.get(&"f1".to_string()).unwrap(), "frontend");
}

#[test]
fn apply_scale_adds_cpu_and_replicas() {
    let mut graph = CallGraph::from_file_data(&fanin_file([2, 3, 3, 4])).unwrap();
    graph.apply_scale(5).unwrap();
    assert_eq!(cpu(&graph, "frontend"), 7);
    assert_eq!(replicas(&graph, "frontend"), 7);
    assert_eq!(cpu(&graph, "backend1"), 8);
    assert_eq!(replicas(&graph, "backend1"), 8);
    assert_eq!(cpu(&graph, "shared"), 9);
    assert_eq!(replicas(&graph, "shared"), 9);
}

#[test]
fn scaling_past_the_limit_is_refused() {
    let mut graph = chain3_graph();
    let err = graph.apply_scale(u32::MAX).unwrap_err();
    assert!(err.contains("cpu overflow after --scale 4294967295"), "{err}");
    let mut graph = chain3_graph();
    let err = graph
        .apply_eq_scale(Some(u32::MAX), &names(&[]))
        .unwrap_err();
    assert_eq!(err, "node frontend cpu overflow after --eq-scale 4294967295");
}

#[test]
fn apply_eq_scale_all_adds_cpu_replicas_and_stretches_means() {
    let mut graph = chain3_graph();
    let orig = 0.001f32;
    let stretches = graph.apply_eq_scale(Some(10), &names(&[])).unwrap();
    for id in ["frontend", "backend1", "backend2"] {
        assert_eq!(cpu(&graph, id), 20);
        assert_eq!(replicas(&graph, id), 20);
    }
    assert_eq!(stretched(&stretches, "frontend", orig), orig * 2.0);
    assert_eq!(stretched(&stretches, "backend2", orig), orig * 2.0);
}

#[test]
fn apply_eq_scale_named_leaves_other_tiers_untouched() {
    let mut graph = chain3_graph();
    let stretches = graph.apply_eq_scale(None, &names(&[("backend2", 10)])).unwrap();
    assert_eq!(cpu(&graph, "frontend"), 10);
    assert_eq!(replicas(&graph, "frontend"), 10);
    assert_eq!(stretched(&stretches, "frontend", 0.001), 0.001);
    assert_eq!(cpu(&graph, "backend2"), 20);
    assert_eq!(replicas(&graph, "backend2"), 20);
    assert_eq!(stretched(&stretches, "backend2", 0.001), 0.001 * 2.0);
}

#[test]
fn apply_eq_scale_named_adds_on_top_of_all() {
    let mut graph = chain3_graph();
    let orig = 0.001f32;
    let stretches = graph
        .apply_eq_scale(Some(10), &names(&[("backend2", 10)]))
        .unwrap();
    assert_eq!(cpu(&graph, "frontend"), 20);
    assert_eq!(cpu(&graph, "backend2"), 30);
    assert_eq!(replicas(&graph, "backend2"), 30);
    assert_eq!(stretched(&stretches, "backend2", orig), orig * 3.0);
    assert_eq!(stretched(&stretches, "frontend", orig), orig * 2.0);
}

#[test]
fn apply_eq_scale_zero_is_noop() {
    let mut graph = chain3_graph();
    let before = cpu(&graph, "frontend");
    let stretches = graph.apply_eq_scale(Some(0), &names(&[])).unwrap();
    assert_eq!(cpu(&graph, "frontend"), before);
    assert_eq!(stretched(&stretches, "frontend", 0.001), 0.001);
}

#[test]
fn apply_eq_scale_unknown_name_errors() {
    let mut graph = chain3_graph();
    let err = graph
        .apply_eq_scale(None, &names(&[("missing", 10)]))
        .unwrap_err();
    assert!(err.contains("unknown microservice missing"));
}

#[test]
fn apply_eq_scale_composes_after_scale() {
    let mut graph = chain3_graph();
    let orig = 0.001f32;
    graph.apply_scale(10).unwrap();
    let stretches = graph.apply_eq_scale(Some(10), &names(&[])).unwrap();
    assert_eq!(cpu(&graph, "frontend"), 30);
    assert_eq!(replicas(&graph, "frontend"), 30);
    assert_eq!(stretched(&stretches, "frontend", orig), orig * 1.5);
}

#[test]
fn parse_eq_scale_spec_all_and_named() {
    assert_eq!(parse_eq_scale_spec("10").unwrap(), EqScaleSpec::All(10));
    assert_eq!(
        parse_eq_scale_spec("backend2=10").unwrap(),
        EqScaleSpec::Named("backend2".into(), 10)
    );
}

#[test]
fn parse_eq_scale_spec_rejects_what_is_no_number() {
    for bad in ["", "x", "-1", "=3", "backend2=", "backend2=x", "4294967296", "a=4294967296"] {
        assert!(parse_eq_scale_spec(bad).is_err(), "{bad}");
    }
    assert!(matches!(
        parse_eq_scale_spec("+7").unwrap(),
        EqScaleSpec::All(7)
    ));
}

#[test]
fn collect_eq_scale_rejects_duplicate_all_and_named() {
    let err = collect_eq_scale(&[EqScaleSpec::All(10), EqScaleSpec::All(5)]).unwrap_err();
    assert!(err.contains("at most one bare"));
    let err = collect_eq_scale(&[
        EqScaleSpec::Named("backend2".into(), 10),
        EqScaleSpec::Named("backend2".into(), 5),
    ])
    .unwrap_err();
    assert!(err.contains("duplicate"));
}

#[test]
fn collect_eq_scale_gathers_both_kinds() {
    let (all, named) = collect_eq_scale(&[
        EqScaleSpec::Named("backend2".into(), 10),
        EqScaleSpec::All(4),
        EqScaleSpec::Named("frontend".into(), 5),
    ])
    .unwrap();
    assert_eq!(all, Some(4));
    assert_eq!(named.len(), 2);
    assert_eq!(named.get(&"frontend".to_string()), Some(&5));
}

fn fault(file: CallGraphFile) -> String {
    CallGraph::from_file_data(&file).unwrap_err()
}

#[test]
fn faulty_graphs_are_refused() {
    let mut file = fanin_file([1, 1, 1, 1]);
    file.nodes[2].cpu = None;
    assert_eq!(fault(file), "node backend1 missing cpu");

    let mut file = fanin_file([1, 1, 1, 1]);
    file.nodes[2].replicas = None;
    assert_eq!(fault(file), "node backend1 missing replicas");

    let file = fanin_file([1, 0, 1, 1]);
    assert_eq!(
        fault(file),
        "node backend1 must have cpu > 0 and replicas > 0"
    );

    let mut file = fanin_file([1, 1, 1, 1]);
    file.nodes[2].interfaces[0].has_avg_rt = false;
    assert!(fault(file).contains("f2"));

    let mut file = fanin_file([1, 1, 1, 1]);
    file.edges.push(edge("shared:f5", "shared:f9", None));
    assert_eq!(fault(file), "unknown edge target shared:f9");

    let mut file = fanin_file([1, 1, 1, 1]);
    file.edges.push(edge("shared:f9", "shared:f5", None));
    assert_eq!(fault(file), "unknown edge source shared:f9");

    let mut file = fanin_file([1, 1, 1, 1]);
    file.nodes.push(node("other", &["f1"], 1));
    file.edges.push(edge("USER", "other:f1", None));
    assert_eq!(fault(file), "duplicate entry API f1");

    let mut file = fanin_file([1, 1, 1, 1]);
    file.edges.push(edge("shared:f5", "backend1:f2", Some("g1")));
    assert!(fault(file).contains("cycle detected at"));
}

#[test]
fn an_edge_of_another_api_closes_no_cycle() {
    let mut file = fanin_file([1, 1, 1, 1]);
    file.edges.push(edge("shared:f5", "backend1:f2", Some("other")));
    assert!(CallGraph::from_file_data(&file).is_ok());
}

#[test]
fn means_come_from_either_field() {
    let mut iface = interface("f");
    assert!(matches!(mean_source(&iface), Ok(MeanSource::AvgRt)));
    iface.has_exponential = true;
    assert!(matches!(mean_source(&iface), Ok(MeanSource::AvgRt)));
    iface.has_avg_rt = false;
    assert!(matches!(mean_source(&iface), Ok(MeanSource::Exponential)));
    iface.has_exponential = false;
    assert!(mean_source(&iface).is_err());
    assert_eq!(entry_api(&"a:b:c".to_string()), "c");
    assert_eq!(entry_api(&"plain".to_string()), "plain");
}

#[test]
fn loads_need_an_entry_and_positive_rates() {
    let graph = chain3_graph();
    let entry = |api: &str, rps_ok: bool, slo_ok: bool| LoadEntry {
        api: api.to_string(),
        rps_ok,
        slo_ok,
    };
    assert!(graph.validate_load(&vec![entry("handle", true, true)]).is_ok());
    assert_eq!(
        graph.validate_load(&vec![entry("none", true, true)]).unwrap_err(),
        "load.json API none has no entrypoint in callgraph"
    );
    assert_eq!(
        graph.validate_load(&vec![entry("handle", false, false)]).unwrap_err(),
        "load.json API handle must have rps > 0"
    );
    assert_eq!(
        graph.validate_load(&vec![entry("handle", true, false)]).unwrap_err(),
        "load.json API handle must have slo_ms > 0"
    );
}

#[test]
fn non_positive_overrides_are_rejected_by_load_validation() {
    let graph = chain3_graph();
    let bad_rps = vec![LoadEntry {
        api: "handle".to_string(),
        rps_ok: 0.0 > 0.0,
        slo_ok: true,
    }];
    assert!(graph.validate_load(&bad_rps).is_err());
    let bad_slo = vec![LoadEntry {
        api: "handle".to_string(),
        rps_ok: true,
        slo_ok: 0.0 > 0.0,
    }];
    assert!(graph.validate_load(&bad_slo).is_err());
}

fn tenths(values: [u32; 2]) -> [f32; 2] {
    [values[0] as f32 / 10.0, values[1] as f32 / 10.0]
}

#[test]
fn bimodal_unit_modes_have_mean_one() {
    let modes = tenths(BIMODAL_MODES_TENTHS);
    let probs = tenths(BIMODAL_PROBS_TENTHS);
    let mean = modes[0] * probs[0] + modes[1] * probs[1];
    assert!((mean - 1.0).abs() < 1e-6);
}

#[test]
fn bimodal_scaled_modes_preserve_endpoint_mean() {
    let modes = tenths(BIMODAL_MODES_TENTHS);
    let probs = tenths(BIMODAL_PROBS_TENTHS);
    let endpoint_mean = 0.003_f32;
    let scaled_mean = modes[0] * endpoint_mean * probs[0] + modes[1] * endpoint_mean * probs[1];
    assert!((scaled_mean - endpoint_mean).abs() < 1e-9);
}

#[test]
fn what_is_scaled_before_a_count_overflows_stays_scaled() {
    let lopsided = || {
        let mut file = fanin_file([2, 3, 3, 4]);
        for node in &mut file.nodes {
            if node.id == "frontend" {
                node.replicas = Some(u32::MAX - 1);
            }
        }
        CallGraph::from_file_data(&file).unwrap()
    };
    let mut graph = lopsided();
    let err = graph.apply_scale(5).unwrap_err();
    assert_eq!(err, "node frontend replicas overflow after --scale 5");
    assert_eq!(cpu(&graph, "frontend"), 7);
    assert_eq!(replicas(&graph, "frontend"), u32::MAX - 1);

    let mut graph = lopsided();
    let named = names(&[("shared", 1), ("frontend", 5), ("backend1", 1)]);
    let err = graph.apply_eq_scale(None, &named).unwrap_err();
    assert_eq!(err, "node frontend replicas overflow after --eq-scale 5");
    assert_eq!((cpu(&graph, "shared"), replicas(&graph, "shared")), (5, 5));
    assert_eq!(cpu(&graph, "frontend"), 7);
    assert_eq!(replicas(&graph, "frontend"), u32::MAX - 1);
    assert_eq!((cpu(&graph, "backend1"), replicas(&graph, "backend1")), (3, 3));

    let mut graph = lopsided();
    let err = graph.apply_eq_scale(Some(1), &names(&[("nowhere", 1)])).unwrap_err();
    assert_eq!(err, "--eq-scale unknown microservice nowhere");
    assert_eq!((cpu(&graph, "shared"), cpu(&graph, "frontend")), (4, 2));
}
