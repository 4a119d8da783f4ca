use hazgraph::Callgraph;
use hazgraph::DescriptionBrevity;
use hazgraph::LoadError;
use hazgraph::Matcher;
use hazgraph::PropertySet;
use hazgraph::load_graph;
use hazgraph::stem;

fn lines(v: &[&str]) -> Vec<String> {
    v.iter().map(|s| s.to_string()).collect()
}

fn demo_graph() -> Callgraph {
    let input = lines(&["#1 foo", "#2 bar", "#3 baz", "D 1 2", "D 2 3"]);
    load_graph(&input, 0).unwrap()
}

#[test]
fn property_set_invariant_checked() {
    let ps = PropertySet::checked(5, 1);
    assert!(ps.is_none());
    let ps = PropertySet::checked(1, 5);
    assert_eq!(ps, Some(PropertySet { all: 1, any: 5 }));
    let e = PropertySet::empty();
    assert_eq!(e.all, 0);
    assert_eq!(e.any, 0);
    let u = PropertySet::uniform(6);
    assert_eq!(u.all, 6);
    assert_eq!(u.any, 6);
}

#[test]
fn every_loaded_edge_has_well_formed_properties() {
    let input = lines(&["#1 foo", "#2 bar", "D 3:7 1 2", "D SUPPRESS_GC 2 1", "D /4 1 2"]);
    let cg = load_graph(&input, 0).unwrap();
    for e in 0..cg.edge_count() {
        let ps = cg.edge_props(e);
        assert_eq!(ps.all & ps.any, ps.all);
    }
}

#[test]
fn rejects_all_mask_outside_any_mask() {
    let input = lines(&["#1 foo", "#2 bar", "D 5:1 1 2"]);
    let r = load_graph(&input, 0);
    match r {
        Err(e) => assert_eq!(e.line(), 3),
        Ok(_) => panic!("an all mask outside the any mask must be rejected"),
    }
}

#[test]
fn resolve_identifier_in_and_out_of_range() {
    let cg = demo_graph();
    assert_eq!(cg.resolve("#1"), Some(vec![1]));
    assert_eq!(cg.resolve("#0"), Some(vec![0]));
    assert_eq!(cg.resolve("#5"), Some(vec![5]));
    assert_eq!(cg.resolve("#99"), None);
    assert_eq!(cg.resolve("#x"), None);
}

#[test]
fn resolve_regex_answers_empty_on_no_match() {
    let cg = demo_graph();
    assert_eq!(cg.resolve("/zzz/"), Some(Vec::<usize>::new()));
    assert_eq!(cg.resolve("zzz"), None);
    assert_eq!(cg.resolve("/ba./"), Some(vec![2, 3]));
    assert_eq!(cg.resolve("/[/"), None);
}

#[test]
fn resolve_exact_and_stem_and_substring() {
    let input = lines(&["#1 foo", "#2 bar", "= 1 myfunc(int, char)", "= 2 other(void)"]);
    let cg = load_graph(&input, 0).unwrap();
    assert_eq!(cg.resolve("foo"), Some(vec![1]));
    assert_eq!(cg.resolve("myfunc"), Some(vec![1]));
    assert_eq!(cg.resolve("ther(vo"), Some(vec![2]));
    assert_eq!(cg.resolve(""), None);
}

#[test]
fn stem_truncates_at_first_parenthesis() {
    assert_eq!(stem("foo(int)"), "foo");
    assert_eq!(stem("bar"), "bar");
    assert_eq!(stem("ns::baz(void) const"), "ns::baz");
}

#[test]
fn route_to_self_is_empty() {
    let cg = demo_graph();
    let route = cg.any_route(1, &vec![1], &vec![], 0);
    assert_eq!(route, Some(Vec::<usize>::new()));
}

#[test]
fn route_avoids_nodes_and_guaranteed_properties() {
    let input = lines(&[
        "#1 foo",
        "#2 bar",
        "#3 baz",
        "#4 quux",
        "D 1 2",
        "D 2 3",
        "D 1:1 1 3",
        "D 1 4",
    ]);
    let cg = load_graph(&input, 0).unwrap();
    // Avoiding the guaranteed property forces the long way round.
    let route = cg.any_route(1, &vec![3], &vec![], 1).unwrap();
    assert_eq!(route.len(), 2);
    assert_eq!(cg.edge_endpoints(route[0]), (1, 2));
    assert_eq!(cg.edge_endpoints(route[1]), (2, 3));
    for e in &route {
        assert_eq!(cg.edge_props(*e).all & 1, 0);
    }
    // Without the constraint the direct edge wins.
    let direct = cg.any_route(1, &vec![3], &vec![], 0).unwrap();
    assert_eq!(direct.len(), 1);
    // Avoiding the middle node and the guaranteed property leaves nothing.
    assert_eq!(cg.any_route(1, &vec![3], &vec![2], 1), None);
}

#[test]
fn end_to_end_route_scenario() {
    let cg = demo_graph();
    assert_eq!(cg.resolve("foo"), Some(vec![1]));
    let route = cg.any_route_from_one_of(&vec![1], &vec![3], &vec![], 0).unwrap();
    assert_eq!(route.len(), 2);
    assert_eq!(cg.edge_endpoints(route[0]), (1, 2));
    assert_eq!(cg.edge_endpoints(route[1]), (2, 3));
    assert_eq!(cg.any_route_from_one_of(&vec![1], &vec![3], &vec![2], 0), None);
}

#[test]
fn roots_of_acyclic_graph_are_zero_in_degree_nodes() {
    let input = lines(&["#1 foo", "#2 bar", "#3 baz", "D 1 2", "D 2 3"]);
    let mut cg = load_graph(&input, 0).unwrap();
    let mut roots = cg.roots();
    roots.sort();
    // The sentinel node and foo have no callers; nothing else does.
    assert_eq!(roots, vec![0, 1]);
    let mut sinks = cg.sinks();
    sinks.sort();
    assert_eq!(sinks, vec![0, 3]);
}

#[test]
fn single_cycle_yields_exactly_one_root() {
    let input = lines(&["#1 a", "#2 b", "#3 c", "D 1 2", "D 2 3", "D 3 1"]);
    let mut cg = load_graph(&input, 0).unwrap();
    let roots = cg.roots();
    let cycle_roots: Vec<usize> = roots.iter().cloned().filter(|&r| r != 0).collect();
    assert_eq!(cycle_roots.len(), 1);
    assert!(cycle_roots[0] == 1 || cycle_roots[0] == 2 || cycle_roots[0] == 3);
}

#[test]
fn brief_description_round_trips_canonical_names() {
    let cg = demo_graph();
    assert_eq!(cg.name(0, DescriptionBrevity::Brief), "(dummy node zero)");
    assert_eq!(cg.name(1, DescriptionBrevity::Brief), "foo");
    assert_eq!(cg.name(2, DescriptionBrevity::Brief), "bar");
    assert_eq!(cg.name(3, DescriptionBrevity::Brief), "baz");
    assert_eq!(cg.name(4, DescriptionBrevity::Brief), "<root>");
    assert_eq!(cg.name(5, DescriptionBrevity::Brief), "<sink>");
}

#[test]
fn normal_and_verbose_descriptions() {
    let input = lines(&["#1 _Z3fooi", "= 1 foo(int)", "= 1 foo(long)"]);
    let cg = load_graph(&input, 0).unwrap();
    assert_eq!(cg.name(1, DescriptionBrevity::Normal), "#1 = foo(int)");
    assert_eq!(
        cg.name(1, DescriptionBrevity::Verbose),
        "#1 = _Z3fooi\n  foo(int)\n  foo(long)"
    );
    assert_eq!(cg.names(1), vec!["_Z3fooi", "foo(int)", "foo(long)"]);
}

#[test]
fn indirect_calls_share_one_target_node() {
    let input = lines(&["#1 foo", "#2 bar", "I 1 VARIABLE handler", "I 2 VARIABLE handler"]);
    let cg = load_graph(&input, 0).unwrap();
    // One synthetic target beyond the two functions and the sentinel.
    assert_eq!(cg.canonical_name(3), "VARIABLE handler");
    assert_eq!(cg.name(4, DescriptionBrevity::Brief), "<root>");
    let mut callers = cg.callers(3);
    callers.sort();
    assert_eq!(callers, vec![1, 2]);
}

#[test]
fn indirect_calls_with_different_properties_stay_distinct() {
    let input = lines(&["#1 foo", "#2 bar", "I /2 1 VARIABLE handler", "I 2 VARIABLE handler"]);
    let cg = load_graph(&input, 0).unwrap();
    assert_eq!(cg.canonical_name(3), "VARIABLE handler");
    assert_eq!(cg.canonical_name(4), "VARIABLE handler");
    assert_eq!(cg.callers(3), vec![1]);
    assert_eq!(cg.callers(4), vec![2]);
}

#[test]
fn adjacency_excludes_synthetic_nodes() {
    let cg = demo_graph();
    assert_eq!(cg.callees(1), vec![2]);
    assert_eq!(cg.callees(2), vec![3]);
    assert_eq!(cg.callers(2), vec![1]);
    // baz calls nothing real: its only outgoing edge reaches the sink.
    assert_eq!(cg.callees(3), Vec::<usize>::new());
    // foo's only caller is the synthetic root, which is excluded.
    assert_eq!(cg.callers(1), Vec::<usize>::new());
    let ce = cg.callee_edges(1);
    assert_eq!(ce.len(), 1);
    assert_eq!(cg.edge_endpoints(ce[0]), (1, 2));
}

#[test]
fn property_names_resolve_and_describe() {
    let cg = demo_graph();
    assert_eq!(cg.resolve_property("GC_SUPPRESSED"), Some(1));
    assert_eq!(cg.resolve_property("DOM_ITERATING"), Some(4));
    assert_eq!(cg.resolve_property("NO_SUCH_PROPERTY"), None);
    assert_eq!(cg.describe_property_set(0), "");
    assert_eq!(cg.describe_property_set(3), "GC_SUPPRESSED,CANSCRIPT_BOUNDED");
    assert_eq!(cg.describe_property_set(16), "REPLACED");
}

#[test]
fn property_table_record_extends_names() {
    let input = lines(&["#1 foo", "! {\"Properties\": {\"32\": \"CUSTOM_BIT\"}}"]);
    let cg = load_graph(&input, 0).unwrap();
    assert_eq!(cg.resolve_property("CUSTOM_BIT"), Some(32));
    assert_eq!(cg.describe_property_set(32), "CUSTOM_BIT");
}

#[test]
fn bad_property_table_fails_with_line() {
    let input = lines(&["#1 foo", "! not json at all"]);
    match load_graph(&input, 0) {
        Err(e) => assert_eq!(e.line(), 2),
        Ok(_) => panic!("bad JSON must fail the load"),
    }
    let input = lines(&["#1 foo", "! {\"Properties\": {\"nope\": \"X\"}}"]);
    match load_graph(&input, 0) {
        Err(e) => assert_eq!(e.line(), 2),
        Ok(_) => panic!("a bad bit number must fail the load"),
    }
}

#[test]
fn describe_edge_shows_property_masks() {
    let input = lines(&["#1 foo", "#2 bar", "D SUPPRESS_GC 1 2", "D 1:3 1 2", "D 1 2"]);
    let cg = load_graph(&input, 0).unwrap();
    assert_eq!(
        cg.describe_edge(0, DescriptionBrevity::Brief),
        "bar [GC_SUPPRESSED]"
    );
    assert_eq!(
        cg.describe_edge(1, DescriptionBrevity::Brief),
        "bar [GC_SUPPRESSED,CANSCRIPT_BOUNDED:GC_SUPPRESSED]"
    );
    assert_eq!(cg.describe_edge(2, DescriptionBrevity::Brief), "bar");
}

#[test]
fn matcher_filters_by_substring_and_regex() {
    let cg = demo_graph();
    let m = Matcher::new("ba").unwrap();
    assert!(!m.is_match(&cg, 1));
    assert!(m.is_match(&cg, 2));
    assert!(m.is_match(&cg, 3));
    let m = Matcher::new("/^f/").unwrap();
    assert!(m.is_match(&cg, 1));
    assert!(!m.is_match(&cg, 2));
    assert!(Matcher::new("/[/").is_none());
}

#[test]
fn format_errors_carry_their_line_number() {
    let input = lines(&["#1 foo", "X mystery record"]);
    match load_graph(&input, 0) {
        Err(e) => {
            assert_eq!(e.line(), 2);
            assert_eq!(e.detail(), "X mystery record");
        },
        Ok(_) => panic!("an unknown leading character must fail the load"),
    }
}

#[test]
fn out_of_sequence_declaration_is_fatal() {
    let input = lines(&["#1 foo", "#5 bar"]);
    match load_graph(&input, 0) {
        Err(e) => assert_eq!(e.line(), 2),
        Ok(_) => panic!("an out-of-sequence identifier must fail the load"),
    }
}

#[test]
fn alternate_name_for_missing_node_fails() {
    let input = lines(&["#1 foo", "= 9 ghost(void)"]);
    match load_graph(&input, 0) {
        Err(e) => assert_eq!(e.line(), 2),
        Ok(_) => panic!("an alternate name needs an existing node"),
    }
}

#[test]
fn ignored_records_do_not_disturb_the_graph() {
    let input = lines(&["#1 foo", "F field call", "T tag", "V virtual", "", "#2 bar"]);
    let cg = load_graph(&input, 0).unwrap();
    assert_eq!(cg.canonical_name(1), "foo");
    assert_eq!(cg.canonical_name(2), "bar");
}

#[test]
fn line_limit_stops_the_scan() {
    // With a limit of 2 the scan reads one more line than the limit and
    // stops, never seeing the malformed fourth line.
    let input = lines(&["#1 foo", "#2 bar", "#3 baz", "X broken"]);
    let cg = load_graph(&input, 2).unwrap();
    assert_eq!(cg.canonical_name(3), "baz");
    assert!(load_graph(&input, 0).is_err());
}

#[test]
fn equal_length_routes_keep_the_first_origin() {
    let input = lines(&["#1 foo", "#2 bar", "#3 baz", "D 1 3", "D 2 3"]);
    let cg = load_graph(&input, 0).unwrap();
    let route = cg.any_route_from_one_of(&vec![2, 1], &vec![3], &vec![], 0).unwrap();
    assert_eq!(route.len(), 1);
    assert_eq!(cg.edge_endpoints(route[0]), (2, 3));
}

#[test]
fn avoided_origins_are_not_searched() {
    let input = lines(&["#1 foo", "#2 bar", "D 1 2"]);
    let cg = load_graph(&input, 0).unwrap();
    assert_eq!(cg.any_route_from_one_of(&vec![1], &vec![2], &vec![1], 0), None);
    assert!(cg.any_route_from_one_of(&vec![1], &vec![2], &vec![], 0).is_some());
}

#[test]
fn property_table_without_properties_object_fails() {
    let input = lines(&["#1 foo", "! {\"Other\": 1}"]);
    match load_graph(&input, 0) {
        Err(e) => assert_eq!(e.line(), 2),
        Ok(_) => panic!("a table without a Properties object must fail the load"),
    }
}

#[test]
fn empty_input_yields_the_bare_graph() {
    let cg = load_graph(&lines(&[]), 0).unwrap();
    // The sentinel plus the two synthetic nodes.
    assert_eq!(cg.node_count(), 3);
    assert_eq!(cg.name(0, DescriptionBrevity::Brief), "(dummy node zero)");
    assert_eq!(cg.resolve("#7"), None);
}

#[test]
fn sentinel_excluded_only_once_synthetic_nodes_exist() {
    let mut cg = Callgraph::new();
    let f = cg.add_function("f");
    cg.add_edge(f, 0, PropertySet::empty());
    // No sink has been created yet, so an edge to node 0 is visible.
    assert_eq!(cg.callees(f), vec![0]);
    assert_eq!(cg.callers(0), vec![f]);
    let _ = cg.sinks();
    let _ = cg.roots();
    // Frozen now: the synthetic nodes themselves are what gets excluded.
    // The edge to node 0 stays visible; node 0's own edge to the
    // synthetic sink does not show.
    assert_eq!(cg.callees(f), vec![0]);
    assert_eq!(cg.callees(0), Vec::<usize>::new());
    assert_eq!(cg.callers(f), Vec::<usize>::new());
}

#[test]
fn adjacency_of_a_missing_node_is_empty() {
    let cg = demo_graph();
    assert_eq!(cg.callees(99), Vec::<usize>::new());
    assert_eq!(cg.callers(99), Vec::<usize>::new());
    assert_eq!(cg.callee_edges(usize::MAX), Vec::<usize>::new());
    assert_eq!(cg.caller_edges(usize::MAX), Vec::<usize>::new());
}
