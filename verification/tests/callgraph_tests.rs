use ascii_painter::CallGraph;

const MULTI_SECTION: &str = "ClassA::func_1\n  ClassB::func_2\n    ClassB::func_3\n    ClassB::func_4\n  ClassB::func_2\nClassC::\n  ClassB::func_3";

const MULTI_SECTION_2: &str = "ClassA::\n  ClassB::func_2\n    ClassB::func_3\n    ClassB::func_4\n  ClassB::func_2\nClassC::\n  ClassB::func_3\nClassD::func_1\n  ClassE::func_2\n    ClassE::func_3\n    ClassE::func_4\n  ClassE::func_2\nClassF::\n  ClassE::func_3\nClassA::func_1\n  ClassB::func_2\n    ClassB::func_3\n    ClassB::func_4\n  ClassB::func_2\nClassC::\n  ClassB::func_3\nClassD::func_1\n  ClassE::func_2\n    ClassE::func_3\n    ClassE::func_4\n  ClassE::func_2\nClassF::\n  ClassE::func_3";

#[test]
fn test_empty_func() {
    let callgraph = CallGraph::new(MULTI_SECTION);

    assert!(callgraph.component_has_function("ClassA", "func_1"));
    assert!(callgraph.component_has_function("ClassB", "func_4"));
    assert!(callgraph.component_has_function("ClassB", "func_2"));
    assert!(callgraph.component_has_function("ClassB", "func_3"));

    assert_eq!(callgraph.components_in_order[0], "ClassA");
    assert_eq!(callgraph.components_in_order[1], "ClassB");
    assert_eq!(callgraph.components_in_order[2], "ClassC");

    let func_calls = [
        ("", ("ClassA", "func_1")),
        ("ClassA", ("ClassB", "func_2")),
        ("ClassB", ("ClassB", "func_3")),
        ("ClassB", ("ClassB", "func_4")),
        ("ClassA", ("ClassB", "func_2")),
        ("ClassC", ("ClassB", "func_3")),
    ];
    assert_eq!(func_calls.len(), callgraph.func_calls.len());
    for i in 0..func_calls.len() {
        assert_eq!(func_calls[i].0, callgraph.func_calls[i].caller);
        assert_eq!(func_calls[i].1 .0, callgraph.func_calls[i].component);
        assert_eq!(func_calls[i].1 .1, callgraph.func_calls[i].function);
    }
}

#[test]
fn test_multi_section() {
    let callgraph = CallGraph::new(MULTI_SECTION_2);

    assert!(callgraph.component_has_function("ClassA", "func_1"));
    assert!(callgraph.component_has_function("ClassB", "func_4"));
    assert!(callgraph.component_has_function("ClassB", "func_2"));
    assert!(callgraph.component_has_function("ClassB", "func_3"));
    assert!(callgraph.component_has_function("ClassD", "func_1"));
    assert!(callgraph.component_has_function("ClassE", "func_4"));
    assert!(callgraph.component_has_function("ClassE", "func_2"));
    assert!(callgraph.component_has_function("ClassE", "func_3"));

    assert_eq!(callgraph.components_in_order[0], "ClassA");
    assert_eq!(callgraph.components_in_order[1], "ClassB");
    assert_eq!(callgraph.components_in_order[2], "ClassC");
    assert_eq!(callgraph.components_in_order[3], "ClassD");
    assert_eq!(callgraph.components_in_order[4], "ClassE");

    let func_calls = [
        ("ClassA", ("ClassB", "func_2")),
        ("ClassB", ("ClassB", "func_3")),
        ("ClassB", ("ClassB", "func_4")),
        ("ClassA", ("ClassB", "func_2")),
        ("ClassC", ("ClassB", "func_3")),
        ("", ("ClassD", "func_1")),
        ("ClassD", ("ClassE", "func_2")),
        ("ClassE", ("ClassE", "func_3")),
        ("ClassE", ("ClassE", "func_4")),
        ("ClassD", ("ClassE", "func_2")),
        ("ClassF", ("ClassE", "func_3")),
        ("", ("ClassA", "func_1")),
        ("ClassA", ("ClassB", "func_2")),
        ("ClassB", ("ClassB", "func_3")),
        ("ClassB", ("ClassB", "func_4")),
        ("ClassA", ("ClassB", "func_2")),
        ("ClassC", ("ClassB", "func_3")),
        ("", ("ClassD", "func_1")),
        ("ClassD", ("ClassE", "func_2")),
        ("ClassE", ("ClassE", "func_3")),
        ("ClassE", ("ClassE", "func_4")),
        ("ClassD", ("ClassE", "func_2")),
        ("ClassF", ("ClassE", "func_3")),
    ];
    assert_eq!(func_calls.len(), callgraph.func_calls.len());
    for i in 0..func_calls.len() {
        assert_eq!(func_calls[i].0, callgraph.func_calls[i].caller);
        assert_eq!(func_calls[i].1 .0, callgraph.func_calls[i].component);
        assert_eq!(func_calls[i].1 .1, callgraph.func_calls[i].function);
    }
}

#[test]
fn test_depth_stack() {
    // Three nesting levels followed by a dedent back to the top level.
    let callgraph = CallGraph::new("A::f\n B::g\n  B::h\nC::i");
    assert_eq!(callgraph.func_calls.len(), 4);
    assert_eq!(callgraph.func_calls[0].caller, "");
    assert_eq!(callgraph.func_calls[1].caller, "A");
    assert_eq!(callgraph.func_calls[2].caller, "B");
    // The dedent pops exactly one frame, so the frame pushed for the
    // top-level line is the caller here.
    assert_eq!(callgraph.func_calls[3].caller, "A");
    assert_eq!(callgraph.func_calls[3].component, "C");
    assert_eq!(callgraph.func_calls[3].function, "i");
}

#[test]
fn test_order_of_first_appearance() {
    let callgraph = CallGraph::new("B::x\nA::y\nB::z\nC::w\nA::v");
    assert_eq!(callgraph.components_in_order.len(), 3);
    assert_eq!(callgraph.components_in_order[0], "B");
    assert_eq!(callgraph.components_in_order[1], "A");
    assert_eq!(callgraph.components_in_order[2], "C");
}

#[test]
fn test_edge_order_matches_text_order() {
    // Lines without a separator or with an empty part yield no edge.
    let callgraph = CallGraph::new("A::f\nnot a call\nB::\n::g\nC::h");
    assert_eq!(callgraph.func_calls.len(), 2);
    assert_eq!(callgraph.func_calls[0].component, "A");
    assert_eq!(callgraph.func_calls[0].function, "f");
    assert_eq!(callgraph.func_calls[1].component, "C");
    assert_eq!(callgraph.func_calls[1].function, "h");
}

#[test]
fn test_whitespace_stripped_from_names() {
    let callgraph = CallGraph::new("  My Class :: my func \n");
    assert_eq!(callgraph.components_in_order.len(), 1);
    assert_eq!(callgraph.components_in_order[0], "MyClass");
    assert_eq!(callgraph.func_calls.len(), 1);
    assert_eq!(callgraph.func_calls[0].function, "myfunc");
    assert!(callgraph.component_has_function("MyClass", "myfunc"));
}

#[test]
fn test_empty_input() {
    let callgraph = CallGraph::new("");
    assert_eq!(callgraph.components_in_order.len(), 0);
    assert_eq!(callgraph.func_calls.len(), 0);

    let ws = CallGraph::new("   \n\t\n  ");
    assert_eq!(ws.components_in_order.len(), 0);
    assert_eq!(ws.func_calls.len(), 0);
}

#[test]
fn test_second_separator_cut_off() {
    // Only the segment between the first and second separators counts.
    let callgraph = CallGraph::new("A::f::extra");
    assert_eq!(callgraph.func_calls.len(), 1);
    assert_eq!(callgraph.func_calls[0].function, "f");
}

#[test]
fn test_blank_line_resets_depth() {
    // The blank line has depth zero, so it pops the frame pushed for A; the
    // empty component of the blank line then blocks a push for the next
    // indented line, whose caller is therefore external.
    let callgraph = CallGraph::new("A::f\n  B::g\n\n  C::h");
    assert_eq!(callgraph.func_calls.len(), 3);
    assert_eq!(callgraph.func_calls[0].caller, "");
    assert_eq!(callgraph.func_calls[1].caller, "A");
    assert_eq!(callgraph.func_calls[2].caller, "");
    assert_eq!(callgraph.func_calls[2].component, "C");
}

#[test]
fn test_function_sets_have_no_duplicates() {
    // The same call recorded twice adds the function name only once.
    let callgraph = CallGraph::new("A::f\nA::f\nA::f");
    assert_eq!(callgraph.components.len(), 1);
    assert_eq!(callgraph.components[0].name, "A");
    assert_eq!(callgraph.components[0].functions.len(), 1);
    assert_eq!(callgraph.components[0].functions[0], "f");
    assert!(callgraph.component_has_function("A", "f"));
}
