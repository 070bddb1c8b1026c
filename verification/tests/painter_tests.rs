use ascii_painter::painter::diagram_fits_check;
use ascii_painter::Canvas;
use ascii_painter::Painter;

fn rendered(input: &str) -> String {
    let mut canvas = Canvas::new(500, 500);
    let mut painter = Painter::new();
    painter.draw(&mut canvas, input);
    canvas.reset_boundary();
    canvas.to_string()
}

fn count_char(s: &str, c: char) -> usize {
    s.chars().filter(|&x| x == c).count()
}

#[test]
fn test_round_trip_two_components() {
    let input = "ClassA::func_1\n  ClassB::func_2";
    let callgraph = ascii_painter::CallGraph::new(input);
    assert_eq!(callgraph.components_in_order.len(), 2);
    assert_eq!(callgraph.components_in_order[0], "ClassA");
    assert_eq!(callgraph.components_in_order[1], "ClassB");
    // The top-level line yields an edge with an external (empty) caller,
    // followed by the cross-component edge of the indented line.
    assert_eq!(callgraph.func_calls.len(), 2);
    assert_eq!(callgraph.func_calls[0].caller, "");
    assert_eq!(callgraph.func_calls[0].component, "ClassA");
    assert_eq!(callgraph.func_calls[0].function, "func_1");
    assert_eq!(callgraph.func_calls[1].caller, "ClassA");
    assert_eq!(callgraph.func_calls[1].component, "ClassB");
    assert_eq!(callgraph.func_calls[1].function, "func_2");

    let out = rendered(input);
    // Exactly two component rectangles.
    assert_eq!(count_char(&out, '┌'), 2);
    assert_eq!(count_char(&out, '┐'), 2);
    assert_eq!(count_char(&out, '└'), 2);
    assert_eq!(count_char(&out, '┘'), 2);
    assert!(out.contains("ClassA"));
    assert!(out.contains("ClassB"));
    // Two rightward arrows: the external call into ClassA and the
    // cross-component call from ClassA into ClassB.
    assert_eq!(count_char(&out, '►'), 2);
    assert_eq!(count_char(&out, '◄'), 0);
    // The external call's label wraps over the short span into ClassA
    // ("func" then "_1"); the cross-component label fits on one row.
    assert!(out.contains("func"));
    assert!(out.contains("_1"));
    assert!(out.contains("func_2"));
}

#[test]
fn test_self_call_loop_shape() {
    let out = rendered("ClassA::func_1\n  ClassA::function_long");
    // The self-call loop: one extra corner pair beyond the single
    // component rectangle, and a leftward closing arrow.
    assert_eq!(count_char(&out, '┌'), 1);
    assert_eq!(count_char(&out, '└'), 1);
    assert_eq!(count_char(&out, '┐'), 2);
    assert_eq!(count_char(&out, '┘'), 2);
    assert_eq!(count_char(&out, '◄'), 1);

    // The loop's two corners sit on the same column, four cells right of
    // the closing arrowhead.
    let lines: Vec<&str> = out.lines().collect();
    let mut loop_top: Option<(usize, usize)> = None;
    let mut loop_bottom: Option<(usize, usize)> = None;
    let mut arrow: Option<(usize, usize)> = None;
    for (r, line) in lines.iter().enumerate() {
        let has_arrow = line.chars().any(|x| x == '◄');
        for (c, ch) in line.chars().enumerate() {
            // The rectangle's corners sit on the first and third rows; the
            // loop's top corner is the only ┐ below them, and its bottom
            // corner shares its row with the closing arrowhead.
            if ch == '┐' && r > 2 {
                loop_top = Some((r, c));
            }
            if ch == '┘' && has_arrow {
                loop_bottom = Some((r, c));
            }
            if ch == '◄' {
                arrow = Some((r, c));
            }
        }
    }
    let (tr, tc) = loop_top.expect("loop top corner");
    let (br, bc) = loop_bottom.expect("loop bottom corner");
    let (ar, ac) = arrow.expect("closing arrow");
    assert_eq!(tc, bc);
    assert!(tr < br);
    assert_eq!(ar, br);
    assert_eq!(ac + 4, bc);
}

#[test]
fn test_empty_input_renders_nothing() {
    assert_eq!(rendered(""), "");
    assert_eq!(rendered("   \n\t\n  "), "");
}

#[test]
fn test_component_rectangles_do_not_overlap() {
    let out = rendered("Alpha::one\n  Beta::two\n  GammaComponent::three");
    let first = out.lines().next().expect("top row");
    // On the top row the three rectangles appear strictly left to right:
    // every ┐ is followed by the next ┌ further right.
    let opens: Vec<usize> = first.char_indices().filter(|&(_, c)| c == '┌').map(|(i, _)| i).collect();
    let closes: Vec<usize> = first.char_indices().filter(|&(_, c)| c == '┐').map(|(i, _)| i).collect();
    assert_eq!(opens.len(), 3);
    assert_eq!(closes.len(), 3);
    for k in 0..3 {
        assert!(opens[k] < closes[k]);
        if k > 0 {
            assert!(closes[k - 1] < opens[k]);
        }
    }
}

#[test]
fn test_caller_to_earlier_component_arrow_points_left() {
    // Beta calls back into Alpha, so one arrow points left.
    let out = rendered("Alpha::go\n  Beta::step\nBeta::other\n  Alpha::back");
    assert!(count_char(&out, '◄') >= 1);
}

#[test]
fn test_lifecycle_lines_reach_below_last_call() {
    let out = rendered("ClassA::func_1\n  ClassB::func_2");
    let lines: Vec<&str> = out.lines().collect();
    // The arrow row is above the last row, and the last row still carries
    // both lifecycle lines.
    let last = lines.last().expect("non-empty diagram");
    assert_eq!(last.chars().filter(|&c| c == '│').count(), 2);
}

#[test]
fn test_long_component_name_wraps() {
    let out = rendered("AVeryLongComponentNameHere::run");
    // A name longer than the widest rectangle wraps onto a second row of
    // the component's box.
    assert!(out.contains("AVeryLongComponentN"));
    assert!(out.contains("ameHere"));
    assert_eq!(count_char(&out, '┌'), 1);
}

#[test]
fn test_diagram_fits_check() {
    let input = "ClassA::func_1\n  ClassB::func_2";
    assert!(diagram_fits_check(input, 500, 500));
    // Far too small for two rectangles and an arrow.
    assert!(!diagram_fits_check(input, 10, 10));
    // A self-call label shorter than six characters cannot be laid out.
    assert!(!diagram_fits_check("ClassA::go\n  ClassA::go", 500, 500));
    // A thirty-character label over the short span between the left grid
    // edge and a narrow component does not fit either.
    assert!(!diagram_fits_check("A::abcdefghijklmnopqrstuvwxyzabcd", 500, 500));
    // An empty diagram fits any canvas.
    assert!(diagram_fits_check("", 1, 1));
}
