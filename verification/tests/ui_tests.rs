use limn::layout::{ConTerm, ConstraintSpec, EditSpec, LayoutUpdate, RelOp, Widget};
use limn::strength::{MEDIUM, REQUIRED, STRONG};
use limn::ui::{Target, Ui, UiEvent};

fn eq_const(var: u64, value: i64, strength: u64) -> ConstraintSpec {
    ConstraintSpec {
        terms: vec![ConTerm { var, coeff: 1 }],
        op: RelOp::Eq,
        constant: -value,
        strength,
    }
}

fn anchored_root(ui: &mut Ui, width: i64, height: i64) -> u64 {
    let lv = ui.solver.alloc_layout_vars();
    let widget = Widget::new(lv);
    let update = limn::layout::root_anchor_update(&lv, width, height);
    ui.set_root(widget, update).unwrap()
}

fn layout_events(events: &Vec<(Target, UiEvent)>) -> Vec<&limn::solver::LayoutChanged> {
    let mut out = Vec::new();
    for (_, e) in events.iter() {
        if let UiEvent::Layout(b) = e {
            out.push(b);
        }
    }
    out
}

#[test]
fn resize_yields_exactly_one_batched_notification() {
    // root with strong right/bottom anchors at 800 by 600; required
    // left and top at zero; one resize suggestion batch
    let mut ui = Ui::new();
    let root = anchored_root(&mut ui, 800, 600);
    let _ = ui.take_events();
    let lv = match &ui.graph.nodes[root as usize] {
        Some(node) => node.widget.layout,
        None => panic!("root attached"),
    };
    ui.window_resized(1000, 700).unwrap();
    let events = ui.take_events();
    let batches = layout_events(&events);
    assert_eq!(batches.len(), 1, "exactly one layout notification");
    let entries = &batches[0].0;
    assert!(entries.iter().any(|&(w, v, val)| (w, v, val)
        == (root, lv.right, (1000.0f64).to_bits())));
    assert!(entries.iter().any(|&(w, v, val)| (w, v, val)
        == (root, lv.bottom, (700.0f64).to_bits())));
}

#[test]
fn bound_children_containment_wins_over_weaker_width() {
    // child under a bound_children parent asks for width 400; the
    // generated required containment makes it yield when the parent
    // shrinks below 400
    let mut ui = Ui::new();
    let root_lv = ui.solver.alloc_layout_vars();
    let mut root_widget = Widget::new(root_lv);
    root_widget.bound_children = true;
    let root_update = LayoutUpdate {
        edit_vars: vec![
            EditSpec { var: root_lv.right, strength: STRONG, value: 800 },
            EditSpec { var: root_lv.bottom, strength: STRONG, value: 600 },
        ],
        constraints: {
            let mut cs = limn::layout::base_constraints(&root_lv);
            cs.push(eq_const(root_lv.left, 0, REQUIRED));
            cs.push(eq_const(root_lv.top, 0, REQUIRED));
            cs
        },
    };
    let root = ui.set_root(root_widget, root_update).unwrap();

    let child_lv = ui.solver.alloc_layout_vars();
    let child_widget = Widget::new(child_lv);
    let child_update = LayoutUpdate {
        edit_vars: vec![],
        constraints: {
            let mut cs = limn::layout::base_constraints(&child_lv);
            cs.push(eq_const(child_lv.left, 0, REQUIRED));
            // preferred width of 400, weaker than the window anchors
            cs.push(ConstraintSpec {
                terms: vec![ConTerm { var: child_lv.width, coeff: 1 }],
                op: RelOp::Eq,
                constant: -400,
                strength: MEDIUM,
            });
            cs
        },
    };
    let child = ui.add_widget(child_widget, child_update, Some(root)).unwrap();
    let _ = ui.take_events();

    // shrink the window below the child's preferred width
    ui.window_resized(300, 600).unwrap();
    let events = ui.take_events();
    let batches = layout_events(&events);
    assert_eq!(batches.len(), 1);
    let mut child_width: Option<f64> = None;
    let mut child_right: Option<f64> = None;
    for &(w, v, val) in batches[0].0.iter() {
        if w == child && v == child_lv.width {
            child_width = Some(f64::from_bits(val));
        }
        if w == child && v == child_lv.right {
            child_right = Some(f64::from_bits(val));
        }
    }
    let width = child_width.expect("child width changed");
    assert!(width <= 300.0 + 1e-6, "width {} must shrink to the parent", width);
    assert!(width < 400.0);
    let right = child_right.expect("child right changed");
    assert!(right <= 300.0 + 1e-6, "child right edge {} stays inside the parent", right);
}

#[test]
fn subtree_dispatch_delivers_preorder_exactly_once() {
    let mut ui = Ui::new();
    let root = anchored_root(&mut ui, 100, 100);
    let mut ids = vec![root];
    for parent in [root, root] {
        let lv = ui.solver.alloc_layout_vars();
        let w = Widget::new(lv);
        let update = LayoutUpdate { edit_vars: vec![], constraints: vec![] };
        ids.push(ui.add_widget(w, update, Some(parent)).unwrap());
    }
    // a grandchild under the first child
    let lv = ui.solver.alloc_layout_vars();
    let w = Widget::new(lv);
    let gc = ui
        .add_widget(w, LayoutUpdate { edit_vars: vec![], constraints: vec![] }, Some(ids[1]))
        .unwrap();
    let handled: Vec<bool> = vec![];
    let delivered = ui.handle_event(Target::SubTree(root), &handled);
    assert_eq!(delivered, vec![root, ids[1], gc, ids[2]]);
    // every node exactly once
    let mut sorted = delivered.clone();
    sorted.sort();
    sorted.dedup();
    assert_eq!(sorted.len(), delivered.len());
    // stale id: silent no-op
    ui.remove_widget(gc);
    let delivered = ui.handle_event(Target::SubTree(gc), &handled);
    assert!(delivered.is_empty());
    let delivered = ui.handle_event(Target::SubTree(root), &handled);
    assert_eq!(delivered, vec![root, ids[1], ids[2]]);
}

#[test]
fn bubble_stops_at_first_handler_within_depth_plus_one() {
    let mut ui = Ui::new();
    let root = anchored_root(&mut ui, 100, 100);
    let mut chain = vec![root];
    for _ in 0..3 {
        let lv = ui.solver.alloc_layout_vars();
        let w = Widget::new(lv);
        let parent = *chain.last().unwrap();
        chain.push(
            ui.add_widget(w, LayoutUpdate { edit_vars: vec![], constraints: vec![] }, Some(parent))
                .unwrap(),
        );
    }
    let leaf = *chain.last().unwrap();
    // nobody handles: the whole chain, depth + 1 attempts
    let handled = vec![false, false, false, false];
    let delivered = ui.handle_event(Target::BubbleUp(leaf), &handled);
    assert_eq!(delivered, vec![chain[3], chain[2], chain[1], chain[0]]);
    // the middle widget handles: delivery stops exactly there
    let mut handled = vec![false, false, false, false];
    handled[chain[1] as usize] = true;
    let delivered = ui.handle_event(Target::BubbleUp(leaf), &handled);
    assert_eq!(delivered, vec![chain[3], chain[2], chain[1]]);
    // the widget itself handles: a single delivery
    let mut handled = vec![false, false, false, false];
    handled[leaf as usize] = true;
    let delivered = ui.handle_event(Target::BubbleUp(leaf), &handled);
    assert_eq!(delivered, vec![leaf]);
}

#[test]
fn direct_child_and_coordinator_targets() {
    let mut ui = Ui::new();
    let root = anchored_root(&mut ui, 100, 100);
    let lv = ui.solver.alloc_layout_vars();
    let first = ui
        .add_widget(Widget::new(lv), LayoutUpdate { edit_vars: vec![], constraints: vec![] }, Some(root))
        .unwrap();
    let lv2 = ui.solver.alloc_layout_vars();
    let _second = ui
        .add_widget(Widget::new(lv2), LayoutUpdate { edit_vars: vec![], constraints: vec![] }, Some(root))
        .unwrap();
    let handled: Vec<bool> = vec![];
    assert_eq!(ui.handle_event(Target::Widget(root), &handled), vec![root]);
    assert_eq!(ui.handle_event(Target::Child(root), &handled), vec![first]);
    assert!(ui.handle_event(Target::Child(first), &handled).is_empty());
    assert!(ui.handle_event(Target::Ui, &handled).is_empty());
    assert!(ui.handle_event(Target::Widget(99), &handled).is_empty());
}

#[test]
fn hit_test_prefers_later_inserted_sibling() {
    let mut ui = Ui::new();
    let root = anchored_root(&mut ui, 800, 600);
    let mk = |ui: &mut Ui| {
        let lv = ui.solver.alloc_layout_vars();
        ui.add_widget(Widget::new(lv), LayoutUpdate { edit_vars: vec![], constraints: vec![] }, Some(root))
            .unwrap()
    };
    let a = mk(&mut ui);
    let b = mk(&mut ui);
    // overlapping cached bounds, written through a layout batch
    let lva = match &ui.graph.nodes[a as usize] {
        Some(n) => n.widget.layout,
        None => panic!(),
    };
    let lvb = match &ui.graph.nodes[b as usize] {
        Some(n) => n.widget.layout,
        None => panic!(),
    };
    let batch = limn::solver::LayoutChanged(vec![
        (a, lva.left, (0.0f64).to_bits()),
        (a, lva.top, (0.0f64).to_bits()),
        (a, lva.right, (100.0f64).to_bits()),
        (a, lva.bottom, (100.0f64).to_bits()),
        (b, lvb.left, (50.0f64).to_bits()),
        (b, lvb.top, (50.0f64).to_bits()),
        (b, lvb.right, (150.0f64).to_bits()),
        (b, lvb.bottom, (150.0f64).to_bits()),
    ]);
    ui.handle_layout_change(&batch);
    // a point inside both siblings: the later-inserted one wins
    let hit = ui.widget_under_cursor((75.0f64).to_bits(), (75.0f64).to_bits());
    assert_eq!(hit, Some(b));
    // a point only inside the first
    let hit = ui.widget_under_cursor((10.0f64).to_bits(), (10.0f64).to_bits());
    assert_eq!(hit, Some(a));
    // a point outside everything (root bounds were never written)
    let hit = ui.widget_under_cursor((700.0f64).to_bits(), (500.0f64).to_bits());
    assert_eq!(hit, None);
}

#[test]
fn layout_changes_update_cached_bounds_and_skip_stale_ids() {
    let mut ui = Ui::new();
    let root = anchored_root(&mut ui, 800, 600);
    let lv = match &ui.graph.nodes[root as usize] {
        Some(n) => n.widget.layout,
        None => panic!(),
    };
    let batch = limn::solver::LayoutChanged(vec![
        (root, lv.right, (800.0f64).to_bits()),
        (42, lv.left, (5.0f64).to_bits()),
    ]);
    ui.handle_layout_change(&batch);
    match &ui.graph.nodes[root as usize] {
        Some(n) => assert_eq!(n.bounds.right, (800.0f64).to_bits()),
        None => panic!(),
    }
}

#[test]
fn removal_keeps_no_dangling_references() {
    // widgets added then removed: the solver keeps no constraint
    // referencing the removed widget's variables
    let mut ui = Ui::new();
    let root = anchored_root(&mut ui, 800, 600);
    let lv = ui.solver.alloc_layout_vars();
    let child = ui
        .add_widget(
            Widget::new(lv),
            LayoutUpdate {
                edit_vars: vec![],
                constraints: {
                    let mut cs = limn::layout::base_constraints(&lv);
                    cs.push(eq_const(lv.left, 10, STRONG));
                    cs
                },
            },
            Some(root),
        )
        .unwrap();
    let lines_before = ui.solver.debug_constraints().len();
    assert!(lines_before >= 7);
    ui.remove_widget(child);
    assert!(ui.graph.nodes[child as usize].is_none());
    // the root's own constraints survive; the child's are gone
    let lines_after = ui.solver.debug_constraints().len();
    assert_eq!(lines_after, lines_before - 3);
    // root edges unaffected
    ui.window_resized(640, 480).unwrap();
    let events = ui.take_events();
    assert!(events.iter().any(|(_, e)| matches!(e, UiEvent::Layout(_))));
}

#[test]
fn set_root_registers_the_anchor_batch() {
    let mut ui = Ui::new();
    let lv = ui.solver.alloc_layout_vars();
    let update = limn::layout::root_anchor_update(&lv, 640, 480);
    let n = update.constraints.len() as u64;
    let root = ui.set_root(Widget::new(lv), update).unwrap();
    assert_eq!(ui.graph.root, Some(root));
    // the whole batch reached the store: anchors suggestible, ...
    assert!(ui.solver.has_edit_variable(lv.right));
    assert!(ui.solver.has_edit_variable(lv.bottom));
    assert!(!ui.solver.has_edit_variable(lv.left));
    // ... and every constraint of the batch live
    for c in 0..n {
        assert!(ui.solver.has_constraint(c));
    }
    assert!(!ui.solver.has_constraint(n));
}

#[test]
fn dispatch_dirtiness_schedules_one_full_repaint() {
    let mut ui = Ui::new();
    let _root = anchored_root(&mut ui, 100, 100);
    assert!(!ui.finish_dispatch(&vec![false, false, false]));
    assert!(ui.finish_dispatch(&vec![false, true, false]));
    assert!(!ui.finish_dispatch(&vec![]));
}

#[test]
fn root_variables_are_named_for_diagnostics() {
    let mut ui = Ui::new();
    let _root = anchored_root(&mut ui, 100, 100);
    let lines = ui.solver.debug_constraints();
    assert!(lines.iter().any(|l| l.contains("root.left")));
    assert!(lines.iter().any(|l| l.contains("root.width")));
}

#[test]
fn close_flag_round_trips() {
    let mut ui = Ui::new();
    assert!(!ui.should_close());
    ui.close();
    assert!(ui.should_close());
}

#[test]
fn ordering_of_encoded_values_matches_the_doubles() {
    let cases: Vec<(f64, f64)> = vec![
        (0.0, 1.0),
        (1.0, 0.0),
        (-1.0, 1.0),
        (-2.5, -1.5),
        (-0.0, 0.0),
        (0.0, -0.0),
        (123.75, 123.75),
        (-1000.0, -1000.0),
    ];
    for (a, b) in cases {
        assert_eq!(
            limn::scalar::le_bits(a.to_bits(), b.to_bits()),
            a <= b,
            "ordering of {} and {}",
            a,
            b
        );
    }
}
