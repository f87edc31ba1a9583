use gantz::ui_tree::{
    child_id, child_salt, renders, resolve_path, salted_id, value_text, Align, BindPath, Element,
    ElementKey, Op, Reading, Salt, UiTree,
};

fn key(s: &str) -> Option<ElementKey> {
    Some(ElementKey::Str(s.to_string()))
}

fn int_key(i: i64) -> Option<ElementKey> {
    Some(ElementKey::Int(i))
}

fn value(path: Vec<usize>) -> Element {
    Element::Value { bind: Some(BindPath(path)), wrap: false, key: None }
}

fn label(s: &str) -> Element {
    Element::Label { text: s.to_string(), size: None, color: None, key: None }
}

#[test]
fn resolve_path_concatenates_prefix_scopes_and_bind() {
    let bind = BindPath(vec![7]);
    assert_eq!(resolve_path(&[], &[], &bind), vec![7]);
    assert_eq!(resolve_path(&[1], &[], &bind), vec![1, 7]);
    assert_eq!(resolve_path(&[], &[4], &bind), vec![4, 7]);
    assert_eq!(resolve_path(&[1, 2], &[3, 4], &bind), vec![1, 2, 3, 4, 7]);
    let deep = BindPath(vec![5, 6]);
    assert_eq!(resolve_path(&[1], &[2], &deep), vec![1, 2, 5, 6]);
}

#[test]
fn keyed_children_keep_their_id_under_reorder() {
    let parent = egui::Id::unique("parent");
    assert_eq!(child_id(parent, 0, &key("a")), child_id(parent, 5, &key("a")));
    assert_eq!(child_id(parent, 0, &int_key(3)), child_id(parent, 9, &int_key(3)));
}

#[test]
fn unkeyed_children_are_identified_by_position() {
    let parent = egui::Id::unique("parent");
    assert_ne!(child_id(parent, 0, &None), child_id(parent, 1, &None));
    assert_eq!(child_id(parent, 2, &None), child_id(parent, 2, &None));
}

#[test]
fn distinct_keys_are_distinct_ids() {
    let parent = egui::Id::unique("parent");
    assert_ne!(child_id(parent, 0, &key("a")), child_id(parent, 0, &key("b")));
    assert_ne!(child_id(parent, 0, &int_key(1)), child_id(parent, 0, &int_key(2)));
}

#[test]
fn ids_derive_from_the_parent() {
    let (p1, p2) = (egui::Id::unique("p1"), egui::Id::unique("p2"));
    assert_ne!(child_id(p1, 0, &None), child_id(p2, 0, &None));
    assert_ne!(child_id(p1, 0, &key("a")), child_id(p2, 0, &key("a")));
}

#[test]
fn ids_are_those_of_the_salted_parent() {
    let parent = egui::Id::unique("parent");
    assert_ne!(child_id(parent, 0, &None), parent);
    assert_eq!(child_id(parent, 4, &None), parent.with(4usize));
    assert_eq!(child_id(parent, 4, &key("a")), parent.with(("k", "a")));
    assert_eq!(child_id(parent, 4, &int_key(9)), parent.with(("k", 9i64)));
    assert_eq!(salted_id(parent, &Salt::Scope(2)), parent.with(("scope", 2usize)));
}

#[test]
fn keys_and_positions_are_apart() {
    assert!(matches!(child_salt(3, &None), Salt::Position(3)));
    assert!(matches!(child_salt(3, &int_key(3)), Salt::KeyInt(3)));
    assert!(matches!(child_salt(3, &key("3")), Salt::Key(s) if s == "3"));
}

#[test]
fn scopes_extend_bindings_and_end() {
    let tree = Element::Col {
        gap: Some(0x4080_0000),
        align: None,
        key: None,
        children: vec![
            Element::Scope {
                id: 4,
                key: None,
                children: vec![
                    value(vec![0]),
                    Element::Scope { id: 5, key: None, children: vec![value(vec![1, 2])] },
                ],
            },
            value(vec![3]),
            Element::Value { bind: None, wrap: true, key: None },
        ],
    };
    let root = egui::Id::unique("root");
    let r = UiTree::new(root).instance_prefix(vec![9]).show(&tree);
    assert_eq!(r.root_id, root);
    assert_eq!(r.ops.len(), 6);
    assert!(matches!(r.ops[0], Op::Col { align: Align::Start, gap: Some(0x4080_0000) }));
    assert!(matches!(&r.ops[1], Op::Value { path: Some(p), wrap: false } if *p == vec![9, 4, 0]));
    assert!(matches!(&r.ops[2], Op::Value { path: Some(p), .. } if *p == vec![9, 4, 5, 1, 2]));
    assert!(matches!(&r.ops[3], Op::Value { path: Some(p), .. } if *p == vec![9, 3]));
    assert!(matches!(&r.ops[4], Op::Value { path: None, wrap: true }));
    assert!(matches!(r.ops[5], Op::Close));
}

#[test]
fn grids_end_their_rows_and_are_identified() {
    let grid = Element::Grid {
        cols: 2,
        gap: None,
        key: key("g"),
        children: vec![label("a"), label("b"), label("c")],
    };
    let tree = Element::Row { gap: None, align: None, key: None, children: vec![grid] };
    let r = UiTree::new(egui::Id::unique("root")).show(&tree);
    assert!(matches!(r.ops[0], Op::Row { align: Align::Center, gap: None }));
    let Op::Grid { id, cols, gap } = &r.ops[1] else {
        panic!("expected a grid");
    };
    assert!(matches!(&id[..], [Salt::Key(s)] if s == "g"));
    assert_eq!((*cols, *gap), (2, None));
    assert!(matches!(&r.ops[2], Op::Label { text, .. } if text == "a"));
    assert!(matches!(&r.ops[3], Op::Label { text, .. } if text == "b"));
    assert!(matches!(r.ops[4], Op::EndRow));
    assert!(matches!(&r.ops[5], Op::Label { text, .. } if text == "c"));
    assert!(matches!(r.ops[6], Op::Close));
    assert!(matches!(r.ops[7], Op::Close));
    assert_eq!(r.ops.len(), 8);
}

#[test]
fn a_grid_has_a_column() {
    let tree = Element::Grid { cols: 0, gap: None, key: None, children: vec![label("a")] };
    let r = UiTree::new(egui::Id::unique("root")).show(&tree);
    assert!(matches!(&r.ops[0], Op::Grid { id, cols: 1, .. } if id.is_empty()));
    assert!(matches!(r.ops[2], Op::EndRow));
}

#[test]
fn widgets_that_cannot_be_drawn_leave_a_chip() {
    let tree = Element::Frame {
        title: Some("t".to_string()),
        key: None,
        children: vec![
            Element::Dialer { key: None },
            Element::Toggle { key: None },
            Element::Button { key: None },
            Element::Matrix { key: None },
            Element::Plot { key: None },
            Element::RefGui { id: 3, key: None },
            Element::Sep { key: None },
            Element::Space { amount: None, key: None },
            Element::Error { reason: "no".to_string(), path: vec![1], key: None },
        ],
    };
    let r = UiTree::new(egui::Id::unique("root")).show(&tree);
    assert!(matches!(&r.ops[0], Op::Frame { title: Some(t) } if t == "t"));
    for (i, tag) in ["dialer", "toggle", "button", "matrix", "plot"].iter().enumerate() {
        assert!(matches!(&r.ops[i + 1], Op::Chip { tag: t } if t == tag));
    }
    assert!(matches!(r.ops[6], Op::RefGui { id: 3 }));
    assert!(matches!(r.ops[7], Op::Sep));
    assert!(matches!(r.ops[8], Op::Space { amount: None }));
    assert!(matches!(&r.ops[9], Op::Error { reason, path } if reason == "no" && *path == vec![1]));
    assert!(matches!(r.ops[10], Op::Close));
}

#[test]
fn values_are_drawn_as_text() {
    assert_eq!(value_text(&Reading::Value("3.5".to_string())), "3.5");
    assert_eq!(value_text(&Reading::Nothing), "\u{2205}");
    assert_eq!(value_text(&Reading::Failed), "ERR");
}

#[test]
fn relabelling_keeps_grid_ids_and_bindings() {
    let tree = |text: &str| Element::Col {
        gap: None,
        align: None,
        key: None,
        children: vec![
            Element::Label {
                text: text.to_string(),
                size: None,
                color: None,
                key: None,
            },
            Element::Grid {
                cols: 2,
                gap: None,
                key: None,
                children: vec![Element::Value {
                    bind: Some(BindPath(vec![3])),
                    wrap: false,
                    key: None,
                }],
            },
        ],
    };
    let root = egui::Id::unique("root");
    let a = UiTree::new(root).show(&tree("cutoff"));
    let b = UiTree::new(root).show(&tree("resonance"));
    assert_eq!(a.ops.len(), b.ops.len());
    assert_ne!(format!("{:?}", a.ops[1]), format!("{:?}", b.ops[1]));
    for i in (0..a.ops.len()).filter(|i| *i != 1) {
        assert_eq!(format!("{:?}", a.ops[i]), format!("{:?}", b.ops[i]));
    }
}

#[test]
fn groups_and_space_render_nothing() {
    let space = || Element::Space { amount: None, key: None };
    let column = |children| Element::Col { gap: None, align: None, key: None, children };
    let show = |e: Element| UiTree::new(egui::Id::unique("root")).show(&e);
    let scope = Element::Scope { id: 1, key: None, children: vec![space()] };
    let empty = show(column(vec![space(), scope]));
    assert!(!empty.rendered);
    assert!(!renders(&empty.ops));
    let scope = Element::Scope { id: 1, key: None, children: vec![label("a")] };
    let full = show(column(vec![space(), scope]));
    assert!(full.rendered);
    assert!(renders(&full.ops));
    assert!(show(Element::Sep { key: None }).rendered);
}
