use rusterizer::scene::{Object, ObjectList, Scene, Shape};

fn letters(text: &str) -> Shape {
    Shape::Letters(String::from(text))
}

#[test]
fn new_scene_has_ten_shared_group_slots() {
    let s = Scene::new();
    assert_eq!(s.arena.len(), 10);
    assert_eq!(s.objects.0.len(), 10);
    assert_eq!(s.groups.0, s.objects.0);
    for (i, h) in s.groups.0.iter().enumerate() {
        assert_eq!(*h, i);
        match &s.arena[*h].shape {
            Shape::Group(l) => assert!(l.0.is_empty()),
            _ => panic!("group slot without a group shape"),
        }
    }
    assert_eq!(s.selected_object, 0);
    assert_eq!(s.camera, (0, 0));
    assert_eq!(s.scale, (1000, 1000));
    assert_eq!(s.rotation, 0);
}

#[test]
fn object_defaults() {
    let o = Object::new(Shape::Rect((0, 0), (1, 1)), (5, 6));
    assert_eq!(o.position, (5, 6));
    assert_eq!(o.scale, (1000, 1000));
    assert_eq!(o.rotation, 0);
    assert_eq!(o.color, (0, 255, 255));
    let c = Object::with_color(Shape::Rect((0, 0), (1, 1)), (5, 6), (9, 8, 7));
    assert_eq!(c.color, (9, 8, 7));
}

#[test]
fn for_letter_case_folds_and_defaults_empty() {
    let upper = match Shape::for_letter('A') {
        Shape::Lines(v) => v,
        _ => panic!("glyph must be a line list"),
    };
    let lower = match Shape::for_letter('a') {
        Shape::Lines(v) => v,
        _ => panic!("glyph must be a line list"),
    };
    assert_eq!(upper, lower);
    assert_eq!(upper, vec![((0, 50), (25, 0)), ((25, 0), (50, 50)), ((12, 25), (37, 25))]);
    match Shape::for_letter('?') {
        Shape::Lines(v) => assert!(v.is_empty()),
        _ => panic!("glyph must be a line list"),
    }
}

#[test]
fn letters_layout_advances_and_wraps() {
    let arena: Vec<Object> = Vec::new();
    let shape = letters("II");
    let pts = shape.draw((1000, 1000), &arena, 0);
    // Each 'I' glyph is one steep segment of 52 points.
    assert_eq!(pts.len(), 104);
    assert!(pts.contains(&(0, 0)));
    assert!(pts.contains(&(1, 50)));
    // The second character sits one fixed 100-unit advance to the right.
    assert!(pts.contains(&(100, 0)));
    assert!(pts.contains(&(101, 50)));

    // The twelfth character wraps onto a new 100-unit row.
    let shape2 = letters("           I");
    let pts2 = shape2.draw((1000, 1000), &arena, 0);
    assert!(pts2.contains(&(0, 100)));
    assert!(pts2.contains(&(1, 150)));
}

#[test]
fn object_draw_applies_scale_rotate_translate() {
    let arena: Vec<Object> = Vec::new();
    let mut o = Object::new(Shape::Lines(vec![((1, 0), (1, 0))]), (10, 20));
    o.scale = (2000, 2000);
    o.rotation = 90;
    // (1,0) -> scale -> (2,0) -> quarter turn (coordinate swap) -> (0,2)
    // -> translate -> (10, 22).
    let pts = o.draw(&arena, 0);
    assert_eq!(pts, vec![(10, 22), (10, 22)]);
}

#[test]
fn scene_draw_highlights_selection_and_pans_opposite_the_camera() {
    let mut s = Scene::new();
    let h = s.arena.len();
    s.arena.push(Object::new(Shape::Lines(vec![((0, 0), (0, 0))]), (7, 9)));
    s.objects.0.push(h);
    s.selected_object = 10;
    s.camera = (2, 3);
    let out = s.draw();
    assert_eq!(out.len(), 11);
    // Empty groups draw nothing.
    for e in &out[0..10] {
        assert!(e.1.is_empty());
    }
    // The selected object takes the highlight color.
    assert_eq!(out[10].0, (255, 255, 0));
    // Scene content shifts opposite to the camera.
    assert_eq!(out[10].1, vec![(5, 6), (5, 6)]);
}

#[test]
fn group_members_draw_through_their_group() {
    let mut s = Scene::new();
    let h = s.arena.len();
    s.arena.push(Object::new(Shape::Lines(vec![((1, 1), (1, 1))]), (0, 0)));
    s.objects.0.push(h);
    s.selected_object = 10;
    s.assign_to_group(3);
    // The member now renders as part of group slot 3.
    let out = s.draw();
    assert_eq!(out.len(), 10);
    assert_eq!(out[3].1, vec![(1, 1), (1, 1)]);
}

#[test]
fn assign_to_group_moves_selected_membership() {
    let mut s = Scene::new();
    let h = s.arena.len();
    s.arena.push(Object::new(Shape::Rect((0, 0), (1, 1)), (0, 0)));
    s.objects.0.push(h);
    s.selected_object = 10;
    s.assign_to_group(2);
    assert_eq!(s.objects.0.len(), 10);
    assert!(!s.objects.0.contains(&h));
    assert_eq!(s.selected_object, 0);
    match &s.arena[s.groups.0[2]].shape {
        Shape::Group(l) => assert_eq!(l.0, vec![h]),
        _ => panic!("slot 2 must stay a group"),
    }
}

#[test]
fn ungroup_releases_children_to_the_scene() {
    let mut s = Scene::new();
    let h = s.arena.len();
    s.arena.push(Object::new(Shape::Rect((0, 0), (1, 1)), (0, 0)));
    s.objects.0.push(h);
    s.selected_object = 10;
    s.assign_to_group(2);
    s.selected_object = 2;
    s.ungroup_selected();
    assert_eq!(s.objects.0.len(), 11);
    assert_eq!(*s.objects.0.last().unwrap(), h);
    match &s.arena[s.groups.0[2]].shape {
        Shape::Group(l) => assert!(l.0.is_empty()),
        _ => panic!("slot 2 must stay a group"),
    }
}

#[test]
fn selection_skips_empty_groups() {
    let mut s = Scene::new();
    let h = s.arena.len();
    s.arena.push(Object::new(Shape::Rect((0, 0), (1, 1)), (0, 0)));
    s.objects.0.push(h);
    s.selected_object = 0;
    s.advance_selection();
    // The ten empty group placeholders are skipped entirely.
    assert_eq!(s.selected_object, 10);
    s.advance_selection();
    assert_eq!(s.selected_object, 10);
}

#[test]
fn selection_lands_on_nonempty_group() {
    let mut s = Scene::new();
    let h = s.arena.len();
    s.arena.push(Object::new(Shape::Rect((0, 0), (1, 1)), (0, 0)));
    s.objects.0.push(h);
    s.selected_object = 10;
    s.assign_to_group(4);
    // Slot 4 now has a member, so selection may land on it.
    s.selected_object = 0;
    s.advance_selection();
    assert_eq!(s.selected_object, 4);
}

#[test]
fn command_ellipse_spawns_warning_colored_object() {
    let mut s = Scene::new();
    let h = s.arena.len();
    s.arena.push(Object::new(letters("ellipse 3 4"), (50, 50)));
    s.objects.0.push(h);
    s.commit_command(h);
    assert_eq!(s.arena.len(), 12);
    let spawned = &s.arena[11];
    match spawned.shape {
        Shape::Circle { width, height } => {
            assert_eq!(width, 3);
            assert_eq!(height, 4);
        },
        _ => panic!("ellipse command must spawn a circle shape"),
    }
    assert_eq!(spawned.position, (100, 100));
    assert_eq!(spawned.color, (255, 0, 0));
    assert_eq!(*s.objects.0.last().unwrap(), 11);
    // The command text is left alone on success.
    match &s.arena[h].shape {
        Shape::Letters(t) => assert_eq!(t, "ellipse 3 4"),
        _ => panic!("command node must keep its text"),
    }
}

#[test]
fn command_rect_spawns_rectangle() {
    let mut s = Scene::new();
    let h = s.arena.len();
    s.arena.push(Object::new(letters("rect 1 -2 3 4"), (50, 50)));
    s.objects.0.push(h);
    s.commit_command(h);
    match s.arena[11].shape {
        Shape::Rect(p0, p1) => {
            assert_eq!(p0, (1, -2));
            assert_eq!(p1, (3, 4));
        },
        _ => panic!("rect command must spawn a rectangle shape"),
    }
}

#[test]
fn command_unrecognized_reports_in_band() {
    for bad in ["bogus", "", "ellipse 3", "ellipse 3 4 5", "rect 1 2 3", "ellipse three 4"] {
        let mut s = Scene::new();
        let h = s.arena.len();
        s.arena.push(Object::new(letters(bad), (50, 50)));
        s.objects.0.push(h);
        s.commit_command(h);
        assert_eq!(s.arena.len(), 11, "no object may be spawned for {:?}", bad);
        match &s.arena[h].shape {
            Shape::Letters(t) => assert_eq!(t, "invalid"),
            _ => panic!("command node must stay a text node"),
        }
    }
}

#[test]
fn command_ellipse_clamps_oversized_axes() {
    let mut s = Scene::new();
    let h = s.arena.len();
    s.arena.push(Object::new(letters("ellipse 999999 -999999"), (50, 50)));
    s.objects.0.push(h);
    s.commit_command(h);
    match s.arena[11].shape {
        Shape::Circle { width, height } => {
            assert_eq!(width, 46340);
            assert_eq!(height, -46340);
        },
        _ => panic!("ellipse command must spawn a circle shape"),
    }
}

#[test]
fn command_ignores_non_text_node() {
    let mut s = Scene::new();
    let h = s.arena.len();
    s.arena.push(Object::new(Shape::Rect((0, 0), (1, 1)), (0, 0)));
    s.objects.0.push(h);
    s.commit_command(h);
    assert_eq!(s.arena.len(), 11);
    match s.arena[h].shape {
        Shape::Rect(_, _) => {},
        _ => panic!("non-text node must be left alone"),
    }
}

#[test]
fn object_list_new_is_empty() {
    assert!(ObjectList::new().0.is_empty());
}

#[test]
fn glyph_t_has_bar_and_stem() {
    match Shape::for_letter('T') {
        Shape::Lines(v) => assert_eq!(v, vec![((25, 0), (26, 50)), ((0, 0), (50, 0))]),
        _ => panic!("glyph must be a line list"),
    }
}

#[test]
fn glyph_y_has_three_strokes() {
    match Shape::for_letter('y') {
        Shape::Lines(v) => {
            assert_eq!(v, vec![((0, 0), (25, 25)), ((50, 0), (25, 25)), ((25, 25), (24, 50))]);
        },
        _ => panic!("glyph must be a line list"),
    }
}
