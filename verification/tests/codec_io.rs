use rusterizer::scene::{Object, Scene, Shape};

fn sample_scene() -> Scene {
    // Three top-level objects, one per shape family, plus a member assigned
    // into group slot 2.
    let mut s = Scene::new();
    let c = s.arena.len();
    s.arena.push(Object::with_color(
        Shape::Circle { width: 100, height: 50 }, (300, 300), (255, 0, 0)));
    s.objects.0.push(c);
    let r = s.arena.len();
    s.arena.push(Object::new(Shape::Rect((0, 0), (20, 10)), (5, 5)));
    s.objects.0.push(r);
    let p = s.arena.len();
    s.arena.push(Object::new(Shape::Polygon(vec![(0, 0), (10, 0), (10, 10)]), (-7, 2)));
    s.objects.0.push(p);
    let m = s.arena.len();
    let mut member = Object::new(Shape::Letters(String::from("hi there")), (50, 50));
    member.rotation = -45;
    member.scale = (1500, 500);
    s.arena.push(member);
    s.objects.0.push(m);
    s.selected_object = s.objects.0.len() - 1;
    s.assign_to_group(2);
    s.camera = (-3, 8);
    s.scale = (2000, 1000);
    s.rotation = 33;
    s
}

#[test]
fn round_trip_preserves_every_field() {
    let s = sample_scene();
    let text = s.serialize();
    let t = Scene::deserialize(&text).expect("a serialized scene must parse back");
    assert_eq!(t.arena.len(), s.arena.len());
    assert_eq!(t.objects.0, s.objects.0);
    assert_eq!(t.groups.0, s.groups.0);
    assert_eq!(t.selected_object, s.selected_object);
    assert_eq!(t.camera, s.camera);
    assert_eq!(t.scale, s.scale);
    assert_eq!(t.rotation, s.rotation);
    for (a, b) in s.arena.iter().zip(t.arena.iter()) {
        assert_eq!(a.position, b.position);
        assert_eq!(a.scale, b.scale);
        assert_eq!(a.rotation, b.rotation);
        assert_eq!(a.color, b.color);
        match (&a.shape, &b.shape) {
            (Shape::Circle { width: w1, height: h1 }, Shape::Circle { width: w2, height: h2 }) => {
                assert_eq!((w1, h1), (w2, h2));
            },
            (Shape::Rect(a0, a1), Shape::Rect(b0, b1)) => assert_eq!((a0, a1), (b0, b1)),
            (Shape::Polygon(v1), Shape::Polygon(v2)) => assert_eq!(v1, v2),
            (Shape::Letters(t1), Shape::Letters(t2)) => assert_eq!(t1, t2),
            (Shape::Lines(l1), Shape::Lines(l2)) => assert_eq!(l1, l2),
            (Shape::Group(g1), Shape::Group(g2)) => assert_eq!(g1.0, g2.0),
            _ => panic!("shape variant changed across the round trip"),
        }
    }
}

#[test]
fn round_trip_keeps_group_membership() {
    let s = sample_scene();
    let t = Scene::deserialize(&s.serialize()).expect("parse");
    match &t.arena[t.groups.0[2]].shape {
        Shape::Group(l) => {
            assert_eq!(l.0.len(), 1);
            let member = &t.arena[l.0[0]];
            match &member.shape {
                Shape::Letters(txt) => assert_eq!(txt, "hi there"),
                _ => panic!("the assigned member must survive"),
            }
            assert_eq!(member.rotation, -45);
            assert_eq!(member.scale, (1500, 500));
        },
        _ => panic!("slot 2 must stay a group"),
    }
}

#[test]
fn serialized_form_is_readable_tokens() {
    let s = Scene::new();
    let text = s.serialize();
    let as_str = String::from_utf8(text.clone()).expect("the form is ASCII");
    assert!(as_str.starts_with("scene 10 object group 0 0 0 1000 1000 0 0 255 255 "));
    assert!(as_str.ends_with("0 0 0 1000 1000 0 "));
}

#[test]
fn unicode_text_survives() {
    let mut s = Scene::new();
    let h = s.arena.len();
    s.arena.push(Object::new(Shape::Letters(String::from("héllo ☃")), (0, 0)));
    s.objects.0.push(h);
    let t = Scene::deserialize(&s.serialize()).expect("parse");
    match &t.arena[h].shape {
        Shape::Letters(txt) => assert_eq!(txt, "héllo ☃"),
        _ => panic!("text must survive"),
    }
}

#[test]
fn malformed_input_is_rejected_as_a_whole() {
    assert!(Scene::deserialize(&Vec::new()).is_none());
    assert!(Scene::deserialize(&b"scene".to_vec()).is_none());
    assert!(Scene::deserialize(&b"scene arena 1 ".to_vec()).is_none());
    assert!(Scene::deserialize(&b"nonsense 3 4 ".to_vec()).is_none());
    // Trailing garbage after a full scene is malformed too.
    let mut text = Scene::new().serialize();
    text.extend_from_slice(b"junk ");
    assert!(Scene::deserialize(&text).is_none());
}

#[test]
fn structurally_unsound_scenes_are_rejected() {
    // A handle pointing outside the arena parses but fails validation.
    let mut s = Scene::new();
    s.objects.0.push(99);
    assert!(Scene::deserialize(&s.serialize()).is_none());
    // A negative scale factor fails validation as well.
    let mut s2 = Scene::new();
    s2.arena[0].scale = (-1000, 1000);
    assert!(Scene::deserialize(&s2.serialize()).is_none());
}

#[test]
fn numbers_round_trip_at_the_extremes() {
    let mut s = Scene::new();
    let h = s.arena.len();
    let mut o = Object::new(Shape::Rect((i32::MIN, i32::MAX), (0, -1)), (i32::MAX, i32::MIN));
    o.rotation = i32::MIN;
    s.arena.push(o);
    s.objects.0.push(h);
    let t = Scene::deserialize(&s.serialize()).expect("parse");
    match t.arena[h].shape {
        Shape::Rect(p0, p1) => {
            assert_eq!(p0, (i32::MIN, i32::MAX));
            assert_eq!(p1, (0, -1));
        },
        _ => panic!("shape must survive"),
    }
    assert_eq!(t.arena[h].position, (i32::MAX, i32::MIN));
    assert_eq!(t.arena[h].rotation, i32::MIN);
}
