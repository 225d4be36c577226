use rerecast::contours::GridVertex;
use rerecast::generator::{NavmeshGenerator, UpAxis};

#[test]
fn regeneration_is_queued_once() {
    let mut g: NavmeshGenerator<&str, u32> = NavmeshGenerator::new();
    assert!(g.regenerate(7, "first"));
    assert!(!g.regenerate(7, "second"));
    assert_eq!(g.queue.get(&7), Some(&"first"));
    assert!(g.regenerate(8, "other"));
    assert_eq!(g.queue.len(), 2);
}

#[test]
fn regeneration_waits_for_the_running_task() {
    let mut g: NavmeshGenerator<&str, u32> = NavmeshGenerator::new();
    g.generate(3, "settings");
    let taken = g.take_queue();
    assert_eq!(taken.len(), 1);
    assert!(g.queue.is_empty());
    g.start_task(3, 99);
    assert!(!g.regenerate(3, "again"));
    assert!(g.queue.is_empty());
    assert_eq!(g.finish_task(3), Some(99));
    assert_eq!(g.finish_task(3), None);
    assert!(g.regenerate(3, "again"));
}

#[test]
fn generate_replaces_a_waiting_request() {
    let mut g: NavmeshGenerator<u8, ()> = NavmeshGenerator::new();
    g.generate(1, 10);
    g.generate(1, 11);
    assert_eq!(g.queue.len(), 1);
    assert_eq!(g.queue.get(&1), Some(&11));
}

#[test]
fn up_axis_round_trips() {
    let p = (1, 2, 3);
    for up in [UpAxis::X, UpAxis::Y, UpAxis::Z] {
        assert_eq!(up.from_y_up(up.to_y_up(p)), p);
        assert_eq!(up.to_y_up(up.from_y_up(p)), p);
    }
    assert_eq!(UpAxis::Z.to_y_up(p), (2, 3, 1));
    assert_eq!(UpAxis::X.to_y_up(p), (3, 1, 2));
    assert_eq!(UpAxis::Y.to_y_up(p), p);
    assert_eq!(UpAxis::Z.from_y_up(p), (3, 1, 2));
    assert_eq!(UpAxis::X.from_y_up(p), (2, 3, 1));
}

#[test]
fn vertices_return_to_the_world_frame() {
    let mut verts = vec![GridVertex { x: 1, y: 2, z: 3 }, GridVertex { x: 4, y: 5, z: 6 }];
    UpAxis::Z.vertices_from_y_up(&mut verts);
    assert_eq!(verts[0], GridVertex { x: 3, y: 1, z: 2 });
    assert_eq!(verts[1], GridVertex { x: 6, y: 4, z: 5 });
    let mut pts = vec![(1.0f32, 2.0, 3.0)];
    UpAxis::X.points_from_y_up(&mut pts);
    assert_eq!(pts, vec![(2.0, 3.0, 1.0)]);
}
