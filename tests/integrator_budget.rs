use pathtracer::{light_unoccluded, nearest, RayProperties, Scene};

#[test]
fn initial_budget() {
    let p = RayProperties::initial();
    assert_eq!((p.bounces, p.light_samples, p.bounce_samples), (40, 20, 5));
    assert!(p.can_bounce());
}

#[test]
fn budget_decays_each_bounce() {
    let p = RayProperties::initial().decayed();
    assert_eq!((p.bounces, p.light_samples, p.bounce_samples), (39, 5, 1));
    let p = p.decayed();
    assert_eq!((p.bounces, p.light_samples, p.bounce_samples), (38, 2, 1));
    let p = p.decayed();
    assert_eq!((p.bounces, p.light_samples, p.bounce_samples), (37, 1, 1));
    let q = RayProperties { bounces: 1, light_samples: 9, bounce_samples: 11 }.decayed();
    assert_eq!((q.bounces, q.light_samples, q.bounce_samples), (0, 3, 3));
    let z = RayProperties { bounces: 2, light_samples: 0, bounce_samples: 0 }.decayed();
    assert_eq!((z.light_samples, z.bounce_samples), (0, 0));
}

#[test]
fn no_bounce_left_means_no_contribution() {
    let p = RayProperties { bounces: 0, light_samples: 20, bounce_samples: 5 };
    assert!(!p.can_bounce());
    let mut q = RayProperties::initial();
    let mut steps = 0;
    while q.can_bounce() {
        q = q.decayed();
        steps += 1;
    }
    assert_eq!(steps, 40);
}

#[test]
fn nearest_takes_first_least_key() {
    assert_eq!(nearest(&vec![]), None);
    assert_eq!(nearest(&vec![7]), Some(0));
    assert_eq!(nearest(&vec![9, 3, 5, 3]), Some(1));
    assert_eq!(nearest(&vec![u64::MAX, 0]), Some(1));
}

#[test]
fn light_blocked_only_by_nearer_hit() {
    assert!(light_unoccluded(10, None));
    assert!(light_unoccluded(10, Some(11)));
    assert!(light_unoccluded(10, Some(10)));
    assert!(!light_unoccluded(10, Some(9)));
}

#[test]
fn scene_assigns_dense_ids() {
    let mut scene: Scene<&str, u8, char> = Scene::new();
    assert_eq!(scene.len(), 0);
    assert_eq!(scene.add_object("sphere", 1), 0);
    assert_eq!(scene.add_object("plane", 2), 1);
    scene.add_light('a');
    scene.add_light('b');
    assert_eq!(scene.len(), 2);
    assert_eq!(scene.shape(0), Some(&"sphere"));
    assert_eq!(scene.material(1), Some(&2));
    assert_eq!(scene.shape(2), None);
    assert_eq!(scene.material(7), None);
    assert_eq!(scene.lights(), &vec!['a', 'b']);
}
