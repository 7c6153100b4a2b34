use rain::droplet::{scatter_droplets, Droplet, SPAWN_SIZE_END, SPAWN_SIZE_MIN};
use rain::fixed::{cube_root_floor, fixed_mul, SCALE};
use rain::merge::{absorbed_growth, merge_pair, resolve_contacts, Contact, IndexCommand, MergeError};
use rain::motion::{
    advance_droplets, damp, draw_seed, gravity_for, gravity_non_linear, is_field_ready, tick,
    Gravity, GravityConfig,
};
use rain::render::{live_instances, Drop, Uniform};

fn units(v: f64) -> i64 {
    (v * SCALE as f64).round() as i64
}

fn droplet(x: f64, y: f64, size: f64) -> Droplet {
    Droplet::new(units(x), units(y), units(size))
}

#[test]
fn fixed_mul_rounds_toward_zero() {
    assert_eq!(fixed_mul(units(2.5), units(4.0)), units(10.0));
    assert_eq!(fixed_mul(3, 1), 0);
    assert_eq!(fixed_mul(-3, 1), 0);
    assert_eq!(fixed_mul(-1_500_000, 3_000_000), -4_500_000);
}

#[test]
fn cube_roots_round_down() {
    assert_eq!(cube_root_floor(0), 0);
    assert_eq!(cube_root_floor(26), 2);
    assert_eq!(cube_root_floor(27), 3);
    assert_eq!(cube_root_floor(1_000_000_000_000_000_000), 1_000_000);
}

#[test]
fn damping_keeps_nine_tenths() {
    assert_eq!(damp(1_000), 900);
    assert_eq!(damp(-1_000), -900);
    assert_eq!(damp(7), 6);
    assert_eq!(damp(-7), -6);
}

#[test]
fn seed_scales_with_size_and_draw() {
    // size 3 units, draw 0.5: floor(3 * 0.5 * 100) = 150
    assert_eq!(draw_seed(units(3.0), 500_000), 150);
    assert_eq!(draw_seed(units(3.0), 0), 0);
    assert_eq!(draw_seed(units(7.0), 999_999), 699);
}

#[test]
fn gravity_of_a_frame() {
    let g = gravity_for(GravityConfig::standard(), 16_667);
    assert_eq!(g, Gravity { x: 0, y: 3_333 });
    let g = gravity_for(GravityConfig::standard(), 1_000_000);
    assert_eq!(g, Gravity { x: 0, y: 200_000 });
    let g = gravity_for(GravityConfig::standard(), 0);
    assert_eq!(g, Gravity { x: 0, y: 0 });
}

#[test]
fn droplet_at_rest_starts_falling() {
    let mut d = droplet(10.0, 100.0, 3.0);
    d.seed = 5;
    tick(&mut d, Gravity { x: 0, y: 200_000 }, 0);
    assert_eq!(d.y_speed, 200_000);
    assert_eq!(d.x_speed, 0);
    assert_eq!(d.y, units(100.0) - 200_000);
    assert_eq!(d.x, units(10.0));
    assert_eq!(d.seed, 4);
}

#[test]
fn accelerating_droplet_speeds_up_by_size() {
    let mut d = droplet(0.0, 100.0, 3.0);
    d.seed = 10;
    d.y_speed = 100_000;
    let g = Gravity { x: 0, y: 200_000 };
    tick(&mut d, g, 0);
    assert_eq!(d.y_speed, 700_000);
    let before = d.y_speed;
    tick(&mut d, g, 0);
    assert!(d.y_speed >= before);
    assert_eq!(d.y_speed, 1_300_000);
    assert!(!d.skipping && !d.slowing);
}

#[test]
fn zero_dt_is_a_zero_motion_tick() {
    let mut resting = droplet(5.0, 50.0, 2.0);
    resting.seed = 3;
    let mut falling = droplet(7.0, 60.0, 3.0);
    falling.seed = 5;
    falling.y_speed = units(1.0);
    let mut slowing = droplet(9.0, 70.0, 3.0);
    slowing.seed = 5;
    slowing.slowing = true;
    slowing.y_speed = units(2.0);
    slowing.x_speed = 300;
    let mut ds = vec![resting, falling, slowing];
    let before = ds.clone();
    let moving = gravity_non_linear(&mut ds, GravityConfig::standard(), 0);
    assert!(moving.is_empty());
    assert_eq!(ds, before);
    assert_eq!((ds[1].x, ds[1].y), (units(7.0), units(60.0)));
}

#[test]
fn zero_gravity_keeps_a_resting_droplet() {
    let mut d = droplet(5.0, 50.0, 2.0);
    d.seed = 3;
    tick(&mut d, Gravity { x: 0, y: 0 }, 0);
    assert_eq!((d.x, d.y), (units(5.0), units(50.0)));
    assert_eq!((d.x_speed, d.y_speed), (0, 0));
}

#[test]
fn slowing_damps_then_ends() {
    let mut d = droplet(0.0, 0.0, 2.0);
    d.seed = 10;
    d.slowing = true;
    d.y_speed = 1_000;
    d.x_speed = 100;
    tick(&mut d, Gravity { x: 0, y: 950 }, 0);
    assert_eq!(d.y_speed, 900);
    assert_eq!(d.x_speed, 90);
    assert!(!d.slowing);
    assert_eq!(d.y, -900);
}

#[test]
fn skipping_coasts_at_base_gravity() {
    let mut d = droplet(0.0, 0.0, 2.0);
    d.seed = 10;
    d.skipping = true;
    d.y_speed = 50_000;
    d.x_speed = 7;
    tick(&mut d, Gravity { x: 3, y: 1_000 }, 0);
    assert_eq!(d.y_speed, 1_000);
    assert_eq!(d.x_speed, 3);
}

#[test]
fn collision_resets_phase() {
    let mut d = droplet(0.0, 0.0, 2.0);
    d.collided = true;
    d.skipping = true;
    d.slowing = true;
    d.seed = 40;
    tick(&mut d, Gravity { x: 0, y: 1_000 }, 500_000);
    assert!(!d.collided && !d.skipping && !d.slowing);
    assert_eq!(d.seed, 99);
}

#[test]
fn expiry_toggles_skipping_twice_back() {
    let mut d = droplet(0.0, 0.0, 2.0);
    assert!(!d.skipping);
    let g = Gravity { x: 0, y: 1_000 };
    tick(&mut d, g, 0);
    assert!(d.skipping);
    assert!(d.slowing);
    assert_eq!(d.seed, -1);
    tick(&mut d, g, 0);
    assert!(!d.skipping);
}

#[test]
fn countdown_keeps_skipping() {
    let mut d = droplet(0.0, 0.0, 2.0);
    let g = Gravity { x: 0, y: 1_000 };
    tick(&mut d, g, 20_000);
    assert!(d.skipping);
    assert_eq!(d.seed, 3);
    tick(&mut d, g, 0);
    tick(&mut d, g, 0);
    tick(&mut d, g, 0);
    assert!(d.skipping);
    assert_eq!(d.seed, 0);
    tick(&mut d, g, 0);
    assert!(!d.skipping);
}

#[test]
fn deleted_droplet_does_not_move() {
    let mut d = droplet(1.0, 2.0, 3.0);
    d.y_speed = 400;
    d.deleted = true;
    let before = d;
    tick(&mut d, Gravity { x: 5, y: 1_000 }, 10);
    assert_eq!(d, before);
}

#[test]
fn advance_reports_moving_slots() {
    let mut ds = vec![droplet(0.0, 10.0, 2.0), droplet(1.0, 10.0, 2.0), droplet(2.0, 10.0, 2.0)];
    ds[1].deleted = true;
    let moving = advance_droplets(&mut ds, Gravity { x: 0, y: 500 }, &vec![0, 0, 0]);
    assert_eq!(moving, vec![0, 2]);
    assert_eq!(ds[1].y, units(10.0));
    assert_eq!(ds[0].y, units(10.0) - 500);
    let mut resting = vec![droplet(0.0, 10.0, 2.0), droplet(1.0, 10.0, 2.0)];
    let moving = advance_droplets(&mut resting, Gravity { x: 0, y: 0 }, &vec![0, 0]);
    assert_eq!(moving, Vec::<usize>::new());
}

#[test]
fn random_tick_draws_a_bounded_seed() {
    let mut ds = vec![droplet(0.0, 10.0, 3.0), droplet(5.0, 10.0, 3.0)];
    assert!(is_field_ready(&ds));
    let moving = gravity_non_linear(&mut ds, GravityConfig::standard(), 1_000_000);
    assert_eq!(moving, vec![0, 1]);
    for d in &ds {
        assert!(d.seed >= -1 && d.seed < 299);
        assert!(d.skipping && d.slowing);
        assert_eq!(d.y_speed, 200_000);
        assert_eq!(d.y, units(10.0) - 200_000);
    }
}

#[test]
fn field_out_of_range_is_reported() {
    let mut ds = vec![droplet(0.0, 0.0, 1.0)];
    assert!(is_field_ready(&ds));
    ds[0].y_speed = i64::MAX;
    assert!(!is_field_ready(&ds));
    ds[0].deleted = true;
    assert!(is_field_ready(&ds));
}

#[test]
fn scattered_droplets_lie_in_the_field() {
    let ds = scatter_droplets(200, 40, 30);
    assert_eq!(ds.len(), 200);
    for d in &ds {
        assert!(d.x >= 0 && d.x < units(40.0));
        assert!(d.y >= 0 && d.y < units(30.0));
        assert!(d.size >= SPAWN_SIZE_MIN && d.size < SPAWN_SIZE_END);
        assert_eq!(d.radius, d.size / 2);
        assert!(!d.deleted && d.y_speed == 0 && d.x_speed == 0);
    }
    assert!(ds.iter().any(|d| d.x != ds[0].x));
}

#[test]
fn growth_of_eight_is_one() {
    assert_eq!(absorbed_growth(units(8.0)), units(1.0));
    assert_eq!(absorbed_growth(units(1.0)), 500_000);
    assert_eq!(absorbed_growth(units(27.0)), units(1.5));
    assert!(absorbed_growth(units(2.0)) <= absorbed_growth(units(3.0)));
    assert!(absorbed_growth(units(3.0)) < units(3.0));
}

#[test]
fn growth_is_sub_linear_and_exact() {
    let mut keep = droplet(0.0, 0.0, 4.0);
    keep.radius = units(6.0);
    let mut gone = droplet(0.0, 0.0, 8.0);
    gone.radius = units(4.0);
    let mut ds = vec![keep, gone];
    let cmds = resolve_contacts(&mut ds, &vec![Contact::Started(0, 1)]).unwrap();
    assert_eq!(ds[0].size, units(5.0));
    assert_eq!(ds[0].radius, units(5.0));
    assert!(ds[0].collided);
    assert!(ds[1].deleted);
    assert_eq!(cmds, vec![IndexCommand::Reshape(0, units(5.0)), IndexCommand::Remove(1)]);
}

#[test]
fn larger_radius_wins() {
    let mut a = droplet(0.0, 0.0, 6.0);
    a.radius = units(3.0);
    let mut b = droplet(0.0, 0.0, 10.0);
    b.radius = units(5.0);
    let ds = vec![a, b];
    assert_eq!(merge_pair(&ds, 0, 1), (1, 0));
    assert_eq!(merge_pair(&ds, 1, 0), (1, 0));
}

#[test]
fn equal_radius_higher_wins() {
    let ds = vec![droplet(0.0, 10.0, 8.0), droplet(0.0, 20.0, 8.0)];
    assert_eq!(ds[0].radius, units(4.0));
    assert_eq!(merge_pair(&ds, 0, 1), (1, 0));
    assert_eq!(merge_pair(&ds, 1, 0), (1, 0));
}

#[test]
fn single_contact_merges_once() {
    let mut ds = vec![droplet(0.0, 0.0, 2.0), droplet(1.0, 0.0, 4.0), droplet(9.0, 9.0, 1.0)];
    let third = ds[2];
    let cmds = resolve_contacts(&mut ds, &vec![Contact::Started(0, 1)]).unwrap();
    assert_eq!(cmds.len(), 2);
    assert!(ds[0].deleted);
    assert!(!ds[1].deleted);
    assert_eq!(ds[1].size, units(4.0) + absorbed_growth(units(2.0)));
    assert_eq!(ds[2], third);
    assert_eq!(cmds, vec![IndexCommand::Reshape(1, ds[1].size), IndexCommand::Remove(0)]);
}

#[test]
fn overlapping_equal_droplets_merge() {
    let mut ds = vec![droplet(100.0, 100.0, 3.0), droplet(100.0, 100.0, 3.0)];
    let cmds = resolve_contacts(&mut ds, &vec![Contact::Started(0, 1)]).unwrap();
    assert!(ds[0].deleted);
    assert!(!ds[1].deleted);
    assert!((ds[1].size - 3_721_000).abs() < 1_000);
    assert_eq!(ds[1].size, 3_721_124);
    assert!(cmds.contains(&IndexCommand::Remove(0)));
    assert_eq!(live_instances(&ds), vec![(units(100.0), units(100.0), 3_721_124)]);
}

#[test]
fn shared_loser_is_removed_once() {
    let mut ds = vec![droplet(0.0, 0.0, 6.0), droplet(0.0, 0.0, 2.0), droplet(0.0, 0.0, 8.0)];
    let contacts = vec![Contact::Started(0, 1), Contact::Ended(0, 2), Contact::Started(2, 1)];
    let cmds = resolve_contacts(&mut ds, &contacts).unwrap();
    let g = absorbed_growth(units(2.0));
    assert_eq!(ds[0].size, units(6.0) + g);
    assert_eq!(ds[2].size, units(8.0) + g);
    assert!(ds[1].deleted && !ds[0].deleted && !ds[2].deleted);
    assert_eq!(
        cmds,
        vec![
            IndexCommand::Reshape(0, ds[0].size),
            IndexCommand::Reshape(2, ds[2].size),
            IndexCommand::Remove(1),
        ]
    );
}

#[test]
fn ended_contacts_change_nothing() {
    let mut ds = vec![droplet(0.0, 0.0, 6.0), droplet(0.0, 0.0, 2.0)];
    let before = ds.clone();
    let cmds = resolve_contacts(&mut ds, &vec![Contact::Ended(0, 1)]).unwrap();
    assert!(cmds.is_empty());
    assert_eq!(ds, before);
}

#[test]
fn contact_errors_leave_droplets_alone() {
    let mut ds = vec![droplet(0.0, 0.0, 6.0), droplet(0.0, 0.0, 2.0)];
    ds[1].deleted = true;
    let before = ds.clone();
    assert_eq!(
        resolve_contacts(&mut ds, &vec![Contact::Started(0, 5)]),
        Err(MergeError::UnknownDroplet(5))
    );
    assert_eq!(
        resolve_contacts(&mut ds, &vec![Contact::Started(0, 0)]),
        Err(MergeError::SelfContact(0))
    );
    assert_eq!(
        resolve_contacts(&mut ds, &vec![Contact::Started(0, 1)]),
        Err(MergeError::DeletedDroplet(1))
    );
    assert_eq!(ds, before);
}

#[test]
fn deleted_droplets_are_not_drawn() {
    let mut ds = vec![droplet(1.0, 2.0, 3.0), droplet(4.0, 5.0, 6.0)];
    ds[0].deleted = true;
    assert_eq!(live_instances(&ds), vec![(units(4.0), units(5.0), units(6.0))]);
}

#[test]
fn uniforms_follow_the_program() {
    let d = Drop::new(Some(1), None, Some(3), Some(4), Some(5));
    assert_eq!(
        d.render(),
        vec![Uniform::Texture(4), Uniform::Resolution(5), Uniform::Model(1), Uniform::Projection(3)]
    );
    let none = Drop::new(None, None, None, None, None);
    assert!(none.render().is_empty());
}
