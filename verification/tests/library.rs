use bevy::ecs::entity::Entity;
use bevy::ecs::hierarchy::Children;
use bevy::ecs::world::World;

use squid::camera::{orbit_control, CameraKeys, OrbitControl};
use squid::capture::{Capture, CaptureAction};
use squid::hierarchy::ChildLinks;
use squid::hud::{stats_text, update_stats};
use squid::numerals::{parse_u32, parse_u32_or, push_decimal, push_zero_padded};
use squid::score::Score;
use squid::species::{census, Reaction, Species};

#[test]
fn reaction_same_species_schools() {
    assert_eq!(Species::Squid.reaction_to(Species::Squid), Reaction::School);
    assert_eq!(Species::Tuna.reaction_to(Species::Tuna), Reaction::School);
}

#[test]
fn reaction_squid_flees_tuna_hunts() {
    assert_eq!(Species::Squid.reaction_to(Species::Tuna), Reaction::Flee);
    assert_eq!(Species::Tuna.reaction_to(Species::Squid), Reaction::Hunt);
}

#[test]
fn census_counts_each_species() {
    let boids = vec![
        Species::Squid,
        Species::Tuna,
        Species::Tuna,
        Species::Squid,
        Species::Tuna,
    ];
    assert_eq!(census(&boids), (2, 3));
}

#[test]
fn census_of_nothing_is_zero() {
    assert_eq!(census(&[]), (0, 0));
}

#[test]
fn census_adds_up_to_population() {
    let mut boids = Vec::new();
    for i in 0..180 {
        boids.push(if i < 40 { Species::Squid } else { Species::Tuna });
    }
    let (squid, tuna) = census(&boids);
    assert_eq!((squid, tuna), (40, 140));
    assert_eq!((squid + tuna) as usize, boids.len());
}

#[test]
fn score_starts_at_zero() {
    assert_eq!(Score::default().eaten, 0);
}

#[test]
fn score_counts_caught_squid() {
    let mut score = Score::default();
    score.record_catches(&[true, false, true, true, false]);
    assert_eq!(score.eaten, 3);
    score.record_catches(&[false, false]);
    assert_eq!(score.eaten, 3);
    score.record_catches(&[]);
    assert_eq!(score.eaten, 3);
}

#[test]
fn score_frames_add_up() {
    let a = [true, false, true];
    let b = [true, true, false, true];
    let mut split = Score { eaten: 10 };
    split.record_catches(&a);
    split.record_catches(&b);
    let mut joined = Score { eaten: 10 };
    let both: Vec<bool> = a.iter().chain(b.iter()).copied().collect();
    joined.record_catches(&both);
    assert_eq!(split.eaten, joined.eaten);
    assert_eq!(split.eaten, 15);
}

#[test]
fn score_reaches_the_top_of_u32() {
    let mut score = Score { eaten: u32::MAX - 1 };
    score.record_catches(&[false, true]);
    assert_eq!(score.eaten, u32::MAX);
}

fn decimal_string(n: u32) -> String {
    let mut s = String::new();
    push_decimal(&mut s, n);
    s
}

#[test]
fn decimal_matches_std() {
    for n in [0u32, 7, 9, 10, 42, 99, 100, 1000, 65535, 123456789, u32::MAX] {
        assert_eq!(decimal_string(n), n.to_string());
    }
}

#[test]
fn push_decimal_appends() {
    let mut s = String::from("n=");
    push_decimal(&mut s, 305);
    assert_eq!(s, "n=305");
}

#[test]
fn zero_padding_matches_format_width() {
    for n in [0u32, 5, 42, 999, 1000, 1234, 98765, u32::MAX] {
        let mut s = String::new();
        push_zero_padded(&mut s, n, 4);
        assert_eq!(s, format!("{n:04}"));
    }
    let mut s = String::new();
    push_zero_padded(&mut s, 7, 0);
    assert_eq!(s, "7");
}

#[test]
fn parse_matches_std() {
    let cases = [
        "0", "00", "7", "+7", "42", "0042", "4294967295", "4294967296", "99999999999", "", "+",
        "++1", "-1", "-0", " 1", "1 ", "1a", "a1", "12+3", "٣", "+0", "x",
    ];
    for c in cases {
        assert_eq!(parse_u32(c), c.parse::<u32>().ok(), "reading {c:?}");
    }
}

#[test]
fn parse_round_trips_decimal() {
    for n in [0u32, 1, 10, 120, 4000000000, u32::MAX] {
        assert_eq!(parse_u32(&decimal_string(n)), Some(n));
    }
}

#[test]
fn setting_value_or_default() {
    assert_eq!(parse_u32_or(Some("80"), 40), 80);
    assert_eq!(parse_u32_or(Some("eighty"), 40), 40);
    assert_eq!(parse_u32_or(Some(""), 120), 120);
    assert_eq!(parse_u32_or(None, 120), 120);
    assert_eq!(parse_u32_or(Some("4294967296"), 3), 3);
}

#[test]
fn stats_text_exact() {
    let text = stats_text(40, 140, 7, true);
    assert_eq!(
        text,
        "🦑 Squid vs Tuna — 3D Boids\n\
         Squid: 40    Tuna: 140\n\
         Squid eaten: 7\n\
         \n\
         [WASD/Arrows] orbit   [Q/E] zoom   [Space] toggle auto-orbit (on)"
    );
}

#[test]
fn stats_text_auto_off() {
    let text = stats_text(0, 0, 0, false);
    assert!(text.ends_with("toggle auto-orbit (off)"));
    assert!(text.contains("Squid: 0    Tuna: 0\n"));
}

#[test]
fn update_stats_counts_population() {
    let boids = vec![Species::Tuna, Species::Squid, Species::Tuna];
    let mut text = String::from("stale");
    update_stats(&mut text, &boids, 12, false);
    assert_eq!(text, stats_text(1, 2, 12, false));
    assert!(text.contains("Squid: 1    Tuna: 2\nSquid eaten: 12\n"));
}

fn run_capture(warmup: u32, frames: u32) -> (Vec<u32>, u32) {
    let mut cap = Capture {
        frame: 0,
        warmup,
        frames,
        out_dir: String::from("/tmp/squidcap"),
    };
    let mut shots = Vec::new();
    loop {
        let f = cap.frame;
        match cap.advance() {
            CaptureAction::Screenshot(i) => shots.push(i),
            CaptureAction::Exit => return (shots, f),
            CaptureAction::WarmingUp | CaptureAction::Flushing => {}
        }
    }
}

#[test]
fn capture_run_saves_each_frame_once() {
    let (shots, exit_frame) = run_capture(40, 120);
    assert_eq!(shots, (0..120).collect::<Vec<u32>>());
    assert_eq!(exit_frame, 40 + 120 + 8);
}

#[test]
fn capture_without_frames_exits_after_flush() {
    let (shots, exit_frame) = run_capture(0, 0);
    assert!(shots.is_empty());
    assert_eq!(exit_frame, 8);
}

#[test]
fn capture_steps() {
    let mut cap = Capture {
        frame: 0,
        warmup: 2,
        frames: 1,
        out_dir: String::from("out"),
    };
    assert_eq!(cap.advance(), CaptureAction::WarmingUp);
    assert_eq!(cap.advance(), CaptureAction::WarmingUp);
    assert_eq!(cap.advance(), CaptureAction::Screenshot(0));
    for _ in 0..8 {
        assert_eq!(cap.advance(), CaptureAction::Flushing);
    }
    assert_eq!(cap.advance(), CaptureAction::Exit);
    assert_eq!(cap.frame, 12);
    assert_eq!(cap.advance(), CaptureAction::Exit);
}

#[test]
fn frame_path_format() {
    let cap = Capture {
        frame: 0,
        warmup: 0,
        frames: 1,
        out_dir: String::from("/tmp/squidcap"),
    };
    assert_eq!(cap.frame_path(0), "/tmp/squidcap/frame_0000.png");
    assert_eq!(cap.frame_path(37), "/tmp/squidcap/frame_0037.png");
    assert_eq!(cap.frame_path(12345), "/tmp/squidcap/frame_12345.png");
    for i in [0u32, 9, 10, 119, 9999, 10000] {
        assert_eq!(
            cap.frame_path(i),
            format!("{}/frame_{i:04}.png", cap.out_dir)
        );
    }
}

struct Rig {
    world: World,
    fish: Entity,
    body: Entity,
    tail: Entity,
    lobes: [Entity; 2],
    dorsal: Entity,
    fins: [Entity; 2],
    squid: Entity,
    mantle: Entity,
    arms: Entity,
    arm: Entity,
}

// A tuna: body (tail (two lobes), dorsal), two pectoral fins; and a squid:
// mantle, arm crown (one arm).
fn rig() -> Rig {
    let mut world = World::new();
    let mut new = || world.spawn_empty().id();
    let (fish, body, tail, lobe_a, lobe_b, dorsal, fin_l, fin_r) =
        (new(), new(), new(), new(), new(), new(), new(), new());
    let (squid, mantle, arms, arm) = (new(), new(), new(), new());
    world.entity_mut(fish).add_children(&[body, fin_l, fin_r]);
    world.entity_mut(body).add_children(&[tail, dorsal]);
    world.entity_mut(tail).add_children(&[lobe_a, lobe_b]);
    world.entity_mut(squid).add_children(&[mantle, arms]);
    world.entity_mut(arms).add_children(&[arm]);
    Rig {
        world,
        fish,
        body,
        tail,
        lobes: [lobe_a, lobe_b],
        dorsal,
        fins: [fin_l, fin_r],
        squid,
        mantle,
        arms,
        arm,
    }
}

fn walk(world: &mut World, root: Entity) -> Vec<Entity> {
    let mut state = world.query::<&Children>();
    let query = state.query(world);
    let links = ChildLinks { query: &query };
    links
        .descendants(root.to_bits())
        .into_iter()
        .map(Entity::from_bits)
        .collect()
}

#[test]
fn descendants_cover_nested_parts() {
    let mut r = rig();
    let mut parts = walk(&mut r.world, r.fish);
    parts.sort();
    let mut expected = vec![
        r.body, r.tail, r.lobes[0], r.lobes[1], r.dorsal, r.fins[0], r.fins[1],
    ];
    expected.sort();
    assert_eq!(parts, expected);
    let mut other = walk(&mut r.world, r.squid);
    other.sort();
    let mut expected = vec![r.mantle, r.arms, r.arm];
    expected.sort();
    assert_eq!(other, expected);
}

#[test]
fn descendants_visit_in_stack_order() {
    // Children are pushed in order and the last one is taken first.
    let mut r = rig();
    assert_eq!(
        walk(&mut r.world, r.fish),
        vec![r.fins[1], r.fins[0], r.body, r.dorsal, r.tail, r.lobes[1], r.lobes[0]]
    );
}

#[test]
fn descendants_of_a_leaf_or_unknown_entity() {
    let mut r = rig();
    assert!(walk(&mut r.world, r.lobes[0]).is_empty());
    assert_eq!(walk(&mut r.world, r.arms), vec![r.arm]);
    let lone = r.world.spawn_empty().id();
    assert!(walk(&mut r.world, lone).is_empty());
    let mut state = r.world.query::<&Children>();
    let query = state.query(&r.world);
    let links = ChildLinks { query: &query };
    // Bits that name no entity at all.
    assert!(links.descendants(0).is_empty());
}

fn no_keys() -> CameraKeys {
    CameraKeys {
        arrow_left: false,
        arrow_right: false,
        arrow_up: false,
        arrow_down: false,
        key_a: false,
        key_d: false,
        key_w: false,
        key_s: false,
        key_q: false,
        key_e: false,
        equal: false,
        minus: false,
        space_just_pressed: false,
    }
}

#[test]
fn camera_idle_keeps_auto() {
    let c = orbit_control(&no_keys(), true);
    assert_eq!(
        c,
        OrbitControl {
            turn_left: false,
            turn_right: false,
            tilt_up: false,
            tilt_down: false,
            zoom_in: false,
            zoom_out: false,
            auto: true,
        }
    );
    assert!(!orbit_control(&no_keys(), false).auto);
}

#[test]
fn camera_arrows_and_wasd_bind_the_same() {
    let mut arrows = no_keys();
    arrows.arrow_left = true;
    arrows.arrow_up = true;
    let mut wasd = no_keys();
    wasd.key_a = true;
    wasd.key_w = true;
    assert_eq!(orbit_control(&arrows, false), orbit_control(&wasd, false));
    let c = orbit_control(&wasd, false);
    assert!(c.turn_left && c.tilt_up && !c.turn_right && !c.tilt_down);

    let mut right = no_keys();
    right.key_d = true;
    right.arrow_down = true;
    let c = orbit_control(&right, false);
    assert!(c.turn_right && c.tilt_down && !c.turn_left && !c.tilt_up);
}

#[test]
fn camera_zoom_keys() {
    let mut zin = no_keys();
    zin.equal = true;
    assert!(orbit_control(&zin, false).zoom_in);
    zin.equal = false;
    zin.key_q = true;
    assert!(orbit_control(&zin, false).zoom_in);
    let mut zout = no_keys();
    zout.minus = true;
    assert!(orbit_control(&zout, false).zoom_out);
    zout.minus = false;
    zout.key_e = true;
    let c = orbit_control(&zout, false);
    assert!(c.zoom_out && !c.zoom_in);
}

#[test]
fn camera_space_toggles_auto_twice_restores() {
    let mut keys = no_keys();
    keys.space_just_pressed = true;
    let once = orbit_control(&keys, true).auto;
    assert!(!once);
    let twice = orbit_control(&keys, once).auto;
    assert!(twice);
}
