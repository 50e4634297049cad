use lcs::fade::{Dimmer, FULL};
use lcs::fixture::{frame, Fixture};
use lcs::universe::{TransportSettings, Universe, UniverseError};

fn settings() -> TransportSettings {
    TransportSettings { port: String::from("/dev/ttyUSB0"), baud_rate: 250000, refresh_ms: 25 }
}

/// One fixture "spot1" on channel 1 with a dimmer on its only channel.
fn spot() -> Universe {
    let mut u = Universe::new();
    assert_eq!(u.add_light(String::from("spot1"), 1, 1), 0);
    assert_eq!(u.add_dimmer(String::from("spot1"), 0), Ok(()));
    u
}

#[test]
fn fade_in_one_runs_to_full() {
    let mut u = spot();
    u.start(settings());
    let mut t = u.fade_in_one(String::from("spot1"), 1000).expect("a transition");
    assert_eq!(t.interval_ms, 100);
    assert_eq!(t.fades.len(), 1);
    assert_eq!(t.fades[0].steps, 10);
    let mut seen = vec![u.level_of(0, 0)];
    let mut passes = 0;
    while let Some(ms) = u.advance(&mut t) {
        assert_eq!(ms, 100);
        seen.push(u.level_of(0, 0));
        passes += 1;
    }
    assert_eq!(passes, 10);
    assert_eq!(u.level_of(0, 0), 255);
    for w in seen.windows(2) {
        assert!(w[0] <= w[1]);
    }
    assert_eq!(seen, vec![0, 25, 51, 76, 102, 127, 153, 178, 204, 229, 255]);
    // every push-now request was counted, one per step
    assert_eq!(u.driver.as_ref().unwrap().push_requests, 10);
}

#[test]
fn stop_after_three_steps_freezes_level() {
    let mut u = spot();
    u.start(settings());
    let mut t = u.fade_in_one(String::from("spot1"), 1000).expect("a transition");
    // steps at 0 ms, 100 ms and 200 ms, then the stop at 250 ms
    for _ in 0..3 {
        assert_eq!(u.advance(&mut t), Some(100));
    }
    t.stop();
    let frozen = u.level_of(0, 0);
    assert!(frozen <= 76);
    assert_eq!(frozen, 76);
    for _ in 0..5 {
        assert_eq!(u.advance(&mut t), None);
        assert_eq!(u.level_of(0, 0), frozen);
    }
}

#[test]
fn stop_without_driver_is_a_no_op() {
    let mut u = spot();
    assert!(!u.stop());
    assert!(u.driver.is_none());
    assert_eq!(u.fixtures.len(), 1);
    assert_eq!(u.dimmers.len(), 1);
    u.start(settings());
    assert!(u.stop());
    assert!(!u.stop());
}

#[test]
fn blackout_darkens_every_dimmer_and_pushes_once() {
    let mut u = Universe::new();
    u.add_light(String::from("a"), 1, 2);
    u.add_light(String::from("b"), 3, 1);
    u.add_dimmer(String::from("a"), 1).unwrap();
    u.add_dimmer(String::from("b"), 0).unwrap();
    u.start(settings());
    let mut t = u.fade_in_all(500).expect("a transition");
    u.advance(&mut t);
    u.advance(&mut t);
    assert!(u.level_of(0, 1) > 0);
    assert!(u.level_of(1, 0) > 0);
    let before = u.driver.as_ref().unwrap().push_requests;
    u.go_bo();
    assert_eq!(u.level_of(0, 1), 0);
    assert_eq!(u.level_of(1, 0), 0);
    assert_eq!(u.level_of(0, 0), 0);
    assert_eq!(u.driver.as_ref().unwrap().push_requests, before + 1);
    assert!(u.push_pending());
}

#[test]
fn blackout_without_driver_still_darkens() {
    let mut u = spot();
    u.start(settings());
    let mut t = u.fade_in_one(String::from("spot1"), 200).unwrap();
    u.advance(&mut t);
    u.stop();
    u.go_bo();
    assert_eq!(u.level_of(0, 0), 0);
    assert!(u.driver.is_none());
}

#[test]
fn fade_in_all_uses_shortest_interval_and_reaches_every_target() {
    let mut u = Universe::new();
    u.add_light(String::from("big"), 1, 1);
    u.add_light(String::from("small"), 2, 1);
    u.add_dimmer(String::from("big"), 0).unwrap();
    u.add_dimmer(String::from("small"), 0).unwrap();
    // the small one starts close to its target: 5 steps of 200 ms
    u.start(settings());
    let mut t = u.fade_in_one(String::from("small"), 2500).unwrap();
    for _ in 0..25 {
        if u.advance(&mut t).is_none() {
            break;
        }
    }
    assert_eq!(u.level_of(1, 0), 255);
    u.go_bo();
    let mut near = u.fade_in_one(String::from("small"), 100).unwrap();
    assert_eq!(near.fades[0].steps, 1);
    u.advance(&mut near);
    assert_eq!(u.level_of(1, 0), 255);
    let mut half = Dimmer::new(1, 0);
    assert_eq!(half.fade_in(250, 1000), 200);
    assert_eq!(half.steps, 5);

    // big: 0 -> 255 in 10 steps of 100 ms; small: 255 -> 255, no steps
    let mut all = u.fade_in_all(1000).expect("a transition");
    assert_eq!(all.interval_ms, 100);
    let mut passes = 0;
    while u.advance(&mut all).is_some() {
        passes += 1;
    }
    assert_eq!(passes, 10);
    assert_eq!(u.level_of(0, 0), 255);
    assert_eq!(u.level_of(1, 0), 255);
    for d in all.fades.iter() {
        assert_eq!(d.taken, d.steps);
    }
}

#[test]
fn fade_in_all_with_different_deltas() {
    let mut u = Universe::new();
    u.add_light(String::from("a"), 1, 1);
    u.add_light(String::from("b"), 2, 1);
    u.add_dimmer(String::from("a"), 0).unwrap();
    u.add_dimmer(String::from("b"), 0).unwrap();
    u.start(settings());
    // raise b to 251 first, so that it is 4 away from full
    let mut t = u.fade_in_one(String::from("b"), 100000).unwrap();
    while u.level_of(1, 0) < 251 {
        u.advance(&mut t).unwrap();
    }
    assert_eq!(u.level_of(1, 0), 251);
    let mut all = u.fade_in_all(2000).unwrap();
    // a: 20 steps of 100 ms; b: 4 steps of 500 ms
    assert_eq!(all.fades[0].steps, 20);
    assert_eq!(all.fades[1].steps, 4);
    assert_eq!(all.interval_ms, 100);
    let mut passes = 0;
    while u.advance(&mut all).is_some() {
        passes += 1;
        if passes < 20 {
            assert!(u.level_of(0, 0) < 255);
        }
    }
    assert_eq!(passes, 20);
    assert_eq!(u.level_of(0, 0), 255);
    assert_eq!(u.level_of(1, 0), 255);
}

#[test]
fn fades_need_a_running_driver() {
    let mut u = spot();
    assert!(u.fade_in_one(String::from("spot1"), 1000).is_none());
    assert!(u.fade_in_all(1000).is_none());
    u.start(settings());
    assert!(u.fade_in_one(String::from("spot1"), 1000).is_some());
    let mut t = u.fade_in_one(String::from("spot1"), 1000).unwrap();
    u.stop();
    assert_eq!(u.advance(&mut t), None);
    assert_eq!(u.level_of(0, 0), 0);
}

#[test]
fn fade_of_unknown_dimmer_is_none() {
    let mut u = spot();
    u.add_light(String::from("bare"), 5, 1);
    u.start(settings());
    assert!(u.fade_in_one(String::from("nothing"), 1000).is_none());
    assert!(u.fade_in_one(String::from("bare"), 1000).is_none());
}

#[test]
fn fade_in_all_without_dimmers_is_none() {
    let mut u = Universe::new();
    u.add_light(String::from("bare"), 1, 1);
    u.start(settings());
    assert!(u.fade_in_all(1000).is_none());
}

#[test]
fn zero_duration_fade_completes_at_once() {
    let mut d = Dimmer::new(0, 0);
    assert_eq!(d.fade_in(0, 0), 0);
    assert_eq!(d.steps, 0);
    assert_eq!(d.fade_step(), None);
    assert_eq!(d.fade_step(), None);
}

#[test]
fn fade_to_current_level_completes_on_first_step() {
    let mut d = Dimmer::new(0, 0);
    assert_eq!(d.fade_in(FULL, 1000), 1000);
    assert_eq!(d.fade_step(), None);
}

#[test]
fn short_fade_takes_one_step() {
    let mut d = Dimmer::new(0, 0);
    assert_eq!(d.fade_in(0, 50), 50);
    assert_eq!(d.fade_step(), Some(255));
    assert_eq!(d.fade_step(), None);
}

#[test]
fn fade_down_converges_and_stays() {
    let mut d = Dimmer::new(0, 0);
    d.target = 10;
    assert_eq!(d.fade_in(200, 300), 100);
    assert_eq!(d.fade_step(), Some(137));
    assert_eq!(d.fade_step(), Some(74));
    assert_eq!(d.fade_step(), Some(10));
    assert_eq!(d.fade_step(), None);
    assert_eq!(d.taken, 3);
    assert_eq!(d.fade_step(), None);
    assert_eq!(d.taken, 3);
}

#[test]
fn steps_capped_by_distance() {
    let mut d = Dimmer::new(0, 0);
    assert_eq!(d.fade_in(252, 10000), 3333);
    assert_eq!(d.steps, 3);
    assert_eq!(d.fade_step(), Some(253));
    assert_eq!(d.fade_step(), Some(254));
    assert_eq!(d.fade_step(), Some(255));
    assert_eq!(d.fade_step(), None);
}

#[test]
fn add_dimmer_for_unknown_fixture_fails() {
    let mut u = Universe::new();
    assert_eq!(u.add_dimmer(String::from("ghost"), 0), Err(UniverseError::NoSuchFixture));
    assert!(u.dimmers.is_empty());
    assert_eq!(u.add_rgb(String::from("ghost"), 0, 1, 2), Err(UniverseError::NoSuchFixture));
    assert_eq!(u.add_rgbw(String::from("ghost"), 0, 1, 2, 3), Err(UniverseError::NoSuchFixture));
    assert!(u.colors.is_empty());
}

#[test]
fn registrations_replace_by_fixture() {
    let mut u = Universe::new();
    u.add_light(String::from("par"), 10, 4);
    u.add_light(String::from("wash"), 20, 3);
    assert_eq!(u.add_rgb(String::from("par"), 0, 1, 2), Ok(()));
    assert_eq!(u.colors.len(), 1);
    assert_eq!(u.colors[0].white, None);
    assert_eq!(u.add_rgbw(String::from("par"), 0, 1, 2, 3), Ok(()));
    assert_eq!(u.colors.len(), 1);
    assert_eq!(u.colors[0].white, Some(3));
    assert_eq!(u.add_rgb(String::from("wash"), 2, 1, 0), Ok(()));
    assert_eq!(u.colors.len(), 2);
    assert_eq!(u.colors[1].fixture, 1);
    assert_eq!(u.colors[1].red, 2);
    u.add_dimmer(String::from("par"), 3).unwrap();
    u.add_dimmer(String::from("par"), 2).unwrap();
    assert_eq!(u.dimmers.len(), 1);
    assert_eq!(u.dimmers[0].channel, 2);
}

#[test]
fn add_light_replaces_same_name() {
    let mut u = Universe::new();
    assert_eq!(u.add_light(String::from("a"), 1, 2), 0);
    assert_eq!(u.add_light(String::from("b"), 3, 2), 1);
    assert_eq!(u.add_light(String::from("a"), 7, 3), 0);
    assert_eq!(u.fixtures.len(), 2);
    assert_eq!(u.fixtures[0].first_channel, 7);
    assert_eq!(u.fixtures[0].values, vec![0, 0, 0]);
    assert_eq!(u.find_fixture(&String::from("b")), Some(1));
    assert_eq!(u.find_fixture(&String::from("c")), None);
}

#[test]
fn frame_holds_levels_at_their_channels() {
    let mut u = Universe::new();
    u.add_light(String::from("a"), 1, 2);
    u.add_light(String::from("b"), 511, 4);
    u.add_dimmer(String::from("a"), 1).unwrap();
    u.add_dimmer(String::from("b"), 1).unwrap();
    u.start(settings());
    u.add_light(String::from("late"), 100, 1);
    let mut t = u.fade_in_all(100).unwrap();
    u.advance(&mut t);
    let f = u.take_frame().expect("a frame");
    assert_eq!(f.len(), 513);
    assert_eq!(f[0], 0);
    assert_eq!(f[1], 0);
    assert_eq!(f[2], 255);
    assert_eq!(f[511], 0);
    assert_eq!(f[512], 255);
    assert!(f.iter().enumerate().all(|(c, v)| c == 2 || c == 512 || *v == 0));
    assert!(!u.push_pending());
    u.stop();
    assert!(u.take_frame().is_none());
}

#[test]
fn frame_last_fixture_wins_and_skips_channel_zero() {
    let fixtures = vec![
        Fixture { name: String::from("x"), first_channel: 0, values: vec![9, 8] },
        Fixture { name: String::from("y"), first_channel: 1, values: vec![7] },
        Fixture { name: String::from("z"), first_channel: 600, values: vec![5] },
    ];
    let f = frame(&fixtures, 3);
    assert_eq!(f[0], 0);
    assert_eq!(f[1], 7);
    let g = frame(&fixtures, 1);
    assert_eq!(g[1], 8);
    assert_eq!(g[2], 0);
}

#[test]
fn transport_errors_are_counted() {
    let mut u = spot();
    u.note_transport_error();
    assert!(u.driver.is_none());
    u.start(settings());
    u.note_transport_error();
    u.note_transport_error();
    assert_eq!(u.driver.as_ref().unwrap().transport_errors, 2);
}

#[test]
fn transition_validity_check() {
    let mut u = spot();
    u.start(settings());
    let mut t = u.fade_in_one(String::from("spot1"), 1000).unwrap();
    assert!(t.is_wf());
    t.fades[0].taken = 20;
    assert!(!t.is_wf());
}
