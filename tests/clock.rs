use game_of_life::clock::{SimulationClock, MICROS_PER_SECOND};
use game_of_life::error::ConfigurationError;
use game_of_life::field::CellState;
use game_of_life::gameplay::Gameplay;
use game_of_life::gameplay_params::{CellShape, FieldBorders, GameplayParams, MapGeneration};

const SECOND: u64 = MICROS_PER_SECOND;

fn params(milli_updates_per_sec: u64, size: usize, map: MapGeneration) -> GameplayParams {
    GameplayParams {
        milli_updates_per_sec,
        field_size: size,
        cell_shape: CellShape::Circle,
        field_borders: FieldBorders::Connected,
        map_generation: map,
        seed: 1,
    }
}

#[test]
fn zero_rate_is_rejected() {
    assert_eq!(
        SimulationClock::new(0, 5).err().map(|e| e),
        Some(ConfigurationError::ZeroUpdateRate)
    );
    assert!(SimulationClock::new(1000, 5).is_ok());
}

#[test]
fn ticks_follow_elapsed_time() {
    let mut c = SimulationClock::new(2000, SECOND).unwrap();
    assert_eq!(c.tick(SECOND), 0);
    assert_eq!(c.tick(SECOND + SECOND / 4), 0);
    assert_eq!(c.tick(SECOND + SECOND / 2), 1);
    assert_eq!(c.tick(SECOND + SECOND / 2), 0);
    assert_eq!(c.tick(4 * SECOND + SECOND / 10), 5);
    assert_eq!(c.milli_updates_per_second(), 2000);
}

#[test]
fn time_before_the_reference_gives_nothing() {
    let mut c = SimulationClock::new(3000, 10 * SECOND).unwrap();
    assert_eq!(c.tick(2 * SECOND), 0);
    assert_eq!(c.tick(11 * SECOND), 3);
}

#[test]
fn fractions_are_not_lost_across_frames() {
    // 3 generations per second, frames every 0.3 s: each frame alone is
    // worth 0.9 generations, yet nothing is lost over many frames.
    let mut c = SimulationClock::new(3000, 0).unwrap();
    let mut total: u64 = 0;
    let mut now: u64 = 0;
    let mut previous_total = 0;
    for _ in 0..1000 {
        now += 300_000;
        total += c.tick(now) as u64;
        assert!(total >= previous_total);
        assert_eq!(total, now * 3 / SECOND);
        previous_total = total;
    }
    assert_eq!(total, 900);
}

#[test]
fn uneven_frames_converge() {
    let mut c = SimulationClock::new(7000, 0).unwrap();
    let mut total: u64 = 0;
    let mut now: u64 = 0;
    for k in 0..500u64 {
        now += 1_000 + (k * 7_919) % 250_000;
        total += c.tick(now) as u64;
    }
    let expected = now * 7 / SECOND;
    assert!(total + 1 >= expected && total <= expected + 1);
    assert_eq!(total, expected);
}

#[test]
fn paused_clock_gives_nothing() {
    let mut c = SimulationClock::new(10000, 0).unwrap();
    c.pause(SECOND);
    assert!(c.is_paused());
    assert_eq!(c.tick(5 * SECOND), 0);
    assert_eq!(c.tick(9 * SECOND), 0);
}

#[test]
fn paused_time_is_not_counted() {
    let mut c = SimulationClock::new(2000, 0).unwrap();
    assert_eq!(c.tick(SECOND + SECOND / 4), 2);
    c.pause(2 * SECOND);
    c.resume(10 * SECOND);
    assert!(!c.is_paused());
    // One second ran unpaid before the pause, 0.25 s after it: 2.5 generations.
    assert_eq!(c.tick(10 * SECOND + SECOND / 4), 2);
    assert_eq!(c.tick(10 * SECOND + SECOND / 2), 1);
    // A clock that never stopped, 8 s behind, gives the same.
    let mut d = SimulationClock::new(2000, 0).unwrap();
    assert_eq!(d.tick(SECOND + SECOND / 4), 2);
    assert_eq!(d.tick(2 * SECOND + SECOND / 4), 2);
    assert_eq!(d.tick(2 * SECOND + SECOND / 2), 1);
}

#[test]
fn pause_and_resume_twice_change_nothing_more() {
    let mut c = SimulationClock::new(1000, 0).unwrap();
    c.pause(SECOND);
    c.pause(3 * SECOND);
    c.resume(5 * SECOND);
    c.resume(7 * SECOND);
    assert_eq!(c.tick(7 * SECOND), 3);
}

#[test]
fn swap_pause_state_toggles() {
    let mut c = SimulationClock::new(1000, 0).unwrap();
    c.swap_pause_state(2 * SECOND);
    assert!(c.is_paused());
    c.swap_pause_state(6 * SECOND);
    assert!(!c.is_paused());
    assert_eq!(c.tick(6 * SECOND), 2);
}

#[test]
fn huge_gaps_are_paid_out_over_several_frames() {
    let mut c = SimulationClock::new(u64::MAX, 0).unwrap();
    assert_eq!(c.tick(SECOND), u32::MAX);
    assert_eq!(c.tick(SECOND), u32::MAX);
}

#[test]
fn gameplay_rejects_bad_configuration() {
    assert_eq!(
        Gameplay::new(&params(1000, 0, MapGeneration::Random), 0).err(),
        Some(ConfigurationError::ZeroFieldSize)
    );
    assert_eq!(
        Gameplay::new(&params(0, 5, MapGeneration::Random), 0).err(),
        Some(ConfigurationError::ZeroUpdateRate)
    );
    assert_eq!(
        Gameplay::new(&params(0, 0, MapGeneration::Random), 0).err(),
        Some(ConfigurationError::ZeroFieldSize)
    );
    assert_eq!(
        Gameplay::new(&params(1000, 2, MapGeneration::Glider), 0).err(),
        Some(ConfigurationError::FieldTooSmallForGlider)
    );
}

#[test]
fn gameplay_advances_the_field_by_the_clock() {
    let mut g = Gameplay::new(&params(2000, 10, MapGeneration::Glider), 0).unwrap();
    assert_eq!(g.tick(SECOND), 2);
    assert_eq!(g.tick(2 * SECOND), 2);
    let alive: Vec<(usize, usize)> = g
        .field()
        .cells()
        .into_iter()
        .filter(|&(_, _, s)| s == CellState::Life)
        .map(|(r, c, _)| (r, c))
        .collect();
    assert_eq!(alive, vec![(1, 2), (2, 3), (3, 1), (3, 2), (3, 3)]);
}

#[test]
fn gameplay_pause_stops_the_field() {
    let mut g = Gameplay::new(&params(1000, 10, MapGeneration::Glider), 0).unwrap();
    g.swap_pause_state(0);
    assert!(g.is_paused());
    assert!(g.clock().is_paused());
    assert_eq!(g.tick(100 * SECOND), 0);
    assert_eq!(g.field().get(0, 1), Ok(CellState::Life));
    g.swap_pause_state(100 * SECOND);
    assert_eq!(g.tick(101 * SECOND), 1);
}

#[test]
fn fractional_rates() {
    // Half a generation per second: one generation every two seconds.
    let mut c = SimulationClock::new(500, 0).unwrap();
    assert_eq!(c.tick(SECOND), 0);
    assert_eq!(c.tick(2 * SECOND), 1);
    assert_eq!(c.tick(3 * SECOND + SECOND / 2), 0);
    assert_eq!(c.tick(4 * SECOND), 1);
    // A hundredth of a generation per second.
    let mut d = SimulationClock::new(10, 0).unwrap();
    assert_eq!(d.tick(99 * SECOND), 0);
    assert_eq!(d.tick(100 * SECOND), 1);
}

#[test]
fn gameplay_pause_and_resume() {
    let mut g = Gameplay::new(&params(1000, 10, MapGeneration::Glider), 0).unwrap();
    g.pause(SECOND);
    g.pause(5 * SECOND);
    assert!(g.is_paused());
    assert_eq!(g.tick(50 * SECOND), 0);
    g.resume(50 * SECOND);
    assert!(!g.is_paused());
    g.resume(60 * SECOND);
    // One second ran before the pause, two after it.
    assert_eq!(g.tick(52 * SECOND), 3);
}
