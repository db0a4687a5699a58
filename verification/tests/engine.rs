use image::Pixel;
use shapestamp::engine::{blank_canvas, select, Candidate, Config, ConfigError, Engine, Round, SCORE_SCALE};
use shapestamp::placement::Placement;
use shapestamp::raster::{Raster, Rgba};

const GREY: Rgba = Rgba { r: 128, g: 128, b: 128, a: 255 };
const WHITE: Rgba = Rgba { r: 255, g: 255, b: 255, a: 255 };

fn config(target_score: u32, target_shapes: u32, max_failures: u32) -> Config {
    Config { target_score, target_shapes, max_failures, batch: 4 }
}

fn candidate(tag: u32, score: u32) -> Candidate {
    Candidate {
        placement: Placement { source: tag as usize, center_x: tag, center_y: 1, size: 1, rotation: 0, color: WHITE },
        stamp: Raster::filled(3, 3, Rgba { r: tag as u8, g: 0, b: 0, a: 255 }),
        score,
    }
}

fn batch(scores: &[u32]) -> Vec<Candidate> {
    scores.iter().enumerate().map(|(tag, &score)| candidate(tag as u32, score)).collect()
}

fn engine(config: Config, score: u32) -> Engine {
    Engine::new(config, Raster::filled(8, 8, GREY), score).unwrap()
}

#[test]
fn config_without_a_goal_is_refused() {
    assert_eq!(config(0, 0, 100).validate(), Err(ConfigError::NoGoal));
    assert_eq!(config(0, 0, 0).validate(), Err(ConfigError::NoGoal));
}

#[test]
fn config_with_a_score_out_of_range_is_refused() {
    assert_eq!(config(SCORE_SCALE + 1, 0, 100).validate(), Err(ConfigError::ScoreOutOfRange));
    assert_eq!(config(u32::MAX, 500, 100).validate(), Err(ConfigError::ScoreOutOfRange));
}

#[test]
fn config_with_a_goal_is_accepted() {
    assert_eq!(config(1, 0, 100).validate(), Ok(()));
    assert_eq!(config(0, 1, 100).validate(), Ok(()));
    assert_eq!(config(SCORE_SCALE, 0, 100).validate(), Ok(()));
    assert_eq!(config(250_000, 500, 0).validate(), Ok(()));
}

#[test]
fn engine_refuses_to_start_without_a_goal() {
    let made = Engine::new(config(0, 0, 100), Raster::filled(8, 8, GREY), 500_000);
    assert!(matches!(made, Err(ConfigError::NoGoal)));
    let made = Engine::new(config(SCORE_SCALE + 1, 3, 100), Raster::filled(8, 8, GREY), 500_000);
    assert!(matches!(made, Err(ConfigError::ScoreOutOfRange)));
}

#[test]
fn fresh_engine_has_done_nothing() {
    let engine = engine(config(900_000, 3, 10), 412_300);
    assert_eq!(engine.score(), 412_300);
    assert_eq!(engine.successes(), 0);
    assert_eq!(engine.failures(), 0);
    assert_eq!(engine.consecutive_failures(), 0);
    assert!(engine.history().is_empty());
    assert_eq!(engine.canvas(), &Raster::filled(8, 8, GREY));
    assert!(engine.is_running());
}

#[test]
fn blank_canvas_is_opaque_in_the_average_colour() {
    let target = Raster::filled(5, 3, Rgba { r: 1, g: 2, b: 3, a: 4 });
    let canvas = blank_canvas(&target, Rgba { r: 90, g: 80, b: 70, a: 17 });
    assert_eq!(canvas, Raster::filled(5, 3, Rgba { r: 90, g: 80, b: 70, a: 255 }));
}

#[test]
fn select_takes_the_best_score_above_the_current() {
    assert_eq!(select(&batch(&[5, 9, 7]), 4), Some(1));
    assert_eq!(select(&batch(&[5, 9, 7]), 8), Some(1));
    assert_eq!(select(&batch(&[12, 9, 7]), 8), Some(0));
    assert_eq!(select(&batch(&[1, 2, 30]), 8), Some(2));
}

#[test]
fn select_takes_nothing_that_does_not_improve() {
    assert_eq!(select(&batch(&[5, 9, 7]), 9), None);
    assert_eq!(select(&batch(&[5, 9, 7]), 10), None);
    assert_eq!(select(&batch(&[]), 0), None);
    assert_eq!(select(&batch(&[0, 0]), 0), None);
    assert_eq!(select(&batch(&[u32::MAX]), u32::MAX), None);
}

#[test]
fn select_takes_the_last_of_equal_best_scores() {
    assert_eq!(select(&batch(&[9, 5, 9, 7]), 4), Some(2));
    assert_eq!(select(&batch(&[9, 9, 9]), 4), Some(2));
    assert_eq!(select(&batch(&[9, 9, 3]), 4), Some(1));
}

#[test]
fn winning_score_does_not_depend_on_the_order() {
    let scores = [410_000u32, 512_000, 377_000, 512_000, 100];
    let orders: [[usize; 5]; 5] = [[0, 1, 2, 3, 4], [4, 3, 2, 1, 0], [1, 0, 3, 2, 4], [2, 4, 0, 3, 1], [3, 1, 4, 0, 2]];
    for current in [0u32, 400_000, 511_999, 512_000, 900_000] {
        let expected = if current < 512_000 { Some(512_000) } else { None };
        for order in orders {
            let permuted: Vec<u32> = order.iter().map(|&i| scores[i]).collect();
            let round = batch(&permuted);
            let won = select(&round, current).map(|i| round[i].score);
            assert_eq!(won, expected);
            let mut engine = engine(config(0, 10, 10), current);
            engine.finish_round(&round);
            assert_eq!(engine.score(), expected.unwrap_or(current));
        }
    }
}

#[test]
fn accepted_round_commits_the_winner() {
    let mut engine = engine(config(900_000, 0, 10), 400_000);
    let round = batch(&[300_000, 450_000, 420_000]);
    assert_eq!(engine.finish_round(&round), Round::Accepted(1));
    assert_eq!(engine.score(), 450_000);
    assert_eq!(engine.successes(), 1);
    assert_eq!(engine.failures(), 0);
    assert_eq!(engine.consecutive_failures(), 0);
    assert_eq!(engine.history(), &vec![round[1].placement]);
    // the winner's stamp, of edge 3, lies centred at (1, 1)
    for y in 0..8u32 {
        for x in 0..8u32 {
            let covered = x < 3 && y < 3;
            let expected = if covered { Rgba { r: 1, g: 0, b: 0, a: 255 } } else { GREY };
            assert_eq!(engine.canvas().pixel(x, y), expected, "({x}, {y})");
        }
    }
}

#[test]
fn rejected_round_changes_only_the_counts() {
    let mut engine = engine(config(900_000, 0, 10), 400_000);
    assert_eq!(engine.finish_round(&batch(&[300_000, 400_000, 399_999])), Round::Rejected);
    assert_eq!(engine.score(), 400_000);
    assert_eq!(engine.successes(), 0);
    assert_eq!(engine.failures(), 1);
    assert_eq!(engine.consecutive_failures(), 1);
    assert!(engine.history().is_empty());
    assert_eq!(engine.canvas(), &Raster::filled(8, 8, GREY));
    assert_eq!(engine.finish_round(&batch(&[])), Round::Rejected);
    assert_eq!(engine.failures(), 2);
    assert_eq!(engine.consecutive_failures(), 2);
}

#[test]
fn success_starts_the_failures_in_a_row_again() {
    let mut engine = engine(config(900_000, 0, 10), 400_000);
    engine.finish_round(&batch(&[1]));
    engine.finish_round(&batch(&[2]));
    assert_eq!(engine.consecutive_failures(), 2);
    assert_eq!(engine.finish_round(&batch(&[400_001])), Round::Accepted(0));
    assert_eq!(engine.consecutive_failures(), 0);
    assert_eq!(engine.failures(), 2);
    engine.finish_round(&batch(&[3]));
    assert_eq!(engine.consecutive_failures(), 1);
    assert_eq!(engine.failures(), 3);
}

#[test]
fn scores_rise_with_every_accepted_round() {
    let mut engine = engine(config(SCORE_SCALE, 0, 1000), 100);
    let offered = [50u32, 150, 150, 120, 400, 399, 401, 0, 1_000, 999];
    let mut last = engine.score();
    for score in offered {
        let before = engine.score();
        let round = engine.finish_round(&batch(&[score]));
        assert!(engine.score() >= before);
        assert_eq!(round == Round::Accepted(0), engine.score() > before);
        assert_eq!(round == Round::Accepted(0), score > before);
        last = last.max(engine.score());
        assert_eq!(engine.score(), last);
    }
    assert_eq!(engine.score(), 1_000);
    assert_eq!(engine.successes(), 4);
    assert_eq!(engine.failures(), 6);
}

#[test]
fn engine_ends_with_exactly_the_shapes_asked_for() {
    for shapes in [1u32, 2, 7] {
        let mut engine = engine(config(0, shapes, 1000), 0);
        let mut next = 1;
        let mut rounds = 0;
        while engine.is_running() {
            // two rounds in three bring nothing
            let score = if rounds % 3 == 0 { next } else { 0 };
            if engine.finish_round(&batch(&[score])) == Round::Accepted(0) {
                next += 1;
            }
            rounds += 1;
        }
        assert_eq!(engine.successes(), shapes as usize);
        assert_eq!(engine.history().len(), shapes as usize);
        assert_eq!(rounds, 3 * shapes - 2);
        assert_eq!(engine.finish_round(&batch(&[u32::MAX])), Round::Ended);
        assert_eq!(engine.successes(), shapes as usize);
    }
}

#[test]
fn engine_halts_at_the_limit_of_failures_in_a_row() {
    for limit in [1u32, 3, 10] {
        let mut engine = engine(config(900_000, 500, limit), 400_000);
        let mut rounds = 0;
        while engine.is_running() {
            assert_eq!(engine.finish_round(&batch(&[1, 2, 3])), Round::Rejected);
            rounds += 1;
        }
        assert_eq!(rounds, limit);
        assert_eq!(engine.consecutive_failures(), limit);
        assert_eq!(engine.successes(), 0);
        assert_eq!(engine.score(), 400_000);
    }
}

#[test]
fn engine_with_no_failure_allowed_never_runs() {
    let mut engine = engine(config(900_000, 500, 0), 400_000);
    assert!(!engine.is_running());
    assert_eq!(engine.finish_round(&batch(&[999_999])), Round::Ended);
    assert_eq!(engine.score(), 400_000);
    assert_eq!(engine.failures(), 0);
}

#[test]
fn engine_runs_until_both_goals_are_met() {
    let mut engine = engine(config(500_000, 2, 10), 400_000);
    assert_eq!(engine.finish_round(&batch(&[600_000])), Round::Accepted(0));
    // the score is reached, the shapes are not
    assert!(engine.is_running());
    assert_eq!(engine.finish_round(&batch(&[600_001])), Round::Accepted(0));
    assert!(!engine.is_running());

    let mut engine = engine_with_score_goal();
    assert_eq!(engine.finish_round(&batch(&[450_000])), Round::Accepted(0));
    // the shapes are reached, the score is not
    assert!(engine.is_running());
    assert_eq!(engine.finish_round(&batch(&[500_000])), Round::Accepted(0));
    assert!(!engine.is_running());
}

fn engine_with_score_goal() -> Engine {
    engine(config(500_000, 1, 10), 400_000)
}

#[test]
fn engine_that_starts_at_its_target_score_does_not_run() {
    let engine = engine(config(400_000, 0, 10), 400_000);
    assert!(!engine.is_running());
}

#[test]
fn trial_leaves_the_canvas_alone() {
    let engine = engine(config(0, 1, 10), 0);
    let candidate = candidate(5, 10);
    let copy = engine.trial(&candidate.placement, &candidate.stamp);
    assert_eq!(engine.canvas(), &Raster::filled(8, 8, GREY));
    // a stamp of edge 3 centred at (5, 1)
    for y in 0..8u32 {
        for x in 0..8u32 {
            let covered = (4..7).contains(&x) && y < 3;
            let expected = if covered { Rgba { r: 5, g: 0, b: 0, a: 255 } } else { GREY };
            assert_eq!(copy.pixel(x, y), expected, "({x}, {y})");
        }
    }
}

#[test]
fn into_parts_hands_out_canvas_and_history() {
    let mut engine = engine(config(0, 2, 10), 0);
    let first = batch(&[5]);
    let second = batch(&[3, 9]);
    engine.finish_round(&first);
    engine.finish_round(&second);
    let expected_canvas = engine.canvas().clone();
    let (canvas, history) = engine.into_parts();
    assert_eq!(canvas, expected_canvas);
    assert_eq!(history, vec![first[0].placement, second[1].placement]);
}

const RED: Rgba = Rgba { r: 255, g: 0, b: 0, a: 255 };
const BLUE: Rgba = Rgba { r: 0, g: 0, b: 255, a: 255 };

/// A placement whose stamp starts at `(left, top)`.
fn placed_at(left: i64, top: i64) -> Placement {
    // a silhouette of edge 4 has a stamp of edge 6, which starts 3 before the centre
    Placement { source: 0, center_x: (left + 3) as u32, center_y: (top + 3) as u32, size: 4, rotation: 0, color: WHITE }
}

fn laid(canvas: Raster, top: &Raster, left: i64, up: i64) -> Raster {
    let placement = placed_at(left, up);
    assert_eq!(placement.stamp_corner(), (left, up));
    Engine::new(config(0, 1, 1), canvas, 0).unwrap().trial(&placement, top)
}

#[test]
fn trial_lays_opaque_pixels_over_the_canvas() {
    let canvas = laid(Raster::filled(4, 4, RED), &Raster::filled(2, 2, BLUE), 1, 2);
    for y in 0..4u32 {
        for x in 0..4u32 {
            let covered = (1..3).contains(&x) && (2..4).contains(&y);
            assert_eq!(canvas.pixel(x, y), if covered { BLUE } else { RED }, "({x}, {y})");
        }
    }
}

#[test]
fn trial_keeps_the_canvas_under_transparent_pixels() {
    let clear = Rgba { r: 0, g: 255, b: 0, a: 0 };
    let canvas = laid(Raster::filled(3, 3, RED), &Raster::filled(3, 3, clear), 0, 0);
    assert_eq!(canvas, Raster::filled(3, 3, RED));
}

#[test]
fn trial_clips_what_falls_outside() {
    let top = Raster::filled(4, 4, BLUE);
    let canvas = laid(Raster::filled(3, 3, RED), &top, -2, -3);
    for y in 0..3u32 {
        for x in 0..3u32 {
            let covered = x < 2 && y < 1;
            assert_eq!(canvas.pixel(x, y), if covered { BLUE } else { RED }, "({x}, {y})");
        }
    }
    let canvas = laid(Raster::filled(3, 3, RED), &top, 2, 1);
    for y in 0..3u32 {
        for x in 0..3u32 {
            let covered = x >= 2 && y >= 1;
            assert_eq!(canvas.pixel(x, y), if covered { BLUE } else { RED }, "({x}, {y})");
        }
    }
}

#[test]
fn trial_off_the_canvas_changes_nothing() {
    let top = Raster::filled(2, 2, BLUE);
    for (left, up) in [(3, 0), (0, 3), (-2, 0), (0, -2), (-3, -3), (4_000_000_000, 0), (0, 4_294_967_292)] {
        let canvas = laid(Raster::filled(3, 3, RED), &top, left, up);
        assert_eq!(canvas, Raster::filled(3, 3, RED), "at ({left}, {up})");
    }
}

#[test]
fn trial_uses_the_stamp_pixel_that_covers_each_canvas_pixel() {
    let mut bytes = Vec::new();
    for i in 0..6u8 {
        bytes.extend_from_slice(&[10 * i, 20, 30, 255]);
    }
    let top = Raster::from_bytes(3, 2, bytes).unwrap();
    let canvas = laid(Raster::filled(5, 4, RED), &top, 1, 1);
    assert_eq!(canvas.pixel(1, 1), top.pixel(0, 0));
    assert_eq!(canvas.pixel(2, 1), top.pixel(1, 0));
    assert_eq!(canvas.pixel(3, 1), top.pixel(2, 0));
    assert_eq!(canvas.pixel(1, 2), top.pixel(0, 1));
    assert_eq!(canvas.pixel(3, 2), top.pixel(2, 1));
    assert_eq!(canvas.pixel(0, 0), RED);
    assert_eq!(canvas.pixel(4, 3), RED);
    assert_eq!(canvas.pixel(4, 1), RED);
}

#[test]
fn trial_blends_half_transparent_pixels() {
    let under = [Rgba { r: 0, g: 0, b: 0, a: 255 }, Rgba { r: 200, g: 100, b: 50, a: 120 }];
    let over = [Rgba { r: 255, g: 255, b: 255, a: 128 }, Rgba { r: 10, g: 250, b: 90, a: 64 }];
    for below in under {
        for above in over {
            let canvas = laid(Raster::filled(2, 2, below), &Raster::filled(1, 1, above), 1, 0);
            let mut expected = image::Rgba([below.r, below.g, below.b, below.a]);
            expected.blend(&image::Rgba([above.r, above.g, above.b, above.a]));
            let blended = canvas.pixel(1, 0);
            assert_eq!([blended.r, blended.g, blended.b, blended.a], expected.0);
            assert_ne!(blended, below);
            assert_eq!(canvas.pixel(0, 0), below);
            assert_eq!(canvas.pixel(0, 1), below);
            assert_eq!(canvas.pixel(1, 1), below);
        }
    }
}
