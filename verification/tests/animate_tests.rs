use maze::animate::{GenerationProgress, SolutionProgress, WaitingAnimator};
use maze::generate::{MazeGenerator, SimpleGenerator};
use maze::maze::Direction::Right;
use maze::maze::Wall;

#[test]
fn waiting_animator_counts_the_frames_down() {
    let mut animator = WaitingAnimator::new(2);
    assert!(!animator.done());
    animator.update();
    assert!(!animator.done());
    animator.update();
    assert!(animator.done());
    animator.update();
    assert!(animator.done());
}

#[test]
fn waiting_animator_of_no_frames_is_done() {
    let animator = WaitingAnimator::new(0);
    assert!(animator.done());
}

#[test]
fn solution_progress_draws_then_skips_then_is_done() {
    let mut progress = SolutionProgress::new();
    let mut seen = Vec::new();
    while !progress.done() {
        seen.push((progress.lines_to_draw(), progress.lines_to_skip()));
        progress.update(2);
    }
    assert_eq!(seen, vec![(0, 0), (1, 0), (2, 0), (3, 0), (3, 1), (3, 2), (3, 3)]);
    progress.update(2);
    assert!(progress.done());
    assert_eq!((progress.lines_to_draw(), progress.lines_to_skip()), (3, 3));
}

#[test]
fn generation_progress_waits_one_frame_then_applies_the_edits() {
    let mut generator = SimpleGenerator::new(2, 2);
    let mut maze = generator.initial_maze();
    let mut progress = GenerationProgress::new();
    let wall = Wall { x: 0, y: 0, dir: Right };

    progress.update(&mut generator, &mut maze);
    assert!(!progress.maze_completed());
    assert!(maze.get_wall(&wall));

    progress.update(&mut generator, &mut maze);
    assert!(!progress.maze_completed());
    assert!(!maze.get_wall(&wall));

    progress.update(&mut generator, &mut maze);
    assert!(progress.maze_completed());
    assert!(!maze.get_wall(&wall));
}
