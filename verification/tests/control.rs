use spsa_tui::control::{
    clock, iteration_after, run_finished, seconds_left, Command, Controls, Key, Mode,
};

#[test]
fn controls_start_paused() {
    let c = Controls::new();
    assert_eq!(c.mode, Mode::Normal);
    assert!(c.paused);
    assert_eq!(c.total_iterations, 2000);
    assert_eq!(c.save_iterations, 10);
}

#[test]
fn normal_keys() {
    let mut c = Controls::new();
    assert_eq!(c.handle_key(Key::Char(' '), None), Command::Nothing);
    assert!(!c.paused);
    assert_eq!(c.handle_key(Key::Char(' '), None), Command::StopTimer);
    assert!(c.paused);
    assert_eq!(c.handle_key(Key::Up, None), Command::Nothing);
    assert_eq!(c.total_iterations, 2100);
    c.total_iterations = 150;
    c.handle_key(Key::Down, None);
    assert_eq!(c.total_iterations, 50);
    c.handle_key(Key::Down, None);
    assert_eq!(c.total_iterations, 1);
    assert_eq!(c.handle_key(Key::Enter, None), Command::StartRun);
    assert_eq!(c.handle_key(Key::Char('r'), None), Command::ResumeFromCheckpoint);
    c.handle_key(Key::Tab, None);
    assert_eq!(c.mode, Mode::ParamSelect);
}

#[test]
fn up_wraps_like_an_atomic_add() {
    let mut c = Controls::new();
    c.total_iterations = usize::MAX - 50;
    c.handle_key(Key::Up, None);
    assert_eq!(c.total_iterations, 49);
}

#[test]
fn select_keys() {
    let mut c = Controls::new();
    c.handle_key(Key::Tab, Some(3));
    c.handle_key(Key::Up, Some(3));
    assert_eq!(c.selected, 2);
    c.handle_key(Key::Char('j'), Some(3));
    assert_eq!(c.selected, 0);
    c.handle_key(Key::Down, Some(3));
    assert_eq!(c.handle_key(Key::Char(' '), Some(3)), Command::ToggleTune(1));
    assert_eq!(c.handle_key(Key::Char(' '), None), Command::Nothing);
    c.handle_key(Key::Down, None);
    assert_eq!(c.selected, 1);
    c.handle_key(Key::Esc, Some(3));
    assert_eq!(c.mode, Mode::Normal);
    assert_eq!(c.handle_key(Key::Char('q'), None), Command::Quit);
    assert!(c.exiting);
}

#[test]
fn start_and_save_decisions() {
    let mut c = Controls::new();
    assert!(!c.should_start(false, true));
    c.run_started();
    assert!(c.should_start(false, true));
    assert!(!c.should_start(true, true));
    assert!(!c.should_start(false, false));
    assert!(c.should_save(20));
    assert!(!c.should_save(21));
    assert!(c.should_save(2000));
    c.save_iterations = 0;
    assert!(c.should_save(0));
    assert!(!c.should_save(10));
    assert!(run_finished(11, 10));
    assert!(!run_finished(10, 10));
}

#[test]
fn time_left() {
    assert_eq!(seconds_left(100, 40, 2500, 30), 120);
    assert_eq!(seconds_left(100, 140, 2500, 30), 0);
    assert_eq!(seconds_left(100, 99, 999, 5), 0);
    assert_eq!(clock(3725), (1, 2, 5));
}

#[test]
fn down_undoes_up() {
    for t in [1usize, 50, 101, 2000] {
        let mut c = Controls::new();
        c.total_iterations = t;
        c.handle_key(Key::Up, None);
        c.handle_key(Key::Down, None);
        assert_eq!(c.total_iterations, t);
    }
    let mut c = Controls::new();
    c.total_iterations = 0;
    c.handle_key(Key::Up, None);
    c.handle_key(Key::Down, None);
    assert_eq!(c.total_iterations, 1);
}

#[test]
fn selection_round_trip_and_toggles() {
    let mut c = Controls::new();
    c.handle_key(Key::Tab, Some(4));
    for start in 0..4 {
        c.selected = start;
        c.handle_key(Key::Down, Some(4));
        c.handle_key(Key::Up, Some(4));
        assert_eq!(c.selected, start);
        c.handle_key(Key::Char('k'), Some(4));
        assert!(c.selected < 4);
        c.handle_key(Key::Char('j'), Some(4));
        assert_eq!(c.selected, start);
    }
    c.handle_key(Key::Tab, Some(4));
    let before = c;
    c.handle_key(Key::Char(' '), None);
    c.handle_key(Key::Char(' '), None);
    assert_eq!(c, before);
    c.handle_key(Key::Tab, None);
    c.handle_key(Key::Tab, None);
    assert_eq!(c, before);
}

#[test]
fn quitting_is_final() {
    let mut c = Controls::new();
    c.handle_key(Key::Tab, Some(2));
    assert_eq!(c.handle_key(Key::Char('q'), Some(2)), Command::Quit);
    for key in [Key::Tab, Key::Esc, Key::Enter, Key::Up, Key::Down, Key::Char(' '), Key::Other] {
        c.handle_key(key, Some(2));
        assert!(c.exiting);
    }
    assert!(!c.should_start(false, true));
    assert_eq!(c.handle_key(Key::Char('x'), None), Command::Nothing);
}

#[test]
fn down_presses_cycle_back() {
    for n in 1..6usize {
        for start in 0..n {
            let mut c = Controls::new();
            c.handle_key(Key::Tab, Some(n));
            c.selected = start;
            let before = c;
            for _ in 0..n {
                c.handle_key(Key::Down, Some(n));
                assert!(c.selected < n);
            }
            assert_eq!(c, before);
        }
    }
}

#[test]
fn iteration_advances_only_after_a_played_match() {
    assert_eq!(iteration_after(7, true), 8);
    assert_eq!(iteration_after(7, false), 7);
}

#[test]
fn steps_play_each_iteration_once_in_order() {
    let (start, total) = (3usize, 7usize);
    let mut k = start;
    let mut played = Vec::new();
    for _ in 0..20 {
        if run_finished(k, total) {
            continue;
        }
        played.push(k);
        k = iteration_after(k, true);
    }
    assert_eq!(played, vec![3, 4, 5, 6, 7]);
    assert_eq!(k, 8);
    let mut k = 9usize;
    let mut steps = 0;
    for _ in 0..5 {
        if !run_finished(k, total) {
            steps += 1;
            k = iteration_after(k, true);
        }
    }
    assert_eq!((steps, k), (0, 9));
}

#[test]
fn no_second_step_starts_while_one_runs() {
    let mut c = Controls::new();
    c.handle_key(Key::Char(' '), None);
    let mut running = false;
    let mut started = 0;
    for pass in 0..10 {
        if c.should_start(running, true) {
            assert!(!running);
            running = true;
            started += 1;
        }
        if pass % 4 == 3 {
            running = false;
        }
    }
    assert_eq!(started, 3);
    assert!(!c.should_start(true, true));
}
