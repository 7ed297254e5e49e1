//! The tuner's controls: what each key does, when the next iteration starts, when a
//! checkpoint is saved, and the time left.

use vstd::arithmetic::div_mod::{
    lemma_add_mod_noop, lemma_mod_add_multiples_vanish, lemma_mod_self_0, lemma_small_mod,
};
use vstd::prelude::*;

verus! {

/// Where the keys go: to the run, or to the parameter list.
#[derive(Clone, Copy, Debug, PartialEq, Eq, Structural)]
pub enum Mode {
    Normal,
    ParamSelect,
}

/// A key press, as far as the controls tell keys apart.
#[derive(Clone, Copy, Debug, PartialEq, Eq, Structural)]
pub enum Key {
    Char(char),
    Tab,
    Esc,
    Enter,
    Up,
    Down,
    Other,
}

/// What the caller has to do after a key.
#[derive(Clone, Copy, Debug, PartialEq, Eq, Structural)]
pub enum Command {
    /// Nothing beyond the change of the controls.
    Nothing,
    /// Stop the run, wait for it, save the checkpoint and leave.
    Quit,
    /// The run is paused now: stop the iteration timer.
    StopTimer,
    /// Load the saved checkpoint and continue the run it describes.
    ResumeFromCheckpoint,
    /// Read the engine's parameters and start a new run.
    StartRun,
    /// Switch tuning of the parameter at this index of the checkpoint.
    ToggleTune(usize),
}

/// The state of the controls.
#[derive(Clone, Copy, Debug, PartialEq, Eq, Structural)]
pub struct Controls {
    pub mode: Mode,
    pub paused: bool,
    pub exiting: bool,
    pub selected: usize,
    pub total_iterations: usize,
    pub save_iterations: usize,
}

/// The run length after `Up`: 100 more, wrapping as an atomic add does.
pub open spec fn raised_total(t: usize) -> usize {
    if t + 100 <= usize::MAX {
        (t + 100) as usize
    } else {
        (t + 100 - usize::MAX - 1) as usize
    }
}

/// The run length after `Down`: 100 less, but never below 1.
pub open spec fn lowered_total(t: usize) -> usize {
    if t <= 100 {
        1
    } else {
        (t - 100) as usize
    }
}

/// The parameter above `sel` in a list of `n`, wrapping round.
pub open spec fn select_prev(sel: usize, n: usize) -> usize {
    ((sel + n - 1) % (n as int)) as usize
}

/// The parameter below `sel` in a list of `n`, wrapping round.
pub open spec fn select_next(sel: usize, n: usize) -> usize {
    ((sel + 1) % (n as int)) as usize
}

pub proof fn lemma_select_prev(sel: usize, n: usize)
    requires
        n > 0,
    ensures
        select_prev(sel, n) == if sel % n == 0 {
            n - 1
        } else {
            sel % n - 1
        },
        select_prev(sel, n) < n,
{
    let a = (sel as int) % (n as int);
    lemma_add_mod_noop(sel as int, n - 1, n as int);
    lemma_small_mod((n - 1) as nat, n as nat);
    if a == 0 {
    } else {
        lemma_mod_add_multiples_vanish(a - 1, n as int);
        lemma_small_mod((a - 1) as nat, n as nat);
    }
}

pub proof fn lemma_select_next(sel: usize, n: usize)
    requires
        n > 0,
    ensures
        select_next(sel, n) == if sel % n + 1 == n {
            0
        } else {
            sel % n + 1
        },
        select_next(sel, n) < n,
{
    let a = (sel as int) % (n as int);
    lemma_add_mod_noop(sel as int, 1, n as int);
    if n == 1 {
    } else {
        lemma_small_mod(1, n as nat);
    }
    if a + 1 == n {
        lemma_mod_self_0(n as int);
    } else {
        lemma_small_mod((a + 1) as nat, n as nat);
    }
}

/// What a key does to the controls, and what it asks of the caller. `params` is the
/// number of parameters of the current checkpoint, where there is one.
pub open spec fn key_step(c: Controls, key: Key, params: Option<usize>) -> (Controls, Command) {
    match c.mode {
        Mode::Normal => match key {
            Key::Char('q') => (Controls { exiting: true, ..c }, Command::Quit),
            Key::Char(' ') => (
                Controls { paused: !c.paused, ..c },
                if !c.paused {
                    Command::StopTimer
                } else {
                    Command::Nothing
                },
            ),
            Key::Char('r') => (c, Command::ResumeFromCheckpoint),
            Key::Tab => (Controls { mode: Mode::ParamSelect, ..c }, Command::Nothing),
            Key::Enter => (c, Command::StartRun),
            Key::Up => (Controls { total_iterations: raised_total(c.total_iterations), ..c }, Command::Nothing),
            Key::Down => (Controls { total_iterations: lowered_total(c.total_iterations), ..c }, Command::Nothing),
            _ => (c, Command::Nothing),
        },
        Mode::ParamSelect => match key {
            Key::Char('q') => (Controls { exiting: true, ..c }, Command::Quit),
            Key::Tab | Key::Esc => (Controls { mode: Mode::Normal, ..c }, Command::Nothing),
            Key::Up | Key::Char('k') => match params {
                Some(n) if n > 0 => (Controls { selected: select_prev(c.selected, n), ..c }, Command::Nothing),
                _ => (c, Command::Nothing),
            },
            Key::Down | Key::Char('j') => match params {
                Some(n) if n > 0 => (Controls { selected: select_next(c.selected, n), ..c }, Command::Nothing),
                _ => (c, Command::Nothing),
            },
            Key::Char(' ') => match params {
                Some(n) if c.selected < n => (c, Command::ToggleTune(c.selected)),
                _ => (c, Command::Nothing),
            },
            _ => (c, Command::Nothing),
        },
    }
}

/// Whether iteration `k` is one whose checkpoint is saved: every `every` iterations
/// (`usize::is_multiple_of`), and the last one.
pub open spec fn save_due(k: usize, every: usize, total: usize) -> bool {
    (if every == 0 {
        k == 0
    } else {
        k % every == 0
    }) || k == total
}

impl Controls {
    /// The controls of a tuner that has not started: paused, 2000 iterations, a
    /// checkpoint every 10.
    pub fn new() -> (c: Controls)
        ensures
            c == (Controls {
                mode: Mode::Normal,
                paused: true,
                exiting: false,
                selected: 0,
                total_iterations: 2000,
                save_iterations: 10,
            }),
    {
        Controls {
            mode: Mode::Normal,
            paused: true,
            exiting: false,
            selected: 0,
            total_iterations: 2000,
            save_iterations: 10,
        }
    }

    /// Applies a key press. `params` is the number of parameters of the current
    /// checkpoint, where there is one.
    pub fn handle_key(&mut self, key: Key, params: Option<usize>) -> (cmd: Command)
        ensures
            (*final(self), cmd) == key_step(*old(self), key, params),
            old(self).mode == Mode::ParamSelect && key == Key::Char(' ') ==> *final(self) == *old(self)
                && cmd == if params.is_some() && old(self).selected < params.unwrap() {
                Command::ToggleTune(old(self).selected)
            } else {
                Command::Nothing
            },
    {
        match self.mode {
            Mode::Normal => match key {
                Key::Char('q') => {
                    self.exiting = true;
                    Command::Quit
                },
                Key::Char(' ') => {
                    self.paused = !self.paused;
                    if self.paused {
                        Command::StopTimer
                    } else {
                        Command::Nothing
                    }
                },
                Key::Char('r') => Command::ResumeFromCheckpoint,
                Key::Tab => {
                    self.mode = Mode::ParamSelect;
                    Command::Nothing
                },
                Key::Enter => Command::StartRun,
                Key::Up => {
                    self.total_iterations = self.total_iterations.wrapping_add(100);
                    Command::Nothing
                },
                Key::Down => {
                    self.total_iterations = if self.total_iterations <= 100 {
                        1
                    } else {
                        self.total_iterations - 100
                    };
                    Command::Nothing
                },
                _ => Command::Nothing,
            },
            Mode::ParamSelect => match key {
                Key::Char('q') => {
                    self.exiting = true;
                    Command::Quit
                },
                Key::Tab | Key::Esc => {
                    self.mode = Mode::Normal;
                    Command::Nothing
                },
                Key::Up | Key::Char('k') => {
                    if let Some(n) = params {
                        if n > 0 {
                            let sel0 = self.selected;
                            let s = sel0 % n;
                            let next = if s == 0 {
                                n - 1
                            } else {
                                s - 1
                            };
                            proof {
                                lemma_select_prev(sel0, n);
                            }
                            self.selected = next;
                        }
                    }
                    Command::Nothing
                },
                Key::Down | Key::Char('j') => {
                    if let Some(n) = params {
                        if n > 0 {
                            let sel0 = self.selected;
                            let s = sel0 % n;
                            let next = if s + 1 == n {
                                0
                            } else {
                                s + 1
                            };
                            proof {
                                lemma_select_next(sel0, n);
                            }
                            self.selected = next;
                        }
                    }
                    Command::Nothing
                },
                Key::Char(' ') => match params {
                    Some(n) => if self.selected < n {
                        Command::ToggleTune(self.selected)
                    } else {
                        Command::Nothing
                    },
                    None => Command::Nothing,
                },
                _ => Command::Nothing,
            },
        }
    }

    /// A new run was set up from the engine: its first parameter is selected and it runs.
    pub fn run_started(&mut self)
        ensures
            *final(self) == (Controls { selected: 0, paused: false, ..*old(self) }),
    {
        self.selected = 0;
        self.paused = false;
    }

    /// A run was set up from the saved checkpoint: its first parameter is selected.
    pub fn run_resumed(&mut self)
        ensures
            *final(self) == (Controls { selected: 0, ..*old(self) }),
    {
        self.selected = 0;
    }

    /// Whether the next iteration should start now: the tuner is neither leaving nor
    /// paused, no iteration is running, and there is a run.
    pub fn should_start(&self, running: bool, has_run: bool) -> (r: bool)
        ensures
            r == start_due(*self, running, has_run),
    {
        !self.exiting && !self.paused && !running && has_run
    }

    /// Whether the checkpoint of finished iteration `k` is saved.
    pub fn should_save(&self, k: usize) -> (r: bool)
        ensures
            r == save_due(k, self.save_iterations, self.total_iterations),
            self.save_iterations > 0 ==> r == (k % self.save_iterations == 0 || k
                == self.total_iterations),
            self.save_iterations == 0 ==> r == (k == 0 || k == self.total_iterations),
    {
        let due = if self.save_iterations == 0 {
            k == 0
        } else {
            k % self.save_iterations == 0
        };
        due || k == self.total_iterations
    }
}

/// `Down` after `Up` gives the run length back, for a length of at least 1 that has
/// room for 100 more.
pub proof fn law_down_undoes_up(t: usize)
    requires
        1 <= t,
        t + 100 <= usize::MAX,
    ensures
        lowered_total(raised_total(t)) == t,
{
}

/// `Down` never makes the run length 0.
pub proof fn law_down_keeps_a_run(t: usize)
    ensures
        lowered_total(t) >= 1,
{
}

/// Moving the selection keeps it within the parameter list, and on a selection within
/// the list, `Up` undoes `Down` and `Down` undoes `Up`.
pub proof fn law_selection_moves(sel: usize, n: usize)
    requires
        n > 0,
    ensures
        select_prev(sel, n) < n,
        select_next(sel, n) < n,
        sel < n ==> select_prev(select_next(sel, n), n) == sel,
        sel < n ==> select_next(select_prev(sel, n), n) == sel,
{
    lemma_select_prev(sel, n);
    lemma_select_next(sel, n);
    if sel < n {
        lemma_small_mod(sel as nat, n as nat);
        lemma_select_prev(select_next(sel, n), n);
        lemma_select_next(select_prev(sel, n), n);
        lemma_small_mod(select_next(sel, n) as nat, n as nat);
        lemma_small_mod(select_prev(sel, n) as nat, n as nat);
    }
}

/// The controls after `k` presses of `Down` with a list of `n` parameters.
pub open spec fn press_down(c: Controls, n: usize, k: nat) -> Controls
    decreases k,
{
    if k == 0 {
        c
    } else {
        key_step(press_down(c, n, (k - 1) as nat), Key::Down, Some(n)).0
    }
}

proof fn lemma_press_down(c: Controls, n: usize, k: nat)
    requires
        c.mode == Mode::ParamSelect,
        n > 0,
        c.selected < n,
    ensures
        press_down(c, n, k) == (Controls { selected: ((c.selected + k) % (n as int)) as usize, ..c }),
    decreases k,
{
    if k == 0 {
        lemma_small_mod(c.selected as nat, n as nat);
    } else {
        lemma_press_down(c, n, (k - 1) as nat);
        let prev = ((c.selected + k - 1) % (n as int)) as usize;
        lemma_select_next(prev, n);
        lemma_add_mod_noop(c.selected + k - 1, 1, n as int);
        lemma_small_mod(prev as nat, n as nat);
        if n == 1 {
        } else {
            lemma_small_mod(1, n as nat);
        }
    }
}

/// In the parameter list, pressing `Down` as many times as there are parameters brings
/// the selection back to where it was, and after every press it is within the list.
pub proof fn law_down_cycles(c: Controls, n: usize, k: nat)
    requires
        c.mode == Mode::ParamSelect,
        n > 0,
        c.selected < n,
    ensures
        press_down(c, n, k).selected < n,
        press_down(c, n, k).selected == (c.selected + k) % (n as int),
        press_down(c, n, n as nat) == c,
{
    lemma_press_down(c, n, k);
    lemma_press_down(c, n, n as nat);
    lemma_mod_add_multiples_vanish(c.selected as int, n as int);
    lemma_small_mod(c.selected as nat, n as nat);
    assert(press_down(c, n, n as nat) =~= c);
}

/// In the run view, pressing space twice, or Tab twice from there and back, leaves the
/// controls as they were.
pub proof fn law_keys_toggle_back(c: Controls, params: Option<usize>)
    requires
        c.mode == Mode::Normal,
    ensures
        key_step(key_step(c, Key::Char(' '), params).0, Key::Char(' '), params).0 == c,
        key_step(key_step(c, Key::Tab, params).0, Key::Tab, params).0 == c,
{
}

/// `q` quits from either view, and once the controls are leaving, no key brings them back.
pub proof fn law_quit_is_final(c: Controls, key: Key, params: Option<usize>)
    ensures
        key_step(c, Key::Char('q'), params) == (Controls { exiting: true, ..c }, Command::Quit),
        c.exiting ==> key_step(c, key, params).0.exiting,
{
}

/// A key asks to switch tuning only of a parameter that the checkpoint has, and only the
/// list view moves the selection or switches tuning.
pub proof fn law_toggle_targets_a_parameter(c: Controls, key: Key, n: usize)
    ensures
        key_step(c, key, Some(n)).1 matches Command::ToggleTune(i) ==> i < n && i == c.selected,
        c.mode == Mode::Normal ==> key_step(c, key, Some(n)).0.selected == c.selected,
        c.mode == Mode::Normal ==> !(key_step(c, key, Some(n)).1 is ToggleTune),
{
}

/// Whether the tuner starts a step: it is neither leaving nor paused, no step is
/// running, and there is a run.
pub open spec fn start_due(c: Controls, running: bool, has_run: bool) -> bool {
    !c.exiting && !c.paused && !running && has_run
}

/// What the tuner's loop sees between two of its decisions: a pass of the loop, with the
/// controls at that moment and whether there is a run; or the end of the step under way,
/// after which its worker clears the running flag.
pub enum LoopEvent {
    Pass(Controls, bool),
    StepDone,
}

/// The running flag and the number of steps under way after `events`: a pass starts a
/// step, and sets the flag, exactly where `start_due` holds of it.
pub open spec fn steps_after(events: Seq<LoopEvent>) -> (bool, nat)
    decreases events.len(),
{
    if events.len() == 0 {
        (false, 0)
    } else {
        let (running, active) = steps_after(events.drop_last());
        match events.last() {
            LoopEvent::Pass(c, has_run) => if start_due(c, running, has_run) {
                (true, active + 1)
            } else {
                (running, active)
            },
            LoopEvent::StepDone => if active > 0 {
                (false, (active - 1) as nat)
            } else {
                (running, active)
            },
        }
    }
}

/// Whatever the key presses and step ends, at most one tuning step is under way at a
/// time, and the running flag is set exactly while one is.
pub proof fn law_one_step_at_a_time(events: Seq<LoopEvent>)
    ensures
        steps_after(events).1 <= 1,
        steps_after(events).0 <==> steps_after(events).1 == 1,
    decreases events.len(),
{
    if events.len() > 0 {
        law_one_step_at_a_time(events.drop_last());
    }
}

/// In the parameter list, space asks to switch tuning of the selected parameter whenever
/// the checkpoint has it, the last one included, and leaves the controls as they are.
pub proof fn law_space_toggles_selected(c: Controls, n: usize)
    requires
        c.mode == Mode::ParamSelect,
        c.selected < n,
    ensures
        key_step(c, Key::Char(' '), Some(n)) == (c, Command::ToggleTune(c.selected)),
{
}

/// The checkpoints saved during a run: that of every iteration that is a multiple of the
/// saving interval, that of the last iteration, and no other (with an interval of 0, only
/// iteration 0 counts as a multiple).
pub proof fn law_save_points(k: usize, every: usize, total: usize, j: nat)
    ensures
        save_due(total, every, total),
        every > 0 && j * every <= usize::MAX ==> save_due((j * every) as usize, every, total),
        every > 0 && k % every != 0 && k != total ==> !save_due(k, every, total),
        every > 0 ==> (save_due(k, every, total) <==> (k % every == 0 || k == total)),
        every == 0 ==> (save_due(k, every, total) <==> (k == 0 || k == total)),
{
    if every > 0 {
        vstd::arithmetic::div_mod::lemma_mod_multiples_basic(j as int, every as int);
    }
}

/// The iteration a tuning step leaves the run at: the next one after a match that was
/// played, the same one after a match that failed, so that it is tried again.
pub fn iteration_after(k: usize, played: bool) -> (r: usize)
    requires
        played ==> k < usize::MAX,
    ensures
        r == if played {
            k + 1
        } else {
            k as int
        },
{
    if played {
        k + 1
    } else {
        k
    }
}

/// Whether a run that is at iteration `k` of `total` is finished.
pub fn run_finished(k: usize, total: usize) -> (r: bool)
    ensures
        r == (k > total),
{
    k > total
}

/// The iteration a run is at after one tuning step from iteration `k`: a finished run
/// stays where it is; otherwise the step plays iteration `k` and, where the match was
/// played, moves on to the next.
pub open spec fn step_k(k: int, total: int, played: bool) -> int {
    if k > total {
        k
    } else if played {
        k + 1
    } else {
        k
    }
}

/// The iteration a run that starts at `start` is at after `j` tuning steps whose matches
/// were all played.
pub open spec fn k_after(start: int, total: int, j: nat) -> int
    decreases j,
{
    if j == 0 {
        start
    } else {
        step_k(k_after(start, total, (j - 1) as nat), total, true)
    }
}

/// Tuning steps from iteration `start` towards `total`, with every match played, play the
/// iterations `start`, `start + 1`, ..., `total` in order, one per step, and then stop:
/// step `j` plays iteration `start + j` exactly when that is at most `total`, so
/// `total + 1 - start` steps (none where `start > total`) play, and every later step finds
/// the run finished.
pub proof fn law_steps_visit_iterations_in_order(start: int, total: int, j: nat)
    ensures
        k_after(start, total, j) == if start + j <= total + 1 {
            start + j
        } else if start > total {
            start
        } else {
            total + 1
        },
        (k_after(start, total, j) <= total) <==> (start + j <= total),
        k_after(start, total, j) <= total ==> k_after(start, total, j) == start + j,
        start + j > total ==> k_after(start, total, j + 1) == k_after(start, total, j),
    decreases j,
{
    if j > 0 {
        law_steps_visit_iterations_in_order(start, total, (j - 1) as nat);
    }
}

/// The iterations that the first `n` tuning steps from `start` play, in the order played,
/// with every match played: a step plays the iteration its run is at, unless the run is
/// finished.
pub open spec fn played_iterations(start: int, total: int, n: nat) -> Seq<int>
    decreases n,
{
    if n == 0 {
        Seq::empty()
    } else {
        let before = played_iterations(start, total, (n - 1) as nat);
        let k = k_after(start, total, (n - 1) as nat);
        if k <= total {
            before.push(k)
        } else {
            before
        }
    }
}

/// How many of `n` tuning steps from `start` towards `total` play an iteration:
/// `total + 1 - start` at most, none where `start > total`.
pub open spec fn plays(start: int, total: int, n: nat) -> int {
    if start > total {
        0
    } else if start + n <= total + 1 {
        n as int
    } else {
        total + 1 - start
    }
}

/// The first `n` tuning steps from `start`, with every match played, play exactly the
/// iterations `start`, `start + 1`, ... in that order, `plays(start, total, n)` of them:
/// all of `start..=total` once `n` is large enough, and no more after that.
pub proof fn law_steps_play_each_iteration_once(start: int, total: int, n: nat)
    ensures
        played_iterations(start, total, n) == Seq::new(
            plays(start, total, n) as nat,
            |i: int| start + i,
        ),
    decreases n,
{
    if n > 0 {
        law_steps_play_each_iteration_once(start, total, (n - 1) as nat);
        law_steps_visit_iterations_in_order(start, total, (n - 1) as nat);
        let before = played_iterations(start, total, (n - 1) as nat);
        let k = k_after(start, total, (n - 1) as nat);
        if k <= total {
            assert(before.push(k) =~= Seq::new(
                plays(start, total, n) as nat,
                |i: int| start + i,
            ));
        } else {
            assert(before =~= Seq::new(plays(start, total, n) as nat, |i: int| start + i));
        }
    }
}

/// The seconds that the iterations left will take, less those the running one has
/// taken: `(total - current) * ms_per_iter / 1000 - elapsed`, each difference at least 0.
pub fn seconds_left(total: usize, current: usize, ms_per_iter: usize, elapsed: usize) -> (r: usize)
    requires
        total > current ==> (total - current) * ms_per_iter <= usize::MAX,
    ensures
        r == ({
            let left = if total > current { total - current } else { 0 };
            let secs = left * ms_per_iter / 1000;
            if secs > elapsed { secs - elapsed } else { 0 }
        }),
{
    let left = total.saturating_sub(current);
    let secs = left * ms_per_iter / 1000;
    secs.saturating_sub(elapsed)
}

/// Hours, minutes and seconds of a span of seconds.
pub fn clock(secs: usize) -> (r: (usize, usize, usize))
    ensures
        r.0 == secs / 3600,
        r.1 == (secs % 3600) / 60,
        r.2 == secs % 60,
        r.1 < 60 && r.2 < 60,
        r.0 * 3600 + r.1 * 60 + r.2 == secs,
{
    let h = secs / 3600;
    let m = (secs % 3600) / 60;
    let s = secs % 60;
    assert(h * 3600 + m * 60 + s == secs) by (nonlinear_arith)
        requires
            h == secs / 3600,
            m == (secs % 3600) / 60,
            s == secs % 60,
    ;
    (h, m, s)
}

} // verus!
