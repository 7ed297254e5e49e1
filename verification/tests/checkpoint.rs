use spsa_tui::checkpoint::Checkpoint;
use spsa_tui::params::{checkpoint_number, checkpoint_path, latest_checkpoint, Param, ParamSet};

fn param(value: f64, min: f64, max: f64, tune: bool) -> Param {
    Param {
        value: value.to_bits(),
        min: min.to_bits(),
        max: max.to_bits(),
        c_end: 1.0f64.to_bits(),
        r_end: 0.002f64.to_bits(),
        tune,
    }
}

fn sample() -> ParamSet {
    let mut ps = ParamSet::new();
    ps.insert("zeta".to_string(), param(5.0, 0.0, 10.0, true));
    ps.insert("alpha".to_string(), param(1.5, -1.0, 3.0, true));
    ps.insert("mid".to_string(), param(7.0, 0.0, 9.0, false));
    ps
}

#[test]
fn param_set_insert_get_and_enable() {
    let mut ps = sample();
    assert_eq!(ps.len(), 3);
    ps.insert("alpha".to_string(), param(2.0, -1.0, 3.0, true));
    assert_eq!(ps.len(), 3);
    assert_eq!(ps.get("alpha").unwrap().value, 2.0f64.to_bits());
    assert!(ps.get("beta").is_none());
    ps.set_param_enabled("alpha", false);
    assert!(!ps.get("alpha").unwrap().tune);
    ps.set_param_enabled("beta", false);
    assert_eq!(ps.len(), 3);
}

#[test]
fn new_checkpoint_sorts_by_name() {
    let c = Checkpoint::new("e".into(), "b".into(), "tc".into(), 100, &sample());
    let names: Vec<&str> = c.params.iter().map(|h| h.name.as_str()).collect();
    assert_eq!(names, vec!["alpha", "mid", "zeta"]);
    assert_eq!(c.params[0].values, vec![1.5f64.to_bits()]);
    assert_eq!(c.params[0].default, 1.5f64.to_bits());
    assert!(c.params.iter().all(|h| h.show));
    assert!(!c.params[1].tune);
    assert_eq!(c.current_iteration, 0);
    assert_eq!(c.total_iterations, 100);
}

#[test]
fn latest_params_of_new_checkpoint_are_the_params() {
    let ps = sample();
    let c = Checkpoint::new("e".into(), "b".into(), "tc".into(), 100, &ps);
    let back = c.latest_params();
    assert_eq!(back.len(), 3);
    for name in ["alpha", "mid", "zeta"] {
        assert_eq!(back.get(name), ps.get(name));
    }
}

#[test]
fn update_appends_values_and_counts() {
    let mut c = Checkpoint::new("e".into(), "b".into(), "tc".into(), 5, &sample());
    let mut next = sample();
    next.insert("alpha".to_string(), param(1.75, -1.0, 3.0, true));
    c.update(&next, 7, 10, 4, 2, 3000, 999);
    assert_eq!(c.params[0].values, vec![1.5f64.to_bits(), 1.75f64.to_bits()]);
    assert_eq!(c.params[2].values.len(), 2);
    assert_eq!((c.wins, c.draws, c.losses), (10, 4, 2));
    assert_eq!(c.total_iterations, 7);
    assert_eq!(c.current_iteration, 7);
    assert_eq!(c.time_iter, 3000);
    assert_eq!(c.time_samples, 1);
    c.update(&next, 8, 1, 1, 1, 5000, 3400);
    assert_eq!(c.time_iter, 3400);
    assert_eq!(c.time_samples, 2);
    assert_eq!(c.latest_params().get("alpha").unwrap().value, 1.75f64.to_bits());
}

#[test]
fn toggle_and_show_tuned() {
    let mut c = Checkpoint::new("e".into(), "b".into(), "tc".into(), 5, &sample());
    c.toggle_tune(1);
    assert!(c.params[1].tune);
    c.toggle_tune(1);
    assert!(!c.params[1].tune);
    c.toggle_tune(9);
    c.show_tuned();
    assert_eq!(
        c.params.iter().map(|h| h.show).collect::<Vec<_>>(),
        vec![true, false, true]
    );
}

#[test]
fn checkpoint_files_are_named_and_found() {
    assert_eq!(checkpoint_path(120), "checkpoints/spsa_checkpoint_120.json");
    assert_eq!(checkpoint_number("spsa_checkpoint_120.json"), Some(120));
    assert_eq!(checkpoint_number("spsa_checkpoint_.json"), None);
    assert_eq!(checkpoint_number("spsa_checkpoint_7.txt"), None);
    assert_eq!(checkpoint_number("checkpoint.json"), None);
    let names: Vec<String> = ["spsa_checkpoint_30.json", "notes.txt", "spsa_checkpoint_120.json", "spsa_checkpoint_9.json"]
        .iter()
        .map(|s| s.to_string())
        .collect();
    assert_eq!(latest_checkpoint(&names), Some(120));
    assert_eq!(latest_checkpoint(&[]), None);
}

#[test]
fn update_keeps_every_history_and_its_old_values() {
    let mut c = Checkpoint::new("e".into(), "b".into(), "tc".into(), 5, &sample());
    c.params.reverse();
    let before = c.params.clone();
    c.update(&sample(), 1, 0, 0, 0, 10, 10);
    let names: Vec<&str> = c.params.iter().map(|h| h.name.as_str()).collect();
    assert_eq!(names, vec!["alpha", "mid", "zeta"]);
    for h in &c.params {
        let old = before.iter().find(|o| o.name == h.name).unwrap();
        assert_eq!(&h.values[..old.values.len()], &old.values[..]);
        assert_eq!(h.values.len(), old.values.len() + 1);
        assert_eq!((h.default, h.min, h.max, h.tune, h.show), (old.default, old.min, old.max, old.tune, old.show));
    }
}

#[test]
fn tune_flags_are_taken_from_the_checkpoint() {
    let mut c = Checkpoint::new("e".into(), "b".into(), "tc".into(), 5, &sample());
    // alpha off, mid on, zeta unchanged (on)
    c.toggle_tune(0);
    c.toggle_tune(1);
    let mut ps = sample();
    ps.insert("extra".to_string(), param(3.0, 0.0, 4.0, false));
    c.apply_tune_flags(&mut ps);
    assert_eq!(ps.len(), 4);
    assert!(!ps.get("alpha").unwrap().tune);
    assert!(ps.get("mid").unwrap().tune);
    assert!(ps.get("zeta").unwrap().tune);
    assert!(!ps.get("extra").unwrap().tune);
    assert_eq!(ps.get("alpha").unwrap().value, 1.5f64.to_bits());
    assert_eq!(ps.get("mid").unwrap().value, 7.0f64.to_bits());
}

#[test]
fn resume_starts_after_the_saved_iteration() {
    let mut c = Checkpoint::new("e".into(), "b".into(), "tc".into(), 5, &sample());
    assert_eq!(c.resume_iteration(), 1);
    c.update(&sample(), 3, 0, 0, 0, 10, 10);
    assert_eq!(c.current_iteration, 3);
    assert_eq!(c.resume_iteration(), 4);
}
