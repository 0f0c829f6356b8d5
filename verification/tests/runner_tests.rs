use gta_mo::runner::{Job, Runner, LOG_CAP};
use gta_mo::settings::ToastKind;

fn job(cmd: &str, launch: bool) -> Job {
    Job { args: vec!["ctl".to_string(), cmd.to_string()], launch, stdin: None }
}

#[test]
fn commands_run_one_at_a_time_in_order() {
    let mut r = Runner::new();
    let first = r.exec(job("a", false)).expect("idle runner starts the job");
    assert_eq!(first.args[1], "a");
    assert!(r.busy);
    assert!(r.exec(job("b", false)).is_none());
    assert!(r.exec(job("c", false)).is_none());
    assert_eq!(r.pending.len(), 2);
    let d = r.command_done(true, "");
    assert_eq!(d.next.as_ref().map(|j| j.args[1].clone()), Some("b".to_string()));
    assert!(!d.refresh);
    assert!(d.toast.is_none());
    let d = r.command_done(true, "");
    assert_eq!(d.next.as_ref().map(|j| j.args[1].clone()), Some("c".to_string()));
    let d = r.command_done(true, "");
    assert!(d.next.is_none());
    assert!(d.refresh);
    assert!(d.status.is_none());
    assert!(!r.busy);
}

#[test]
fn failure_drops_the_queue_and_reports() {
    let mut r = Runner::new();
    r.exec(job("a", false));
    r.exec(job("b", false));
    let d = r.command_done(false, "");
    assert!(d.next.is_none());
    assert!(r.pending.is_empty());
    assert!(d.refresh);
    let t = d.toast.expect("failure toast");
    assert_eq!(t.kind, ToastKind::Error);
    assert_eq!(t.text, "La operaci\u{f3}n fall\u{f3} (ver Log)");
    assert_eq!(d.status, Some("La operaci\u{f3}n fall\u{f3} (ver Log)".to_string()));
    r.exec(job("c", false));
    let d = r.command_done(false, "no existe");
    assert_eq!(d.status, Some("no existe".to_string()));
}

#[test]
fn stopping_a_game_is_not_a_failure() {
    let mut r = Runner::new();
    let started = r.exec(job("launch", true)).unwrap();
    assert!(started.launch);
    assert!(r.playing);
    let t = r.stop(true).expect("stop while playing");
    assert_eq!(t.kind, ToastKind::Info);
    assert!(r.stopping);
    r.exec(job("next", false));
    let d = r.command_done(false, "killed");
    assert_eq!(d.toast.as_ref().map(|t| t.text.clone()), Some("Juego detenido".to_string()));
    assert_eq!(d.next.as_ref().map(|j| j.args[1].clone()), Some("next".to_string()));
    assert!(!r.stopping);
    assert!(!r.playing);
}

#[test]
fn stop_ignored_when_no_game_runs() {
    let mut r = Runner::new();
    assert!(r.stop(true).is_none());
    r.exec(job("x", false));
    assert!(r.stop(true).is_none());
    assert!(!r.stopping);
    let mut g = Runner::new();
    g.exec(job("launch", true));
    assert!(g.stop(false).is_none());
}

#[test]
fn game_end_is_announced() {
    let mut r = Runner::new();
    r.exec(job("launch", true));
    let d = r.command_done(true, "");
    let t = d.toast.unwrap();
    assert_eq!(t.kind, ToastKind::Success);
    assert_eq!(t.text, "El juego termin\u{f3}");
}

#[test]
fn log_keeps_the_latest_lines() {
    let mut r = Runner::new();
    for i in 0..(LOG_CAP + 5) {
        r.log_line(format!("line {i}"));
    }
    assert_eq!(r.log.len(), LOG_CAP);
    assert_eq!(r.log[0], "line 5");
    assert_eq!(r.log[LOG_CAP - 1], format!("line {}", LOG_CAP + 4));
}

#[test]
fn stale_conflict_scans_are_ignored() {
    let mut r = Runner::new();
    assert_eq!(r.start_scan(true), Some(1));
    assert!(r.conflicts_pending);
    assert_eq!(r.start_scan(true), Some(2));
    assert!(!r.scan_done(1));
    assert!(r.conflicts_pending);
    assert!(r.scan_done(2));
    assert!(!r.conflicts_pending);
    assert_eq!(r.start_scan(false), None);
    assert!(!r.conflicts_pending);
}

use gta_mo::userdata::{by_category, Category, Entry};

fn entry(rel: &str, category: Category) -> Entry {
    Entry { rel: rel.to_string(), name: rel.to_string(), size: 1, modified: None, category }
}

#[test]
fn data_panel_groups_in_fixed_order_without_empty_sections() {
    let es = vec![
        entry("shot.png", Category::Screenshots),
        entry("GTASAsf1.b", Category::Saves),
        entry("x.bin", Category::Other),
        entry("GTASAsf2.b", Category::Saves),
    ];
    let g = by_category(&es);
    assert_eq!(g.len(), 3);
    assert_eq!(g[0].0, Category::Saves);
    assert_eq!(g[0].1, vec![1, 3]);
    assert_eq!(g[1].0, Category::Screenshots);
    assert_eq!(g[1].1, vec![0]);
    assert_eq!(g[2].0, Category::Other);
    assert_eq!(g[2].1, vec![2]);
    assert!(by_category(&vec![]).is_empty());
}
