use std::time::Instant;

use rust_kart::task_mcp::{
    create_log_paths, decide_ensure, ensure_status, ensure_step, is_alive, not_found_message, raw_pid, tail_lines,
    task_to_status, EnsureStep, TaskInfo, TaskManager, DEFAULT_TAIL,
};

fn task(name: &str, pid: u32) -> TaskInfo {
    TaskInfo {
        name: name.to_string(),
        pid,
        command: format!("run {name}"),
        cwd: Some("/work".to_string()),
        stdout_path: format!("/tmp/{name}.out"),
        stderr_path: format!("/tmp/{name}.err"),
        started_at: Instant::now(),
    }
}

#[test]
fn a_task_inserted_is_found_by_its_name() {
    let mut m = TaskManager::new();
    assert!(m.get("web").is_none());
    m.insert(task("web", 10));
    m.insert(task("db", 11));
    assert_eq!(m.get("web").unwrap().pid, 10);
    assert_eq!(m.get("db").unwrap().command, "run db");
    assert_eq!(m.list().len(), 2);
}

#[test]
fn inserting_a_name_again_replaces_its_task() {
    let mut m = TaskManager::new();
    m.insert(task("web", 10));
    m.insert(task("web", 20));
    assert_eq!(m.get("web").unwrap().pid, 20);
    assert_eq!(m.list().len(), 1);
}

#[test]
fn a_removed_task_is_gone() {
    let mut m = TaskManager::new();
    m.insert(task("web", 10));
    m.insert(task("db", 11));
    assert_eq!(m.remove("web").unwrap().pid, 10);
    assert!(m.get("web").is_none());
    assert!(m.remove("web").is_none());
    let names: Vec<String> = m.list().into_iter().map(|t| t.name).collect();
    assert_eq!(names, vec!["db".to_string()]);
}

#[test]
fn ensure_decisions() {
    assert_eq!(ensure_step(Some(true)), EnsureStep::AlreadyRunning);
    assert_eq!(ensure_step(Some(false)), EnsureStep::Restart);
    assert_eq!(ensure_step(None), EnsureStep::Start);
    assert_eq!(ensure_status(true), "already_running");
    assert_eq!(ensure_status(false), "started");
    assert_eq!(not_found_message("web"), "task not found: web");
}

#[test]
fn log_tails() {
    assert_eq!(tail_lines("a\nb\nc\n", 2), "b\nc");
    assert_eq!(tail_lines("a\nb\nc", 5), "a\nb\nc");
    assert_eq!(tail_lines("a\r\nb", 1), "b");
    assert_eq!(tail_lines("", 3), "");
    assert_eq!(tail_lines("a\nb", 0), "");
    assert_eq!(DEFAULT_TAIL, 50);
}

#[test]
fn log_paths_are_in_the_temp_dir() {
    assert_eq!(
        create_log_paths("/tmp", "web"),
        ("/tmp/task-mcp-web-stdout.log".to_string(), "/tmp/task-mcp-web-stderr.log".to_string())
    );
    assert_eq!(create_log_paths("/tmp/", "x").0, "/tmp/task-mcp-x-stdout.log");
}

#[test]
fn pids_beyond_i32_become_zero() {
    assert_eq!(raw_pid(42), 42);
    assert_eq!(raw_pid(i32::MAX as u32), i32::MAX);
    assert_eq!(raw_pid(i32::MAX as u32 + 1), 0);
}

#[test]
fn status_carries_the_task_fields() {
    let t = task("web", 77);
    let s = task_to_status(&t, |pid| pid == 77, |_| 42);
    assert!(s.alive);
    assert_eq!(s.uptime_secs, 42);
    assert!(!task_to_status(&t, |pid| pid != 77, |_| 0).alive);
    assert_eq!(s.name, "web");
    assert_eq!(s.pid, 77);
    assert_eq!(s.command, "run web");
    assert_eq!(s.cwd, Some("/work".to_string()));
}

#[test]
fn ensuring_starts_unknown_tasks_and_restarts_dead_ones() {
    let mut m = TaskManager::new();
    let (step, existing) = decide_ensure(&m, "web", is_alive);
    assert_eq!(step, EnsureStep::Start);
    assert!(existing.is_none());
    // No process has this pid, so the recorded task is dead.
    m.insert(task("web", 0x7fff_fffe));
    let (step, existing) = decide_ensure(&m, "web", is_alive);
    assert_eq!(step, EnsureStep::Restart);
    assert_eq!(existing.unwrap().pid, 0x7fff_fffe);
    // The probe is asked about the recorded task's pid.
    let (step, _) = decide_ensure(&m, "web", |pid| pid == 0x7fff_fffe);
    assert_eq!(step, EnsureStep::AlreadyRunning);
}
