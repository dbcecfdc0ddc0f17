use whkd::model::Shell;
use whkd::session::{Stage, Work};

fn run(outcomes: &[bool]) -> (Stage, usize, usize) {
    let mut stage = Stage::start();
    let mut spawns = 0;
    let mut writes = 0;
    for ok in outcomes {
        match stage.work(Shell::Cmd, "dir") {
            Work::Spawn { .. } => spawns += 1,
            Work::Write { line, .. } => {
                if line == "dir\n" {
                    writes += 1;
                }
            }
            Work::Nothing => {}
        }
        stage = stage.advance(*ok);
    }
    (stage, spawns, writes)
}

#[test]
fn a_write_that_succeeds_ends_the_forwarding() {
    let stage = Stage::start();
    assert_eq!(stage, Stage::Writing);
    assert!(!stage.finished());
    let next = stage.advance(true);
    assert_eq!(next, Stage::Delivered);
    assert!(next.finished());
    assert_eq!(next.work(Shell::Cmd, "dir"), Work::Nothing);
}

#[test]
fn a_failed_write_leads_to_one_respawn_and_one_retry() {
    assert_eq!(run(&[false, true, true, true]), (Stage::Delivered, 1, 2));
    assert_eq!(Stage::Writing.advance(false), Stage::Spawning);
    assert_eq!(Stage::Spawning.advance(true), Stage::Priming);
    assert_eq!(Stage::Priming.advance(true), Stage::Retrying);
    assert_eq!(Stage::Retrying.advance(true), Stage::Delivered);
}

#[test]
fn a_failed_retry_drops_the_command() {
    assert_eq!(run(&[false, true, true, false]), (Stage::Dropped, 1, 2));
    assert_eq!(
        run(&[false, true, true, false, false, true, false, false]),
        (Stage::Dropped, 1, 2)
    );
    assert!(Stage::Dropped.finished());
    assert_eq!(Stage::Dropped.advance(false), Stage::Dropped);
    assert_eq!(Stage::Dropped.advance(true), Stage::Dropped);
    assert_eq!(Stage::Dropped.work(Shell::Pwsh, "x"), Work::Nothing);
}

#[test]
fn a_failed_spawn_or_priming_loses_the_session() {
    assert_eq!(run(&[false, false]), (Stage::SessionLost, 1, 1));
    assert_eq!(run(&[false, true, false]), (Stage::SessionLost, 1, 1));
    assert_eq!(run(&[false, false, true, true, true]), (Stage::SessionLost, 1, 1));
    assert!(Stage::SessionLost.finished());
    assert_eq!(Stage::SessionLost.advance(true), Stage::SessionLost);
}

#[test]
fn final_stages_stay() {
    assert_eq!(Stage::Delivered.advance(false), Stage::Delivered);
    assert_eq!(Stage::Delivered.advance(true), Stage::Delivered);
    assert!(!Stage::Spawning.finished());
    assert!(!Stage::Priming.finished());
    assert!(!Stage::Retrying.finished());
}

#[test]
fn powershell_family_echoes_the_command() {
    assert_eq!(
        Stage::Writing.work(Shell::Pwsh, "echo hi"),
        Work::Write { line: String::from("echo hi\n"), echo: Some(String::from("echo hi")) }
    );
    assert_eq!(
        Stage::Retrying.work(Shell::Powershell, "echo hi"),
        Work::Write { line: String::from("echo hi\n"), echo: Some(String::from("echo hi")) }
    );
    assert_eq!(
        Stage::Writing.work(Shell::Cmd, "echo hi"),
        Work::Write { line: String::from("echo hi\n"), echo: None }
    );
    assert_eq!(
        Stage::Retrying.work(Shell::Cmd, ""),
        Work::Write { line: String::from("\n"), echo: None }
    );
}

#[test]
fn each_shell_is_spawned_and_primed_in_its_way() {
    assert_eq!(
        Stage::Spawning.work(Shell::Pwsh, "x"),
        Work::Spawn {
            program: String::from("pwsh"),
            arguments: vec![String::from("-Command"), String::from("-")],
        }
    );
    assert_eq!(
        Stage::Spawning.work(Shell::Powershell, "x"),
        Work::Spawn {
            program: String::from("powershell"),
            arguments: vec![String::from("-Command"), String::from("-")],
        }
    );
    assert_eq!(
        Stage::Spawning.work(Shell::Cmd, "x"),
        Work::Spawn { program: String::from("cmd"), arguments: vec![String::from("-")] }
    );
    assert_eq!(
        Stage::Priming.work(Shell::Pwsh, "x"),
        Work::Write {
            line: String::from("$wshell = New-Object -ComObject wscript.shell\n"),
            echo: None,
        }
    );
    assert_eq!(
        Stage::Priming.work(Shell::Cmd, "x"),
        Work::Write { line: String::from("prompt $S\n"), echo: None }
    );
}

#[test]
fn shell_names_go_both_ways() {
    for shell in [Shell::Cmd, Shell::Powershell, Shell::Pwsh] {
        assert_eq!(Shell::from_name(&shell.to_string()), Some(shell));
        assert_eq!(Shell::from(shell.to_string()), shell);
    }
    assert_eq!(Shell::Cmd.to_string(), "cmd");
    assert_eq!(Shell::Powershell.to_string(), "powershell");
    assert_eq!(Shell::Pwsh.to_string(), "pwsh");
    assert_eq!(Shell::from_name("bash"), None);
    assert_eq!(Shell::from_name("PWSH"), None);
    assert_eq!(Shell::from_name(""), None);
}

#[test]
fn shell_settings() {
    assert!(Shell::Pwsh.echoes());
    assert!(Shell::Powershell.echoes());
    assert!(!Shell::Cmd.echoes());
    assert_eq!(Shell::Cmd.priming_line(), "prompt $S");
    assert_eq!(Shell::Pwsh.priming_line(), "$wshell = New-Object -ComObject wscript.shell");
    assert_eq!(Shell::Cmd.launch_args(), vec![String::from("-")]);
    assert_eq!(Shell::Powershell.launch_args(), vec![String::from("-Command"), String::from("-")]);
}
