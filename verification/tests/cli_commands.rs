use hm_cx::cli::{
    after_step, install_systemd_user_service_with, parse_command, render_systemd_user_service,
    run_command, uninstall_systemd_user_service_with, Command, CommandPlan, Progress, ServiceContext,
    ServiceStep,
};
use hm_cx::config::Config;

fn args(items: &[&str]) -> Vec<String> {
    items.iter().map(|s| s.to_string()).collect()
}

fn context() -> ServiceContext {
    ServiceContext {
        home_dir: "/home/user".to_string(),
        executable_path: "/tmp/bin/hm_cx".to_string(),
        working_directory: "/tmp/workspace".to_string(),
    }
}

fn systemctl_calls(steps: &[ServiceStep]) -> Vec<Vec<String>> {
    steps
        .iter()
        .filter_map(|s| match s {
            ServiceStep::Systemctl(a) => Some(a.clone()),
            _ => None,
        })
        .collect()
}

#[test]
fn parse_command_accepts_install_and_uninstall() {
    assert_eq!(
        parse_command(&["install".to_string()]).expect("install should parse"),
        Some(Command::Install)
    );
    assert_eq!(
        parse_command(&["uninstall".to_string()]).expect("uninstall should parse"),
        Some(Command::Uninstall)
    );
}

#[test]
fn parse_command_without_arguments_runs_the_server() {
    assert_eq!(parse_command(&[]).unwrap(), None);
    assert_eq!(
        parse_command(&args(&["generate-config"])).unwrap(),
        Some(Command::GenerateConfig)
    );
}

#[test]
fn parse_command_rejects_unknown_commands() {
    assert_eq!(
        parse_command(&args(&["serve"])).unwrap_err(),
        "unknown command 'serve'; expected one of: generate-config, install, uninstall"
    );
}

#[test]
fn parse_command_rejects_extra_arguments() {
    assert_eq!(
        parse_command(&args(&["install", "now"])).unwrap_err(),
        "command 'install' does not accept extra arguments"
    );
}

#[test]
fn service_paths_live_under_the_user_systemd_directory() {
    let ctx = context();
    assert_eq!(ctx.service_dir(), "/home/user/.config/systemd/user");
    assert_eq!(ctx.service_file(), "/home/user/.config/systemd/user/hm-cx.service");
    let trailing = ServiceContext {
        home_dir: "/home/user/".to_string(),
        ..context()
    };
    assert_eq!(trailing.service_dir(), "/home/user/.config/systemd/user");
}

#[test]
fn unit_file_names_working_directory_port_and_executable() {
    let unit = render_systemd_user_service("/tmp/bin/hm_cx", "/tmp/workspace");
    assert!(unit.contains("WorkingDirectory=/tmp/workspace"));
    assert!(unit.contains("Environment=PORT=8085"));
    assert!(unit.contains("ExecStart=/tmp/bin/hm_cx"));
    assert!(unit.starts_with("[Unit]\nDescription=hm-cx sensor server\n"));
    assert!(unit.ends_with("[Install]\nWantedBy=default.target\n"));
}

#[test]
fn install_writes_the_unit_then_reloads_enables_and_restarts() {
    let steps = install_systemd_user_service_with(&context());
    assert_eq!(steps.len(), 6);
    match &steps[0] {
        ServiceStep::CreateDir(d) => assert_eq!(d, "/home/user/.config/systemd/user"),
        _ => panic!("first step creates the directory"),
    }
    match &steps[1] {
        ServiceStep::WriteFile(f, contents) => {
            assert_eq!(f, "/home/user/.config/systemd/user/hm-cx.service");
            assert!(contents.contains("ExecStart=/tmp/bin/hm_cx"));
        }
        _ => panic!("second step writes the unit"),
    }
    assert_eq!(
        systemctl_calls(&steps),
        vec![
            vec!["daemon-reload".to_string()],
            vec!["enable".to_string(), "--now".to_string(), "hm-cx.service".to_string()],
            vec!["restart".to_string(), "hm-cx.service".to_string()],
        ]
    );
    match &steps[5] {
        ServiceStep::Print(m) => assert_eq!(
            m,
            "Installed hm-cx.service at /home/user/.config/systemd/user/hm-cx.service and enabled it for future login sessions."
        ),
        _ => panic!("last step reports"),
    }
}

#[test]
fn uninstall_disables_removes_and_reloads() {
    let steps = uninstall_systemd_user_service_with(&context(), true);
    assert_eq!(
        systemctl_calls(&steps),
        vec![
            vec!["disable".to_string(), "--now".to_string(), "hm-cx.service".to_string()],
            vec!["daemon-reload".to_string()],
        ]
    );
    match &steps[1] {
        ServiceStep::RemoveFile(f) => {
            assert_eq!(f, "/home/user/.config/systemd/user/hm-cx.service")
        }
        _ => panic!("the unit file is removed between the two systemctl calls"),
    }
}

#[test]
fn uninstall_without_a_unit_only_reports() {
    let steps = uninstall_systemd_user_service_with(&context(), false);
    assert_eq!(steps.len(), 1);
    match &steps[0] {
        ServiceStep::Print(m) => assert_eq!(
            m,
            "hm-cx.service is not installed at /home/user/.config/systemd/user/hm-cx.service."
        ),
        _ => panic!("only a message"),
    }
}

#[test]
fn run_command_dispatches_each_subcommand() {
    assert!(matches!(
        run_command(Command::GenerateConfig, &context(), false),
        CommandPlan::GenerateConfig
    ));
    match run_command(Command::Install, &context(), false) {
        CommandPlan::Service(steps) => assert_eq!(steps.len(), 6),
        _ => panic!("install runs service steps"),
    }
    match run_command(Command::Uninstall, &context(), true) {
        CommandPlan::Service(steps) => assert_eq!(steps.len(), 4),
        _ => panic!("uninstall runs service steps"),
    }
}

#[test]
fn config_uses_the_given_port_or_8080() {
    assert_eq!(Config::new(Some(8085)).port, 8085);
    assert_eq!(Config::new(None).port, 8080);
}

#[test]
fn an_install_stops_at_its_first_failing_step() {
    let steps = install_systemd_user_service_with(&context());
    assert!(matches!(after_step(&steps, 0, Ok(())), Progress::Run(1)));
    match after_step(&steps, 0, Err("permission denied".to_string())) {
        Progress::Failed(m) => {
            assert!(m.starts_with("create "));
            assert!(m.ends_with(": permission denied"));
        }
        _ => panic!("a failed step stops the plan"),
    }
    match after_step(&steps, 1, Err("disk full".to_string())) {
        Progress::Failed(m) => assert!(m.starts_with("write ") && m.ends_with(": disk full")),
        _ => panic!("a failed step stops the plan"),
    }
    match after_step(&steps, 2, Err("systemctl --user daemon-reload failed: x".to_string())) {
        Progress::Failed(m) => assert_eq!(m, "systemctl --user daemon-reload failed: x"),
        _ => panic!("a failed step stops the plan"),
    }
    let last = steps.len() - 1;
    assert!(matches!(after_step(&steps, last, Ok(())), Progress::Done));
}
