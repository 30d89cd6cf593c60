//! The command line: which subcommand was asked for, and the steps that
//! install or remove the systemd user service.
use vstd::prelude::*;
use crate::text::{
    append_chars, append_str, chars_of, decimal, decimal_exec, eq_str, owned, string_of,
};

verus! {

/// The unit file's name under the user's systemd directory.
pub const SERVICE_NAME: &'static str = "hm-cx.service";

/// The port the installed service listens on, the one OpenHardwareMonitor
/// clients expect.
pub const SYSTEMD_SERVICE_PORT: u16 = 8085;

#[derive(Debug, Clone, Copy, PartialEq, Eq, Structural)]
pub enum Command {
    GenerateConfig,
    Install,
    Uninstall,
}

pub open spec fn unknown_command_message(c: Seq<char>) -> Seq<char> {
    "unknown command '"@ + c + "'; expected one of: generate-config, install, uninstall"@
}

pub open spec fn extra_arguments_message(c: Seq<char>) -> Seq<char> {
    "command '"@ + c + "' does not accept extra arguments"@
}

/// What the arguments after the program name ask for: nothing (run the
/// server), one of the three subcommands, or an error message.
pub open spec fn parsed_command(args: Seq<Seq<char>>) -> Result<Option<Command>, Seq<char>> {
    if args.len() == 0 {
        Ok(None)
    } else if args.len() == 1 {
        if args[0] == "generate-config"@ {
            Ok(Some(Command::GenerateConfig))
        } else if args[0] == "install"@ {
            Ok(Some(Command::Install))
        } else if args[0] == "uninstall"@ {
            Ok(Some(Command::Uninstall))
        } else {
            Err(unknown_command_message(args[0]))
        }
    } else {
        Err(extra_arguments_message(args[0]))
    }
}

pub open spec fn arg_views(args: Seq<String>) -> Seq<Seq<char>> {
    args.map_values(|a: String| a@)
}

pub open spec fn parse_result_view(r: Result<Option<Command>, String>) -> Result<
    Option<Command>,
    Seq<char>,
> {
    match r {
        Ok(c) => Ok(c),
        Err(e) => Err(e@),
    }
}

pub fn parse_command(args: &[String]) -> (r: Result<Option<Command>, String>)
    ensures
        parse_result_view(r) == parsed_command(arg_views(args@)),
{
    let ghost av = arg_views(args@);
    if args.len() == 0 {
        return Ok(None);
    }
    assert(av[0] == args@[0]@);
    let first = chars_of(args[0].as_str());
    if args.len() > 1 {
        let mut m: Vec<char> = Vec::new();
        append_str(&mut m, "command '");
        append_chars(&mut m, first.as_slice());
        append_str(&mut m, "' does not accept extra arguments");
        return Err(string_of(m.as_slice()));
    }
    if eq_str(first.as_slice(), "generate-config") {
        Ok(Some(Command::GenerateConfig))
    } else if eq_str(first.as_slice(), "install") {
        Ok(Some(Command::Install))
    } else if eq_str(first.as_slice(), "uninstall") {
        Ok(Some(Command::Uninstall))
    } else {
        let mut m: Vec<char> = Vec::new();
        append_str(&mut m, "unknown command '");
        append_chars(&mut m, first.as_slice());
        append_str(&mut m, "'; expected one of: generate-config, install, uninstall");
        Err(string_of(m.as_slice()))
    }
}

/// `PathBuf::join` with a relative path: a separator is put between the two
/// unless the base is empty or already ends in one.
pub open spec fn path_join(base: Seq<char>, rel: Seq<char>) -> Seq<char> {
    if base.len() == 0 || base.last() == '/' {
        base + rel
    } else {
        base + "/"@ + rel
    }
}

fn join_relative(base: &str, rel: &str) -> (r: String)
    requires
        rel@.len() > 0,
    ensures
        r@ == path_join(base@, rel@),
{
    let mut v = chars_of(base);
    if v.len() > 0 && v[v.len() - 1] != '/' {
        append_str(&mut v, "/");
    }
    append_str(&mut v, rel);
    string_of(v.as_slice())
}

/// Where the service is installed from: the user's home, the executable to
/// run and the directory to run it in.
pub struct ServiceContext {
    pub home_dir: String,
    pub executable_path: String,
    pub working_directory: String,
}

pub open spec fn service_dir_of(home: Seq<char>) -> Seq<char> {
    path_join(home, ".config/systemd/user"@)
}

pub open spec fn service_file_of(home: Seq<char>) -> Seq<char> {
    path_join(service_dir_of(home), SERVICE_NAME@)
}

impl ServiceContext {
    pub fn service_dir(&self) -> (r: String)
        ensures
            r@ == service_dir_of(self.home_dir@),
    {
        proof {
            reveal_strlit(".config/systemd/user");
        }
        join_relative(self.home_dir.as_str(), ".config/systemd/user")
    }

    pub fn service_file(&self) -> (r: String)
        ensures
            r@ == service_file_of(self.home_dir@),
    {
        let dir = self.service_dir();
        proof {
            reveal_strlit("hm-cx.service");
        }
        join_relative(dir.as_str(), SERVICE_NAME)
    }
}

/// The unit file: runs `executable` in `working_directory` with the
/// service port in `PORT`, restarting on failure.
pub open spec fn service_unit(executable: Seq<char>, working_directory: Seq<char>) -> Seq<char> {
    "[Unit]\nDescription=hm-cx sensor server\nAfter=default.target\n\n[Service]\nType=simple\nWorkingDirectory="@
        + working_directory + "\nEnvironment=PORT="@ + decimal(SYSTEMD_SERVICE_PORT as nat)
        + "\nExecStart="@ + executable
        + "\nRestart=on-failure\nRestartSec=5\n\n[Install]\nWantedBy=default.target\n"@
}

pub fn render_systemd_user_service(executable_path: &str, working_directory: &str) -> (r: String)
    ensures
        r@ == service_unit(executable_path@, working_directory@),
{
    let mut v: Vec<char> = Vec::new();
    append_str(
        &mut v,
        "[Unit]\nDescription=hm-cx sensor server\nAfter=default.target\n\n[Service]\nType=simple\nWorkingDirectory=",
    );
    append_str(&mut v, working_directory);
    append_str(&mut v, "\nEnvironment=PORT=");
    let port = decimal_exec(SYSTEMD_SERVICE_PORT as u64);
    append_chars(&mut v, port.as_slice());
    append_str(&mut v, "\nExecStart=");
    append_str(&mut v, executable_path);
    append_str(&mut v, "\nRestart=on-failure\nRestartSec=5\n\n[Install]\nWantedBy=default.target\n");
    string_of(v.as_slice())
}

/// One step of installing or removing the service, in the order they run;
/// the first step that fails ends the command with its error.
pub enum ServiceStep {
    /// Create a directory and its parents.
    CreateDir(String),
    /// Write a file with the given contents.
    WriteFile(String, String),
    /// Remove a file.
    RemoveFile(String),
    /// Run `systemctl --user` with these arguments.
    Systemctl(Vec<String>),
    /// Print a line to standard output.
    Print(String),
}

pub enum StepView {
    CreateDir(Seq<char>),
    WriteFile(Seq<char>, Seq<char>),
    RemoveFile(Seq<char>),
    Systemctl(Seq<Seq<char>>),
    Print(Seq<char>),
}

impl View for ServiceStep {
    type V = StepView;

    open spec fn view(&self) -> StepView {
        match self {
            ServiceStep::CreateDir(p) => StepView::CreateDir(p@),
            ServiceStep::WriteFile(p, c) => StepView::WriteFile(p@, c@),
            ServiceStep::RemoveFile(p) => StepView::RemoveFile(p@),
            ServiceStep::Systemctl(a) => StepView::Systemctl(a.deep_view()),
            ServiceStep::Print(m) => StepView::Print(m@),
        }
    }
}

pub open spec fn step_views(v: Seq<ServiceStep>) -> Seq<StepView> {
    v.map_values(|s: ServiceStep| s@)
}

/// Writes the unit under the user's systemd directory, reloads systemd,
/// enables and starts the service, then restarts it so a reinstall takes
/// the new unit.
pub open spec fn install_steps(home: Seq<char>, executable: Seq<char>, wd: Seq<char>) -> Seq<
    StepView,
> {
    seq![
        StepView::CreateDir(service_dir_of(home)),
        StepView::WriteFile(service_file_of(home), service_unit(executable, wd)),
        StepView::Systemctl(seq!["daemon-reload"@]),
        StepView::Systemctl(seq!["enable"@, "--now"@, SERVICE_NAME@]),
        StepView::Systemctl(seq!["restart"@, SERVICE_NAME@]),
        StepView::Print(
            "Installed "@ + SERVICE_NAME@ + " at "@ + service_file_of(home)
                + " and enabled it for future login sessions."@,
        ),
    ]
}

/// With no unit installed, only says so; otherwise disables and stops the
/// service, removes the unit and reloads systemd.
pub open spec fn uninstall_steps(home: Seq<char>, installed: bool) -> Seq<StepView> {
    if !installed {
        seq![
            StepView::Print(
                SERVICE_NAME@ + " is not installed at "@ + service_file_of(home) + "."@,
            ),
        ]
    } else {
        seq![
            StepView::Systemctl(seq!["disable"@, "--now"@, SERVICE_NAME@]),
            StepView::RemoveFile(service_file_of(home)),
            StepView::Systemctl(seq!["daemon-reload"@]),
            StepView::Print("Removed "@ + SERVICE_NAME@ + " from "@ + service_file_of(home) + "."@),
        ]
    }
}

fn message3(a: &str, b: &str, c: &str, d: &str, e: &str) -> (r: String)
    ensures
        r@ == a@ + b@ + c@ + d@ + e@,
{
    let mut v: Vec<char> = Vec::new();
    append_str(&mut v, a);
    append_str(&mut v, b);
    append_str(&mut v, c);
    append_str(&mut v, d);
    append_str(&mut v, e);
    string_of(v.as_slice())
}

pub fn install_systemd_user_service_with(context: &ServiceContext) -> (r: Vec<ServiceStep>)
    ensures
        step_views(r@) == install_steps(
            context.home_dir@,
            context.executable_path@,
            context.working_directory@,
        ),
{
    let dir = context.service_dir();
    let file = context.service_file();
    let unit = render_systemd_user_service(
        context.executable_path.as_str(),
        context.working_directory.as_str(),
    );
    let mut r: Vec<ServiceStep> = Vec::new();
    r.push(ServiceStep::CreateDir(dir));
    let file2 = owned(file.as_str());
    r.push(ServiceStep::WriteFile(file2, unit));
    let mut a1: Vec<String> = Vec::new();
    a1.push(owned("daemon-reload"));
    assert(a1.deep_view() =~= seq!["daemon-reload"@]);
    r.push(ServiceStep::Systemctl(a1));
    let mut a2: Vec<String> = Vec::new();
    a2.push(owned("enable"));
    a2.push(owned("--now"));
    a2.push(owned(SERVICE_NAME));
    assert(a2.deep_view() =~= seq!["enable"@, "--now"@, SERVICE_NAME@]);
    r.push(ServiceStep::Systemctl(a2));
    let mut a3: Vec<String> = Vec::new();
    a3.push(owned("restart"));
    a3.push(owned(SERVICE_NAME));
    assert(a3.deep_view() =~= seq!["restart"@, SERVICE_NAME@]);
    r.push(ServiceStep::Systemctl(a3));
    let msg = message3(
        "Installed ",
        SERVICE_NAME,
        " at ",
        file.as_str(),
        " and enabled it for future login sessions.",
    );
    r.push(ServiceStep::Print(msg));
    assert(step_views(r@) =~= install_steps(
        context.home_dir@,
        context.executable_path@,
        context.working_directory@,
    ));
    r
}

pub fn uninstall_systemd_user_service_with(context: &ServiceContext, installed: bool) -> (r: Vec<
    ServiceStep,
>)
    ensures
        step_views(r@) == uninstall_steps(context.home_dir@, installed),
{
    let file = context.service_file();
    let mut r: Vec<ServiceStep> = Vec::new();
    if !installed {
        proof {
            reveal_strlit("");
        }
        let m = message3(SERVICE_NAME, " is not installed at ", file.as_str(), ".", "");
        assert(m@ =~= SERVICE_NAME@ + " is not installed at "@ + file@ + "."@);
        r.push(ServiceStep::Print(m));
        assert(step_views(r@) =~= uninstall_steps(context.home_dir@, installed));
        return r;
    }
    let mut a1: Vec<String> = Vec::new();
    a1.push(owned("disable"));
    a1.push(owned("--now"));
    a1.push(owned(SERVICE_NAME));
    assert(a1.deep_view() =~= seq!["disable"@, "--now"@, SERVICE_NAME@]);
    r.push(ServiceStep::Systemctl(a1));
    r.push(ServiceStep::RemoveFile(owned(file.as_str())));
    let mut a2: Vec<String> = Vec::new();
    a2.push(owned("daemon-reload"));
    assert(a2.deep_view() =~= seq!["daemon-reload"@]);
    r.push(ServiceStep::Systemctl(a2));
    r.push(ServiceStep::Print(message3("Removed ", SERVICE_NAME, " from ", file.as_str(), ".")));
    assert(step_views(r@) =~= uninstall_steps(context.home_dir@, installed));
    r
}

/// What a subcommand does: generating the configuration, or running the
/// service steps.
pub enum CommandPlan {
    GenerateConfig,
    Service(Vec<ServiceStep>),
}

pub open spec fn plan_view(p: CommandPlan) -> Option<Seq<StepView>> {
    match p {
        CommandPlan::GenerateConfig => None,
        CommandPlan::Service(v) => Some(step_views(v@)),
    }
}

/// The work of a subcommand.  `installed` tells whether the unit file
/// exists; only `uninstall` reads it.
pub fn run_command(command: Command, context: &ServiceContext, installed: bool) -> (r: CommandPlan)
    ensures
        plan_view(r) == match command {
            Command::GenerateConfig => None,
            Command::Install => Some(
                install_steps(
                    context.home_dir@,
                    context.executable_path@,
                    context.working_directory@,
                ),
            ),
            Command::Uninstall => Some(uninstall_steps(context.home_dir@, installed)),
        },
{
    match command {
        Command::GenerateConfig => CommandPlan::GenerateConfig,
        Command::Install => CommandPlan::Service(install_systemd_user_service_with(context)),
        Command::Uninstall => CommandPlan::Service(
            uninstall_systemd_user_service_with(context, installed),
        ),
    }
}

/// What a failed step reports: a file step names its path before the
/// error; the error of a `systemctl` or print step is reported as given.
pub open spec fn step_error(step: StepView, err: Seq<char>) -> Seq<char> {
    match step {
        StepView::CreateDir(d) => "create "@ + d + ": "@ + err,
        StepView::WriteFile(f, _) => "write "@ + f + ": "@ + err,
        StepView::RemoveFile(f) => "remove "@ + f + ": "@ + err,
        _ => err,
    }
}

/// Where a plan stands after one of its steps ran.
pub enum Progress {
    /// Run the step at this index next.
    Run(usize),
    /// Every step ran; the command succeeded.
    Done,
    /// A step failed; the command fails with this message.
    Failed(String),
}

pub enum ProgressView {
    Run(nat),
    Done,
    Failed(Seq<char>),
}

impl View for Progress {
    type V = ProgressView;

    open spec fn view(&self) -> ProgressView {
        match self {
            Progress::Run(i) => ProgressView::Run(*i as nat),
            Progress::Done => ProgressView::Done,
            Progress::Failed(m) => ProgressView::Failed(m@),
        }
    }
}

/// After step `index` of a plan of `steps` returned `result`: the next
/// step, the end of the plan, or the failure that stops it.
pub open spec fn next_progress(
    steps: Seq<StepView>,
    index: nat,
    result: Result<(), Seq<char>>,
) -> ProgressView {
    match result {
        Ok(_) => if index + 1 < steps.len() {
            ProgressView::Run(index + 1)
        } else {
            ProgressView::Done
        },
        Err(e) => ProgressView::Failed(step_error(steps[index as int], e)),
    }
}

/// Decides what follows step `index` of the plan, given what it returned.
pub fn after_step(steps: &Vec<ServiceStep>, index: usize, result: Result<(), String>) -> (r: Progress)
    requires
        index < steps@.len(),
    ensures
        r@ == next_progress(
            step_views(steps@),
            index as nat,
            match result {
                Ok(_) => Ok(()),
                Err(e) => Err(e@),
            },
        ),
{
    let n = steps.len();
    match result {
        Ok(_) => if index < n - 1 {
            Progress::Run(index + 1)
        } else {
            Progress::Done
        },
        Err(e) => {
            let mut v: Vec<char> = Vec::new();
            match &steps[index] {
                ServiceStep::CreateDir(d) => {
                    append_str(&mut v, "create ");
                    append_str(&mut v, d.as_str());
                    append_str(&mut v, ": ");
                },
                ServiceStep::WriteFile(f, _) => {
                    append_str(&mut v, "write ");
                    append_str(&mut v, f.as_str());
                    append_str(&mut v, ": ");
                },
                ServiceStep::RemoveFile(f) => {
                    append_str(&mut v, "remove ");
                    append_str(&mut v, f.as_str());
                    append_str(&mut v, ": ");
                },
                _ => {},
            }
            append_str(&mut v, e.as_str());
            Progress::Failed(string_of(v.as_slice()))
        },
    }
}

/// Running a plan from step `index`, each step returning its entry of
/// `results`: how many steps ran in all, and the command's result.
pub open spec fn plan_run(
    steps: Seq<StepView>,
    results: Seq<Result<(), Seq<char>>>,
    index: nat,
) -> (nat, Result<(), Seq<char>>)
    decreases steps.len() - index,
{
    if index >= steps.len() {
        (index, Ok(()))
    } else {
        match next_progress(steps, index, results[index as int]) {
            ProgressView::Run(j) => if j > index {
                plan_run(steps, results, j)
            } else {
                (index + 1, Ok(()))
            },
            ProgressView::Done => (index + 1, Ok(())),
            ProgressView::Failed(m) => (index + 1, Err(m)),
        }
    }
}

/// A plan stops at its first failing step: the steps up to it run, none
/// after it, and the command fails with that step's error; a plan whose
/// steps all succeed runs them all and succeeds.
pub proof fn lemma_plan_stops_at_first_failure(
    steps: Seq<StepView>,
    results: Seq<Result<(), Seq<char>>>,
    index: nat,
)
    requires
        index <= steps.len(),
        results.len() == steps.len(),
    ensures
        (forall|i: int| index <= i < steps.len() ==> #[trigger] results[i] is Ok) ==> plan_run(
            steps,
            results,
            index,
        ) == (steps.len(), Ok::<(), Seq<char>>(())),
        forall|k: int|
            index <= k < steps.len() && #[trigger] results[k] is Err && (forall|i: int|
                index <= i < k ==> #[trigger] results[i] is Ok) ==> plan_run(steps, results, index)
                == ((k + 1) as nat, Err::<(), Seq<char>>(step_error(steps[k], results[k]->Err_0))),
    decreases steps.len() - index,
{
    if index < steps.len() {
        lemma_plan_stops_at_first_failure(steps, results, index + 1);
        assert forall|k: int|
            index <= k < steps.len() && #[trigger] results[k] is Err && (forall|i: int|
                index <= i < k ==> #[trigger] results[i] is Ok) implies plan_run(
            steps,
            results,
            index,
        ) == ((k + 1) as nat, Err::<(), Seq<char>>(step_error(steps[k], results[k]->Err_0))) by {
            if k > index {
                assert(results[index as int] is Ok);
            }
        }
    }
}

} // verus!
