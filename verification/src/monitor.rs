//! The monitor's command line: its settings, what it does first, the
//! target it pings, and the report of `--list-interfaces`.
use vstd::prelude::*;
use vstd::string::StringExecFns;
use crate::text::{decimal, decimal_chars, string_of, string_views};

verus! {

/// The monitor's settings, as read from the command line.
pub struct Args {
    /// The interface to monitor.
    pub interface: String,
    /// Seconds between two rounds of pings.
    pub interval: u64,
    /// The address to ping.
    pub target: String,
    /// Packets sent per round.
    pub packets: usize,
    /// Whether a desktop notification is shown when packets are lost.
    pub popup: bool,
    /// Whether a loss of 10% is reported in place of the measured one.
    pub test: bool,
    /// Whether the interfaces are listed in place of monitoring.
    pub list_interfaces: bool,
}

/// What the program does once its command line is read.
#[derive(Debug, PartialEq, Eq)]
pub enum StartupAction {
    /// List the network interfaces and exit.
    ListInterfaces,
    /// Report that no interface was given and exit with status 1.
    MissingInterface,
    /// Monitor the named interface.
    Monitor(String),
}

/// Where the address to ping comes from.
#[derive(Debug, PartialEq, Eq)]
pub enum TargetSource {
    /// The address given on the command line.
    Given(String),
    /// The default gateway, looked up on the machine, or `1.1.1.1` when the
    /// lookup fails.
    DefaultGateway,
}

/// Lines for the two output streams and the exit status of a run that
/// ends at once.
pub struct Report {
    /// Lines for standard output.
    pub stdout: Vec<String>,
    /// Lines for standard error.
    pub stderr: Vec<String>,
    /// The exit status.
    pub exit_code: i32,
}

/// The address pinged when no target is given and no default gateway is
/// found.
pub open spec fn fallback_address() -> Seq<char> {
    "1.1.1.1"@
}

/// The line printed when neither an interface nor `--list-interfaces` is
/// given.
pub open spec fn missing_interface_message() -> Seq<char> {
    "Error: --interface is required (or use --list-interfaces to see available interfaces)"@
}

/// One line `  - <name>` per interface.
pub open spec fn bullets(names: Seq<Seq<char>>) -> Seq<Seq<char>> {
    names.map_values(|n: Seq<char>| "  - "@ + n)
}

/// The lines that `--list-interfaces` prints for the interfaces `names`.
pub open spec fn listing_lines(names: Seq<Seq<char>>) -> Seq<Seq<char>> {
    seq!["Available network interfaces:"@] + bullets(names) + seq![
        Seq::<char>::empty(),
        "Total: "@ + decimal(names.len()) + " interfaces"@,
    ]
}

impl Args {
    /// What the program does first: `--list-interfaces` wins; without it an
    /// interface must be given.
    pub fn startup_action(list_interfaces: bool, interface: Option<String>) -> (r: StartupAction)
        ensures
            list_interfaces ==> r == StartupAction::ListInterfaces,
            !list_interfaces && interface is None ==> r == StartupAction::MissingInterface,
            !list_interfaces && interface is Some ==> r == StartupAction::Monitor(
                interface->0,
            ),
    {
        if list_interfaces {
            StartupAction::ListInterfaces
        } else {
            match interface {
                Some(i) => StartupAction::Monitor(i),
                None => StartupAction::MissingInterface,
            }
        }
    }

    /// What a run without an interface prints, and its exit status: the
    /// missing-interface message on standard error, and failure.
    pub fn missing_interface_report() -> (r: Report)
        ensures
            r.stdout@.len() == 0,
            string_views(r.stderr@) == seq![missing_interface_message()],
            r.exit_code == 1,
    {
        let mut err: Vec<String> = Vec::new();
        err.push(
            String::from_str(
                "Error: --interface is required (or use --list-interfaces to see available interfaces)",
            ),
        );
        assert(string_views(err@) =~= seq![missing_interface_message()]);
        Report { stdout: Vec::new(), stderr: err, exit_code: 1 }
    }

    /// Where the target comes from: the address given with `--target`, else
    /// the default gateway.
    pub fn target_source(given: Option<String>) -> (r: TargetSource)
        ensures
            given is Some ==> r == TargetSource::Given(given->0),
            given is None ==> r == TargetSource::DefaultGateway,
    {
        match given {
            Some(t) => TargetSource::Given(t),
            None => TargetSource::DefaultGateway,
        }
    }

    /// The target to ping when none is given: the default gateway if it was
    /// found, else `1.1.1.1`.
    pub fn fallback_target(default_gateway: Result<String, String>) -> (r: String)
        ensures
            default_gateway is Ok ==> r@ == default_gateway->Ok_0@,
            default_gateway is Err ==> r@ == fallback_address(),
    {
        match default_gateway {
            Ok(g) => g,
            Err(_) => String::from_str("1.1.1.1"),
        }
    }

    /// What `--list-interfaces` prints, and its exit status, for the result
    /// of listing the interfaces.
    pub fn interface_listing(interfaces: Result<Vec<String>, String>) -> (r: Report)
        ensures
            interfaces is Ok ==> {
                &&& string_views(r.stdout@) == listing_lines(string_views(interfaces->Ok_0@))
                &&& r.stderr@.len() == 0
                &&& r.exit_code == 0
            },
            interfaces is Err ==> {
                &&& r.stdout@.len() == 0
                &&& string_views(r.stderr@) == seq![
                    "Error listing interfaces: "@ + interfaces->Err_0@,
                ]
                &&& r.exit_code == 1
            },
    {
        match interfaces {
            Ok(names) => {
                let mut out: Vec<String> = Vec::new();
                out.push(String::from_str("Available network interfaces:"));
                let mut i: usize = 0;
                while i < names.len()
                    invariant
                        i <= names.len(),
                        string_views(out@) == seq!["Available network interfaces:"@] + bullets(
                            string_views(names@).take(i as int),
                        ),
                    decreases names.len() - i,
                {
                    let mut line = String::from_str("  - ");
                    line.append(names[i].as_str());
                    let ghost prev = string_views(out@);
                    let ghost x = string_views(names@);
                    out.push(line);
                    assert(string_views(out@) =~= prev.push(line@));
                    assert(x[i as int] == names@[i as int]@);
                    assert(bullets(x.take(i + 1)) =~= bullets(x.take(i as int)).push(
                        "  - "@ + x[i as int],
                    ));
                    i += 1;
                    assert(string_views(out@) =~= seq!["Available network interfaces:"@] + bullets(
                        string_views(names@).take(i as int),
                    ));
                }
                out.push(String::new());
                let mut total = String::from_str("Total: ");
                let count = decimal_chars(names.len() as u64);
                let count_text = string_of(&count);
                total.append(count_text.as_str());
                total.append(" interfaces");
                out.push(total);
                assert(string_views(names@).take(i as int) =~= string_views(names@));
                assert(string_views(out@) =~= listing_lines(string_views(names@)));
                Report { stdout: out, stderr: Vec::new(), exit_code: 0 }
            },
            Err(e) => {
                let mut line = String::from_str("Error listing interfaces: ");
                line.append(e.as_str());
                let mut err: Vec<String> = Vec::new();
                err.push(line);
                assert(string_views(err@) =~= seq!["Error listing interfaces: "@ + e@]);
                Report { stdout: Vec::new(), stderr: err, exit_code: 1 }
            },
        }
    }
}

} // verus!
