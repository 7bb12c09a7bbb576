//! Host VM management: the error and value types shared by the native
//! backend and the sidecar client, the mapping of the C ABI's status codes,
//! states and fixed-size records onto them, and the choice of backend.

use vstd::prelude::*;
use vstd::utf8::{decode_utf8, valid_utf8};
use crate::numtext::{push_uint, radix_text};
use crate::sidecar::SidecarClient;
use crate::text::{push_char, to_chars, utf8_decode};

verus! {

/// Errors of the machine backends.
#[derive(Debug)]
pub enum Error {
    Invalid,
    NotFound,
    Exists,
    Io(String),
    Vfkit(String),
    Internal(String),
    Utf8,
    Nul,
    NotInstalled,
    OpenFailed,
    Sidecar(String),
}

/// The message an error displays.
pub open spec fn error_text(e: Error) -> Seq<char> {
    match e {
        Error::Invalid => "invalid argument"@,
        Error::NotFound => "not found"@,
        Error::Exists => "already exists"@,
        Error::Io(d) => "io: "@ + d@,
        Error::Vfkit(d) => "vfkit: "@ + d@,
        Error::Internal(d) => "internal: "@ + d@,
        Error::Utf8 => "invalid utf-8 in name or path"@,
        Error::Nul => "nul byte in name or path"@,
        Error::NotInstalled => "libluxmachine not installed; build with LUXMACHINE_DIR set or install via `cmake --install` from luxcpp/machine, or use the sidecar backend"@,
        Error::OpenFailed => "manager open returned null pointer"@,
        Error::Sidecar(d) => "sidecar: "@ + d@,
    }
}

fn text_then(head: &str, tail: &String) -> (s: String)
    ensures
        s@ == head@ + tail@,
{
    let mut s = String::new();
    s.append(head);
    s.append(tail.as_str());
    s
}

impl Error {
    /// The message this error displays.
    pub fn message(&self) -> (s: String)
        ensures
            s@ == error_text(*self),
    {
        match self {
            Error::Invalid => String::from_str("invalid argument"),
            Error::NotFound => String::from_str("not found"),
            Error::Exists => String::from_str("already exists"),
            Error::Io(d) => text_then("io: ", d),
            Error::Vfkit(d) => text_then("vfkit: ", d),
            Error::Internal(d) => text_then("internal: ", d),
            Error::Utf8 => String::from_str("invalid utf-8 in name or path"),
            Error::Nul => String::from_str("nul byte in name or path"),
            Error::NotInstalled => String::from_str(
                "libluxmachine not installed; build with LUXMACHINE_DIR set or install via `cmake --install` from luxcpp/machine, or use the sidecar backend",
            ),
            Error::OpenFailed => String::from_str("manager open returned null pointer"),
            Error::Sidecar(d) => text_then("sidecar: ", d),
        }
    }
}

// ── C ABI status codes and states ───────────────────────────────────

pub const LUX_MACHINE_OK: u32 = 0;
pub const LUX_MACHINE_ERR_INVALID: u32 = 1;
pub const LUX_MACHINE_ERR_NOT_FOUND: u32 = 2;
pub const LUX_MACHINE_ERR_EXISTS: u32 = 3;
pub const LUX_MACHINE_ERR_IO: u32 = 4;
pub const LUX_MACHINE_ERR_VFKIT: u32 = 5;
pub const LUX_MACHINE_ERR_INTERNAL: u32 = 6;

/// The detail text of a status: the library's last error, or nothing.
pub open spec fn detail_text(last_error: Option<String>) -> Seq<char> {
    match last_error {
        Some(d) => d@,
        None => Seq::empty(),
    }
}

/// The error a failed status code stands for.
pub open spec fn status_error_matches(e: Error, status: u32, last_error: Option<String>) -> bool {
    let detail = detail_text(last_error);
    if status == LUX_MACHINE_ERR_INVALID {
        e is Invalid
    } else if status == LUX_MACHINE_ERR_NOT_FOUND {
        e is NotFound
    } else if status == LUX_MACHINE_ERR_EXISTS {
        e is Exists
    } else if status == LUX_MACHINE_ERR_IO {
        e matches Error::Io(d) && d@ == detail
    } else if status == LUX_MACHINE_ERR_VFKIT {
        e matches Error::Vfkit(d) && d@ == detail
    } else if status == LUX_MACHINE_ERR_INTERNAL {
        e matches Error::Internal(d) && d@ == detail
    } else {
        e matches Error::Internal(d) && d@ == "unknown status "@ + radix_text(status as nat, 10)
            + ": "@ + detail
    }
}

/// The error for a failed status code of the C ABI, with the library's last
/// error message as detail.
pub fn from_status(status: u32, last_error: Option<String>) -> (e: Error)
    ensures
        status_error_matches(e, status, last_error),
{
    let detail = match last_error {
        Some(d) => d,
        None => String::new(),
    };
    if status == LUX_MACHINE_ERR_INVALID {
        Error::Invalid
    } else if status == LUX_MACHINE_ERR_NOT_FOUND {
        Error::NotFound
    } else if status == LUX_MACHINE_ERR_EXISTS {
        Error::Exists
    } else if status == LUX_MACHINE_ERR_IO {
        Error::Io(detail)
    } else if status == LUX_MACHINE_ERR_VFKIT {
        Error::Vfkit(detail)
    } else if status == LUX_MACHINE_ERR_INTERNAL {
        Error::Internal(detail)
    } else {
        let mut m = String::from_str("unknown status ");
        push_uint(&mut m, status as u64);
        m.append(": ");
        m.append(detail.as_str());
        Error::Internal(m)
    }
}

pub const LUX_MACHINE_STATE_CREATING: u32 = 0;
pub const LUX_MACHINE_STATE_STOPPED: u32 = 1;
pub const LUX_MACHINE_STATE_STARTING: u32 = 2;
pub const LUX_MACHINE_STATE_RUNNING: u32 = 3;
pub const LUX_MACHINE_STATE_STOPPING: u32 = 4;
pub const LUX_MACHINE_STATE_DELETING: u32 = 5;
pub const LUX_MACHINE_STATE_ERROR: u32 = 6;

/// Lifecycle state of a VM.
#[derive(Debug, Clone, Copy, PartialEq, Eq, Structural)]
pub enum State {
    Creating,
    Stopped,
    Starting,
    Running,
    Stopping,
    Deleting,
    Error,
}

/// The state a raw C ABI state code stands for; unknown codes are errors.
pub open spec fn state_of_raw(raw: u32) -> State {
    if raw == LUX_MACHINE_STATE_CREATING {
        State::Creating
    } else if raw == LUX_MACHINE_STATE_STOPPED {
        State::Stopped
    } else if raw == LUX_MACHINE_STATE_STARTING {
        State::Starting
    } else if raw == LUX_MACHINE_STATE_RUNNING {
        State::Running
    } else if raw == LUX_MACHINE_STATE_STOPPING {
        State::Stopping
    } else if raw == LUX_MACHINE_STATE_DELETING {
        State::Deleting
    } else {
        State::Error
    }
}

impl State {
    /// The state of a raw C ABI state code.
    pub fn from_raw(raw: u32) -> (s: State)
        ensures
            s == state_of_raw(raw),
    {
        if raw == LUX_MACHINE_STATE_CREATING {
            State::Creating
        } else if raw == LUX_MACHINE_STATE_STOPPED {
            State::Stopped
        } else if raw == LUX_MACHINE_STATE_STARTING {
            State::Starting
        } else if raw == LUX_MACHINE_STATE_RUNNING {
            State::Running
        } else if raw == LUX_MACHINE_STATE_STOPPING {
            State::Stopping
        } else if raw == LUX_MACHINE_STATE_DELETING {
            State::Deleting
        } else {
            State::Error
        }
    }

    /// The lower-case name of the state, as the daemon writes it.
    pub fn name(&self) -> (s: &'static str)
        ensures
            s@ == state_name(*self),
    {
        match self {
            State::Creating => "creating",
            State::Stopped => "stopped",
            State::Starting => "starting",
            State::Running => "running",
            State::Stopping => "stopping",
            State::Deleting => "deleting",
            State::Error => "error",
        }
    }
}

/// The lower-case name of a state.
pub open spec fn state_name(s: State) -> Seq<char> {
    match s {
        State::Creating => "creating"@,
        State::Stopped => "stopped"@,
        State::Starting => "starting"@,
        State::Running => "running"@,
        State::Stopping => "stopping"@,
        State::Deleting => "deleting"@,
        State::Error => "error"@,
    }
}

// ── Records ─────────────────────────────────────────────────────────

/// What to create.
#[derive(Debug, Clone)]
pub struct Spec {
    pub name: String,
    pub distro: String,
    pub cpus: u32,
    pub memory_mb: u64,
    pub disk_gb: u64,
    pub rosetta: bool,
}

/// A VM as the backends report it.
#[derive(Debug, Clone)]
pub struct Info {
    pub name: String,
    pub distro: String,
    pub cpus: u32,
    pub memory_mb: u64,
    pub disk_gb: u64,
    pub state: State,
    pub ip: Option<String>,
    pub created_at: i64,
    pub started_at: i64,
}

/// The C ABI's VM record, its fixed-size character arrays given as bytes.
#[derive(Debug, Clone)]
pub struct RawMachineInfo {
    pub name: Vec<u8>,
    pub distro: Vec<u8>,
    pub cpus: u32,
    pub memory_mb: u64,
    pub disk_gb: u64,
    pub state: u32,
    pub ip: Vec<u8>,
    pub created_at: i64,
    pub started_at: i64,
}

/// Length of the NUL-terminated text at the front of `arr` (all of it when
/// there is no NUL).
pub open spec fn c_text_len(arr: Seq<u8>) -> nat
    decreases arr.len(),
{
    if arr.len() == 0 || arr[0] == 0 {
        0
    } else {
        1 + c_text_len(arr.drop_first())
    }
}

/// The text of a NUL-terminated character array: `None` when its bytes are
/// not UTF-8.
pub open spec fn c_text(arr: Seq<u8>) -> Option<Seq<char>> {
    let b = arr.take(c_text_len(arr) as int);
    if valid_utf8(b) {
        Some(decode_utf8(b))
    } else {
        None
    }
}

proof fn lemma_c_text_len(arr: Seq<u8>)
    ensures
        c_text_len(arr) <= arr.len(),
        forall|i: int| 0 <= i < c_text_len(arr) ==> arr[i] != 0,
        c_text_len(arr) < arr.len() ==> arr[c_text_len(arr) as int] == 0,
    decreases arr.len(),
{
    if arr.len() > 0 && arr[0] != 0 {
        lemma_c_text_len(arr.drop_first());
        assert forall|i: int| 0 <= i < c_text_len(arr) implies arr[i] != 0 by {
            if i > 0 {
                assert(arr[i] == arr.drop_first()[i - 1]);
            }
        }
    }
}

proof fn lemma_c_text_len_exact(arr: Seq<u8>, n: nat)
    requires
        n <= arr.len(),
        forall|i: int| 0 <= i < n ==> arr[i] != 0,
        n < arr.len() ==> arr[n as int] == 0,
    ensures
        c_text_len(arr) == n,
    decreases n,
{
    if n > 0 {
        lemma_c_text_len_exact(arr.drop_first(), (n - 1) as nat);
    }
}

/// The text of a NUL-terminated character array.
pub fn c_array_to_string(arr: &[u8]) -> (r: Result<String, Error>)
    ensures
        match c_text(arr@) {
            Some(t) => r matches Ok(s) && s@ == t,
            None => r matches Err(Error::Utf8),
        },
{
    let mut n: usize = 0;
    while n < arr.len() && arr[n] != 0
        invariant
            n <= arr.len(),
            forall|i: int| 0 <= i < n ==> arr@[i] != 0,
        decreases arr.len() - n,
    {
        n = n + 1;
    }
    proof {
        lemma_c_text_len_exact(arr@, n as nat);
    }
    let bytes = crate::text::bytes_range(arr, 0, n);
    assert(bytes@ == arr@.take(n as int));
    match utf8_decode(bytes.as_slice()) {
        Some(s) => Ok(s),
        None => Err(Error::Utf8),
    }
}

/// The record a raw C ABI record stands for.
pub open spec fn info_of_raw(raw: RawMachineInfo, info: Info) -> bool {
    &&& c_text(raw.name@) == Some(info.name@)
    &&& c_text(raw.distro@) == Some(info.distro@)
    &&& c_text(raw.ip@) is Some
    &&& (c_text(raw.ip@)->0.len() == 0 ==> info.ip is None)
    &&& (c_text(raw.ip@)->0.len() > 0 ==> (info.ip matches Some(ip) && ip@ == c_text(raw.ip@)->0))
    &&& info.cpus == raw.cpus
    &&& info.memory_mb == raw.memory_mb
    &&& info.disk_gb == raw.disk_gb
    &&& info.state == state_of_raw(raw.state)
    &&& info.created_at == raw.created_at
    &&& info.started_at == raw.started_at
}

impl Info {
    /// The record of a raw C ABI record; `Utf8` when a text field is not
    /// UTF-8.
    pub fn from_raw(raw: &RawMachineInfo) -> (r: Result<Info, Error>)
        ensures
            match r {
                Ok(info) => info_of_raw(*raw, info),
                Err(e) => e is Utf8 && (c_text(raw.name@) is None || c_text(raw.distro@) is None
                    || c_text(raw.ip@) is None),
            },
            (c_text(raw.name@) is Some && c_text(raw.distro@) is Some && c_text(raw.ip@) is Some)
                ==> r is Ok,
    {
        let name = match c_array_to_string(raw.name.as_slice()) {
            Ok(s) => s,
            Err(e) => {
                return Err(e);
            },
        };
        let distro = match c_array_to_string(raw.distro.as_slice()) {
            Ok(s) => s,
            Err(e) => {
                return Err(e);
            },
        };
        let ip_str = match c_array_to_string(raw.ip.as_slice()) {
            Ok(s) => s,
            Err(e) => {
                return Err(e);
            },
        };
        let ip_chars = to_chars(ip_str.as_str());
        let ip = if ip_chars.len() == 0 {
            None
        } else {
            Some(ip_str)
        };
        Ok(
            Info {
                name,
                distro,
                cpus: raw.cpus,
                memory_mb: raw.memory_mb,
                disk_gb: raw.disk_gb,
                state: State::from_raw(raw.state),
                ip,
                created_at: raw.created_at,
                started_at: raw.started_at,
            },
        )
    }
}

/// A VM as the daemon's JSON describes it; its timestamps are ISO-8601 text.
#[derive(Debug, Clone)]
pub struct WireMachine {
    pub name: String,
    pub distro: String,
    pub cpus: u32,
    pub memory_mb: u64,
    pub disk_gb: u64,
    pub state: State,
    pub ip: Option<String>,
    pub created_at: Option<String>,
    pub started_at: Option<String>,
}

/// Timestamp of an ISO-8601 text from the daemon: not parsed, always 0.
pub fn parse_ts(s: Option<&str>) -> (r: i64)
    ensures
        r == 0,
{
    0
}

/// The record a daemon record stands for: the same fields, timestamps 0.
pub fn info_from_wire(w: WireMachine) -> (info: Info)
    ensures
        info.name == w.name,
        info.distro == w.distro,
        info.cpus == w.cpus,
        info.memory_mb == w.memory_mb,
        info.disk_gb == w.disk_gb,
        info.state == w.state,
        info.ip == w.ip,
        info.created_at == 0,
        info.started_at == 0,
{
    let created_at = parse_ts(None);
    let started_at = parse_ts(None);
    Info {
        name: w.name,
        distro: w.distro,
        cpus: w.cpus,
        memory_mb: w.memory_mb,
        disk_gb: w.disk_gb,
        state: w.state,
        ip: w.ip,
        created_at,
        started_at,
    }
}

// ── Backends ────────────────────────────────────────────────────────

/// Whether this build links the native machine library. It does not: the
/// native manager cannot be opened, and the sidecar serves instead.
pub fn native_available() -> (b: bool)
    ensures
        !b,
{
    false
}

/// Whether the native backend is to be preferred: when it is linked.
pub fn prefer_native() -> (b: bool)
    ensures
        b == false,
{
    native_available()
}

/// The native machine manager. This build has no native library, so no
/// manager can be opened and none exists.
#[derive(Debug)]
pub struct Manager {
    _private: (),
}

impl Manager {
    /// Opens the manager on a state directory: always `NotInstalled`.
    pub fn open(state_dir: &str) -> (r: Result<Manager, Error>)
        ensures
            r matches Err(Error::NotInstalled),
    {
        Err(Error::NotInstalled)
    }

    /// Creates a VM: the native library is missing.
    pub fn create(&self, spec: &Spec) -> (r: Result<(), Error>)
        ensures
            r matches Err(Error::NotInstalled),
    {
        Err(Error::NotInstalled)
    }

    /// Starts a VM: the native library is missing.
    pub fn start(&self, name: &str) -> (r: Result<(), Error>)
        ensures
            r matches Err(Error::NotInstalled),
    {
        Err(Error::NotInstalled)
    }

    /// Stops a VM: the native library is missing.
    pub fn stop(&self, name: &str) -> (r: Result<(), Error>)
        ensures
            r matches Err(Error::NotInstalled),
    {
        Err(Error::NotInstalled)
    }

    /// Deletes a VM: the native library is missing.
    pub fn delete(&self, name: &str) -> (r: Result<(), Error>)
        ensures
            r matches Err(Error::NotInstalled),
    {
        Err(Error::NotInstalled)
    }

    /// Looks a VM up: the native library is missing.
    pub fn get(&self, name: &str) -> (r: Result<Info, Error>)
        ensures
            r matches Err(Error::NotInstalled),
    {
        Err(Error::NotInstalled)
    }

    /// Lists the VMs: the native library is missing.
    pub fn list(&self) -> (r: Result<Vec<Info>, Error>)
        ensures
            r matches Err(Error::NotInstalled),
    {
        Err(Error::NotInstalled)
    }

    /// Version of the native library: `"not-installed"`.
    pub fn version() -> (s: &'static str)
        ensures
            s@ == "not-installed"@,
    {
        "not-installed"
    }
}

/// Where the daemon's socket lies for a home directory:
/// `$HOME/.hanzo/run/machined.sock` (joined as paths join), or
/// `/tmp/hanzo-machined.sock` without a home.
pub open spec fn socket_path_text(home: Option<Seq<char>>) -> Seq<char> {
    match home {
        None => "/tmp/hanzo-machined.sock"@,
        Some(h) => if h.len() == 0 {
            ".hanzo/run/machined.sock"@
        } else if h.last() == '/' {
            h + ".hanzo/run/machined.sock"@
        } else {
            h + "/"@ + ".hanzo/run/machined.sock"@
        },
    }
}

/// The daemon's socket path for the home directory `home` (the value of
/// `HOME`, when set).
pub fn socket_path_for_home(home: Option<&str>) -> (p: String)
    ensures
        p@ == socket_path_text(
            match home {
                Some(h) => Some(h@),
                None => None,
            },
        ),
{
    match home {
        None => String::from_str("/tmp/hanzo-machined.sock"),
        Some(h) => {
            let hc = to_chars(h);
            let mut p = String::from_str(h);
            if hc.len() == 0 {
                String::from_str(".hanzo/run/machined.sock")
            } else if hc[hc.len() - 1] == '/' {
                p.append(".hanzo/run/machined.sock");
                p
            } else {
                p.append("/");
                p.append(".hanzo/run/machined.sock");
                p
            }
        },
    }
}

/// An opened backend.
#[derive(Debug)]
pub enum Backend {
    Native(Manager),
    Sidecar(SidecarClient),
}

/// Opens the preferred backend: the native manager when it is linked and
/// opens, else the sidecar client on `socket` (the default socket path).
pub fn open_backend(state_dir: &str, socket: String) -> (r: Result<Backend, Error>)
    ensures
        r matches Ok(Backend::Sidecar(c)) && c.socket_spec() == socket@ && c.timeout_spec() == (
            15u64,
            0u32,
        ),
{
    if native_available() {
        match Manager::open(state_dir) {
            Ok(m) => {
                return Ok(Backend::Native(m));
            },
            Err(Error::NotInstalled) => {},
            Err(e) => {
                return Err(e);
            },
        }
    }
    Ok(Backend::Sidecar(SidecarClient::new(socket)))
}

} // verus!
