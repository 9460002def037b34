//! The data model: one `Snapshot` per input line, holding a process/thread
//! tree, GPU telemetry and a CPU core count, plus the spec-level definitions
//! of row labels and thread-state codes that every downstream stage shares.
//!
//! Fractional telemetry (GPU load percent, memory megabytes) is carried in
//! milli-units: an `i64` holding one thousand times the underlying quantity,
//! so `50_000` milli-percent is a load of 50%.

use vstd::prelude::*;
use vstd::string::StrSliceExecFns;
use vstd::string::StringExecFns;

verus! {

/// One thread of a process. `name` and `state` may be absent in the input;
/// only the first character of `state` is semantically meaningful.
#[derive(Debug, Clone, PartialEq, Eq)]
pub struct Thread {
    pub tid: u32,
    pub name: Option<String>,
    pub state: Option<String>,
}

/// One process node: a tree, each node exclusively owning its threads and
/// children.
#[derive(Debug, PartialEq, Eq)]
pub struct Process {
    pub pid: u32,
    pub name: String,
    pub cmd: Option<String>,
    pub threads: Vec<Thread>,
    pub children: Vec<Process>,
}

/// Telemetry for one GPU at one point in time, in milli-units.
#[derive(Debug, Clone, PartialEq, Eq)]
pub struct GpuStatus {
    pub id: u32,
    pub name: String,
    pub load_milli_percent: i64,
    pub mem_used_milli_mb: i64,
    pub mem_total_milli_mb: i64,
    pub temperature_milli_c: i64,
    pub driver: String,
}

/// One point-in-time record of system state. The position of a snapshot in
/// the decoded sequence is its time coordinate; the `timestamp` string is
/// carried but never interpreted.
#[derive(Debug, PartialEq, Eq)]
pub struct Snapshot {
    pub timestamp: String,
    pub process_tree: Process,
    pub gpu_status: Vec<GpuStatus>,
    pub cpu_cores_total: u32,
}

/// The decimal digit character for `d` (meaningful for `d < 10`).
pub open spec fn digit_char(d: nat) -> char {
    if d == 0 {
        '0'
    } else if d == 1 {
        '1'
    } else if d == 2 {
        '2'
    } else if d == 3 {
        '3'
    } else if d == 4 {
        '4'
    } else if d == 5 {
        '5'
    } else if d == 6 {
        '6'
    } else if d == 7 {
        '7'
    } else if d == 8 {
        '8'
    } else {
        '9'
    }
}

/// The decimal rendering of `n`, most significant digit first.
pub open spec fn dec_str(n: nat) -> Seq<char>
    decreases n,
{
    if n < 10 {
        seq![digit_char(n)]
    } else {
        dec_str(n / 10).push(digit_char(n % 10))
    }
}

/// Four spaces of indentation per tree depth level.
pub open spec fn indent_str(depth: nat) -> Seq<char>
    decreases depth,
{
    if depth == 0 {
        Seq::<char>::empty()
    } else {
        indent_str((depth - 1) as nat) + "    "@
    }
}

/// The branch glyph preceding every label except a root process label.
pub open spec fn branch_glyph(depth: nat) -> Seq<char> {
    if depth == 0 {
        Seq::<char>::empty()
    } else {
        "└─ "@
    }
}

/// The row label of a process node at `depth`.
pub open spec fn proc_label(name: Seq<char>, pid: u32, depth: nat) -> Seq<char> {
    indent_str(depth) + branch_glyph(depth) + name + " (PID "@ + dec_str(pid as nat) + ")"@
}

/// The row label of a thread under a process at `depth`: the thread sits
/// one level deeper, so one more indentation step precedes the glyph.
pub open spec fn thread_label(name: Seq<char>, tid: u32, depth: nat) -> Seq<char> {
    indent_str(depth + 1) + "└─ "@ + name + " (TID "@ + dec_str(tid as nat) + ")"@
}

/// The row label of a GPU.
pub open spec fn gpu_label(id: u32) -> Seq<char> {
    "GPU #"@ + dec_str(id as nat)
}

/// The view of an optional string, absent meaning empty.
pub open spec fn opt_str_view(s: Option<String>) -> Seq<char> {
    match s {
        Some(v) => v@,
        None => Seq::<char>::empty(),
    }
}

/// The categorical code of a state string's first character:
/// R(unning) 1, S(leeping) 2, Z(ombie) 3, T/stopped 4, anything else 0.
pub open spec fn first_char_code(s: Seq<char>) -> u8 {
    if s.len() == 0 {
        0
    } else if s[0] == 'R' {
        1
    } else if s[0] == 'S' {
        2
    } else if s[0] == 'Z' {
        3
    } else if s[0] == 'T' {
        4
    } else {
        0
    }
}

/// The cell value a thread contributes: the code of its state, 0 if absent.
pub open spec fn thread_code(t: Thread) -> u8 {
    first_char_code(opt_str_view(t.state))
}

/// A thread counts as running exactly when its state code is 1.
pub open spec fn thread_is_running(t: Thread) -> bool {
    thread_code(t) == 1
}

/// Renders one decimal digit as a string.
fn digit_string(d: u32) -> (r: String)
    requires
        d < 10,
    ensures
        r@ == seq![digit_char(d as nat)],
{
    let s: &str = if d == 0 {
        "0"
    } else if d == 1 {
        "1"
    } else if d == 2 {
        "2"
    } else if d == 3 {
        "3"
    } else if d == 4 {
        "4"
    } else if d == 5 {
        "5"
    } else if d == 6 {
        "6"
    } else if d == 7 {
        "7"
    } else if d == 8 {
        "8"
    } else {
        "9"
    };
    proof {
        reveal_strlit("0");
        reveal_strlit("1");
        reveal_strlit("2");
        reveal_strlit("3");
        reveal_strlit("4");
        reveal_strlit("5");
        reveal_strlit("6");
        reveal_strlit("7");
        reveal_strlit("8");
        reveal_strlit("9");
        assert(s@ =~= seq![digit_char(d as nat)]);
    }
    String::from_str(s)
}

/// Renders `n` in decimal.
pub fn u64_to_dec(n: u64) -> (r: String)
    ensures
        r@ == dec_str(n as nat),
    decreases n,
{
    if n < 10 {
        digit_string(n as u32)
    } else {
        let mut s = u64_to_dec(n / 10);
        let d = digit_string((n % 10) as u32);
        s.append(d.as_str());
        proof {
            assert(dec_str(n as nat) == dec_str(n as nat / 10).push(digit_char(n as nat % 10)));
            assert(dec_str(n as nat / 10).push(digit_char(n as nat % 10)) =~= dec_str(
                n as nat / 10,
            ) + seq![digit_char(n as nat % 10)]);
        }
        s
    }
}

/// Builds a process row label from a precomputed indentation string.
pub fn render_proc_label(indent: &String, name: &String, pid: u32, root: bool, depth: Ghost<nat>) -> (r:
    String)
    requires
        indent@ == indent_str(depth@),
        root == (depth@ == 0),
    ensures
        r@ == proc_label(name@, pid, depth@),
{
    let mut r = indent.clone();
    if !root {
        r.append("└─ ");
    }
    r.append(name.as_str());
    r.append(" (PID ");
    let digits = u64_to_dec(pid as u64);
    r.append(digits.as_str());
    r.append(")");
    proof {
        assert(r@ =~= proc_label(name@, pid, depth@));
    }
    r
}

/// Builds a thread row label; `child_indent` is the indentation one level
/// below the owning process.
pub fn render_thread_label(
    child_indent: &String,
    name: &Option<String>,
    tid: u32,
    depth: Ghost<nat>,
) -> (r: String)
    requires
        child_indent@ == indent_str(depth@ + 1),
    ensures
        r@ == thread_label(opt_str_view(*name), tid, depth@),
{
    let mut r = child_indent.clone();
    r.append("└─ ");
    match name {
        Some(n) => r.append(n.as_str()),
        None => (),
    }
    r.append(" (TID ");
    let digits = u64_to_dec(tid as u64);
    r.append(digits.as_str());
    r.append(")");
    proof {
        assert(r@ =~= thread_label(opt_str_view(*name), tid, depth@));
    }
    r
}

/// Builds a GPU row label.
pub fn render_gpu_label(id: u32) -> (r: String)
    ensures
        r@ == gpu_label(id),
{
    let mut r = String::from_str("GPU #");
    let digits = u64_to_dec(id as u64);
    r.append(digits.as_str());
    proof {
        assert(r@ =~= gpu_label(id));
    }
    r
}

/// Computes the categorical cell value of a thread's state.
pub fn thread_state_code(t: &Thread) -> (c: u8)
    ensures
        c == thread_code(*t),
{
    match &t.state {
        None => 0,
        Some(s) => {
            if s.as_str().unicode_len() == 0 {
                0
            } else {
                let ch = s.as_str().get_char(0);
                if ch == 'R' {
                    1
                } else if ch == 'S' {
                    2
                } else if ch == 'Z' {
                    3
                } else if ch == 'T' {
                    4
                } else {
                    0
                }
            }
        },
    }
}

} // verus!
