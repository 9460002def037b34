//! The snapshot decoder: splits raw text into lines, reads each line as one
//! JSON snapshot record, skips lines that fail (recording their indices as
//! diagnostics), and never aborts the whole load on a bad line.

use vstd::prelude::*;
use vstd::std_specs::iter::IteratorSpec;
use crate::json::{
    arr_view, json_view, lemma_arr_view, lemma_obj_view, line_value, obj_view, parse_line_value,
    Json, JsonV,
};
use crate::model::{GpuStatus, Process, Snapshot, Thread};

verus! {

/// A line with its trailing carriage return (of a `\r\n` ending) removed.
pub open spec fn strip_cr(s: Seq<char>) -> Seq<char> {
    if s.len() > 0 && s.last() == '\r' {
        s.drop_last()
    } else {
        s
    }
}

/// The lines of `s` from segment start `start`, scanning at `j`: a newline
/// ends a segment; a final newline ends the text without starting an empty
/// final line.
pub open spec fn split_scan(s: Seq<char>, start: int, j: int) -> Seq<Seq<char>>
    decreases s.len() - j,
{
    if j >= s.len() {
        seq![strip_cr(s.subrange(start, s.len() as int))]
    } else if s[j] == '\n' {
        seq![strip_cr(s.subrange(start, j))] + (if j + 1 < s.len() {
            split_scan(s, j + 1, j + 1)
        } else {
            Seq::<Seq<char>>::empty()
        })
    } else {
        split_scan(s, start, j + 1)
    }
}

/// The lines of a text, as the decoder iterates them.
pub open spec fn split_lines(s: Seq<char>) -> Seq<Seq<char>> {
    if s.len() == 0 {
        Seq::<Seq<char>>::empty()
    } else {
        split_scan(s, 0, 0)
    }
}

/// The views of a sequence of char buffers.
pub open spec fn lines_view(vs: Seq<Vec<char>>) -> Seq<Seq<char>> {
    Seq::new(vs.len(), |i: int| vs[i]@)
}

/// The decoded snapshots among a sequence of per-line outcomes, in order.
pub open spec fn somes_of(os: Seq<Option<Snapshot>>) -> Seq<Snapshot>
    decreases os.len(),
{
    if os.len() == 0 {
        Seq::<Snapshot>::empty()
    } else {
        somes_of(os.drop_last()) + (match os.last() {
            Some(s) => seq![s],
            None => Seq::<Snapshot>::empty(),
        })
    }
}

/// The indices of the failed lines among a sequence of per-line outcomes,
/// ascending.
pub open spec fn none_idxs(os: Seq<Option<Snapshot>>) -> Seq<usize>
    decreases os.len(),
{
    if os.len() == 0 {
        Seq::<usize>::empty()
    } else {
        none_idxs(os.drop_last()) + (if os.last() is None {
            seq![(os.len() - 1) as usize]
        } else {
            Seq::<usize>::empty()
        })
    }
}

/// What one load returns: the decoded sequence, in input order, and the
/// zero-based indices of the skipped lines.
#[derive(Debug, PartialEq)]
pub struct DecodeResult {
    pub snapshots: Vec<Snapshot>,
    pub skipped: Vec<usize>,
}

/// Collects the chars of a string slice.
pub fn str_to_chars(s: &str) -> (r: Vec<char>)
    ensures
        r@ == s@,
{
    broadcast use vstd::string::axiom_spec_iter;

    let mut r: Vec<char> = Vec::new();
    for c in it: s.chars()
        invariant
            it.seq() == s@,
            r@ == it.seq().subrange(0, it.index() as int),
    {
        r.push(c);
        proof {
            assert(r@ =~= it.seq().subrange(0, it.index() + 1));
        }
    }
    proof {
        assert(r@ =~= s@);
    }
    r
}

/// Copies `cs[a..b]` into a fresh buffer.
fn copy_range(cs: &Vec<char>, a: usize, b: usize) -> (r: Vec<char>)
    requires
        a <= b <= cs@.len(),
    ensures
        r@ == cs@.subrange(a as int, b as int),
{
    let mut r: Vec<char> = Vec::new();
    let mut k = a;
    while k < b
        invariant
            a <= k <= b <= cs@.len(),
            r@ == cs@.subrange(a as int, k as int),
        decreases b - k,
    {
        r.push(cs[k]);
        proof {
            assert(r@ =~= cs@.subrange(a as int, k + 1));
        }
        k = k + 1;
    }
    proof {
        assert(r@ =~= cs@.subrange(a as int, b as int));
    }
    r
}

/// Extracts the line `cs[a..b]`, dropping a trailing carriage return.
fn take_line(cs: &Vec<char>, a: usize, b: usize) -> (r: Vec<char>)
    requires
        a <= b <= cs@.len(),
    ensures
        r@ == strip_cr(cs@.subrange(a as int, b as int)),
{
    let b2: usize = if b > a && cs[b - 1] == '\r' {
        b - 1
    } else {
        b
    };
    let r = copy_range(cs, a, b2);
    proof {
        assert(r@ =~= strip_cr(cs@.subrange(a as int, b as int)));
    }
    r
}

/// Splits a text into its lines, as `split_lines` describes them.
pub fn split_lines_exec(cs: &Vec<char>) -> (r: Vec<Vec<char>>)
    ensures
        lines_view(r@) == split_lines(cs@),
{
    let n = cs.len();
    let mut acc: Vec<Vec<char>> = Vec::new();
    if n == 0 {
        proof {
            assert(lines_view(acc@) =~= split_lines(cs@));
        }
        return acc;
    }
    let mut start: usize = 0;
    let mut j: usize = 0;
    while j < n
        invariant
            start <= j <= n,
            start < n,
            n == cs@.len(),
            split_scan(cs@, 0, 0) == lines_view(acc@) + split_scan(cs@, start as int, j as int),
        decreases n - j,
    {
        if cs[j] == '\n' {
            let line = take_line(cs, start, j);
            let ghost before = acc@;
            acc.push(line);
            proof {
                assert(lines_view(acc@) =~= lines_view(before) + seq![
                    strip_cr(cs@.subrange(start as int, j as int)),
                ]);
            }
            start = j + 1;
            j = j + 1;
            if start >= n {
                proof {
                    assert(lines_view(acc@) =~= split_scan(cs@, 0, 0));
                }
                return acc;
            }
        } else {
            j = j + 1;
        }
    }
    let line = take_line(cs, start, n);
    let ghost before = acc@;
    acc.push(line);
    proof {
        assert(lines_view(acc@) =~= lines_view(before) + seq![
            strip_cr(cs@.subrange(start as int, n as int)),
        ]);
        assert(lines_view(acc@) =~= split_scan(cs@, 0, 0));
    }
    acc
}

/// The position of the first member keyed `key`, searching from `j`.
pub open spec fn key_find(ms: Seq<(String, Json)>, key: Seq<char>, j: int) -> Option<int>
    decreases ms.len() - j,
{
    if j >= ms.len() {
        None
    } else if ms[j].0@ == key {
        Some(j)
    } else {
        key_find(ms, key, j + 1)
    }
}

/// The position of the first member keyed `key` of a mathematical object.
pub open spec fn key_find_v(ms: Seq<(Seq<char>, JsonV)>, key: Seq<char>, j: int) -> Option<int>
    decreases ms.len() - j,
{
    if j >= ms.len() {
        None
    } else if ms[j].0 == key {
        Some(j)
    } else {
        key_find_v(ms, key, j + 1)
    }
}

/// The value of the first member keyed `key`, if any.
pub open spec fn field_of(ms: Seq<(Seq<char>, JsonV)>, key: Seq<char>) -> Option<JsonV> {
    match key_find_v(ms, key, 0) {
        Some(i) => Some(ms[i].1),
        None => None,
    }
}

/// Searching an object's view finds the same member as searching the
/// object.
pub proof fn lemma_key_find_view(ms: Seq<(String, Json)>, key: Seq<char>, j: int)
    requires
        0 <= j,
    ensures
        key_find_v(obj_view(ms), key, j) == key_find(ms, key, j),
    decreases ms.len() - j,
{
    lemma_obj_view(ms);
    if j < ms.len() && ms[j].0@ != key {
        lemma_key_find_view(ms, key, j + 1);
    }
}

/// The view of a value has the constructor of the value.
pub proof fn lemma_view_shape(j: Json)
    ensures
        json_view(j) is Null <==> j is Null,
        json_view(j) is Bool <==> j is Bool,
        json_view(j) is Num <==> j is Num,
        json_view(j) is Str <==> j is Str,
        json_view(j) is Arr <==> j is Arr,
        json_view(j) is Obj <==> j is Obj,
{
}

/// The whole `u32` a milli-unit number denotes, if it is one exactly.
pub open spec fn u32_of_milli(m: i64) -> Option<u32> {
    if m >= 0 && m as int % 1000 == 0 && m as int / 1000 <= u32::MAX {
        Some((m as int / 1000) as u32)
    } else {
        None
    }
}

/// How an optional string field reads: absent and null mean none; a string
/// means that string; any other shape has no reading.
pub open spec fn rep_opt_string(o: Option<String>, f: Option<JsonV>) -> bool {
    match f {
        None => o is None,
        Some(JsonV::Null) => o is None,
        Some(JsonV::Str(s)) => o matches Some(n) && n@ == s,
        Some(_) => false,
    }
}

/// `t` is exactly the thread this value denotes.
pub open spec fn rep_thread(t: Thread, v: JsonV) -> bool {
    match v {
        JsonV::Obj(ms) => {
            &&& match field_of(ms, "TID"@) {
                Some(JsonV::Num(m)) => u32_of_milli(m) matches Some(x) && t.tid == x,
                _ => false,
            }
            &&& rep_opt_string(t.name, field_of(ms, "Name"@))
            &&& rep_opt_string(t.state, field_of(ms, "State"@))
        },
        _ => false,
    }
}

/// `g` is exactly the GPU record this value denotes; every field is
/// required.
pub open spec fn rep_gpu(g: GpuStatus, v: JsonV) -> bool {
    match v {
        JsonV::Obj(ms) => {
            &&& match field_of(ms, "GPU_ID"@) {
                Some(JsonV::Num(m)) => u32_of_milli(m) matches Some(x) && g.id == x,
                _ => false,
            }
            &&& match field_of(ms, "Name"@) {
                Some(JsonV::Str(s)) => g.name@ == s,
                _ => false,
            }
            &&& match field_of(ms, "Load_Percent"@) {
                Some(JsonV::Num(m)) => g.load_milli_percent == m,
                _ => false,
            }
            &&& match field_of(ms, "Memory_Used_MB"@) {
                Some(JsonV::Num(m)) => g.mem_used_milli_mb == m,
                _ => false,
            }
            &&& match field_of(ms, "Memory_Total_MB"@) {
                Some(JsonV::Num(m)) => g.mem_total_milli_mb == m,
                _ => false,
            }
            &&& match field_of(ms, "Temperature_C"@) {
                Some(JsonV::Num(m)) => g.temperature_milli_c == m,
                _ => false,
            }
            &&& match field_of(ms, "Driver"@) {
                Some(JsonV::Str(s)) => g.driver@ == s,
                _ => false,
            }
        },
        _ => false,
    }
}

proof fn lemma_key_find_v_in_range(ms: Seq<(Seq<char>, JsonV)>, key: Seq<char>, j: int)
    requires
        0 <= j,
    ensures
        key_find_v(ms, key, j) matches Some(i) ==> j <= i < ms.len(),
    decreases ms.len() - j,
{
    if j < ms.len() && ms[j].0 != key {
        lemma_key_find_v_in_range(ms, key, j + 1);
    }
}

#[via_fn]
proof fn rep_process_decreases(p: Process, v: JsonV) {
    match v {
        JsonV::Obj(ms) => {
            lemma_key_find_v_in_range(ms, "Children"@, 0);
            match key_find_v(ms, "Children"@, 0) {
                Some(ci) => {
                    match ms[ci].1 {
                        JsonV::Arr(items) => {
                            assert forall|k: int|
                                0 <= k < items.len() implies decreases_to!(v => items[k]) by {
                                assert(decreases_to!(v => ms));
                                assert(decreases_to!(ms => ms[ci]));
                                assert(decreases_to!(ms[ci] => ms[ci].1));
                                assert(decreases_to!(ms[ci].1 => items[k]));
                            }
                        },
                        _ => (),
                    }
                },
                None => (),
            }
        },
        _ => (),
    }
}

/// `p` is exactly the process tree this value denotes: required pid and
/// name, optional command, thread and child lists absent or null reading
/// as empty.
pub open spec fn rep_process(p: Process, v: JsonV) -> bool
    decreases v,
    via rep_process_decreases
{
    match v {
        JsonV::Obj(ms) => {
            &&& match field_of(ms, "PID"@) {
                Some(JsonV::Num(m)) => u32_of_milli(m) matches Some(x) && p.pid == x,
                _ => false,
            }
            &&& match field_of(ms, "Name"@) {
                Some(JsonV::Str(s)) => p.name@ == s,
                _ => false,
            }
            &&& rep_opt_string(p.cmd, field_of(ms, "CMD"@))
            &&& match field_of(ms, "Threads"@) {
                None => p.threads@.len() == 0,
                Some(JsonV::Null) => p.threads@.len() == 0,
                Some(JsonV::Arr(items)) => p.threads@.len() == items.len() && (forall|k: int|
                    0 <= k < items.len() ==> rep_thread(p.threads@[k], items[k])),
                Some(_) => false,
            }
            &&& match key_find_v(ms, "Children"@, 0) {
                None => p.children@.len() == 0,
                Some(ci) => match ms[ci].1 {
                    JsonV::Null => p.children@.len() == 0,
                    JsonV::Arr(items) => p.children@.len() == items.len() && (forall|k: int|
                        0 <= k < items.len() ==> rep_process(p.children@[k], items[k])),
                    _ => false,
                },
            }
        },
        _ => false,
    }
}

/// `s` is exactly the snapshot this value denotes: timestamp and process
/// tree required, GPU list defaulting to empty, core count defaulting to
/// zero.
pub open spec fn rep_snapshot(s: Snapshot, v: JsonV) -> bool {
    match v {
        JsonV::Obj(ms) => {
            &&& match field_of(ms, "Timestamp"@) {
                Some(JsonV::Str(t)) => s.timestamp@ == t,
                _ => false,
            }
            &&& match key_find_v(ms, "ProcessTree"@, 0) {
                Some(pi) => rep_process(s.process_tree, ms[pi].1),
                None => false,
            }
            &&& match field_of(ms, "GPUStatus"@) {
                None => s.gpu_status@.len() == 0,
                Some(JsonV::Arr(items)) => s.gpu_status@.len() == items.len() && (forall|k: int|
                    0 <= k < items.len() ==> rep_gpu(s.gpu_status@[k], items[k])),
                Some(_) => false,
            }
            &&& match field_of(ms, "CPU_Cores_Total"@) {
                None => s.cpu_cores_total == 0,
                Some(JsonV::Num(m)) => u32_of_milli(m) matches Some(x) && s.cpu_cores_total == x,
                Some(_) => false,
            }
        },
        _ => false,
    }
}

/// A found key names a member inside the object.
proof fn lemma_key_find_in_range(ms: Seq<(String, Json)>, key: Seq<char>, j: int)
    requires
        0 <= j,
    ensures
        key_find(ms, key, j) matches Some(i) ==> j <= i < ms.len(),
    decreases ms.len() - j,
{
    if j < ms.len() && ms[j].0@ != key {
        lemma_key_find_in_range(ms, key, j + 1);
    }
}

/// A field of the object's view is the view of the found member's value.
proof fn lemma_field_view(ms: Seq<(String, Json)>, key: Seq<char>)
    ensures
        field_of(obj_view(ms), key) is Some <==> key_find(ms, key, 0) is Some,
        key_find(ms, key, 0) matches Some(i) ==> 0 <= i < ms.len() && field_of(obj_view(ms), key)
            == Some(json_view(ms[i].1)),
{
    lemma_obj_view(ms);
    lemma_key_find_view(ms, key, 0);
    lemma_key_find_in_range(ms, key, 0);
}

/// Looks a key up among an object's members, first occurrence winning.
fn obj_get<'a>(ms: &'a Vec<(String, Json)>, key: &String) -> (r: Option<&'a Json>)
    ensures
        match key_find(ms@, key@, 0) {
            Some(i) => r matches Some(v) && *v == ms@[i].1 && 0 <= i < ms@.len(),
            None => r is None,
        },
{
    let mut k: usize = 0;
    while k < ms.len()
        invariant
            k <= ms@.len(),
            key_find(ms@, key@, 0) == key_find(ms@, key@, k as int),
        decreases ms@.len() - k,
    {
        if ms[k].0.eq(key) {
            let r = &ms[k].1;
            proof {
                assert(ms@[k as int].1 == *r);
            }
            return Some(r);
        }
        k = k + 1;
    }
    None
}

/// Reads a milli-unit number as an exact whole `u32`.
fn num_to_u32(m: i64) -> (r: Option<u32>)
    ensures
        r == u32_of_milli(m),
{
    if m < 0 {
        return None;
    }
    let u = m as u64;
    if u % 1000 != 0 {
        return None;
    }
    let q = u / 1000;
    if q > u32::MAX as u64 {
        return None;
    }
    Some(q as u32)
}

/// Reads an optional string field: absent and null both mean none, any
/// other non-string shape is a malformed record.
fn opt_string_field(ms: &Vec<(String, Json)>, key: &String) -> (r: Option<Option<String>>)
    ensures
        r matches Some(o) ==> rep_opt_string(o, field_of(obj_view(ms@), key@)),
        r is None ==> forall|o: Option<String>| !rep_opt_string(o, field_of(obj_view(ms@), key@)),
{
    proof {
        lemma_field_view(ms@, key@);
        if key_find(ms@, key@, 0) is Some {
            lemma_view_shape(ms@[key_find(ms@, key@, 0)->Some_0].1);
        }
    }
    match obj_get(ms, key) {
        None => Some(None),
        Some(Json::Null) => Some(None),
        Some(Json::Str(s)) => Some(Some(s.clone())),
        Some(_) => None,
    }
}

/// Reads one thread record: the threads this returns are exactly the ones
/// `rep_thread` describes, and a record nothing represents is refused.
fn to_thread(j: &Json) -> (r: Option<Thread>)
    ensures
        r matches Some(t) ==> rep_thread(t, json_view(*j)),
        r is None ==> forall|t: Thread| !rep_thread(t, json_view(*j)),
{
    let ms = match j {
        Json::Obj(ms) => ms,
        _ => {
            proof {
                lemma_view_shape(*j);
            }
            return None;
        },
    };
    proof {
        assert(json_view(*j) == JsonV::Obj(obj_view(ms@)));
        lemma_field_view(ms@, "TID"@);
        if key_find(ms@, "TID"@, 0) is Some {
            lemma_view_shape(ms@[key_find(ms@, "TID"@, 0)->Some_0].1);
        }
    }
    let tid = match obj_get(ms, &String::from_str("TID")) {
        Some(Json::Num(m)) => match num_to_u32(*m) {
            Some(v) => v,
            None => {
                return None;
            },
        },
        _ => {
            return None;
        },
    };
    let name = match opt_string_field(ms, &String::from_str("Name")) {
        Some(v) => v,
        None => {
            proof {
                assert forall|t: Thread| !rep_thread(t, json_view(*j)) by {
                    assert(!rep_opt_string(t.name, field_of(obj_view(ms@), "Name"@)));
                }
            }
            return None;
        },
    };
    let state = match opt_string_field(ms, &String::from_str("State")) {
        Some(v) => v,
        None => {
            proof {
                assert forall|t: Thread| !rep_thread(t, json_view(*j)) by {
                    assert(!rep_opt_string(t.state, field_of(obj_view(ms@), "State"@)));
                }
            }
            return None;
        },
    };
    let t = Thread { tid, name, state };
    proof {
        assert(rep_thread(t, json_view(*j)));
    }
    Some(t)
}

/// Reads one GPU telemetry record: exactly as `rep_gpu` describes it, every
/// field required.
fn to_gpu(j: &Json) -> (r: Option<GpuStatus>)
    ensures
        r matches Some(g) ==> rep_gpu(g, json_view(*j)),
        r is None ==> forall|g: GpuStatus| !rep_gpu(g, json_view(*j)),
{
    let ms = match j {
        Json::Obj(ms) => ms,
        _ => {
            proof {
                lemma_view_shape(*j);
            }
            return None;
        },
    };
    proof {
        assert(json_view(*j) == JsonV::Obj(obj_view(ms@)));
        lemma_field_view(ms@, "GPU_ID"@);
        lemma_field_view(ms@, "Name"@);
        lemma_field_view(ms@, "Load_Percent"@);
        lemma_field_view(ms@, "Memory_Used_MB"@);
        lemma_field_view(ms@, "Memory_Total_MB"@);
        lemma_field_view(ms@, "Temperature_C"@);
        lemma_field_view(ms@, "Driver"@);
        if key_find(ms@, "GPU_ID"@, 0) is Some {
            lemma_view_shape(ms@[key_find(ms@, "GPU_ID"@, 0)->Some_0].1);
        }
        if key_find(ms@, "Name"@, 0) is Some {
            lemma_view_shape(ms@[key_find(ms@, "Name"@, 0)->Some_0].1);
        }
        if key_find(ms@, "Load_Percent"@, 0) is Some {
            lemma_view_shape(ms@[key_find(ms@, "Load_Percent"@, 0)->Some_0].1);
        }
        if key_find(ms@, "Memory_Used_MB"@, 0) is Some {
            lemma_view_shape(ms@[key_find(ms@, "Memory_Used_MB"@, 0)->Some_0].1);
        }
        if key_find(ms@, "Memory_Total_MB"@, 0) is Some {
            lemma_view_shape(ms@[key_find(ms@, "Memory_Total_MB"@, 0)->Some_0].1);
        }
        if key_find(ms@, "Temperature_C"@, 0) is Some {
            lemma_view_shape(ms@[key_find(ms@, "Temperature_C"@, 0)->Some_0].1);
        }
        if key_find(ms@, "Driver"@, 0) is Some {
            lemma_view_shape(ms@[key_find(ms@, "Driver"@, 0)->Some_0].1);
        }
    }
    let id = match obj_get(ms, &String::from_str("GPU_ID")) {
        Some(Json::Num(m)) => match num_to_u32(*m) {
            Some(v) => v,
            None => {
                return None;
            },
        },
        _ => {
            return None;
        },
    };
    let name = match obj_get(ms, &String::from_str("Name")) {
        Some(Json::Str(s)) => s.clone(),
        _ => {
            return None;
        },
    };
    let load_milli_percent = match obj_get(ms, &String::from_str("Load_Percent")) {
        Some(Json::Num(m)) => *m,
        _ => {
            return None;
        },
    };
    let mem_used_milli_mb = match obj_get(ms, &String::from_str("Memory_Used_MB")) {
        Some(Json::Num(m)) => *m,
        _ => {
            return None;
        },
    };
    let mem_total_milli_mb = match obj_get(ms, &String::from_str("Memory_Total_MB")) {
        Some(Json::Num(m)) => *m,
        _ => {
            return None;
        },
    };
    let temperature_milli_c = match obj_get(ms, &String::from_str("Temperature_C")) {
        Some(Json::Num(m)) => *m,
        _ => {
            return None;
        },
    };
    let driver = match obj_get(ms, &String::from_str("Driver")) {
        Some(Json::Str(s)) => s.clone(),
        _ => {
            return None;
        },
    };
    let g = GpuStatus {
        id,
        name,
        load_milli_percent,
        mem_used_milli_mb,
        mem_total_milli_mb,
        temperature_milli_c,
        driver,
    };
    proof {
        assert(rep_gpu(g, json_view(*j)));
    }
    Some(g)
}

/// Reads one process node, recursively: exactly as `rep_process` describes
/// it, and a node nothing represents is refused.
fn to_process(j: &Json) -> (r: Option<Process>)
    ensures
        r matches Some(p) ==> rep_process(p, json_view(*j)),
        r is None ==> forall|p: Process| !rep_process(p, json_view(*j)),
    decreases *j,
{
    let ms = match j {
        Json::Obj(ms) => ms,
        _ => {
            proof {
                lemma_view_shape(*j);
            }
            return None;
        },
    };
    proof {
        assert(json_view(*j) == JsonV::Obj(obj_view(ms@)));
        lemma_obj_view(ms@);
        lemma_field_view(ms@, "PID"@);
        lemma_field_view(ms@, "Name"@);
        lemma_field_view(ms@, "Threads"@);
        lemma_key_find_view(ms@, "Children"@, 0);
        if key_find(ms@, "PID"@, 0) is Some {
            lemma_view_shape(ms@[key_find(ms@, "PID"@, 0)->Some_0].1);
        }
        if key_find(ms@, "Name"@, 0) is Some {
            lemma_view_shape(ms@[key_find(ms@, "Name"@, 0)->Some_0].1);
        }
        if key_find(ms@, "Threads"@, 0) is Some {
            lemma_view_shape(ms@[key_find(ms@, "Threads"@, 0)->Some_0].1);
        }
        if key_find(ms@, "Children"@, 0) is Some {
            lemma_view_shape(ms@[key_find(ms@, "Children"@, 0)->Some_0].1);
        }
    }
    let pid = match obj_get(ms, &String::from_str("PID")) {
        Some(Json::Num(m)) => match num_to_u32(*m) {
            Some(v) => v,
            None => {
                return None;
            },
        },
        _ => {
            return None;
        },
    };
    let name = match obj_get(ms, &String::from_str("Name")) {
        Some(Json::Str(s)) => s.clone(),
        _ => {
            return None;
        },
    };
    let cmd = match opt_string_field(ms, &String::from_str("CMD")) {
        Some(v) => v,
        None => {
            proof {
                assert forall|p: Process| !rep_process(p, json_view(*j)) by {
                    assert(!rep_opt_string(p.cmd, field_of(obj_view(ms@), "CMD"@)));
                }
            }
            return None;
        },
    };
    let mut threads: Vec<Thread> = Vec::new();
    match obj_get(ms, &String::from_str("Threads")) {
        None => (),
        Some(Json::Null) => (),
        Some(Json::Arr(items)) => {
            proof {
                lemma_arr_view(items@);
            }
            let mut k: usize = 0;
            while k < items.len()
                invariant
                    k <= items@.len(),
                    threads@.len() == k,
                    *j == Json::Obj(*ms),
                    field_of(obj_view(ms@), "Threads"@) == Some(JsonV::Arr(arr_view(items@))),
                    arr_view(items@).len() == items@.len(),
                    forall|i: int|
                        0 <= i < items@.len() ==> arr_view(items@)[i] == json_view(items@[i]),
                    forall|m: int| 0 <= m < k ==> rep_thread(threads@[m], arr_view(items@)[m]),
                decreases items@.len() - k,
            {
                match to_thread(&items[k]) {
                    Some(t) => threads.push(t),
                    None => {
                        proof {
                            assert forall|p: Process| !rep_process(p, json_view(*j)) by {
                                if rep_process(p, json_view(*j)) {
                                    assert(rep_thread(
                                        p.threads@[k as int],
                                        arr_view(items@)[k as int],
                                    ));
                                    assert(!rep_thread(
                                        p.threads@[k as int],
                                        json_view(items@[k as int]),
                                    ));
                                }
                            }
                        }
                        return None;
                    },
                }
                k = k + 1;
            }
        },
        Some(_) => {
            return None;
        },
    }
    let mut children: Vec<Process> = Vec::new();
    let cj = obj_get(ms, &String::from_str("Children"));
    match cj {
        None => (),
        Some(Json::Null) => (),
        Some(inner) => {
            let items = match inner {
                Json::Arr(items) => items,
                _ => {
                    return None;
                },
            };
            proof {
                let ci = key_find(ms@, "Children"@, 0)->Some_0;
                assert(decreases_to!(*j => ms@[ci].1));
                lemma_arr_view(items@);
            }
            let mut k: usize = 0;
            while k < items.len()
                invariant
                    k <= items@.len(),
                    children@.len() == k,
                    *j == Json::Obj(*ms),
                    key_find(ms@, "Children"@, 0) matches Some(ci) && 0 <= ci < ms@.len()
                        && ms@[ci].1 == Json::Arr(*items),
                    key_find_v(obj_view(ms@), "Children"@, 0) == key_find(ms@, "Children"@, 0),
                    obj_view(ms@).len() == ms@.len(),
                    forall|i: int|
                        0 <= i < ms@.len() ==> obj_view(ms@)[i] == (ms@[i].0@, json_view(ms@[i].1)),
                    arr_view(items@).len() == items@.len(),
                    forall|i: int|
                        0 <= i < items@.len() ==> arr_view(items@)[i] == json_view(items@[i]),
                    forall|m: int| 0 <= m < k ==> rep_process(children@[m], arr_view(items@)[m]),
                    decreases_to!(*j => *items),
                decreases items@.len() - k,
            {
                proof {
                    assert(decreases_to!(*j => items@[k as int]));
                }
                match to_process(&items[k]) {
                    Some(c) => children.push(c),
                    None => {
                        proof {
                            assert forall|p: Process| !rep_process(p, json_view(*j)) by {
                                if rep_process(p, json_view(*j)) {
                                    assert(rep_process(
                                        p.children@[k as int],
                                        arr_view(items@)[k as int],
                                    ));
                                    assert(!rep_process(
                                        p.children@[k as int],
                                        json_view(items@[k as int]),
                                    ));
                                }
                            }
                        }
                        return None;
                    },
                }
                k = k + 1;
            }
        },
    }
    let p = Process { pid, name, cmd, threads, children };
    proof {
        assert(rep_process(p, json_view(*j)));
    }
    Some(p)
}

/// Reads one whole snapshot record — exactly as `rep_snapshot` describes
/// it: timestamp and process tree required, GPU list defaulting to empty,
/// core count defaulting to zero. A record nothing represents is refused.
pub fn to_snapshot(j: &Json) -> (r: Option<Snapshot>)
    ensures
        r matches Some(s) ==> rep_snapshot(s, json_view(*j)),
        r is None ==> forall|s: Snapshot| !rep_snapshot(s, json_view(*j)),
{
    let ms = match j {
        Json::Obj(ms) => ms,
        _ => {
            proof {
                lemma_view_shape(*j);
            }
            return None;
        },
    };
    proof {
        assert(json_view(*j) == JsonV::Obj(obj_view(ms@)));
        lemma_obj_view(ms@);
        lemma_field_view(ms@, "Timestamp"@);
        lemma_key_find_view(ms@, "ProcessTree"@, 0);
        lemma_field_view(ms@, "GPUStatus"@);
        lemma_field_view(ms@, "CPU_Cores_Total"@);
        if key_find(ms@, "Timestamp"@, 0) is Some {
            lemma_view_shape(ms@[key_find(ms@, "Timestamp"@, 0)->Some_0].1);
        }
        if key_find(ms@, "GPUStatus"@, 0) is Some {
            lemma_view_shape(ms@[key_find(ms@, "GPUStatus"@, 0)->Some_0].1);
        }
        if key_find(ms@, "CPU_Cores_Total"@, 0) is Some {
            lemma_view_shape(ms@[key_find(ms@, "CPU_Cores_Total"@, 0)->Some_0].1);
        }
    }
    let timestamp = match obj_get(ms, &String::from_str("Timestamp")) {
        Some(Json::Str(s)) => s.clone(),
        _ => {
            return None;
        },
    };
    let process_tree = match obj_get(ms, &String::from_str("ProcessTree")) {
        Some(pj) => match to_process(pj) {
            Some(p) => p,
            None => {
                proof {
                    let pi = key_find(ms@, "ProcessTree"@, 0)->Some_0;
                    lemma_key_find_in_range(ms@, "ProcessTree"@, 0);
                    assert forall|s: Snapshot| !rep_snapshot(s, json_view(*j)) by {
                        if rep_snapshot(s, json_view(*j)) {
                            assert(rep_process(s.process_tree, obj_view(ms@)[pi].1));
                            assert(!rep_process(s.process_tree, json_view(ms@[pi].1)));
                        }
                    }
                }
                return None;
            },
        },
        None => {
            return None;
        },
    };
    let mut gpu_status: Vec<GpuStatus> = Vec::new();
    match obj_get(ms, &String::from_str("GPUStatus")) {
        None => (),
        Some(Json::Arr(items)) => {
            proof {
                lemma_arr_view(items@);
            }
            let mut k: usize = 0;
            while k < items.len()
                invariant
                    k <= items@.len(),
                    gpu_status@.len() == k,
                    *j == Json::Obj(*ms),
                    field_of(obj_view(ms@), "GPUStatus"@) == Some(JsonV::Arr(arr_view(items@))),
                    arr_view(items@).len() == items@.len(),
                    forall|i: int|
                        0 <= i < items@.len() ==> arr_view(items@)[i] == json_view(items@[i]),
                    forall|m: int| 0 <= m < k ==> rep_gpu(gpu_status@[m], arr_view(items@)[m]),
                decreases items@.len() - k,
            {
                match to_gpu(&items[k]) {
                    Some(g) => gpu_status.push(g),
                    None => {
                        proof {
                            assert forall|s: Snapshot| !rep_snapshot(s, json_view(*j)) by {
                                if rep_snapshot(s, json_view(*j)) {
                                    assert(rep_gpu(
                                        s.gpu_status@[k as int],
                                        arr_view(items@)[k as int],
                                    ));
                                    assert(!rep_gpu(
                                        s.gpu_status@[k as int],
                                        json_view(items@[k as int]),
                                    ));
                                }
                            }
                        }
                        return None;
                    },
                }
                k = k + 1;
            }
        },
        Some(_) => {
            return None;
        },
    }
    let cpu_cores_total = match obj_get(ms, &String::from_str("CPU_Cores_Total")) {
        None => 0,
        Some(Json::Num(m)) => match num_to_u32(*m) {
            Some(v) => v,
            None => {
                return None;
            },
        },
        Some(_) => {
            return None;
        },
    };
    let s = Snapshot { timestamp, process_tree, gpu_status, cpu_cores_total };
    proof {
        assert(rep_snapshot(s, json_view(*j)));
    }
    Some(s)
}

/// The outcome decoding owes a line: when the line holds a record some
/// snapshot represents, a snapshot representing it exactly; when it holds
/// no JSON value, or one no snapshot represents, a diagnostic.
pub open spec fn line_outcome(o: Option<Snapshot>, line: Seq<char>) -> bool {
    match line_value(line) {
        None => o is None,
        Some(v) => match o {
            Some(s) => rep_snapshot(s, v),
            None => forall|s: Snapshot| !rep_snapshot(s, v),
        },
    }
}

/// Whether a line holds a record some snapshot represents: such a line
/// must decode; any other must yield a diagnostic.
pub open spec fn line_shaped(line: Seq<char>) -> bool {
    line_value(line) matches Some(v) && (exists|s: Snapshot| rep_snapshot(s, v))
}

/// How many of these lines hold representable records.
pub open spec fn shaped_count(lines: Seq<Seq<char>>) -> nat
    decreases lines.len(),
{
    if lines.len() == 0 {
        0
    } else {
        shaped_count(lines.drop_last()) + (if line_shaped(lines.last()) {
            1nat
        } else {
            0nat
        })
    }
}

/// Decodes one line: exactly the outcome `line_outcome` owes it.
pub fn decode_line(line: &Vec<char>) -> (r: Option<Snapshot>)
    ensures
        line_outcome(r, line@),
{
    match parse_line_value(line) {
        Some(j) => to_snapshot(&j),
        None => None,
    }
}

/// Keeps the successful outcomes in order and records the index of every
/// failed one: no failure disturbs the surviving records or ends the load.
pub fn collect_decoded(parsed: Vec<Option<Snapshot>>) -> (r: DecodeResult)
    ensures
        r.snapshots@ == somes_of(parsed@),
        r.skipped@ == none_idxs(parsed@),
{
    let ghost orig = parsed@;
    let n = parsed.len();
    let mut parsed = parsed;
    let mut rev: Vec<Option<Snapshot>> = Vec::new();
    while parsed.len() > 0
        invariant
            parsed@.len() + rev@.len() == orig.len(),
            parsed@ == orig.subrange(0, parsed@.len() as int),
            forall|k: int|
                0 <= k < rev@.len() ==> rev@[k] == orig[orig.len() - 1 - k],
        decreases parsed@.len(),
    {
        let o = match parsed.pop() {
            Some(o) => o,
            None => {
                return DecodeResult { snapshots: Vec::new(), skipped: Vec::new() };
            },
        };
        rev.push(o);
        proof {
            assert(parsed@ =~= orig.subrange(0, parsed@.len() as int));
        }
    }
    let mut snapshots: Vec<Snapshot> = Vec::new();
    let mut skipped: Vec<usize> = Vec::new();
    let mut i: usize = 0;
    proof {
        assert(orig.subrange(0, 0) =~= Seq::<Option<Snapshot>>::empty());
    }
    while rev.len() > 0
        invariant
            n == orig.len(),
            i + rev@.len() == orig.len(),
            forall|k: int| 0 <= k < rev@.len() ==> rev@[k] == orig[orig.len() - 1 - k],
            snapshots@ == somes_of(orig.subrange(0, i as int)),
            skipped@ == none_idxs(orig.subrange(0, i as int)),
        decreases rev@.len(),
    {
        let o = match rev.pop() {
            Some(o) => o,
            None => {
                return DecodeResult { snapshots: Vec::new(), skipped: Vec::new() };
            },
        };
        proof {
            assert(o == orig[i as int]);
            let sub1 = orig.subrange(0, i + 1);
            assert(sub1.drop_last() =~= orig.subrange(0, i as int));
            assert(sub1.last() == orig[i as int]);
        }
        match o {
            Some(s) => snapshots.push(s),
            None => skipped.push(i),
        }
        i = i + 1;
    }
    proof {
        assert(orig.subrange(0, orig.len() as int) =~= orig);
    }
    DecodeResult { snapshots, skipped }
}

/// Decodes a whole text, one snapshot per line, skipping malformed lines:
/// each line's outcome is what `line_outcome` owes it, the surviving
/// snapshots keep their relative order, every line is accounted for, and
/// the diagnostics name lines in ascending order.
pub fn decode_chars(cs: &Vec<char>) -> (r: DecodeResult)
    ensures
        exists|os: Seq<Option<Snapshot>>|
            os.len() == split_lines(cs@).len() && (forall|k: int|
                0 <= k < os.len() ==> line_outcome(#[trigger] os[k], split_lines(cs@)[k]))
                && r.snapshots@ == somes_of(os) && r.skipped@ == none_idxs(os),
        r.snapshots@.len() + r.skipped@.len() == split_lines(cs@).len(),
        forall|a: int, b: int|
            0 <= a < b < r.skipped@.len() ==> r.skipped@[a] < r.skipped@[b],
        forall|k: int|
            0 <= k < r.skipped@.len() ==> (r.skipped@[k] as int) < split_lines(cs@).len(),
{
    let lines = split_lines_exec(cs);
    let mut parsed: Vec<Option<Snapshot>> = Vec::new();
    let mut k: usize = 0;
    while k < lines.len()
        invariant
            k <= lines@.len(),
            parsed@.len() == k,
            lines_view(lines@) == split_lines(cs@),
            forall|m: int|
                0 <= m < k ==> line_outcome(#[trigger] parsed@[m], split_lines(cs@)[m]),
        decreases lines@.len() - k,
    {
        parsed.push(decode_line(&lines[k]));
        proof {
            assert(lines@[k as int]@ == lines_view(lines@)[k as int]);
        }
        k = k + 1;
    }
    proof {
        assert(lines_view(lines@).len() == lines@.len());
        assert(parsed@.len() == split_lines(cs@).len());
    }
    let ghost os = parsed@;
    let r = collect_decoded(parsed);
    proof {
        assert(os.len() == split_lines(cs@).len() && (forall|k: int|
            0 <= k < os.len() ==> line_outcome(#[trigger] os[k], split_lines(cs@)[k]))
            && r.snapshots@ == somes_of(os) && r.skipped@ == none_idxs(os));
        crate::laws::lemma_partial_failure_tolerance(os);
    }
    r
}

/// Decodes raw newline-delimited text into the snapshot sequence plus the
/// indices of the skipped lines; each line's outcome is what
/// `line_outcome` owes it.
pub fn decode(text: &str) -> (r: DecodeResult)
    ensures
        exists|os: Seq<Option<Snapshot>>|
            os.len() == split_lines(text@).len() && (forall|k: int|
                0 <= k < os.len() ==> line_outcome(#[trigger] os[k], split_lines(text@)[k]))
                && r.snapshots@ == somes_of(os) && r.skipped@ == none_idxs(os),
        r.snapshots@.len() + r.skipped@.len() == split_lines(text@).len(),
        forall|a: int, b: int|
            0 <= a < b < r.skipped@.len() ==> r.skipped@[a] < r.skipped@[b],
        forall|k: int|
            0 <= k < r.skipped@.len() ==> (r.skipped@[k] as int) < split_lines(text@).len(),
{
    let cs = str_to_chars(text);
    decode_chars(&cs)
}

} // verus!
