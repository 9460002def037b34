use timeline_viewer::decode::decode;
use timeline_viewer::labels::build_index;
use timeline_viewer::matrix::build_matrix;
use timeline_viewer::model::{GpuStatus, Process, Snapshot, Thread};
use timeline_viewer::orchestrator::Orchestrator;
use timeline_viewer::series::extract_series;

fn gpu(id: u32, load_milli: i64, used_milli: i64, total_milli: i64) -> GpuStatus {
    GpuStatus {
        id,
        name: format!("gpu{}", id),
        load_milli_percent: load_milli,
        mem_used_milli_mb: used_milli,
        mem_total_milli_mb: total_milli,
        temperature_milli_c: 60_000,
        driver: String::from("d"),
    }
}

fn thread(tid: u32, name: &str, state: &str) -> Thread {
    Thread { tid, name: Some(String::from(name)), state: Some(String::from(state)) }
}

fn leaf(pid: u32, name: &str, threads: Vec<Thread>) -> Process {
    Process { pid, name: String::from(name), cmd: None, threads, children: Vec::new() }
}

fn snap(name: &str, threads: Vec<Thread>, gpus: Vec<GpuStatus>, cores: u32) -> Snapshot {
    Snapshot {
        timestamp: String::from("t"),
        process_tree: leaf(1, name, threads),
        gpu_status: gpus,
        cpu_cores_total: cores,
    }
}

#[test]
fn partial_failure_tolerance() {
    let text = "not json\n\
                {\"Timestamp\":\"a\",\"ProcessTree\":{\"PID\":1,\"Name\":\"p\"}}\n\
                {broken\n\
                {\"Timestamp\":\"b\",\"ProcessTree\":{\"PID\":2,\"Name\":\"q\"}}\n\
                \n\
                {\"Timestamp\":\"c\",\"ProcessTree\":{\"PID\":3,\"Name\":\"r\"}}";
    let r = decode(text);
    assert_eq!(r.snapshots.len(), 3);
    assert_eq!(r.skipped, vec![0usize, 2, 4]);
    let order: Vec<&str> = r.snapshots.iter().map(|s| s.timestamp.as_str()).collect();
    assert_eq!(order, vec!["a", "b", "c"]);
}

#[test]
fn decode_empty_input() {
    let r = decode("");
    assert_eq!(r.snapshots.len(), 0);
    assert_eq!(r.skipped.len(), 0);
}

#[test]
fn decode_defaults_apply() {
    let r = decode("{\"Timestamp\":\"a\",\"ProcessTree\":{\"PID\":7,\"Name\":\"p\"}}");
    assert_eq!(r.snapshots.len(), 1);
    let s = &r.snapshots[0];
    assert_eq!(s.gpu_status.len(), 0);
    assert_eq!(s.cpu_cores_total, 0);
    assert_eq!(s.process_tree.pid, 7);
    assert!(s.process_tree.threads.is_empty());
    assert!(s.process_tree.children.is_empty());
}

#[test]
fn decode_fractional_load() {
    let text = [
        r#"{"Timestamp":"a","ProcessTree":{"PID":1,"Name":"p"},"GPUStatus":"#,
        r#"[{"GPU_ID":0,"Name":"g","Load_Percent":50.5,"Memory_Used_MB":1.25,"#,
        r#""Memory_Total_MB":2,"Temperature_C":60,"Driver":"d"}]}"#,
    ]
    .join("");
    let r = decode(&text);
    assert_eq!(r.snapshots.len(), 1);
    let g = &r.snapshots[0].gpu_status[0];
    assert_eq!(g.load_milli_percent, 50_500);
    assert_eq!(g.mem_used_milli_mb, 1_250);
    let s = extract_series(&r.snapshots, 0, 0);
    // 1.25 / 2 * 100 = 62.5 percent
    assert_eq!(s.gpu_mem[0].points[0].value_milli, 62_500);
}

#[test]
fn gpu_rows_sorted_ascending_across_snapshots() {
    let snaps = vec![
        snap("p", vec![], vec![gpu(2, 0, 0, 0), gpu(0, 0, 0, 0)], 1),
        snap("p", vec![], vec![gpu(7, 0, 0, 0), gpu(1, 0, 0, 0)], 1),
    ];
    let ix = build_index(&snaps);
    assert_eq!(ix.gpu_ids, vec![0u32, 1, 2, 7]);
    assert_eq!(ix.gpu_rows, 4);
    let heads: Vec<&str> = ix.labels[..4].iter().map(|s| s.as_str()).collect();
    assert_eq!(heads, vec!["GPU #0", "GPU #1", "GPU #2", "GPU #7"]);
    // every GPU row lies strictly before any process row
    assert_eq!(ix.labels[4], "p (PID 1)");
}

#[test]
fn label_stability_on_replay() {
    let line = r#"{"Timestamp":"a","ProcessTree":{"PID":1,"Name":"p","Threads":[{"TID":9,"Name":"w","State":"Running"}]}}"#;
    let once = decode(line);
    let twice = decode(&format!("{}\n{}", line, line));
    let ix1 = build_index(&once.snapshots);
    let ix2 = build_index(&twice.snapshots);
    assert_eq!(ix1.labels, ix2.labels);
    assert_eq!(ix1.gpu_rows, ix2.gpu_rows);
}

#[test]
fn hierarchy_flattening_order() {
    let text = [
        r#"{"Timestamp":"a","ProcessTree":{"PID":1,"Name":"init","Threads":"#,
        r#"[{"TID":2,"Name":"w","State":"Sleeping"}],"Children":[{"PID":3,"Name":"child"}]}}"#,
        "\n",
        r#"{"Timestamp":"b","ProcessTree":{"PID":1,"Name":"init","Threads":"#,
        r#"[{"TID":4,"Name":"late","State":"Running"}],"Children":[{"PID":5,"Name":"second"}]}}"#,
    ]
    .join("");
    let r = decode(&text);
    let ix = build_index(&r.snapshots);
    let labels: Vec<&str> = ix.labels.iter().map(|s| s.as_str()).collect();
    // first-seen children keep their place; a later thread label still
    // attaches to its owning node, after earlier children
    assert_eq!(
        labels,
        vec![
            "init (PID 1)",
            "    └─ w (TID 2)",
            "    └─ child (PID 3)",
            "    └─ late (TID 4)",
            "    └─ second (PID 5)",
        ]
    );
}

#[test]
fn window_degeneracy_yields_empty() {
    let mut snaps = Vec::new();
    for _ in 0..10 {
        snaps.push(snap("p", vec![thread(1, "t", "Running")], vec![gpu(0, 50_000, 0, 0)], 2));
    }
    let ix = build_index(&snaps);
    let m = build_matrix(&snaps, &ix, 5, 2);
    assert!(m.is_empty());
    let s = extract_series(&snaps, 5, 2);
    assert!(s.gpu_load.is_empty());
    assert!(s.gpu_mem.is_empty());
    assert!(s.cpu_util.is_empty());
}

#[test]
fn window_clamps_to_sequence_end() {
    let snaps = vec![snap("p", vec![], vec![gpu(0, 40_000, 0, 0)], 1)];
    let ix = build_index(&snaps);
    let m = build_matrix(&snaps, &ix, 0, 9);
    assert_eq!(m.len(), 2); // one process cell, one gpu cell
    let m2 = build_matrix(&snaps, &ix, 3, 9);
    assert!(m2.is_empty());
}

#[test]
fn division_by_zero_guards() {
    let snaps = vec![snap(
        "p",
        vec![thread(1, "t", "Running")],
        vec![gpu(0, 10_000, 500_000, 0)],
        0,
    )];
    let s = extract_series(&snaps, 0, 0);
    // zero total memory yields exactly 0 percent
    assert_eq!(s.gpu_mem[0].points[0].value_milli, 0);
    // zero cores is floored to one core: 1 running thread => 100%
    assert_eq!(s.cpu_util[0].value_milli, 100_000);
}

#[test]
fn cpu_utilization_can_exceed_hundred_percent() {
    let snaps = vec![snap(
        "p",
        vec![thread(1, "a", "Running"), thread(2, "b", "Running"), thread(3, "c", "Running")],
        vec![],
        1,
    )];
    let s = extract_series(&snaps, 0, 0);
    assert_eq!(s.cpu_util[0].value_milli, 300_000);
}

#[test]
fn load_values_clamped_into_band() {
    let snaps = vec![snap(
        "p",
        vec![],
        vec![gpu(0, -5_000, 0, 0), gpu(1, 150_000, 0, 0), gpu(2, 100_000, 0, 0)],
        1,
    )];
    let ix = build_index(&snaps);
    let m = build_matrix(&snaps, &ix, 0, 0);
    let gpu_values: Vec<u8> = m.iter().filter(|c| c.row < 3).map(|c| c.value).collect();
    assert_eq!(gpu_values, vec![5, 105, 105]);
}

#[test]
fn thread_state_codes() {
    let snaps = vec![snap(
        "p",
        vec![
            thread(1, "a", "Running"),
            thread(2, "b", "Sleeping"),
            thread(3, "c", "Zombie"),
            thread(4, "d", "T (stopped)"),
            thread(5, "e", "weird"),
            Thread { tid: 6, name: None, state: None },
        ],
        vec![],
        1,
    )];
    let ix = build_index(&snaps);
    let m = build_matrix(&snaps, &ix, 0, 0);
    let codes: Vec<u8> = m.iter().skip(1).map(|c| c.value).collect();
    assert_eq!(codes, vec![1, 2, 3, 4, 0, 0]);
}

#[test]
fn repeated_extraction_is_identical() {
    let r = decode(
        r#"{"Timestamp":"a","ProcessTree":{"PID":1,"Name":"p","Threads":[{"TID":1,"Name":"t","State":"Running"}]},"GPUStatus":[{"GPU_ID":3,"Name":"g","Load_Percent":42,"Memory_Used_MB":10,"Memory_Total_MB":40,"Temperature_C":70,"Driver":"d"}],"CPU_Cores_Total":8}"#,
    );
    let ix1 = build_index(&r.snapshots);
    let ix2 = build_index(&r.snapshots);
    assert_eq!(ix1.labels, ix2.labels);
    let m1 = build_matrix(&r.snapshots, &ix1, 0, 0);
    let m2 = build_matrix(&r.snapshots, &ix2, 0, 0);
    assert_eq!(m1, m2);
    let s1 = extract_series(&r.snapshots, 0, 0);
    let s2 = extract_series(&r.snapshots, 0, 0);
    assert_eq!(s1, s2);
}

#[test]
fn orchestrator_load_and_window() {
    let mut o = Orchestrator::new();
    o.load("{\"Timestamp\":\"a\",\"ProcessTree\":{\"PID\":1,\"Name\":\"p\"}}\nbad\n{\"Timestamp\":\"b\",\"ProcessTree\":{\"PID\":1,\"Name\":\"p\"}}");
    assert_eq!(o.snapshots.len(), 2);
    assert_eq!(o.skipped, vec![1usize]);
    assert_eq!((o.min_time, o.max_time), (0, 1));
    o.set_min(5);
    o.set_max(2);
    let out = o.compute();
    assert!(out.matrix.is_empty());
    assert!(out.time_labels.is_empty());
    assert_eq!(out.window, (5, 2));
}

#[test]
fn orchestrator_empty_load_collapses_window() {
    let mut o = Orchestrator::new();
    o.load("garbage");
    assert_eq!(o.snapshots.len(), 0);
    assert_eq!(o.skipped, vec![0usize]);
    assert_eq!((o.min_time, o.max_time), (0, 0));
    let out = o.compute();
    assert_eq!(out.index.labels.len(), 0);
    assert!(out.matrix.is_empty());
}

#[test]
fn orchestrator_last_writer_wins() {
    let mut o = Orchestrator::new();
    let g1 = o.begin_load();
    let g2 = o.begin_load();
    assert!(g2 > g1);
    // the stale completion is dropped
    let applied_old = o.complete_load(g1, "{\"Timestamp\":\"old\",\"ProcessTree\":{\"PID\":1,\"Name\":\"p\"}}");
    assert!(!applied_old);
    assert_eq!(o.snapshots.len(), 0);
    // the most recently started read applies
    let applied_new = o.complete_load(g2, "{\"Timestamp\":\"new\",\"ProcessTree\":{\"PID\":1,\"Name\":\"p\"}}");
    assert!(applied_new);
    assert_eq!(o.snapshots.len(), 1);
    assert_eq!(o.snapshots[0].timestamp, "new");
}

#[test]
fn time_axis_labels() {
    let mut o = Orchestrator::new();
    o.load("{\"Timestamp\":\"a\",\"ProcessTree\":{\"PID\":1,\"Name\":\"p\"}}\n{\"Timestamp\":\"b\",\"ProcessTree\":{\"PID\":1,\"Name\":\"p\"}}\n{\"Timestamp\":\"c\",\"ProcessTree\":{\"PID\":1,\"Name\":\"p\"}}");
    let out = o.compute();
    let tl: Vec<&str> = out.time_labels.iter().map(|s| s.as_str()).collect();
    assert_eq!(tl, vec!["T0", "T1", "T2"]);
}

#[test]
fn crlf_lines_are_handled() {
    let r = decode("{\"Timestamp\":\"a\",\"ProcessTree\":{\"PID\":1,\"Name\":\"p\"}}\r\n{\"Timestamp\":\"b\",\"ProcessTree\":{\"PID\":1,\"Name\":\"p\"}}\r\n");
    assert_eq!(r.snapshots.len(), 2);
    assert_eq!(r.skipped.len(), 0);
}

#[test]
fn first_seen_gpu_order_in_series() {
    let snaps = vec![
        snap("p", vec![], vec![gpu(5, 1_000, 0, 0)], 1),
        snap("p", vec![], vec![gpu(2, 2_000, 0, 0), gpu(5, 3_000, 0, 0)], 1),
    ];
    let s = extract_series(&snaps, 0, 1);
    let ids: Vec<u32> = s.gpu_load.iter().map(|e| e.id).collect();
    assert_eq!(ids, vec![5, 2]);
    let five: Vec<(usize, i64)> = s.gpu_load[0].points.iter().map(|p| (p.time, p.value_milli)).collect();
    assert_eq!(five, vec![(0, 1_000), (1, 3_000)]);
}

#[test]
fn multi_digit_labels() {
    let snaps = vec![snap("p", vec![], vec![gpu(123, 0, 0, 0)], 1)];
    let ix = build_index(&snaps);
    assert_eq!(ix.labels[0], "GPU #123");
    let mut o = Orchestrator::new();
    o.load(
        &(0..12)
            .map(|_| String::from("{\"Timestamp\":\"a\",\"ProcessTree\":{\"PID\":1,\"Name\":\"p\"}}"))
            .collect::<Vec<String>>()
            .join("\n"),
    );
    let out = o.compute();
    assert_eq!(out.time_labels.last().map(|s| s.as_str()), Some("T11"));
}

#[test]
fn nameless_thread_label() {
    let snaps = vec![snap(
        "p",
        vec![Thread { tid: 9, name: None, state: Some(String::from("Running")) }],
        vec![],
        1,
    )];
    let ix = build_index(&snaps);
    assert_eq!(ix.labels[1], "    └─  (TID 9)");
}

#[test]
fn deeply_nested_line_is_skipped_not_fatal() {
    let mut inner = String::from("{\"PID\":1,\"Name\":\"p\"}");
    for _ in 0..200 {
        inner = format!("{{\"PID\":1,\"Name\":\"p\",\"Children\":[{}]}}", inner);
    }
    let deep = format!("{{\"Timestamp\":\"a\",\"ProcessTree\":{}}}", inner);
    let text = format!("{}\n{{\"Timestamp\":\"b\",\"ProcessTree\":{{\"PID\":2,\"Name\":\"q\"}}}}", deep);
    // the over-deep line becomes one diagnostic; the load itself survives
    let r = decode(&text);
    assert_eq!(r.snapshots.len(), 1);
    assert_eq!(r.snapshots[0].timestamp, "b");
    assert_eq!(r.skipped, vec![0usize]);
    // a modest nesting depth decodes fine
    let mut inner2 = String::from("{\"PID\":1,\"Name\":\"p\"}");
    for _ in 0..30 {
        inner2 = format!("{{\"PID\":1,\"Name\":\"p\",\"Children\":[{}]}}", inner2);
    }
    let line2 = format!("{{\"Timestamp\":\"a\",\"ProcessTree\":{}}}", inner2);
    let r2 = decode(&line2);
    assert_eq!(r2.snapshots.len(), 1);
    assert!(r2.skipped.is_empty());
}
