use timeline_viewer::decode::decode;
use timeline_viewer::labels::build_index;
use timeline_viewer::matrix::{build_matrix, Cell};
use timeline_viewer::series::extract_series;

fn scenario_text() -> String {
    let l1 = [
        r#"{"Timestamp":"t0","ProcessTree":{"PID":1,"Name":"init","Threads":"#,
        r#"[{"TID":1,"Name":"main","State":"Running"}]},"GPUStatus":[{"GPU_ID":0,"#,
        r#""Name":"gpu0","Load_Percent":50,"Memory_Used_MB":500,"Memory_Total_MB":1000,"#,
        r#""Temperature_C":60,"Driver":"x"}],"CPU_Cores_Total":4}"#,
    ]
    .join("");
    let l3 = [
        r#"{"Timestamp":"t1","ProcessTree":{"PID":1,"Name":"init","Threads":"#,
        r#"[{"TID":1,"Name":"main","State":"Sleeping"}]},"GPUStatus":[{"GPU_ID":0,"#,
        r#""Name":"gpu0","Load_Percent":10,"Memory_Used_MB":500,"Memory_Total_MB":1000,"#,
        r#""Temperature_C":60,"Driver":"x"}],"CPU_Cores_Total":4}"#,
    ]
    .join("");
    format!("{}\nnot json\n{}", l1, l3)
}

#[test]
fn scenario_decode_counts() {
    let r = decode(&scenario_text());
    assert_eq!(r.snapshots.len(), 2);
    assert_eq!(r.skipped, vec![1usize]);
    assert_eq!(r.snapshots[0].timestamp, "t0");
    assert_eq!(r.snapshots[1].timestamp, "t1");
    assert_eq!(r.snapshots[0].cpu_cores_total, 4);
}

#[test]
fn scenario_label_order() {
    let r = decode(&scenario_text());
    let ix = build_index(&r.snapshots);
    let labels: Vec<&str> = ix.labels.iter().map(|s| s.as_str()).collect();
    assert_eq!(labels, vec!["GPU #0", "init (PID 1)", "    └─ main (TID 1)"]);
    assert_eq!(ix.gpu_rows, 1);
    assert_eq!(ix.gpu_ids, vec![0u32]);
}

#[test]
fn scenario_matrix_cells() {
    let r = decode(&scenario_text());
    let ix = build_index(&r.snapshots);
    let m = build_matrix(&r.snapshots, &ix, 0, 1);
    let expected = vec![
        Cell { time: 0, row: 1, value: 1 },
        Cell { time: 0, row: 2, value: 1 },
        Cell { time: 0, row: 0, value: 55 },
        Cell { time: 1, row: 1, value: 1 },
        Cell { time: 1, row: 2, value: 2 },
        Cell { time: 1, row: 0, value: 15 },
    ];
    assert_eq!(m, expected);
}

#[test]
fn scenario_series() {
    let r = decode(&scenario_text());
    let s = extract_series(&r.snapshots, 0, 1);
    assert_eq!(s.gpu_load.len(), 1);
    assert_eq!(s.gpu_load[0].id, 0);
    let load: Vec<(usize, i64)> = s.gpu_load[0].points.iter().map(|p| (p.time, p.value_milli)).collect();
    assert_eq!(load, vec![(0, 50_000), (1, 10_000)]);
    let mem: Vec<(usize, i64)> = s.gpu_mem[0].points.iter().map(|p| (p.time, p.value_milli)).collect();
    assert_eq!(mem, vec![(0, 50_000), (1, 50_000)]);
    let cpu: Vec<(usize, i64)> = s.cpu_util.iter().map(|p| (p.time, p.value_milli)).collect();
    assert_eq!(cpu, vec![(0, 25_000), (1, 0)]);
}

#[test]
fn scenario_value_domains() {
    let r = decode(&scenario_text());
    let ix = build_index(&r.snapshots);
    let m = build_matrix(&r.snapshots, &ix, 0, 1);
    for c in &m {
        assert!(c.value <= 4 || (5 <= c.value && c.value <= 105));
    }
}
