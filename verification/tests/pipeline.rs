use std::collections::HashMap;
use std::io::Cursor;

use mcl::prune::build_activity_index;
use mcl::prune::compute_boundary;
use mcl::prune::compute_keep_set;
use mcl::prune::prune;
use mcl::prune::ActivityIndex;
use mcl::prune::FileOutcome;
use mcl::prune::KeepSet;
use mcl::prune::RegionSource;

fn compound(entries: Vec<(&str, fastnbt::Value)>) -> fastnbt::Value {
    let mut m: HashMap<String, fastnbt::Value> = HashMap::new();
    for (k, v) in entries {
        m.insert(k.to_string(), v);
    }
    fastnbt::Value::Compound(m)
}

fn chunk_payload(inhabited: i64) -> Vec<u8> {
    let root = compound(vec![
        ("DataVersion", fastnbt::Value::Int(2860)),
        ("InhabitedTime", fastnbt::Value::Long(inhabited)),
        ("sections", fastnbt::Value::List(vec![])),
    ]);
    fastnbt::to_bytes(&root).unwrap()
}

fn region_bytes(chunks: &[(usize, usize, Vec<u8>)]) -> Vec<u8> {
    let mut reg = fastanvil::Region::create(Cursor::new(Vec::new())).unwrap();
    for (x, z, data) in chunks {
        reg.write_chunk(*x, *z, data).unwrap();
    }
    reg.into_inner().unwrap().into_inner()
}

fn present_cells(bytes: &[u8]) -> Vec<(usize, usize)> {
    let mut reg = fastanvil::Region::from_stream(Cursor::new(bytes.to_vec())).unwrap();
    let mut found = Vec::new();
    for x in 0..32 {
        for z in 0..32 {
            if let Ok(Some(_)) = reg.read_chunk(x, z) {
                found.push((x, z));
            }
        }
    }
    found
}

fn scenario_region() -> Vec<u8> {
    region_bytes(&[
        (0, 0, chunk_payload(0)),
        (1, 0, chunk_payload(100)),
        (0, 1, chunk_payload(0)),
        (1, 1, chunk_payload(0)),
    ])
}

fn scenario_index() -> ActivityIndex {
    let files = vec![RegionSource { stem: "r.0.0".to_string(), data: scenario_region() }];
    build_activity_index(&files)
}

#[test]
fn index_records_decoded_inhabited_times() {
    let ages = scenario_index();
    assert_eq!(ages.len(), 4);
    assert_eq!(ages.get(0, 0), Some(0));
    assert_eq!(ages.get(1, 0), Some(100));
    assert_eq!(ages.get(0, 1), Some(0));
    assert_eq!(ages.get(1, 1), Some(0));
    assert_eq!(ages.get(2, 2), None);
}

#[test]
fn boundary_of_single_active_chunk() {
    let ages = scenario_index();
    let boundary = compute_boundary(&ages, 50);
    assert_eq!(boundary, vec![(1, 0)]);
}

#[test]
fn keep_set_scenario_zero_buffer() {
    // With a zero buffer only the active chunk survives the decision.
    let ages = scenario_index();
    let boundary = compute_boundary(&ages, 50);
    let keep = compute_keep_set(&ages, &boundary, 50, 0);
    assert_eq!(keep.len(), 1);
    assert!(keep.contains(1, 0));
    assert!(!keep.contains(0, 0));
    assert!(!keep.contains(0, 1));
    assert!(!keep.contains(1, 1));
}

#[test]
fn keep_set_scenario_buffer_ring() {
    // Buffer radius 1.5: squared distances 1, 2 and 1 all lie within 2.25,
    // whose integer floor is 2, so every tracked chunk is retained.
    let ages = scenario_index();
    let boundary = compute_boundary(&ages, 50);
    let keep = compute_keep_set(&ages, &boundary, 50, 2);
    assert_eq!(keep.len(), 4);
    assert!(keep.contains(0, 0));
    assert!(keep.contains(1, 0));
    assert!(keep.contains(0, 1));
    assert!(keep.contains(1, 1));
}

#[test]
fn keep_set_grows_with_buffer() {
    // Enlarging the buffer never shrinks the keep set.
    let ages = scenario_index();
    let boundary = compute_boundary(&ages, 50);
    let small = compute_keep_set(&ages, &boundary, 50, 1);
    let large = compute_keep_set(&ages, &boundary, 50, 2);
    assert!(small.len() <= large.len());
    for (x, z) in [(0i32, 0i32), (1, 0), (0, 1), (1, 1)] {
        if small.contains(x, z) {
            assert!(large.contains(x, z));
        }
    }
    // The buffer of squared radius 1 reaches (0,0) and (1,1) but not (0,1).
    assert!(small.contains(0, 0));
    assert!(small.contains(1, 1));
    assert!(!small.contains(0, 1));
    assert!(large.contains(0, 1));
}

#[test]
fn threshold_edge_is_inclusive() {
    let files = vec![RegionSource {
        stem: "r.0.0".to_string(),
        data: region_bytes(&[(0, 0, chunk_payload(50)), (1, 0, chunk_payload(49))]),
    }];
    let ages = build_activity_index(&files);
    let boundary = compute_boundary(&ages, 50);
    // Exactly at the threshold: active, and on the boundary of activity.
    assert_eq!(boundary, vec![(0, 0)]);
    let keep = compute_keep_set(&ages, &boundary, 50, 0);
    assert!(keep.contains(0, 0));
    // One tick below: inactive, and outside a zero buffer.
    assert!(!keep.contains(1, 0));
}

#[test]
fn prune_scenario_zero_buffer() {
    // Activity {(0,0):0, (1,0):100, (0,1):0, (1,1):0}, threshold 50,
    // buffer 0: everything but the active chunk is removed.
    let files = vec![RegionSource { stem: "r.0.0".to_string(), data: scenario_region() }];
    let report = prune(&files, 50, 0);
    assert_eq!(report.chunks_indexed, 4);
    assert_eq!(report.boundary_count, 1);
    assert_eq!(report.kept_count, 1);
    assert_eq!(report.total_pruned, 3);
    assert_eq!(report.outcomes.len(), 1);
    match &report.outcomes[0] {
        FileOutcome::Done { pruned, rewritten } => {
            assert_eq!(*pruned, 3);
            let bytes = rewritten.as_ref().unwrap();
            assert_eq!(present_cells(bytes), vec![(1, 0)]);
        },
        _ => panic!("expected a completed container"),
    }
}

#[test]
fn prune_scenario_buffer_keeps_everything() {
    // Same activity, buffer radius 1.5 (squared buffer 2): nothing is
    // removed and the container is not rewritten.
    let original = scenario_region();
    let files = vec![RegionSource { stem: "r.0.0".to_string(), data: original.clone() }];
    let report = prune(&files, 50, 2);
    assert_eq!(report.kept_count, 4);
    assert_eq!(report.total_pruned, 0);
    match &report.outcomes[0] {
        FileOutcome::Done { pruned, rewritten } => {
            assert_eq!(*pruned, 0);
            assert!(rewritten.is_none());
        },
        _ => panic!("expected a completed container"),
    }
    // The file's bytes are untouched, so its length is unchanged.
    assert_eq!(files[0].data.len(), original.len());
}

#[test]
fn prune_is_idempotent_on_its_own_output() {
    // Compacting a second time finds the keep set equal to the chunks
    // present and removes nothing.
    let files = vec![RegionSource { stem: "r.0.0".to_string(), data: scenario_region() }];
    let report = prune(&files, 50, 0);
    let rewritten = match &report.outcomes[0] {
        FileOutcome::Done { rewritten: Some(b), .. } => b.clone(),
        _ => panic!("expected rewritten bytes"),
    };
    let files2 = vec![RegionSource { stem: "r.0.0".to_string(), data: rewritten.clone() }];
    let report2 = prune(&files2, 50, 0);
    assert_eq!(report2.total_pruned, 0);
    match &report2.outcomes[0] {
        FileOutcome::Done { pruned, rewritten } => {
            assert_eq!(*pruned, 0);
            assert!(rewritten.is_none());
        },
        _ => panic!("expected a completed container"),
    }
}

#[test]
fn undecodable_chunk_is_never_pruned() {
    // A stored chunk whose payload fails to decode contributes no activity
    // evidence, no boundary point, and always survives compaction.
    let garbage: Vec<u8> = b"not a tagged document".to_vec();
    let files = vec![RegionSource {
        stem: "r.0.0".to_string(),
        data: region_bytes(&[(0, 0, chunk_payload(0)), (2, 2, garbage)]),
    }];
    let ages = build_activity_index(&files);
    assert_eq!(ages.len(), 1);
    assert_eq!(ages.get(2, 2), None);
    let report = prune(&files, 50, 0);
    assert_eq!(report.chunks_indexed, 1);
    assert_eq!(report.boundary_count, 0);
    assert_eq!(report.total_pruned, 1);
    match &report.outcomes[0] {
        FileOutcome::Done { pruned, rewritten } => {
            assert_eq!(*pruned, 1);
            let bytes = rewritten.as_ref().unwrap();
            assert_eq!(present_cells(bytes), vec![(2, 2)]);
        },
        _ => panic!("expected a completed container"),
    }
}

#[test]
fn bad_file_names_fail_that_file_only() {
    let good = RegionSource { stem: "r.0.0".to_string(), data: scenario_region() };
    let bad = RegionSource { stem: "strays".to_string(), data: scenario_region() };
    let files = vec![bad, good];
    let report = prune(&files, 50, 0);
    assert_eq!(report.outcomes.len(), 2);
    assert!(matches!(report.outcomes[0], FileOutcome::BadName));
    assert!(matches!(report.outcomes[1], FileOutcome::Done { pruned: 3, .. }));
    assert_eq!(report.total_pruned, 3);
}

#[test]
fn unreadable_container_contributes_nothing() {
    let junk = RegionSource { stem: "r.9.9".to_string(), data: vec![1, 2, 3] };
    let good = RegionSource { stem: "r.0.0".to_string(), data: scenario_region() };
    let files = vec![junk, good];
    let report = prune(&files, 50, 0);
    assert_eq!(report.chunks_indexed, 4);
    match &report.outcomes[0] {
        FileOutcome::Done { pruned, rewritten } => {
            assert_eq!(*pruned, 0);
            assert!(rewritten.is_none());
        },
        _ => panic!("an unopenable container counts zero removals"),
    }
}

#[test]
fn activity_spans_region_files() {
    // The active chunk sits at the east edge of r.0.0; its world coordinate
    // (31, 0) is derived as region·32 + offset, so the inactive chunk at
    // world (32, 0) — local (0, 0) of r.1.0 — is one step away and falls
    // inside a buffer of squared radius 1.
    let files = vec![
        RegionSource {
            stem: "r.0.0".to_string(),
            data: region_bytes(&[(31, 0, chunk_payload(100))]),
        },
        RegionSource {
            stem: "r.1.0".to_string(),
            data: region_bytes(&[(0, 0, chunk_payload(0)), (1, 0, chunk_payload(0))]),
        },
    ];
    let ages = build_activity_index(&files);
    assert_eq!(ages.len(), 3);
    assert_eq!(ages.get(31, 0), Some(100));
    assert_eq!(ages.get(32, 0), Some(0));
    assert_eq!(ages.get(33, 0), Some(0));
    let report = prune(&files, 50, 1);
    assert_eq!(report.boundary_count, 1);
    assert_eq!(report.kept_count, 2);
    // Only world (33, 0) is beyond the buffer.
    assert_eq!(report.total_pruned, 1);
    match &report.outcomes[1] {
        FileOutcome::Done { pruned, rewritten } => {
            assert_eq!(*pruned, 1);
            assert_eq!(present_cells(rewritten.as_ref().unwrap()), vec![(0, 0)]);
        },
        _ => panic!("expected a completed container"),
    }
    match &report.outcomes[0] {
        FileOutcome::Done { pruned, rewritten } => {
            assert_eq!(*pruned, 0);
            assert!(rewritten.is_none());
        },
        _ => panic!("expected a completed container"),
    }
}

#[test]
fn oversized_region_coordinates_fail_that_file() {
    let files = vec![RegionSource {
        stem: "r.999999999.0".to_string(),
        data: scenario_region(),
    }];
    let report = prune(&files, 50, 0);
    assert!(matches!(report.outcomes[0], FileOutcome::NameOutOfRange));
    assert_eq!(report.chunks_indexed, 0);
    assert_eq!(report.total_pruned, 0);
}

#[test]
fn nesting_bomb_chunk_is_preserved() {
    // A chunk payload that is one long chain of nested compounds must be
    // treated as undecodable: no activity evidence, never removed, and the
    // run neither aborts nor crashes.
    let mut bomb: Vec<u8> = vec![0x0A, 0, 0];
    for _ in 0..300 {
        bomb.extend_from_slice(&[0x0A, 0, 0]);
    }
    for _ in 0..301 {
        bomb.push(0x00);
    }
    let files = vec![RegionSource {
        stem: "r.0.0".to_string(),
        data: region_bytes(&[(0, 0, chunk_payload(0)), (3, 3, bomb)]),
    }];
    let ages = build_activity_index(&files);
    assert_eq!(ages.len(), 1);
    assert_eq!(ages.get(3, 3), None);
    let report = prune(&files, 50, 0);
    assert_eq!(report.total_pruned, 1);
    match &report.outcomes[0] {
        FileOutcome::Done { pruned, rewritten } => {
            assert_eq!(*pruned, 1);
            assert_eq!(present_cells(rewritten.as_ref().unwrap()), vec![(3, 3)]);
        },
        _ => panic!("expected a completed container"),
    }
}

/// Byte offset of the stored chunk of header cell 0 (local (0,0)).
fn cell0_chunk_offset(data: &[u8]) -> usize {
    (((data[0] as usize) << 16) | ((data[1] as usize) << 8) | (data[2] as usize)) * 4096
}

#[test]
fn sane_container_passes_the_header_check() {
    let data = scenario_region();
    assert!(mcl::region::container_wf(&data));
    assert!(!mcl::region::container_wf(&vec![0u8; 100]));
}

#[test]
fn zero_length_field_is_treated_as_unopenable() {
    // A stored length of zero would underflow the codec's length-minus-one
    // arithmetic; the container must be rejected up front, not read.
    let mut data = region_bytes(&[(0, 0, chunk_payload(100))]);
    let p = cell0_chunk_offset(&data);
    data[p] = 0;
    data[p + 1] = 0;
    data[p + 2] = 0;
    data[p + 3] = 0;
    assert!(!mcl::region::container_wf(&data));
    let files = vec![RegionSource { stem: "r.0.0".to_string(), data }];
    let report = prune(&files, 50, 0);
    assert_eq!(report.chunks_indexed, 0);
    assert_eq!(report.total_pruned, 0);
    match &report.outcomes[0] {
        FileOutcome::Done { pruned, rewritten } => {
            assert_eq!(*pruned, 0);
            assert!(rewritten.is_none());
        },
        _ => panic!("an ill-formed container counts zero removals"),
    }
}

#[test]
fn huge_length_field_is_treated_as_unopenable() {
    // A stored length at the 32-bit maximum would overflow the codec's
    // length-plus-four arithmetic while flushing.
    let mut data = region_bytes(&[(0, 0, chunk_payload(100))]);
    let p = cell0_chunk_offset(&data);
    data[p] = 0xFF;
    data[p + 1] = 0xFF;
    data[p + 2] = 0xFF;
    data[p + 3] = 0xFF;
    assert!(!mcl::region::container_wf(&data));
    let files = vec![RegionSource { stem: "r.0.0".to_string(), data }];
    let report = prune(&files, 50, 0);
    assert_eq!(report.chunks_indexed, 0);
    assert!(matches!(report.outcomes[0], FileOutcome::Done { pruned: 0, .. }));
}

#[test]
fn lying_length_field_is_treated_as_unopenable() {
    // A length that claims bytes past the end of the buffer would make the
    // rewrite round trip return different payloads.
    let mut data = region_bytes(&[(0, 0, chunk_payload(100))]);
    let p = cell0_chunk_offset(&data);
    data[p] = 0x00;
    data[p + 1] = 0x10;
    data[p + 2] = 0x00;
    data[p + 3] = 0x00;
    assert!(!mcl::region::container_wf(&data));
    let files = vec![RegionSource { stem: "r.0.0".to_string(), data }];
    let report = prune(&files, 50, 0);
    assert_eq!(report.chunks_indexed, 0);
    assert!(matches!(report.outcomes[0], FileOutcome::Done { pruned: 0, .. }));
}

#[test]
fn overlapping_chunks_are_treated_as_unopenable() {
    // Point the header entry of local (1,0) at the same sectors as (0,0).
    let mut data = region_bytes(&[(0, 0, chunk_payload(100)), (1, 0, chunk_payload(0))]);
    let (a, b, c, d) = (data[0], data[1], data[2], data[3]);
    data[4] = a;
    data[5] = b;
    data[6] = c;
    data[7] = d;
    assert!(!mcl::region::container_wf(&data));
    let files = vec![RegionSource { stem: "r.0.0".to_string(), data }];
    let report = prune(&files, 50, 0);
    assert_eq!(report.chunks_indexed, 0);
    assert!(matches!(report.outcomes[0], FileOutcome::Done { pruned: 0, .. }));
}

#[test]
fn keep_set_insert_and_contains() {
    let mut keep = KeepSet::new();
    assert_eq!(keep.len(), 0);
    keep.insert(3, -4);
    keep.insert(3, -4);
    keep.insert(0, 0);
    assert_eq!(keep.len(), 2);
    assert!(keep.contains(3, -4));
    assert!(keep.contains(0, 0));
    assert!(!keep.contains(-4, 3));
}

#[test]
fn activity_index_upsert_overrides() {
    let mut ages = ActivityIndex::new();
    ages.upsert(5, 6, 10);
    ages.upsert(5, 6, 99);
    ages.upsert(7, 8, 1);
    assert_eq!(ages.len(), 2);
    assert_eq!(ages.get(5, 6), Some(99));
    assert_eq!(ages.get(7, 8), Some(1));
}
