use std::collections::HashMap;
use std::path::Path;

use cfr_export::assemble_model;
use cfr_export::encode_model;
use cfr_export::parse_stack_and_iterations;
use cfr_export::parse_usize;
use cfr_export::quantize_scaled;
use cfr_export::quantize_tensor;
use cfr_export::split_dash_exec;
use cfr_export::to_state_key;
use cfr_export::StateEntry;

/// The whole quantizer as the tool applies it: scale and round in floating
/// point, then clamp in the library.
fn quantize(p: f64) -> u16 {
    quantize_scaled((p * 10_000.0).round() as i64)
}

/// The run parameters as the tool derives them from a path.
fn parse_path(path: &str) -> (Option<f64>, Option<usize>) {
    let (stack_text, iterations) = match Path::new(path).file_stem().and_then(|x| x.to_str()) {
        Some(stem) => parse_stack_and_iterations(stem),
        None => (None, None),
    };
    (stack_text.and_then(|t| t.parse::<f64>().ok()), iterations)
}

fn scale_tensor(t: &[Vec<Vec<f64>>]) -> Vec<Vec<Vec<i64>>> {
    t.iter()
        .map(|m| {
            m.iter()
                .map(|row| row.iter().map(|p| (p * 10_000.0).round() as i64).collect())
                .collect()
        })
        .collect()
}

/// The tool's full transformation of an already decoded payload.
fn export_json(
    table: HashMap<Vec<u8>, Vec<Vec<Vec<f64>>>>,
    ev: f64,
    exploitability: f64,
    path: &str,
) -> String {
    let (stack_bb, iterations) = parse_path(path);
    let stack_text = stack_bb.and_then(|v| serde_json::to_string(&v).ok());
    let ev_text = serde_json::to_string(&ev).unwrap();
    let ex_text = serde_json::to_string(&exploitability).unwrap();
    let scaled: Vec<(Vec<u8>, Vec<Vec<Vec<i64>>>)> =
        table.into_iter().map(|(k, t)| (k, scale_tensor(&t))).collect();
    let model = assemble_model(scaled, stack_text, iterations, ev_text, ex_text);
    encode_model(&model)
}

#[test]
fn quantize_fixed_points() {
    assert_eq!(quantize(0.0), 0);
    assert_eq!(quantize(1.0), 10000);
}

#[test]
fn quantize_bounds_and_saturation() {
    assert_eq!(quantize(-0.5), 0);
    assert_eq!(quantize(1.5), 10000);
    assert_eq!(quantize(f64::NAN), 0);
    assert_eq!(quantize(f64::INFINITY), 10000);
    assert_eq!(quantize(f64::NEG_INFINITY), 0);
    for p in [-1.0, 0.0, 0.25, 0.333333, 0.5, 0.99995, 1.0, 2.0] {
        let q = quantize(p);
        assert!(q <= 10000);
    }
}

#[test]
fn quantize_rounding_half_away_from_zero() {
    assert_eq!(quantize(0.00005), 1);
    assert_eq!(quantize(0.00004), 0);
    assert_eq!(quantize(0.123456), 1235);
    assert_eq!(quantize(0.5), 5000);
}

#[test]
fn quantize_monotone_samples() {
    let samples = [0.0, 0.1, 0.2, 0.25, 0.5, 0.75, 0.9, 1.0];
    for w in samples.windows(2) {
        assert!(quantize(w[0]) <= quantize(w[1]));
    }
}

#[test]
fn state_key_of_empty_is_root() {
    assert_eq!(to_state_key(&vec![]), "root");
}

#[test]
fn state_key_rendering() {
    assert_eq!(to_state_key(&vec![1, 2]), "1-2");
    assert_eq!(to_state_key(&vec![0, 255, 7]), "0-255-7");
    assert_eq!(to_state_key(&vec![10]), "10");
}

#[test]
fn state_key_distinct_for_ambiguous_concatenations() {
    assert_ne!(to_state_key(&vec![1, 23]), to_state_key(&vec![12, 3]));
    assert_ne!(to_state_key(&vec![1]), to_state_key(&vec![1, 1]));
    assert_ne!(to_state_key(&vec![]), to_state_key(&vec![0]));
}

#[test]
fn filename_parsing_full_match() {
    assert_eq!(parse_path("preflop-20-75000.bin"), (Some(20.0), Some(75000)));
}

#[test]
fn filename_parsing_partial_match() {
    assert_eq!(parse_path("preflop-x-75000.bin"), (None, Some(75000)));
    assert_eq!(parse_path("preflop-20-x.bin"), (Some(20.0), None));
}

#[test]
fn filename_parsing_no_match() {
    assert_eq!(parse_path("random.bin"), (None, None));
    assert_eq!(parse_path("preflop-20.bin"), (None, None));
    assert_eq!(parse_path("flop-20-75000.bin"), (None, None));
}

#[test]
fn split_dash_segments() {
    let parts = split_dash_exec("preflop-20-75000");
    assert_eq!(parts, vec!["preflop", "20", "75000"]);
    assert_eq!(split_dash_exec("a--b"), vec!["a", "", "b"]);
    assert_eq!(split_dash_exec(""), vec![""]);
    assert_eq!(split_dash_exec("-x-"), vec!["", "x", ""]);
}

#[test]
fn parse_usize_accepts_decimal_counts() {
    assert_eq!(parse_usize("75000"), Some(75000));
    assert_eq!(parse_usize("+5"), Some(5));
    assert_eq!(parse_usize("0"), Some(0));
    assert_eq!(parse_usize("007"), Some(7));
}

#[test]
fn parse_usize_rejects_bad_input() {
    assert_eq!(parse_usize(""), None);
    assert_eq!(parse_usize("+"), None);
    assert_eq!(parse_usize("12a"), None);
    assert_eq!(parse_usize("-3"), None);
    assert_eq!(parse_usize("1.5"), None);
    assert_eq!(parse_usize("99999999999999999999999999"), None);
}

#[test]
fn state_entry_counts_outer_dimension() {
    let probs = vec![vec![vec![1u16, 2]], vec![vec![3]], vec![vec![4]]];
    let entry = StateEntry::new(probs);
    assert_eq!(entry.num_actions, 3);
    assert_eq!(entry.num_actions, entry.probs_bp.len());
}

#[test]
fn quantize_tensor_preserves_shape() {
    let t = vec![vec![vec![-5i64, 0, 5000], vec![10001, 10000]], vec![vec![2500]]];
    let q = quantize_tensor(&t);
    assert_eq!(q, vec![vec![vec![0u16, 0, 5000], vec![10000, 10000]], vec![vec![2500]]]);
}

#[test]
fn assembled_entries_hold_structural_invariant() {
    let table = vec![
        (vec![1u8], vec![vec![vec![100i64]], vec![vec![200]]]),
        (vec![2u8], vec![vec![vec![300i64]]]),
    ];
    let model = assemble_model(table, None, None, "0.0".to_string(), "0.0".to_string());
    for (_, entry) in &model.states {
        assert_eq!(entry.num_actions, entry.probs_bp.len());
    }
}

#[test]
fn end_to_end_scenario() {
    let mut table: HashMap<Vec<u8>, Vec<Vec<Vec<f64>>>> = HashMap::new();
    table.insert(vec![1, 2], vec![vec![vec![0.5, 0.5]]]);
    let json = export_json(table, 1.23, 0.004, "preflop-20-75000.bin");
    let expected = "{\"meta\":{\"source\":\"https://github.com/b-inary/poker-cfr\",\"license\":\"BSD-2-Clause\",\"stack_bb\":20.0,\"iterations\":75000,\"ev_sb_bb\":1.23,\"exploitability_bb\":0.004,\"scale\":\"basis_points_0_to_10000\"},\"states\":{\"1-2\":{\"num_actions\":1,\"probs_bp\":[[[5000,5000]]]}}}";
    assert_eq!(json, expected);
}

#[test]
fn end_to_end_through_binary_codec() {
    let mut table: HashMap<Vec<u8>, Vec<Vec<Vec<f64>>>> = HashMap::new();
    table.insert(vec![1, 2], vec![vec![vec![0.5, 0.5]]]);
    let payload = (table, 1.23f64, 0.004f64);
    let bytes = bincode::serialize(&payload).unwrap();
    let decoded: (HashMap<Vec<u8>, Vec<Vec<Vec<f64>>>>, f64, f64) =
        bincode::deserialize(&bytes).unwrap();
    let json = export_json(decoded.0, decoded.1, decoded.2, "preflop-20-75000.bin");
    assert!(json.contains("\"1-2\":{\"num_actions\":1,\"probs_bp\":[[[5000,5000]]]}"));
    assert!(json.contains("\"stack_bb\":20.0"));
    assert!(json.contains("\"iterations\":75000"));
}

#[test]
fn output_sorted_by_canonical_key() {
    let mut table: HashMap<Vec<u8>, Vec<Vec<Vec<f64>>>> = HashMap::new();
    table.insert(vec![2], vec![vec![vec![1.0]]]);
    table.insert(vec![10], vec![vec![vec![0.0]]]);
    table.insert(vec![], vec![vec![vec![0.5]]]);
    let json = export_json(table, 0.0, 0.0, "x.bin");
    let p10 = json.find("\"10\":").unwrap();
    let p2 = json.find("\"2\":").unwrap();
    let proot = json.find("\"root\":").unwrap();
    assert!(p10 < p2 && p2 < proot);
}

#[test]
fn output_independent_of_insertion_order() {
    let rows: Vec<(Vec<u8>, Vec<Vec<Vec<i64>>>)> = vec![
        (vec![], vec![vec![vec![5000]]]),
        (vec![2], vec![vec![vec![10000]]]),
        (vec![10], vec![vec![vec![0]]]),
        (vec![1, 2], vec![vec![vec![2500, 7500]]]),
    ];
    let mut reversed = rows.clone();
    reversed.reverse();
    let m1 = assemble_model(rows, None, Some(9), "1.0".to_string(), "2.0".to_string());
    let m2 = assemble_model(reversed, None, Some(9), "1.0".to_string(), "2.0".to_string());
    assert_eq!(encode_model(&m1), encode_model(&m2));
}

#[test]
fn rerun_gives_identical_output() {
    let mut table: HashMap<Vec<u8>, Vec<Vec<Vec<f64>>>> = HashMap::new();
    for k in 0u8..40 {
        table.insert(vec![k, k.wrapping_mul(7)], vec![vec![vec![k as f64 / 40.0]]]);
    }
    let first = export_json(table.clone(), 0.125, 0.25, "preflop-100-123.bin");
    let second = export_json(table, 0.125, 0.25, "preflop-100-123.bin");
    assert_eq!(first, second);
}

#[test]
fn meta_without_run_parameters_encodes_nulls() {
    let model = assemble_model(vec![], None, None, "null".to_string(), "null".to_string());
    let json = encode_model(&model);
    let expected = "{\"meta\":{\"source\":\"https://github.com/b-inary/poker-cfr\",\"license\":\"BSD-2-Clause\",\"stack_bb\":null,\"iterations\":null,\"ev_sb_bb\":null,\"exploitability_bb\":null,\"scale\":\"basis_points_0_to_10000\"},\"states\":{}}";
    assert_eq!(json, expected);
}
