use closest_color::color::RawColor;
use closest_color::error::{ColorError, ParaFault};
use closest_color::rank::{closest, rank, ScoredCandidate};
use closest_color::request::{check_algorithm, check_num, parse_para, Metric, ParsedParas};
use palette::color_difference::{Ciede2000, DeltaE, EuclideanDistance};
use palette::{FromColor, Lab, Srgb};

fn lab_of(c: &RawColor) -> Lab {
    let rgb = c.rgb8().unwrap().unwrap();
    Lab::from_color(Srgb::<u8>::from(rgb).into_format::<f32>())
}

fn key_of(d: f32) -> u32 {
    if d == 0.0 {
        0
    } else {
        d.to_bits()
    }
}

fn score(a: &Lab, b: &Lab, m: Metric) -> f32 {
    match m {
        Metric::Ciede2000 => a.difference(*b),
        Metric::DeltaE => a.delta_e(*b),
        Metric::Euclidean => a.distance(*b),
    }
}

fn ranked(p: &ParsedParas, input: usize) -> Vec<ScoredCandidate> {
    let target = lab_of(&p.color[input]);
    let keys: Vec<u32> = p
        .candidate
        .iter()
        .map(|c| key_of(score(&target, &lab_of(&c.1), p.algorithm)))
        .collect();
    rank(&p.candidate, &keys, p.num)
}

fn named(list: &[(&str, &str)]) -> Vec<(Option<String>, String)> {
    list.iter().map(|(n, c)| (Some(n.to_string()), c.to_string())).collect()
}

#[test]
fn closest_orders_by_key_then_position() {
    let keys = vec![5, 3, 5, 1];
    assert_eq!(closest(&keys, 4), vec![3, 1, 0, 2]);
    assert_eq!(closest(&keys, 2), vec![3, 1]);
    assert_eq!(closest(&keys, 0), Vec::<usize>::new());
}

#[test]
fn closest_equal_keys_keep_order() {
    let keys = vec![7, 7, 7];
    assert_eq!(closest(&keys, 3), vec![0, 1, 2]);
}

#[test]
fn ranking_twice_gives_the_same_result() {
    let keys = vec![9, 2, 2, 4, 0, 9];
    assert_eq!(closest(&keys, 6), closest(&keys, 6));
    assert_eq!(closest(&keys, 6), vec![4, 1, 2, 3, 0, 5]);
}

#[test]
fn full_ranking_lists_every_candidate() {
    let p = parse_para(
        vec!["255,0,0".to_string()],
        named(&[("red", "255,0,0"), ("blue", "0,0,255"), ("dark", "#800000")]),
        Some(3),
        Some(3),
    )
    .unwrap();
    let r = ranked(&p, 0);
    let shown: Vec<&str> = r.iter().map(|s| s.display.as_str()).collect();
    assert_eq!(shown, vec!["255,0,0", "#800000", "0,0,255"]);
    assert!(r[0].key <= r[1].key && r[1].key <= r[2].key);
}

#[test]
fn pure_red_matches_red() {
    let p = parse_para(
        vec!["255,0,0".to_string()],
        named(&[("red", "255,0,0"), ("blue", "0,0,255")]),
        Some(1),
        Some(3),
    )
    .unwrap();
    assert_eq!(p.algorithm, Metric::Euclidean);
    let r = ranked(&p, 0);
    assert_eq!(r.len(), 1);
    assert_eq!(r[0].name, Some("red".to_string()));
    assert_eq!(r[0].display, "255,0,0");
    assert_eq!(r[0].key, 0);
    let line = format!("{}({}, {})", r[0].display, r[0].name.as_ref().unwrap(), f32::from_bits(r[0].key));
    assert_eq!(line, "255,0,0(red, 0)");
}

#[test]
fn black_against_white_scores_above_zero() {
    for a in [1u8, 2, 3] {
        let p = parse_para(vec!["#000000".to_string()], named(&[("white", "#ffffff")]), Some(1), Some(a)).unwrap();
        let r = ranked(&p, 0);
        assert_eq!(r.len(), 1);
        assert_eq!(r[0].name, Some("white".to_string()));
        assert!(f32::from_bits(r[0].key) > 0.0);
    }
}

#[test]
fn algorithm_selector() {
    assert_eq!(check_algorithm(None).unwrap(), Metric::Ciede2000);
    assert_eq!(check_algorithm(Some(1)).unwrap(), Metric::Ciede2000);
    assert_eq!(check_algorithm(Some(2)).unwrap(), Metric::DeltaE);
    assert_eq!(check_algorithm(Some(3)).unwrap(), Metric::Euclidean);
    assert!(matches!(check_algorithm(Some(0)), Err(ColorError::ParaError(ParaFault::Algorithm { value: 0 }))));
}

#[test]
fn bad_algorithm_fails_before_colors() {
    let r = parse_para(vec!["not a color".to_string()], named(&[("white", "#ffffff")]), Some(1), Some(4));
    assert!(matches!(r, Err(ColorError::ParaError(ParaFault::Algorithm { value: 4 }))));
}

#[test]
fn num_bounds() {
    assert_eq!(check_num(None, 5).unwrap(), 1);
    assert_eq!(check_num(Some(5), 5).unwrap(), 5);
    assert!(matches!(check_num(Some(0), 5), Err(ColorError::ParaError(ParaFault::NumZero))));
    assert!(matches!(
        check_num(Some(6), 5),
        Err(ColorError::ParaError(ParaFault::NumTooLarge { num: 6, count: 5 }))
    ));
    assert!(matches!(check_num(None, 0), Err(ColorError::ParaError(ParaFault::NumTooLarge { num: 1, count: 0 }))));
}

#[test]
fn request_errors_in_order() {
    let c = named(&[("white", "#ffffff")]);
    let r = parse_para(vec!["1,2".to_string(), "f3".to_string()], c.clone(), Some(1), None);
    assert!(matches!(r, Err(ColorError::ParaError(ParaFault::RgbFieldCount { .. }))));
    let r = parse_para(vec!["f3e".to_string()], named(&[("x", "12345")]), Some(1), None);
    assert!(matches!(r, Err(ColorError::ParaError(ParaFault::HexLength { .. }))));
    let r = parse_para(vec!["f3e".to_string()], c.clone(), Some(2), None);
    assert!(matches!(r, Err(ColorError::ParaError(ParaFault::NumTooLarge { num: 2, count: 1 }))));
    let r = parse_para(vec!["f3e".to_string()], c, Some(0), None);
    assert!(matches!(r, Err(ColorError::ParaError(ParaFault::NumZero))));
}

#[test]
fn request_keeps_names_and_tokens() {
    let cands = vec![(None, "0,0,0".to_string()), (Some("white".to_string()), "#fff".to_string())];
    let p = parse_para(vec!["f3e".to_string(), "0.1,0.2,0.3".to_string()], cands, None, None).unwrap();
    assert_eq!(p.num, 1);
    assert_eq!(p.algorithm, Metric::Ciede2000);
    assert_eq!(p.color.len(), 2);
    assert_eq!(p.color[1].get_raw_color(), "0.1,0.2,0.3");
    assert_eq!(p.candidate[0].0, None);
    assert_eq!(p.candidate[1].0, Some("white".to_string()));
    assert_eq!(p.candidate[1].1.get_raw_color(), "#fff");
}
