use blazing_encoders::column::{ColumnPlan, ColumnTargetEncoder};
use blazing_encoders::error::EncodeError;
use blazing_encoders::group::group_by_category;
use blazing_encoders::key::{category_key, positive};
use blazing_encoders::matrix::{extract_column, MatrixEncoder};
use blazing_encoders::strategy::{degrees_of_freedom, Encoders, GroupRule};

fn bits(v: &[f64]) -> Vec<u64> {
    v.iter().map(|x| x.to_bits()).collect()
}

fn floats(v: &[u64]) -> Vec<f64> {
    v.iter().map(|b| f64::from_bits(*b)).collect()
}

fn matrix_bits(rows: &[&[f64]]) -> Vec<Vec<u64>> {
    rows.iter().map(|r| bits(r)).collect()
}

fn mean(v: &[f64]) -> f64 {
    let mut m = 0.0;
    for (i, x) in v.iter().enumerate() {
        m += (x - m) / (i + 1) as f64;
    }
    m
}

fn variance(v: &[f64], ddof: usize) -> f64 {
    let dof = degrees_of_freedom(v.len(), ddof).unwrap();
    let m = mean(v);
    v.iter().map(|x| (x - m) * (x - m)).sum::<f64>() / dof as f64
}

/// The value of each group under its rule, in f64 arithmetic.
fn blend(plan: &ColumnPlan, target: &[f64]) -> Vec<u64> {
    let prior = mean(target);
    let global_var = variance(target, 1);
    plan.groups
        .iter()
        .zip(plan.rules.iter())
        .map(|(g, rule)| {
            let t = floats(&g.targets);
            let m = mean(&t);
            let v = match *rule {
                GroupRule::Prior => prior,
                GroupRule::Sigmoid { count, min_samples_leaf, smoothing } => {
                    let s = f64::from_bits(smoothing);
                    let e = -(count as f64 - min_samples_leaf as f64) / s;
                    let w = 1.0 / (1.0 + e.exp());
                    prior * (1.0 - w) + m * w
                }
                GroupRule::Shrink { categories } => {
                    let local = variance(&t, 1);
                    let k = categories as f64;
                    let b = (1.0 - local / (global_var + local) * (k - 3.0) / (k - 1.0))
                        .clamp(0.0, 1.0);
                    b * m + (1.0 - b) * prior
                }
            };
            v.to_bits()
        })
        .collect()
}

fn sigmoid(min_samples_leaf: usize, smoothing: f64) -> Encoders {
    Encoders::new_target_encoder(min_samples_leaf, smoothing.to_bits()).unwrap()
}

fn fit_column(x: &[f64], y: &[f64], enc: &Encoders) -> ColumnTargetEncoder {
    let plan = ColumnTargetEncoder::plan(&bits(x), &bits(y), enc).unwrap();
    let blended = blend(&plan, y);
    ColumnTargetEncoder::fit(&plan, mean(y).to_bits(), &blended)
}

fn fit_matrix(data: &[&[f64]], y: &[f64], enc: &Encoders) -> MatrixEncoder {
    let plans = MatrixEncoder::plan(&matrix_bits(data), &bits(y), enc).unwrap();
    let blended: Vec<Vec<u64>> = plans.iter().map(|p| blend(p, y)).collect();
    MatrixEncoder::fit(&plans, mean(y).to_bits(), &blended)
}

const X: [f64; 7] = [0., 1., 1., 0., 3., 0., 1.];
const Y: [f64; 7] = [1., 2., 2., 1., 0., 1., 2.];

#[test]
fn test_fit_one_column() {
    let encoder = fit_column(&X, &Y, &sigmoid(1, 1.0));
    let actual = floats(&encoder.transform(&bits(&X)).unwrap());
    let expected = [
        1.0340579777206051,
        1.9148550556984874,
        1.9148550556984874,
        1.0340579777206051,
        1.2857142857142858,
        1.0340579777206051,
        1.9148550556984874,
    ];
    for (e, a) in expected.iter().zip(actual.iter()) {
        assert!((e - a).abs() < 1e-4, "{} {}", e, a);
    }
}

#[test]
fn test_fit_one_column_james_stein() {
    let plan = ColumnTargetEncoder::plan(&bits(&X), &bits(&Y), &Encoders::new_james_stein_encoder())
        .unwrap();
    assert_eq!(plan.groups.len(), 3);
    for rule in plan.rules.iter() {
        assert_eq!(*rule, GroupRule::Shrink { categories: 3 });
    }
    let blended = blend(&plan, &Y);
    let encoder = ColumnTargetEncoder::fit(&plan, mean(&Y).to_bits(), &blended);
    let actual = floats(&encoder.transform(&bits(&X)).unwrap());
    let expected = [
        1.0340579777206051,
        1.9148550556984874,
        1.9148550556984874,
        1.0340579777206051,
        1.2857142857142858,
        1.0340579777206051,
        1.9148550556984874,
    ];
    for (e, a) in expected.iter().zip(actual.iter()) {
        println!("{} {}", e, a);
    }
}

#[test]
fn test_fit_one_category() {
    let fit_rows: Vec<&[f64]> = (0..7).map(|_| &[0.0; 7][..]).collect();
    let encoder = fit_matrix(&fit_rows, &Y, &sigmoid(1, 1.0));
    let rows: Vec<&[f64]> = (0..10).map(|_| &[0.0; 7][..]).collect();
    let out = encoder.transform(&matrix_bits(&rows)).unwrap();
    assert_eq!(out.len(), 10);
    for row in out.iter() {
        assert_eq!(row.len(), 7);
        for cell in floats(row) {
            assert!((cell - 1.2857142857142858).abs() < 1e-8);
        }
    }
}

const A: [[f64; 5]; 5] = [
    [2., 6., 3., 5., 4.],
    [3., 2., 2., 5., 3.],
    [8., 4., 5., 3., 1.],
    [5., 0., 2., 4., 9.],
    [9., 5., 2., 0., 7.],
];
const B: [f64; 5] = [0.48263811, 0.16705367, 0.32397016, 0.10172379, 0.54362169];

fn a_rows() -> Vec<&'static [f64]> {
    A.iter().map(|r| &r[..]).collect()
}

#[test]
fn test_fit_compare_category_encoders() {
    let expected = [
        [0.32380149, 0.32380149, 0.32380149, 0.32456501, 0.32380149],
        [0.32380149, 0.32380149, 0.27711768, 0.32456501, 0.32380149],
        [0.32380149, 0.32380149, 0.32380149, 0.32380149, 0.32380149],
        [0.32380149, 0.32380149, 0.27711768, 0.32380149, 0.32380149],
        [0.32380149, 0.32380149, 0.27711768, 0.32380149, 0.32380149],
    ];
    let encoder = fit_matrix(&a_rows(), &B, &sigmoid(1, 1.0));
    let out = encoder.transform(&matrix_bits(&a_rows())).unwrap();
    for (row, exp) in out.iter().zip(expected.iter()) {
        for (a, e) in floats(row).iter().zip(exp.iter()) {
            assert!((a - e).abs() < 1e-4, "{} {}", a, e);
        }
    }
}

#[test]
fn keys_follow_total_order() {
    let order = [f64::NEG_INFINITY, -2.5, -1.0, -0.0, 1e-300, 1.0, 3.0, f64::INFINITY, f64::NAN];
    for w in order.windows(2) {
        assert!(category_key(w[0].to_bits()) < category_key(w[1].to_bits()), "{:?}", w);
    }
    assert_eq!(category_key(0.0f64.to_bits()), category_key((-0.0f64).to_bits()));
    assert_eq!(category_key(f64::NAN.to_bits()), category_key((-f64::NAN).to_bits()));
    assert_ne!(category_key(1.0f64.to_bits()), category_key(1.0f64.to_bits() + 1));
}

#[test]
fn smoothing_must_be_positive() {
    assert!(positive(1.0f64.to_bits()));
    assert!(positive(f64::INFINITY.to_bits()));
    for s in [0.0, -0.0, -1.0, f64::NAN] {
        assert_eq!(
            Encoders::new_target_encoder(1, f64::to_bits(s)),
            Err(EncodeError::InvalidParameter)
        );
    }
    assert_eq!(
        Encoders::new_target_encoder(2, 0.5f64.to_bits()),
        Ok(Encoders::TargetEncoder { min_samples_leaf: 2, smoothing: 0.5f64.to_bits() })
    );
}

#[test]
fn ddof_beyond_length_is_invalid() {
    assert_eq!(degrees_of_freedom(4, 1), Ok(3));
    assert_eq!(degrees_of_freedom(4, 4), Ok(0));
    assert_eq!(degrees_of_freedom(7, 8), Err(EncodeError::InvalidParameter));
}

#[test]
fn empty_target_is_rejected() {
    let empty: Vec<u64> = Vec::new();
    assert!(matches!(
        ColumnTargetEncoder::plan(&empty, &empty, &sigmoid(1, 1.0)),
        Err(EncodeError::EmptyInput)
    ));
    let no_rows: Vec<Vec<u64>> = Vec::new();
    assert!(matches!(
        MatrixEncoder::plan(&no_rows, &empty, &Encoders::new_james_stein_encoder()),
        Err(EncodeError::EmptyInput)
    ));
}

#[test]
fn groups_are_sorted_and_cover_every_row() {
    let groups = group_by_category(&bits(&X), &bits(&Y));
    let keys: Vec<u64> = groups.iter().map(|g| g.key).collect();
    assert_eq!(keys, vec![category_key(0.0f64.to_bits()), category_key(1.0f64.to_bits()), category_key(3.0f64.to_bits())]);
    let counts: Vec<usize> = groups.iter().map(|g| g.targets.len()).collect();
    assert_eq!(counts, vec![3, 3, 1]);
    assert_eq!(counts.iter().sum::<usize>(), X.len());
    assert_eq!(floats(&groups[0].targets), vec![1.0, 1.0, 1.0]);
    assert_eq!(floats(&groups[1].targets), vec![2.0, 2.0, 2.0]);
    assert_eq!(floats(&groups[2].targets), vec![0.0]);
}

#[test]
fn grouped_sums_give_the_prior() {
    let groups = group_by_category(&bits(&B), &bits(&B));
    let weighted: f64 = groups.iter().map(|g| g.targets.len() as f64 * mean(&floats(&g.targets))).sum();
    assert!((weighted / B.len() as f64 - mean(&B)).abs() < 1e-12);
}

#[test]
fn sigmoid_rules_of_the_scenario() {
    let plan = ColumnTargetEncoder::plan(&bits(&X), &bits(&Y), &sigmoid(1, 1.0)).unwrap();
    assert_eq!(plan.rows, 7);
    let s = 1.0f64.to_bits();
    assert_eq!(
        plan.rules,
        vec![
            GroupRule::Sigmoid { count: 3, min_samples_leaf: 1, smoothing: s },
            GroupRule::Sigmoid { count: 3, min_samples_leaf: 1, smoothing: s },
            GroupRule::Prior,
        ]
    );
}

#[test]
fn prior_rule_ignores_the_blended_value() {
    let plan = ColumnTargetEncoder::plan(&bits(&X), &bits(&Y), &sigmoid(1, 1.0)).unwrap();
    let prior = 1.2857142857142858f64.to_bits();
    let blended = bits(&[10.0, 20.0, 30.0]);
    let encoder = ColumnTargetEncoder::fit(&plan, prior, &blended);
    let out = floats(&encoder.transform(&bits(&X)).unwrap());
    assert_eq!(out, vec![10.0, 20.0, 20.0, 10.0, 1.2857142857142858, 10.0, 20.0]);
    assert_eq!(encoder.encode(3.0f64.to_bits()), Some(prior));
    assert_eq!(encoder.encode(7.0f64.to_bits()), None);
}

#[test]
fn james_stein_needs_three_categories() {
    let two = [0., 1., 0., 1.];
    let y = [1., 2., 3., 4.];
    assert!(matches!(
        ColumnTargetEncoder::plan(&bits(&two), &bits(&y), &Encoders::new_james_stein_encoder()),
        Err(EncodeError::DegenerateShrinkage)
    ));
    let rows: Vec<&[f64]> = vec![&[5., 0.], &[5., 1.], &[5., 0.], &[5., 1.]];
    assert!(matches!(
        MatrixEncoder::plan(&matrix_bits(&rows), &bits(&y), &Encoders::new_james_stein_encoder()),
        Err(EncodeError::DegenerateShrinkage)
    ));
}

#[test]
fn single_category_encodes_to_the_prior() {
    let x = [4.0; 7];
    let plan = ColumnTargetEncoder::plan(&bits(&x), &bits(&Y), &Encoders::new_james_stein_encoder())
        .unwrap();
    assert_eq!(plan.groups.len(), 1);
    assert_eq!(plan.rules, vec![GroupRule::Prior]);
    let prior = mean(&Y).to_bits();
    let encoder = ColumnTargetEncoder::fit(&plan, prior, &vec![0]);
    let out = encoder.transform(&bits(&x)).unwrap();
    assert_eq!(out, vec![prior; 7]);
    assert!((f64::from_bits(prior) - 1.2857142857142858).abs() < 1e-12);
}

#[test]
fn unseen_category_is_an_error() {
    let encoder = fit_column(&X, &Y, &sigmoid(1, 1.0));
    assert!(matches!(encoder.transform(&bits(&[0.0, 2.0])), Err(EncodeError::UnseenCategory)));
    let m = fit_matrix(&a_rows(), &B, &sigmoid(1, 1.0));
    let rows: Vec<&[f64]> = vec![&[2., 6., 3., 5., 4.], &[2., 6., 3., 5., 8.]];
    assert!(matches!(m.transform(&matrix_bits(&rows)), Err(EncodeError::UnseenCategory)));
}

#[test]
fn transform_depends_on_category_only() {
    let encoder = fit_column(&X, &Y, &sigmoid(1, 1.0));
    let first = encoder.transform(&bits(&X)).unwrap();
    let again = fit_column(&X, &Y, &sigmoid(1, 1.0)).transform(&bits(&X)).unwrap();
    assert_eq!(first, again);
    let reversed: Vec<f64> = X.iter().rev().cloned().collect();
    let mut out = encoder.transform(&bits(&reversed)).unwrap();
    out.reverse();
    assert_eq!(out, first);
}

#[test]
fn encoded_output_is_not_a_category() {
    let encoder = fit_column(&X, &Y, &sigmoid(1, 1.0));
    let once = encoder.transform(&bits(&X)).unwrap();
    assert!(matches!(encoder.transform(&once), Err(EncodeError::UnseenCategory)));
}

#[test]
fn matrix_columns_match_single_columns() {
    let data = matrix_bits(&a_rows());
    let enc = sigmoid(1, 1.0);
    let plans = MatrixEncoder::plan(&data, &bits(&B), &enc).unwrap();
    assert_eq!(plans.len(), 5);
    let m = fit_matrix(&a_rows(), &B, &enc);
    let out = m.transform(&data).unwrap();
    for j in 0..5 {
        let col = extract_column(&data, j);
        let single = ColumnTargetEncoder::plan(&col, &bits(&B), &enc).unwrap();
        let keys = |p: &ColumnPlan| p.groups.iter().map(|g| g.key).collect::<Vec<_>>();
        assert_eq!(keys(&plans[j]), keys(&single));
        assert_eq!(plans[j].rules, single.rules);
        let encoder = fit_column(&floats(&col), &B, &enc);
        assert_eq!(extract_column(&out, j), encoder.transform(&col).unwrap());
    }
}
