use phinetwork::phi_expression::{
    format_merged_phi_expression, formula_terms, parse_global_phi_expression, parse_merged_phi_expression,
};

#[test]
fn reads_merged_components() {
    assert_eq!(
        parse_merged_phi_expression("term[0,2]{y=1.0*x^0};term[1]{y=0.5*x^0 + 0.25*x^1}"),
        Some(vec![
            (vec![0, 2], "y=1.0*x^0".to_string()),
            (vec![1], "y=0.5*x^0 + 0.25*x^1".to_string())
        ])
    );
    assert_eq!(parse_merged_phi_expression(""), Some(vec![]));
    assert_eq!(parse_merged_phi_expression(";;"), Some(vec![]));
    assert_eq!(parse_merged_phi_expression("term[]{y=0*x^0}"), Some(vec![(vec![], "y=0*x^0".to_string())]));
}

#[test]
fn rejects_malformed_components() {
    assert_eq!(parse_merged_phi_expression("term[0]y=1*x^0"), None);
    assert_eq!(parse_merged_phi_expression("term[a]{y=1*x^0}"), None);
    assert_eq!(parse_merged_phi_expression("term[0]{y=1*x^0"), None);
    assert_eq!(parse_merged_phi_expression("weight[0]{y=1*x^0}"), None);
    assert_eq!(parse_merged_phi_expression("term[0]{y=1*x^0};bad"), None);
}

#[test]
fn reads_global_components() {
    assert_eq!(
        parse_global_phi_expression("response[2]{term[0]{y=1*x^0}}||response[0]{}"),
        Some(vec![
            (2, vec![(vec![0], "y=1*x^0".to_string())]),
            (0, vec![])
        ])
    );
    assert_eq!(parse_global_phi_expression(""), Some(vec![]));
    assert_eq!(parse_global_phi_expression("||||"), Some(vec![]));
    assert_eq!(parse_global_phi_expression("response[x]{}"), None);
    assert_eq!(parse_global_phi_expression("response[1]{term[0]{y}}"), Some(vec![(1, vec![(vec![0], "y".to_string())])]));
}

#[test]
fn reads_formula_terms() {
    assert_eq!(
        formula_terms("y=0.500000000000*x^0 + -0.001*x^2"),
        Some(vec![
            ("0.500000000000".to_string(), 0),
            ("-0.001".to_string(), 2)
        ])
    );
    assert_eq!(formula_terms("0.5*x^0"), None);
    assert_eq!(formula_terms("y=0.5*x"), None);
    assert_eq!(formula_terms("y=0.5*x^a"), None);
}

#[test]
fn merged_expression_reads_back_what_it_writes() {
    let terms = vec![
        (vec![0], "y=0.100000000000*x^0 + 0.200000000000*x^1".to_string()),
        (vec![1, 3], "y=-0.500000000000*x^0".to_string()),
    ];
    let encoded = format_merged_phi_expression(&terms);
    assert_eq!(
        encoded,
        "term[0]{y=0.100000000000*x^0 + 0.200000000000*x^1};term[1,3]{y=-0.500000000000*x^0}"
    );
    assert_eq!(parse_merged_phi_expression(&encoded), Some(terms));
    assert_eq!(format_merged_phi_expression(&vec![]), "");
}
