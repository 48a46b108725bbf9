use bitmapflow_cli::algorithm::FlowAlgKind;

#[test]
fn rlof_names_in_any_case_select_dense_rlof() {
    for name in ["denserlof", "DenseRLOF", "dense_rlof", "DENSE_RLOF", "rlof", "Rlof"] {
        assert_eq!(FlowAlgKind::from_name(name), FlowAlgKind::DenseRlof, "{}", name);
    }
}

#[test]
fn other_names_select_simple_flow() {
    for name in ["simpleflow", "SimpleFlow", "", "rlo", "dense rlof", "denserlofx", "ﬂow"] {
        assert_eq!(FlowAlgKind::from_name(name), FlowAlgKind::SimpleFlow, "{}", name);
    }
}

#[test]
fn display_names() {
    assert_eq!(FlowAlgKind::SimpleFlow.display_name(), "SimpleFlow");
    assert_eq!(FlowAlgKind::DenseRlof.display_name(), "DenseRLOF");
}

#[test]
fn display_name_selects_the_algorithm_again() {
    for kind in [FlowAlgKind::SimpleFlow, FlowAlgKind::DenseRlof] {
        assert_eq!(FlowAlgKind::from_name(kind.display_name()), kind);
    }
}
