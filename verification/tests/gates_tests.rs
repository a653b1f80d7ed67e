use nf_feed::protocol::gates::{
    evaluate_pr1, evaluate_pr2_p50, evaluate_pr2_p99, evaluate_pr2_tier2_p50, evaluate_pr2_tier2_p99, evaluate_pr3,
    GateVerdict,
};

#[test]
fn test_gates_tripwires_fail_on_bad_inputs() {
    assert_eq!(evaluate_pr1(9_999_999), GateVerdict::Fail);
    assert_eq!(evaluate_pr1(0), GateVerdict::Fail);
    assert_eq!(evaluate_pr1(10_000_000), GateVerdict::Pass);

    assert_eq!(evaluate_pr2_p50(60), GateVerdict::Fail);
    assert_eq!(evaluate_pr2_p50(122), GateVerdict::Fail);
    assert_eq!(evaluate_pr2_p50(59), GateVerdict::Pass);

    assert_eq!(evaluate_pr2_p99(150), GateVerdict::Fail);
    assert_eq!(evaluate_pr2_p99(172), GateVerdict::Fail);
    assert_eq!(evaluate_pr2_p99(149), GateVerdict::Pass);

    assert_eq!(evaluate_pr2_tier2_p50(130), GateVerdict::Fail);
    assert_eq!(evaluate_pr2_tier2_p50(131), GateVerdict::Fail);
    assert_eq!(evaluate_pr2_tier2_p50(122), GateVerdict::Pass);

    assert_eq!(evaluate_pr2_tier2_p99(185), GateVerdict::Fail);
    assert_eq!(evaluate_pr2_tier2_p99(186), GateVerdict::Fail);
    assert_eq!(evaluate_pr2_tier2_p99(172), GateVerdict::Pass);

    assert_eq!(evaluate_pr3(1), GateVerdict::Fail);
    assert_eq!(evaluate_pr3(4096), GateVerdict::Fail);
    assert_eq!(evaluate_pr3(0), GateVerdict::Pass);
}

#[test]
fn verdicts_print() {
    assert_eq!(GateVerdict::Pass.as_str(), "PASS");
    assert_eq!(GateVerdict::Fail.as_str(), "FAIL");
}
