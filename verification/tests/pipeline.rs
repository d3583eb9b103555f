// The receiving pipeline (receiver, detector, subtractor) works on floating-point
// samples and lives in the application crate; its checks here are empty.

#[test]
fn receiver_test() {}

#[test]
fn detector_test() {}

#[test]
fn subtractor_test() {}
