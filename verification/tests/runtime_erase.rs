use kernelkit::runtime::erase::CallableArgs;

#[test]
fn runtime_callable_keeps_value_and_runs_once() {
    let mut args = CallableArgs { target: Some(|| -> Result<u32, Option<Vec<u8>>> { Ok(42) }), result: None };

    assert_eq!(args.call(), None);
    assert_eq!(args.result, Some(42));
    assert!(args.target.is_none());

    assert_eq!(args.call(), Some(b"Cannot call function".to_vec()));
    assert_eq!(args.result, Some(42));
}

#[test]
fn runtime_callable_passes_failure_on() {
    let mut args = CallableArgs {
        target: Some(|| -> Result<u32, Option<Vec<u8>>> { Err(Some(b"failed".to_vec())) }),
        result: None,
    };

    assert_eq!(args.call(), Some(b"failed".to_vec()));
    assert_eq!(args.result, None);

    let mut quiet = CallableArgs { target: Some(|| -> Result<u32, Option<Vec<u8>>> { Err(None) }), result: Some(7) };

    assert_eq!(quiet.call(), None);
    assert_eq!(quiet.result, Some(7));
}
