use lrdas_artifact::paper_checks::parse;

#[test]
fn rejects_bad_selection_counts_and_incomplete_arguments() {
    for args in [
        vec!["--experiment", "unknown"],
        vec!["--runs", "0"],
        vec!["--runs", "100001"],
        vec!["--seed", "no"],
        vec!["--out"],
    ] {
        let args: Vec<String> = args.into_iter().map(String::from).collect();
        assert!(parse(&args).is_err());
    }
}

fn strings(args: &[&str]) -> Vec<String> {
    args.iter().map(|s| s.to_string()).collect()
}

#[test]
fn defaults_and_overrides() {
    let o = parse(&[]).unwrap();
    assert_eq!(o.experiment, "all");
    assert_eq!(o.out, "results_checks");
    assert_eq!(o.seed, 20260921);
    assert_eq!(o.runs, 200);
    let o = parse(&strings(&[
        "--experiment",
        "collector",
        "--out",
        "x",
        "--seed",
        "+7",
        "--runs",
        "100000",
    ]))
    .unwrap();
    assert_eq!(o.experiment, "collector");
    assert_eq!(o.out, "x");
    assert_eq!(o.seed, 7);
    assert_eq!(o.runs, 100000);
    let o = parse(&strings(&["--runs", "5", "--runs", "1"])).unwrap();
    assert_eq!(o.runs, 1);
}

#[test]
fn rejection_messages() {
    assert_eq!(
        parse(&strings(&["--out"])).err().unwrap().message(),
        "missing argument value"
    );
    assert_eq!(
        parse(&strings(&["--bogus", "1"])).err().unwrap().message(),
        "unknown argument: --bogus"
    );
    assert_eq!(
        parse(&strings(&["--experiment", "x"])).err().unwrap().message(),
        "use --experiment all|decoder|specification|collector"
    );
    assert_eq!(
        parse(&strings(&["--runs", "0"])).err().unwrap().message(),
        "--runs must be between 1 and 100000"
    );
    assert!(parse(&strings(&["--seed", "18446744073709551616"])).is_err());
    assert!(parse(&strings(&["--seed", "-1"])).is_err());
    assert!(parse(&strings(&["--seed", ""])).is_err());
}
