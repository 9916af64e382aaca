use mstlo::options::{
    interpolation_name, resolve, Algorithm, MonitorOptions, OptionError, Semantics,
};
use mstlo::synchronizer::SignalInterpolation;

fn build_linear(semantics: Semantics, algorithm: Algorithm) -> Result<MonitorOptions, OptionError> {
    MonitorOptions {
        semantics,
        algorithm,
        signal_interpolation: SignalInterpolation::Linear,
    }
    .checked()
}

#[test]
fn linear_is_rejected_where_it_is_not_exact() {
    let error = build_linear(Semantics::DelayedQuantitative, Algorithm::Incremental)
        .expect_err("quantitative robustness under Linear is not exact and must be refused");
    assert!(
        error.message().to_lowercase().contains("linear"),
        "the error should name the offending setting; got {error:?}"
    );
    build_linear(Semantics::Rosi, Algorithm::Incremental)
        .expect_err("RoSI carries quantitative bounds, so Linear must be refused");
    build_linear(Semantics::DelayedQualitative, Algorithm::Naive)
        .expect_err("the naive algorithm reports no crossings");
}

#[test]
fn linear_builds_for_both_qualitative_semantics() {
    build_linear(Semantics::DelayedQualitative, Algorithm::Incremental)
        .expect("delayed qualitative is exact under Linear");
    build_linear(Semantics::EagerQualitative, Algorithm::Incremental)
        .expect("eager qualitative is exact under Linear");
}

fn outcome(
    semantics: &str,
    algorithm: &str,
    synchronization: Option<&str>,
    signal_interpolation: Option<&str>,
) -> Result<MonitorOptions, OptionError> {
    resolve(semantics, algorithm, synchronization, signal_interpolation).outcome
}

#[test]
fn every_name_is_understood() {
    for (name, semantics) in [
        ("DelayedQualitative", Semantics::DelayedQualitative),
        ("EagerQualitative", Semantics::EagerQualitative),
        ("DelayedQuantitative", Semantics::DelayedQuantitative),
        ("Rosi", Semantics::Rosi),
    ] {
        for (algorithm_name, algorithm) in [
            ("Incremental", Algorithm::Incremental),
            ("Naive", Algorithm::Naive),
        ] {
            let options = outcome(name, algorithm_name, None, None).unwrap();
            assert_eq!(options.semantics, semantics);
            assert_eq!(options.algorithm, algorithm);
            assert_eq!(
                options.signal_interpolation,
                SignalInterpolation::ZeroOrderHold
            );
            assert_eq!(
                options.describe(),
                format!(
                    "Monitor(semantics='{name}', algorithm='{algorithm_name}', signal_interpolation='ZeroOrderHold')"
                )
            );
        }
    }
    assert_eq!(interpolation_name(SignalInterpolation::Linear), "Linear");
}

#[test]
fn errors_name_the_option() {
    let cases = [
        (
            outcome("Rosi", "incremental", None, None),
            "Invalid algorithm. Use 'Incremental' or 'Naive'",
        ),
        (
            outcome("Rosi", "Naive", Some("Hold"), None),
            "Invalid synchronization. Use 'ZeroOrderHold', 'Linear', or 'None'",
        ),
        (
            outcome("Rosi", "Naive", None, Some("None")),
            "Invalid signal_interpolation. Use 'ZeroOrderHold' or 'Linear'",
        ),
        (
            outcome("Qualitative", "Naive", None, None),
            "Invalid semantics. Use 'DelayedQualitative', 'EagerQualitative', 'DelayedQuantitative', or 'Rosi'",
        ),
    ];
    for (result, message) in cases {
        assert_eq!(result.unwrap_err().message(), message);
    }
}

/// The first option that is not understood decides the error.
#[test]
fn options_are_checked_in_order() {
    assert_eq!(outcome("?", "?", Some("?"), Some("?")), Err(OptionError::Algorithm));
    assert_eq!(
        outcome("?", "Naive", Some("?"), Some("?")),
        Err(OptionError::Synchronization)
    );
    assert_eq!(
        outcome("?", "Naive", Some("Linear"), Some("?")),
        Err(OptionError::SignalInterpolation)
    );
    assert_eq!(
        outcome("?", "Naive", Some("Linear"), Some("Linear")),
        Err(OptionError::Semantics)
    );
    assert_eq!(
        outcome("Rosi", "Naive", Some("Linear"), None),
        Err(OptionError::LinearNotExact)
    );
}

#[test]
fn a_synchronization_strategy_selects_an_interpolation_and_is_warned_of() {
    for (strategy, selected) in [
        ("ZeroOrderHold", SignalInterpolation::ZeroOrderHold),
        ("None", SignalInterpolation::ZeroOrderHold),
        ("Linear", SignalInterpolation::Linear),
    ] {
        let resolution = resolve("EagerQualitative", "Incremental", Some(strategy), None);
        assert_eq!(
            resolution.warning.unwrap(),
            format!(
                "synchronization='{strategy}' is deprecated; use signal_interpolation='{}' instead",
                interpolation_name(selected)
            )
        );
        assert_eq!(resolution.outcome.unwrap().signal_interpolation, selected);
    }
    assert!(resolve("?", "?", Some("Linear"), None).warning.is_none());
    assert!(resolve("?", "Naive", Some("Linear"), None).warning.is_some());
    assert!(resolve("Rosi", "Naive", None, None).warning.is_none());
}

/// Given explicitly, the interpolation wins.
#[test]
fn explicit_interpolation_wins() {
    let options = outcome(
        "DelayedQualitative",
        "Incremental",
        Some("Linear"),
        Some("ZeroOrderHold"),
    )
    .unwrap();
    assert_eq!(
        options.signal_interpolation,
        SignalInterpolation::ZeroOrderHold
    );
}
