//! How a monitor is configured: which names are understood, what they come to, and in which order
//! mistakes are reported.

use crate::options::{algorithm_named, interpolation_named, interpolation_text};
use crate::options::{resolved, semantics_named, synchronization_named, warned};
use crate::options::{Algorithm, MonitorOptions, OptionError, Semantics};
use crate::synchronizer::SignalInterpolation;
use vstd::prelude::*;

verus! {

/// Each option has the names it is documented with and no others.
pub proof fn options_have_their_names_and_no_others(name: Seq<char>)
    ensures
        algorithm_named(name) == Ok::<Algorithm, OptionError>(Algorithm::Incremental) <==> name
            == "Incremental"@,
        algorithm_named(name) == Ok::<Algorithm, OptionError>(Algorithm::Naive) <==> name
            == "Naive"@,
        algorithm_named(name) is Err ==> algorithm_named(name)->Err_0 == OptionError::Algorithm,
        semantics_named(name) == Ok::<Semantics, OptionError>(Semantics::DelayedQualitative)
            <==> name == "DelayedQualitative"@,
        semantics_named(name) == Ok::<Semantics, OptionError>(Semantics::EagerQualitative)
            <==> name == "EagerQualitative"@,
        semantics_named(name) == Ok::<Semantics, OptionError>(Semantics::DelayedQuantitative)
            <==> name == "DelayedQuantitative"@,
        semantics_named(name) == Ok::<Semantics, OptionError>(Semantics::Rosi) <==> name
            == "Rosi"@,
        semantics_named(name) is Err ==> semantics_named(name)->Err_0 == OptionError::Semantics,
        interpolation_named(name) == Ok::<SignalInterpolation, OptionError>(
            SignalInterpolation::ZeroOrderHold,
        ) <==> name == "ZeroOrderHold"@,
        interpolation_named(name) == Ok::<SignalInterpolation, OptionError>(
            SignalInterpolation::Linear,
        ) <==> name == "Linear"@,
        interpolation_named(name) is Err ==> interpolation_named(name)->Err_0
            == OptionError::SignalInterpolation,
        synchronization_named(name) == Ok::<SignalInterpolation, OptionError>(
            SignalInterpolation::ZeroOrderHold,
        ) <==> name == "ZeroOrderHold"@ || name == "None"@,
        synchronization_named(name) == Ok::<SignalInterpolation, OptionError>(
            SignalInterpolation::Linear,
        ) <==> name == "Linear"@,
        synchronization_named(name) is Err ==> synchronization_named(name)->Err_0
            == OptionError::Synchronization,
        interpolation_text(SignalInterpolation::ZeroOrderHold) == "ZeroOrderHold"@,
        interpolation_text(SignalInterpolation::Linear) == "Linear"@,
        Algorithm::Incremental.name_spec() == "Incremental"@,
        Algorithm::Naive.name_spec() == "Naive"@,
        Semantics::DelayedQualitative.name_spec() == "DelayedQualitative"@,
        Semantics::EagerQualitative.name_spec() == "EagerQualitative"@,
        Semantics::DelayedQuantitative.name_spec() == "DelayedQuantitative"@,
        Semantics::Rosi.name_spec() == "Rosi"@,
{
    reveal_strlit("DelayedQualitative");
    reveal_strlit("EagerQualitative");
    reveal_strlit("DelayedQuantitative");
    reveal_strlit("Rosi");
    reveal_strlit("Incremental");
    reveal_strlit("Naive");
    reveal_strlit("ZeroOrderHold");
    reveal_strlit("Linear");
    reveal_strlit("None");
    assert("DelayedQualitative"@[0] != "EagerQualitative"@[0]);
    assert("DelayedQualitative"@.len() != "DelayedQuantitative"@.len());
    assert("EagerQualitative"@.len() != "DelayedQuantitative"@.len());
    assert("Rosi"@.len() == 4);
    assert("Incremental"@.len() != "Naive"@.len());
    assert("ZeroOrderHold"@.len() != "Linear"@.len());
    assert("None"@.len() != "Linear"@.len());
}

/// A configuration is accepted if and only if every name given is understood, and signals are
/// read linearly only for truth values and by the incremental algorithm. It is what the names
/// say. An interpolation given by name wins over a synchronization strategy; without either,
/// signals are held. The first mistake is reported: in the algorithm, the strategy, the
/// interpolation, the semantics, and last in how they go together.
pub proof fn configurations_are_what_their_names_say(
    semantics: Seq<char>,
    algorithm: Seq<char>,
    synchronization: Option<Seq<char>>,
    signal_interpolation: Option<Seq<char>>,
)
    ensures
        ({
            let res = resolved(semantics, algorithm, synchronization, signal_interpolation);
            let incremental = algorithm == "Incremental"@;
            let algorithm_ok = incremental || algorithm == "Naive"@;
            let synchronization_ok = match synchronization {
                Some(name) => name == "ZeroOrderHold"@ || name == "Linear"@ || name == "None"@,
                None => true,
            };
            let interpolation_ok = match signal_interpolation {
                Some(name) => name == "ZeroOrderHold"@ || name == "Linear"@,
                None => true,
            };
            let qualitative = semantics == "DelayedQualitative"@ || semantics
                == "EagerQualitative"@;
            let semantics_ok = qualitative || semantics == "DelayedQuantitative"@ || semantics
                == "Rosi"@;
            let linear = match (signal_interpolation, synchronization) {
                (Some(name), _) => name == "Linear"@,
                (None, Some(name)) => name == "Linear"@,
                (None, None) => false,
            };
            let exact = linear ==> qualitative && incremental;
            &&& res is Ok <==> algorithm_ok && synchronization_ok && interpolation_ok
                && semantics_ok && exact
            &&& res matches Ok(options) ==> {
                &&& (options.algorithm == Algorithm::Incremental) == incremental
                &&& (options.signal_interpolation == SignalInterpolation::Linear) == linear
                &&& (options.semantics == Semantics::DelayedQualitative) == (semantics
                    == "DelayedQualitative"@)
                &&& (options.semantics == Semantics::EagerQualitative) == (semantics
                    == "EagerQualitative"@)
                &&& (options.semantics == Semantics::DelayedQuantitative) == (semantics
                    == "DelayedQuantitative"@)
                &&& (options.semantics == Semantics::Rosi) == (semantics == "Rosi"@)
            }
            &&& res == Err::<MonitorOptions, OptionError>(OptionError::Algorithm)
                <==> !algorithm_ok
            &&& res == Err::<MonitorOptions, OptionError>(OptionError::Synchronization)
                <==> algorithm_ok && !synchronization_ok
            &&& res == Err::<MonitorOptions, OptionError>(OptionError::SignalInterpolation)
                <==> algorithm_ok && synchronization_ok && !interpolation_ok
            &&& res == Err::<MonitorOptions, OptionError>(OptionError::Semantics) <==> algorithm_ok
                && synchronization_ok && interpolation_ok && !semantics_ok
            &&& res == Err::<MonitorOptions, OptionError>(OptionError::LinearNotExact)
                <==> algorithm_ok && synchronization_ok && interpolation_ok && semantics_ok
                && !exact
        }),
{
    options_have_their_names_and_no_others(algorithm);
    options_have_their_names_and_no_others(semantics);
    if let Some(name) = synchronization {
        options_have_their_names_and_no_others(name);
    }
    if let Some(name) = signal_interpolation {
        options_have_their_names_and_no_others(name);
    }
}

/// A synchronization strategy that is understood is warned of, if the algorithm is, whatever
/// becomes of the rest; and nothing else is. The warning says what to write instead.
pub proof fn strategies_are_warned_of(algorithm: Seq<char>, synchronization: Option<Seq<char>>)
    ensures
        ({
            let understood = (algorithm == "Incremental"@ || algorithm == "Naive"@)
                && synchronization is Some && (synchronization->0 == "ZeroOrderHold"@
                || synchronization->0 == "Linear"@ || synchronization->0 == "None"@);
            &&& warned(algorithm, synchronization) is Some <==> understood
            &&& understood ==> warned(algorithm, synchronization)->0 == "synchronization='"@
                + synchronization->0 + "' is deprecated; use signal_interpolation='"@ + (if synchronization->0
                == "Linear"@ {
                "Linear"@
            } else {
                "ZeroOrderHold"@
            }) + "' instead"@
        }),
{
    options_have_their_names_and_no_others(algorithm);
    if let Some(name) = synchronization {
        options_have_their_names_and_no_others(name);
    }
}

/// Only truth values are qualitative, and options are exact unless signals are read linearly for
/// anything else, or by the naive algorithm.
pub proof fn linear_signals_are_exact_for_truth_values(options: MonitorOptions)
    ensures
        options.semantics.is_qualitative() <==> match options.semantics {
            Semantics::DelayedQualitative => true,
            Semantics::EagerQualitative => true,
            Semantics::DelayedQuantitative => false,
            Semantics::Rosi => false,
        },
        options.is_exact() <==> match (options.signal_interpolation, options.semantics) {
            (SignalInterpolation::ZeroOrderHold, _) => true,
            (SignalInterpolation::Linear, Semantics::DelayedQuantitative) => false,
            (SignalInterpolation::Linear, Semantics::Rosi) => false,
            _ => options.algorithm == Algorithm::Incremental,
        },
{
}

/// Each mistake is reported with the names that would be understood.
pub proof fn mistakes_are_reported_with_what_to_use()
    ensures
        OptionError::Algorithm.message_spec() == "Invalid algorithm. Use 'Incremental' or 'Naive'"@,
        OptionError::Synchronization.message_spec()
            == "Invalid synchronization. Use 'ZeroOrderHold', 'Linear', or 'None'"@,
        OptionError::SignalInterpolation.message_spec()
            == "Invalid signal_interpolation. Use 'ZeroOrderHold' or 'Linear'"@,
        OptionError::Semantics.message_spec()
            == "Invalid semantics. Use 'DelayedQualitative', 'EagerQualitative', 'DelayedQuantitative', or 'Rosi'"@,
        OptionError::LinearNotExact.message_spec()
            == "Linear interpolation requires qualitative semantics and the Incremental algorithm"@,
{
}

} // verus!
