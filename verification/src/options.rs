//! How a monitor is configured by name.

use crate::synchronizer::SignalInterpolation;
use crate::text::same_text;
use vstd::prelude::*;
use vstd::string::*;

verus! {

/// How verdicts are computed.
#[derive(Debug, Clone, Copy, PartialEq, Eq, Structural)]
pub enum Algorithm {
    /// Over sliding windows, sample by sample.
    Incremental,
    /// From scratch at every sample.
    Naive,
}

/// Which verdicts are given, and when.
#[derive(Debug, Clone, Copy, PartialEq, Eq, Structural)]
pub enum Semantics {
    /// Truth values, once everything they depend on is known.
    DelayedQualitative,
    /// Truth values, as soon as they are decided.
    EagerQualitative,
    /// Robustness values, once everything they depend on is known.
    DelayedQuantitative,
    /// Intervals that robustness values are narrowed down to.
    Rosi,
}

impl Semantics {
    /// Whether verdicts are truth values.
    pub open spec fn is_qualitative(self) -> bool {
        self == Semantics::DelayedQualitative || self == Semantics::EagerQualitative
    }

    pub open spec fn name_spec(self) -> Seq<char> {
        match self {
            Semantics::DelayedQualitative => "DelayedQualitative"@,
            Semantics::EagerQualitative => "EagerQualitative"@,
            Semantics::DelayedQuantitative => "DelayedQuantitative"@,
            Semantics::Rosi => "Rosi"@,
        }
    }

    pub fn name(self) -> (res: &'static str)
        ensures
            res@ == self.name_spec(),
    {
        match self {
            Semantics::DelayedQualitative => "DelayedQualitative",
            Semantics::EagerQualitative => "EagerQualitative",
            Semantics::DelayedQuantitative => "DelayedQuantitative",
            Semantics::Rosi => "Rosi",
        }
    }
}

impl Algorithm {
    pub open spec fn name_spec(self) -> Seq<char> {
        match self {
            Algorithm::Incremental => "Incremental"@,
            Algorithm::Naive => "Naive"@,
        }
    }

    pub fn name(self) -> (res: &'static str)
        ensures
            res@ == self.name_spec(),
    {
        match self {
            Algorithm::Incremental => "Incremental",
            Algorithm::Naive => "Naive",
        }
    }
}

/// Why a configuration is refused.
#[derive(Debug, Clone, Copy, PartialEq, Eq, Structural)]
pub enum OptionError {
    Algorithm,
    Synchronization,
    SignalInterpolation,
    Semantics,
    /// Linear interpolation is asked for where it would not be exact.
    LinearNotExact,
}

impl OptionError {
    pub open spec fn message_spec(self) -> Seq<char> {
        match self {
            OptionError::Algorithm => "Invalid algorithm. Use 'Incremental' or 'Naive'"@,
            OptionError::Synchronization => "Invalid synchronization. Use 'ZeroOrderHold', 'Linear', or 'None'"@,
            OptionError::SignalInterpolation => "Invalid signal_interpolation. Use 'ZeroOrderHold' or 'Linear'"@,
            OptionError::Semantics => "Invalid semantics. Use 'DelayedQualitative', 'EagerQualitative', 'DelayedQuantitative', or 'Rosi'"@,
            OptionError::LinearNotExact => "Linear interpolation requires qualitative semantics and the Incremental algorithm"@,
        }
    }

    pub fn message(self) -> (res: &'static str)
        ensures
            res@ == self.message_spec(),
    {
        match self {
            OptionError::Algorithm => "Invalid algorithm. Use 'Incremental' or 'Naive'",
            OptionError::Synchronization => "Invalid synchronization. Use 'ZeroOrderHold', 'Linear', or 'None'",
            OptionError::SignalInterpolation => "Invalid signal_interpolation. Use 'ZeroOrderHold' or 'Linear'",
            OptionError::Semantics => "Invalid semantics. Use 'DelayedQualitative', 'EagerQualitative', 'DelayedQuantitative', or 'Rosi'",
            OptionError::LinearNotExact => "Linear interpolation requires qualitative semantics and the Incremental algorithm",
        }
    }
}

/// The algorithm of that name.
pub open spec fn algorithm_named(name: Seq<char>) -> Result<Algorithm, OptionError> {
    if name == "Incremental"@ {
        Ok(Algorithm::Incremental)
    } else if name == "Naive"@ {
        Ok(Algorithm::Naive)
    } else {
        Err(OptionError::Algorithm)
    }
}

/// The semantics of that name.
pub open spec fn semantics_named(name: Seq<char>) -> Result<Semantics, OptionError> {
    if name == "DelayedQualitative"@ {
        Ok(Semantics::DelayedQualitative)
    } else if name == "EagerQualitative"@ {
        Ok(Semantics::EagerQualitative)
    } else if name == "DelayedQuantitative"@ {
        Ok(Semantics::DelayedQuantitative)
    } else if name == "Rosi"@ {
        Ok(Semantics::Rosi)
    } else {
        Err(OptionError::Semantics)
    }
}

/// The interpolation a deprecated synchronization strategy stands for.
pub open spec fn synchronization_named(name: Seq<char>) -> Result<
    SignalInterpolation,
    OptionError,
> {
    if name == "ZeroOrderHold"@ || name == "None"@ {
        Ok(SignalInterpolation::ZeroOrderHold)
    } else if name == "Linear"@ {
        Ok(SignalInterpolation::Linear)
    } else {
        Err(OptionError::Synchronization)
    }
}

/// The interpolation of that name.
pub open spec fn interpolation_named(name: Seq<char>) -> Result<SignalInterpolation, OptionError> {
    if name == "ZeroOrderHold"@ {
        Ok(SignalInterpolation::ZeroOrderHold)
    } else if name == "Linear"@ {
        Ok(SignalInterpolation::Linear)
    } else {
        Err(OptionError::SignalInterpolation)
    }
}

pub open spec fn interpolation_text(interpolation: SignalInterpolation) -> Seq<char> {
    match interpolation {
        SignalInterpolation::ZeroOrderHold => "ZeroOrderHold"@,
        SignalInterpolation::Linear => "Linear"@,
    }
}

/// The name of an interpolation.
pub fn interpolation_name(interpolation: SignalInterpolation) -> (res: &'static str)
    ensures
        res@ == interpolation_text(interpolation),
{
    match interpolation {
        SignalInterpolation::ZeroOrderHold => "ZeroOrderHold",
        SignalInterpolation::Linear => "Linear",
    }
}

pub fn parse_algorithm(name: &str) -> (res: Result<Algorithm, OptionError>)
    ensures
        res == algorithm_named(name@),
{
    if same_text(name, "Incremental") {
        Ok(Algorithm::Incremental)
    } else if same_text(name, "Naive") {
        Ok(Algorithm::Naive)
    } else {
        Err(OptionError::Algorithm)
    }
}

pub fn parse_semantics(name: &str) -> (res: Result<Semantics, OptionError>)
    ensures
        res == semantics_named(name@),
{
    if same_text(name, "DelayedQualitative") {
        Ok(Semantics::DelayedQualitative)
    } else if same_text(name, "EagerQualitative") {
        Ok(Semantics::EagerQualitative)
    } else if same_text(name, "DelayedQuantitative") {
        Ok(Semantics::DelayedQuantitative)
    } else if same_text(name, "Rosi") {
        Ok(Semantics::Rosi)
    } else {
        Err(OptionError::Semantics)
    }
}

pub fn parse_synchronization(name: &str) -> (res: Result<SignalInterpolation, OptionError>)
    ensures
        res == synchronization_named(name@),
{
    if same_text(name, "ZeroOrderHold") || same_text(name, "None") {
        Ok(SignalInterpolation::ZeroOrderHold)
    } else if same_text(name, "Linear") {
        Ok(SignalInterpolation::Linear)
    } else {
        Err(OptionError::Synchronization)
    }
}

pub fn parse_interpolation(name: &str) -> (res: Result<SignalInterpolation, OptionError>)
    ensures
        res == interpolation_named(name@),
{
    if same_text(name, "ZeroOrderHold") {
        Ok(SignalInterpolation::ZeroOrderHold)
    } else if same_text(name, "Linear") {
        Ok(SignalInterpolation::Linear)
    } else {
        Err(OptionError::SignalInterpolation)
    }
}

/// What is said of the use of a deprecated synchronization strategy.
pub open spec fn deprecation_text(name: Seq<char>, selected: SignalInterpolation) -> Seq<char> {
    "synchronization='"@ + name + "' is deprecated; use signal_interpolation='"@
        + interpolation_text(selected) + "' instead"@
}

fn deprecation_message(name: &str, selected: SignalInterpolation) -> (res: String)
    ensures
        res@ == deprecation_text(name@, selected),
{
    let mut text: String = String::new();
    text.append("synchronization='");
    text.append(name);
    text.append("' is deprecated; use signal_interpolation='");
    text.append(interpolation_name(selected));
    text.append("' instead");
    assert(text@ =~= deprecation_text(name@, selected));
    text
}

/// A configuration of a monitor.
#[derive(Debug, Clone, Copy, PartialEq, Eq, Structural)]
pub struct MonitorOptions {
    pub semantics: Semantics,
    pub algorithm: Algorithm,
    pub signal_interpolation: SignalInterpolation,
}

impl MonitorOptions {
    /// Between crossings robustness over a linear signal is not constant, so crossings make
    /// only truth values exact; and only the incremental algorithm reports them.
    pub open spec fn is_exact(self) -> bool {
        self.signal_interpolation == SignalInterpolation::Linear ==> self.semantics.is_qualitative()
            && self.algorithm == Algorithm::Incremental
    }

    /// Refuses linear interpolation where it would not be exact.
    pub fn checked(self) -> (res: Result<MonitorOptions, OptionError>)
        ensures
            res == (if self.is_exact() {
                Ok(self)
            } else {
                Err(OptionError::LinearNotExact)
            }),
    {
        let qualitative: bool = match self.semantics {
            Semantics::DelayedQualitative | Semantics::EagerQualitative => true,
            Semantics::DelayedQuantitative | Semantics::Rosi => false,
        };
        match self.signal_interpolation {
            SignalInterpolation::ZeroOrderHold => Ok(self),
            SignalInterpolation::Linear => match self.algorithm {
                Algorithm::Incremental if qualitative => Ok(self),
                _ => Err(OptionError::LinearNotExact),
            },
        }
    }

    /// The configuration in words.
    pub fn describe(&self) -> (res: String)
        ensures
            res@ == "Monitor(semantics='"@ + self.semantics.name_spec() + "', algorithm='"@
                + self.algorithm.name_spec() + "', signal_interpolation='"@ + interpolation_text(
                self.signal_interpolation,
            ) + "')"@,
    {
        let mut text: String = String::new();
        text.append("Monitor(semantics='");
        text.append(self.semantics.name());
        text.append("', algorithm='");
        text.append(self.algorithm.name());
        text.append("', signal_interpolation='");
        text.append(interpolation_name(self.signal_interpolation));
        text.append("')");
        assert(text@ =~= "Monitor(semantics='"@ + self.semantics.name_spec() + "', algorithm='"@
            + self.algorithm.name_spec() + "', signal_interpolation='"@ + interpolation_text(
            self.signal_interpolation,
        ) + "')"@);
        text
    }
}

/// What comes of options given by name.
#[derive(Debug)]
pub struct Resolution {
    /// What to warn of, whether or not the options are accepted.
    pub warning: Option<String>,
    pub outcome: Result<MonitorOptions, OptionError>,
}

/// The interpolation asked for. Given explicitly it wins; otherwise it is what the deprecated
/// synchronization strategy stands for, and zero-order hold without one.
pub open spec fn selected_interpolation(
    synchronization: Option<SignalInterpolation>,
    signal_interpolation: Option<Seq<char>>,
) -> Result<SignalInterpolation, OptionError> {
    match (signal_interpolation, synchronization) {
        (Some(name), _) => interpolation_named(name),
        (None, Some(selected)) => Ok(selected),
        (None, None) => Ok(SignalInterpolation::ZeroOrderHold),
    }
}

/// What options given by name come to. The first one that is not understood decides the error.
pub open spec fn resolved(
    semantics: Seq<char>,
    algorithm: Seq<char>,
    synchronization: Option<Seq<char>>,
    signal_interpolation: Option<Seq<char>>,
) -> Result<MonitorOptions, OptionError> {
    match algorithm_named(algorithm) {
        Err(error) => Err(error),
        Ok(algorithm) => match synchronization {
            Some(name) if synchronization_named(name) is Err => Err(OptionError::Synchronization),
            _ => {
                let deprecated = match synchronization {
                    Some(name) => Some(synchronization_named(name)->Ok_0),
                    None => None,
                };
                match selected_interpolation(deprecated, signal_interpolation) {
                    Err(error) => Err(error),
                    Ok(signal_interpolation) => match semantics_named(semantics) {
                        Err(error) => Err(error),
                        Ok(semantics) => {
                            let options = MonitorOptions {
                                semantics,
                                algorithm,
                                signal_interpolation,
                            };
                            if options.is_exact() {
                                Ok(options)
                            } else {
                                Err(OptionError::LinearNotExact)
                            }
                        },
                    },
                }
            },
        },
    }
}

/// What to warn of: the use of a deprecated synchronization strategy, once the algorithm is
/// understood.
pub open spec fn warned(algorithm: Seq<char>, synchronization: Option<Seq<char>>) -> Option<
    Seq<char>,
> {
    match synchronization {
        Some(name) if algorithm_named(algorithm) is Ok && synchronization_named(name) is Ok => Some(
            deprecation_text(name, synchronization_named(name)->Ok_0),
        ),
        _ => None,
    }
}

/// The text of an option that was given.
pub open spec fn given(option: Option<&str>) -> Option<Seq<char>> {
    match option {
        Some(name) => Some(name@),
        None => None,
    }
}

/// Resolves the options of a monitor, given by name.
pub fn resolve(
    semantics: &str,
    algorithm: &str,
    synchronization: Option<&str>,
    signal_interpolation: Option<&str>,
) -> (res: Resolution)
    ensures
        res.outcome == resolved(
            semantics@,
            algorithm@,
            given(synchronization),
            given(signal_interpolation),
        ),
        match res.warning {
            Some(text) => warned(algorithm@, given(synchronization)) == Some(text@),
            None => warned(algorithm@, given(synchronization)) is None,
        },
{
    let algorithm: Algorithm = match parse_algorithm(algorithm) {
        Ok(algorithm) => algorithm,
        Err(error) => {
            return Resolution { warning: None, outcome: Err(error) };
        },
    };
    let mut warning: Option<String> = None;
    let mut deprecated: Option<SignalInterpolation> = None;
    if let Some(name) = synchronization {
        match parse_synchronization(name) {
            Ok(selected) => {
                warning = Some(deprecation_message(name, selected));
                deprecated = Some(selected);
            },
            Err(error) => {
                return Resolution { warning: None, outcome: Err(error) };
            },
        }
    }
    let interpolation: Result<SignalInterpolation, OptionError> = match signal_interpolation {
        Some(name) => parse_interpolation(name),
        None => match deprecated {
            Some(selected) => Ok(selected),
            None => Ok(SignalInterpolation::ZeroOrderHold),
        },
    };
    let outcome: Result<MonitorOptions, OptionError> = match interpolation {
        Err(error) => Err(error),
        Ok(signal_interpolation) => match parse_semantics(semantics) {
            Err(error) => Err(error),
            Ok(semantics) => MonitorOptions { semantics, algorithm, signal_interpolation }.checked(),
        },
    };
    Resolution { warning, outcome }
}

/// A name given for an option is read back as the option it names.
pub proof fn names_are_read_back(
    semantics: Semantics,
    algorithm: Algorithm,
    interpolation: SignalInterpolation,
)
    ensures
        semantics_named(semantics.name_spec()) == Ok::<Semantics, OptionError>(semantics),
        algorithm_named(algorithm.name_spec()) == Ok::<Algorithm, OptionError>(algorithm),
        interpolation_named(interpolation_text(interpolation)) == Ok::<
            SignalInterpolation,
            OptionError,
        >(interpolation),
{
    reveal_strlit("DelayedQualitative");
    reveal_strlit("EagerQualitative");
    reveal_strlit("DelayedQuantitative");
    reveal_strlit("Rosi");
    reveal_strlit("Incremental");
    reveal_strlit("Naive");
    reveal_strlit("ZeroOrderHold");
    reveal_strlit("Linear");
    assert("DelayedQualitative"@[0] != "EagerQualitative"@[0]);
    assert("DelayedQualitative"@.len() != "DelayedQuantitative"@.len());
    assert("EagerQualitative"@.len() != "DelayedQuantitative"@.len());
    assert("Rosi"@.len() == 4);
    assert("Incremental"@.len() != "Naive"@.len());
    assert("ZeroOrderHold"@.len() != "Linear"@.len());
}

/// Naming an interpolation settles it, whatever synchronization strategy is given beside it,
/// as long as that one exists.
pub proof fn signal_interpolation_wins(
    semantics: Seq<char>,
    algorithm: Seq<char>,
    synchronization: Option<Seq<char>>,
    name: Seq<char>,
)
    requires
        synchronization matches Some(strategy) ==> synchronization_named(strategy) is Ok,
    ensures
        resolved(semantics, algorithm, synchronization, Some(name)) == resolved(
            semantics,
            algorithm,
            None,
            Some(name),
        ),
{
}

/// A configuration that is accepted never reads signals linearly where that is not exact.
pub proof fn accepted_configurations_are_exact(
    semantics: Seq<char>,
    algorithm: Seq<char>,
    synchronization: Option<Seq<char>>,
    signal_interpolation: Option<Seq<char>>,
)
    ensures
        resolved(semantics, algorithm, synchronization, signal_interpolation) matches Ok(options)
            ==> options.is_exact(),
{
}

} // verus!
