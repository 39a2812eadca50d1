//! Tunable parameters of the reclamation scheme.

use vstd::prelude::*;

verus! {

/// Enters between two incremental advance checks, by default.
pub const DEFAULT_CHECK_THRESHOLD: u32 = 100;

/// Successful checks required before an epoch advance, by default.
pub const DEFAULT_ADVANCE_THRESHOLD: u32 = 100;

/// Configuration parameters for the reclamation scheme.
///
/// `check_threshold` is the number of guard entries between two steps of the
/// incremental advance check; `advance_threshold` is the number of
/// successfully checked threads required before the global epoch may be
/// bumped. The third tunable of the scheme, the bag capacity, is not a
/// process-wide setting here: each thread chooses it at registration, with
/// the usual default.
#[derive(Clone, Copy)]
pub struct Config {
    check_threshold: u32,
    advance_threshold: u32,
}

impl Config {
    /// The default configuration, as a value.
    pub closed spec fn spec_default() -> Config {
        Config {
            check_threshold: DEFAULT_CHECK_THRESHOLD,
            advance_threshold: DEFAULT_ADVANCE_THRESHOLD,
        }
    }

    /// The default configuration carries the default thresholds.
    pub broadcast proof fn lemma_spec_default()
        ensures
            (#[trigger] Config::spec_default()).spec_check_threshold()
                == DEFAULT_CHECK_THRESHOLD,
            Config::spec_default().spec_advance_threshold() == DEFAULT_ADVANCE_THRESHOLD,
    {
    }

    /// The number of enters between two advance-check steps.
    pub closed spec fn spec_check_threshold(self) -> u32 {
        self.check_threshold
    }

    /// The number of successful checks before an advance attempt.
    pub closed spec fn spec_advance_threshold(self) -> u32 {
        self.advance_threshold
    }

    /// Creates a configuration with the default parameters.
    pub fn new() -> (r: Config)
        ensures
            r == Config::spec_default(),
            r.spec_check_threshold() == DEFAULT_CHECK_THRESHOLD,
            r.spec_advance_threshold() == DEFAULT_ADVANCE_THRESHOLD,
    {
        Config {
            check_threshold: DEFAULT_CHECK_THRESHOLD,
            advance_threshold: DEFAULT_ADVANCE_THRESHOLD,
        }
    }

    /// Creates a configuration with the given parameters.
    ///
    /// A check threshold of zero is rejected: the advance check must run
    /// eventually, or quarantined records would never be reclaimed.
    pub fn with_params(check_threshold: u32, advance_threshold: u32) -> (r: Config)
        requires
            check_threshold > 0,
        ensures
            r.spec_check_threshold() == check_threshold,
            r.spec_advance_threshold() == advance_threshold,
    {
        Config { check_threshold, advance_threshold }
    }

    /// Returns the check threshold.
    pub fn check_threshold(self) -> (r: u32)
        ensures
            r == self.spec_check_threshold(),
    {
        self.check_threshold
    }

    /// Returns the advance threshold.
    pub fn advance_threshold(self) -> (r: u32)
        ensures
            r == self.spec_advance_threshold(),
    {
        self.advance_threshold
    }
}

impl Default for Config {
    /// The default configuration.
    fn default() -> (r: Config)
        ensures
            r.spec_check_threshold() == DEFAULT_CHECK_THRESHOLD,
            r.spec_advance_threshold() == DEFAULT_ADVANCE_THRESHOLD,
    {
        Config::new()
    }
}

/// A builder for [`Config`] values.
///
/// Parameters left unset fall back to their defaults when the builder is
/// consumed.
#[derive(Clone, Copy)]
pub struct ConfigBuilder {
    check_threshold: Option<u32>,
    advance_threshold: Option<u32>,
}

impl ConfigBuilder {
    /// The check threshold chosen so far, if any.
    pub closed spec fn spec_check_threshold(self) -> Option<u32> {
        self.check_threshold
    }

    /// The advance threshold chosen so far, if any.
    pub closed spec fn spec_advance_threshold(self) -> Option<u32> {
        self.advance_threshold
    }

    /// Creates a builder with no parameters chosen.
    pub fn new() -> (r: ConfigBuilder)
        ensures
            r.spec_check_threshold() is None,
            r.spec_advance_threshold() is None,
    {
        ConfigBuilder { check_threshold: None, advance_threshold: None }
    }

    /// Sets the check threshold.
    pub fn check_threshold(self, check_threshold: u32) -> (r: ConfigBuilder)
        ensures
            r.spec_check_threshold() == Some(check_threshold),
            r.spec_advance_threshold() == self.spec_advance_threshold(),
    {
        ConfigBuilder { check_threshold: Some(check_threshold), ..self }
    }

    /// Sets the advance threshold.
    pub fn advance_threshold(self, advance_threshold: u32) -> (r: ConfigBuilder)
        ensures
            r.spec_advance_threshold() == Some(advance_threshold),
            r.spec_check_threshold() == self.spec_check_threshold(),
    {
        ConfigBuilder { advance_threshold: Some(advance_threshold), ..self }
    }

    /// Consumes the builder; unset parameters take their default values.
    pub fn build(self) -> (r: Config)
        ensures
            r.spec_check_threshold() == match self.spec_check_threshold() {
                Some(c) => c,
                None => DEFAULT_CHECK_THRESHOLD,
            },
            r.spec_advance_threshold() == match self.spec_advance_threshold() {
                Some(a) => a,
                None => DEFAULT_ADVANCE_THRESHOLD,
            },
    {
        let check_threshold = match self.check_threshold {
            Some(c) => c,
            None => DEFAULT_CHECK_THRESHOLD,
        };
        let advance_threshold = match self.advance_threshold {
            Some(a) => a,
            None => DEFAULT_ADVANCE_THRESHOLD,
        };
        Config { check_threshold, advance_threshold }
    }
}

impl Default for ConfigBuilder {
    /// A builder with no parameters chosen.
    fn default() -> (r: ConfigBuilder)
        ensures
            r.spec_check_threshold() is None,
            r.spec_advance_threshold() is None,
    {
        ConfigBuilder::new()
    }
}

} // verus!
