//! The parameters of one exploration, validated once before it starts.

use crate::nonce::MAX_NONCE_WIDTH;
use vstd::prelude::*;

verus! {

/// Why a set of parameters was turned down.
#[derive(Clone, Copy, Debug, PartialEq, Eq, Structural)]
pub enum ConfigError {
    /// The nonce width is zero: there is nothing to fold a digest into.
    ZeroWidth,
    /// The nonce width is above `MAX_NONCE_WIDTH`.
    NonceTooWide,
}

/// Nonce width, number of re-hash rounds and reporting interval.
#[derive(Clone, Copy, Debug)]
pub struct Config {
    nonce_width: usize,
    stretch_rounds: u32,
    report_interval: u64,
}

impl Config {
    /// Width of a nonce, in bytes.
    pub closed spec fn width(&self) -> nat {
        self.nonce_width as nat
    }

    /// Number of times the oracle re-hashes a digest.
    pub closed spec fn rounds(&self) -> nat {
        self.stretch_rounds as nat
    }

    /// Number of processed nonces between two progress reports; zero for none.
    pub closed spec fn interval(&self) -> nat {
        self.report_interval as nat
    }

    /// Every value of this type holds a width the library can work with.
    #[verifier::type_invariant]
    closed spec fn valid(&self) -> bool {
        1 <= self.nonce_width <= MAX_NONCE_WIDTH
    }

    /// Validates the parameters. The width must be at least one byte and at most
    /// `MAX_NONCE_WIDTH`, which also keeps it below the width of a digest.
    pub fn new(nonce_width: usize, stretch_rounds: u32, report_interval: u64) -> (validated: Result<
        Config,
        ConfigError,
    >)
        ensures
            match validated {
                Ok(config) => {
                    &&& 1 <= nonce_width <= MAX_NONCE_WIDTH
                    &&& config.width() == nonce_width
                    &&& config.rounds() == stretch_rounds
                    &&& config.interval() == report_interval
                },
                Err(ConfigError::ZeroWidth) => nonce_width == 0,
                Err(ConfigError::NonceTooWide) => nonce_width > MAX_NONCE_WIDTH,
            },
    {
        if nonce_width == 0 {
            Err(ConfigError::ZeroWidth)
        } else if nonce_width > MAX_NONCE_WIDTH {
            Err(ConfigError::NonceTooWide)
        } else {
            Ok(Config { nonce_width, stretch_rounds, report_interval })
        }
    }

    /// Width of a nonce, in bytes.
    pub fn nonce_width(&self) -> (width: usize)
        ensures
            width == self.width(),
            1 <= width <= MAX_NONCE_WIDTH,
    {
        proof {
            use_type_invariant(self);
        }
        self.nonce_width
    }

    /// Number of times the oracle re-hashes a digest.
    pub fn stretch_rounds(&self) -> (rounds: u32)
        ensures
            rounds == self.rounds(),
    {
        self.stretch_rounds
    }

    /// Number of processed nonces between two progress reports; zero for none.
    pub fn report_interval(&self) -> (interval: u64)
        ensures
            interval == self.interval(),
    {
        self.report_interval
    }

    /// Whether a progress report is due once `processed` nonces are in the
    /// table: at every positive multiple of the interval, never with interval zero.
    pub fn report_due(&self, processed: u64) -> (due: bool)
        ensures
            due == (self.interval() > 0 && processed > 0 && processed as nat % self.interval() == 0),
    {
        self.report_interval > 0 && processed > 0 && processed % self.report_interval == 0
    }
}

} // verus!
