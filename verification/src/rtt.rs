use vstd::prelude::*;
use crate::config::{KcpConfig, RTO_INITIAL};

verus! {

/// `x` held between `lo` and `hi`.
pub open spec fn clamp(x: int, lo: int, hi: int) -> int {
    if x < lo {
        lo
    } else if x > hi {
        hi
    } else {
        x
    }
}

/// The larger of two numbers.
pub open spec fn max_int(a: int, b: int) -> int {
    if a >= b {
        a
    } else {
        b
    }
}

/// The smaller of two numbers.
pub open spec fn min_int(a: int, b: int) -> int {
    if a <= b {
        a
    } else {
        b
    }
}

/// The distance between two numbers.
pub open spec fn abs_diff(a: int, b: int) -> int {
    if a >= b {
        a - b
    } else {
        b - a
    }
}

/// Smoothed round-trip time, its variation, and the retransmission timeout
/// derived from them, all in milliseconds.
#[derive(Clone, Copy, Debug, PartialEq, Eq, Structural)]
pub struct Rtt {
    pub srtt: u32,
    pub rttvar: u32,
    pub rto: u32,
}

impl Rtt {
    /// The timeout lies within the configured bounds.
    pub open spec fn wf(&self, cfg: &KcpConfig) -> bool {
        cfg.rto_min <= self.rto <= cfg.rto_max
    }

    /// The estimator before any sample.
    pub open spec fn spec_new(cfg: &KcpConfig) -> Rtt {
        Rtt {
            srtt: 0,
            rttvar: 0,
            rto: clamp(RTO_INITIAL as int, cfg.rto_min as int, cfg.rto_max as int) as u32,
        }
    }

    /// The smoothed round-trip time after a sample: the sample itself the
    /// first time, seven eighths of the old value and one eighth of the
    /// sample afterwards.
    pub open spec fn spec_srtt(&self, sample: u32) -> int {
        if self.srtt == 0 {
            sample as int
        } else {
            (7 * self.srtt + sample) / 8
        }
    }

    /// The variation after a sample: half the sample the first time, three
    /// quarters of the old value and one quarter of the distance between
    /// sample and smoothed time afterwards.
    pub open spec fn spec_rttvar(&self, sample: u32) -> int {
        if self.srtt == 0 {
            sample as int / 2
        } else {
            (3 * self.rttvar + abs_diff(self.srtt as int, sample as int)) / 4
        }
    }

    /// The estimator after a sample.
    pub open spec fn spec_update(&self, sample: u32, cfg: &KcpConfig) -> Rtt {
        let srtt = self.spec_srtt(sample);
        let rttvar = self.spec_rttvar(sample);
        Rtt {
            srtt: srtt as u32,
            rttvar: rttvar as u32,
            rto: clamp(
                srtt + max_int(cfg.interval as int, 4 * rttvar),
                cfg.rto_min as int,
                cfg.rto_max as int,
            ) as u32,
        }
    }

    /// The estimator before any sample.
    pub fn new(cfg: &KcpConfig) -> (r: Rtt)
        requires
            cfg.valid(),
        ensures
            r == Rtt::spec_new(cfg),
            r.wf(cfg),
    {
        let rto = if RTO_INITIAL < cfg.rto_min {
            cfg.rto_min
        } else if RTO_INITIAL > cfg.rto_max {
            cfg.rto_max
        } else {
            RTO_INITIAL
        };
        Rtt { srtt: 0, rttvar: 0, rto }
    }

    /// Takes one round-trip sample into the estimate.
    pub fn update(&mut self, sample: u32, cfg: &KcpConfig)
        requires
            cfg.valid(),
        ensures
            *final(self) == old(self).spec_update(sample, cfg),
            final(self).wf(cfg),
            0 <= old(self).spec_srtt(sample) <= u32::MAX,
            0 <= old(self).spec_rttvar(sample) <= u32::MAX,
    {
        let srtt: u64;
        let rttvar: u64;
        if self.srtt == 0 {
            srtt = sample as u64;
            rttvar = sample as u64 / 2;
        } else {
            let delta: u64 = if self.srtt >= sample {
                (self.srtt - sample) as u64
            } else {
                (sample - self.srtt) as u64
            };
            rttvar = (3 * self.rttvar as u64 + delta) / 4;
            srtt = (7 * self.srtt as u64 + sample as u64) / 8;
        }
        let spread: u64 = if cfg.interval as u64 >= 4 * rttvar {
            cfg.interval as u64
        } else {
            4 * rttvar
        };
        let raw: u64 = srtt + spread;
        let rto: u32 = if raw < cfg.rto_min as u64 {
            cfg.rto_min
        } else if raw > cfg.rto_max as u64 {
            cfg.rto_max
        } else {
            raw as u32
        };
        self.srtt = srtt as u32;
        self.rttvar = rttvar as u32;
        self.rto = rto;
    }
}

} // verus!
