use vstd::prelude::*;

verus! {

/// A mono recording: amplitudes in quantisation steps, and the rate at which
/// they were sampled.
#[derive(Debug)]
pub struct AudioSignal {
    pub samples: Vec<i32>,
    pub sample_rate: u32,
}

/// Whether every sample of `samples` is zero.
pub open spec fn all_zero(samples: Seq<i32>) -> bool {
    forall|i: int| 0 <= i < samples.len() ==> samples[i] == 0
}

impl AudioSignal {
    /// A signal holds at least one sample and has a positive sample rate.
    pub open spec fn wf(&self) -> bool {
        &&& self.samples@.len() > 0
        &&& self.sample_rate > 0
    }

    /// The duration in seconds is `whole + part / sample_rate`.
    pub open spec fn duration_is(&self, whole: int, part: int) -> bool {
        &&& 0 <= part < self.sample_rate
        &&& whole * self.sample_rate + part == self.samples@.len()
    }

    /// Builds a signal, or nothing where the samples and rate cannot form one.
    pub fn new(samples: Vec<i32>, sample_rate: u32) -> (signal: Option<AudioSignal>)
        ensures
            signal is Some <==> (samples@.len() > 0 && sample_rate > 0),
            signal matches Some(s) ==> s.samples@ == samples@ && s.sample_rate == sample_rate
                && s.wf(),
    {
        if samples.len() == 0 || sample_rate == 0 {
            None
        } else {
            Some(AudioSignal { samples, sample_rate })
        }
    }

    /// Number of samples.
    pub fn len(&self) -> (n: usize)
        ensures
            n == self.samples@.len(),
    {
        self.samples.len()
    }

    /// The duration as whole seconds and the samples left over.
    pub fn get_duration(&self) -> (duration: (u64, u32))
        requires
            self.wf(),
        ensures
            self.duration_is(duration.0 as int, duration.1 as int),
    {
        let n: u64 = self.samples.len() as u64;
        let rate: u64 = self.sample_rate as u64;
        let whole: u64 = n / rate;
        let part: u64 = n % rate;
        proof {
            vstd::arithmetic::div_mod::lemma_fundamental_div_mod(n as int, rate as int);
            vstd::arithmetic::mul::lemma_mul_is_commutative(whole as int, rate as int);
        }
        (whole, part as u32)
    }

    /// Whether the signal carries no energy at all.
    pub fn is_silent(&self) -> (silent: bool)
        ensures
            silent == all_zero(self.samples@),
    {
        let mut i: usize = 0;
        while i < self.samples.len()
            invariant
                i <= self.samples@.len(),
                forall|j: int| 0 <= j < i ==> self.samples@[j] == 0,
            decreases self.samples@.len() - i,
        {
            if self.samples[i] != 0 {
                return false;
            }
            i += 1;
        }
        true
    }

    /// A copy of the signal.
    pub fn duplicate(&self) -> (copy: AudioSignal)
        ensures
            copy.samples@ == self.samples@,
            copy.sample_rate == self.sample_rate,
    {
        let mut samples: Vec<i32> = Vec::new();
        let mut i: usize = 0;
        while i < self.samples.len()
            invariant
                i <= self.samples@.len(),
                samples@ == self.samples@.subrange(0, i as int),
            decreases self.samples@.len() - i,
        {
            samples.push(self.samples[i]);
            i += 1;
        }
        assert(self.samples@.subrange(0, self.samples@.len() as int) == self.samples@);
        AudioSignal { samples, sample_rate: self.sample_rate }
    }
}

} // verus!
