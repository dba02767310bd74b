use vstd::prelude::*;

verus! {

/// Why a configuration is rejected before any scanning begins.
#[derive(Clone, Copy, Debug, PartialEq, Eq, Structural)]
pub enum DetectError {
    /// The window length is zero, a threshold denominator is zero, or the
    /// GC-content threshold exceeds one.
    InvalidCriteria,
}

/// Scan configuration: the window size and the two classification thresholds.
///
/// Both thresholds are exact rationals: a window's GC fraction must be at
/// least `min_gc_num / min_gc_den`, and its observed/expected CpG ratio at
/// least `min_cpg_num / min_cpg_den`. The GC threshold is a fraction in
/// `[0, 1]`; the ratio threshold is any non-negative rational.
#[derive(Clone, Copy, Debug, PartialEq, Eq, Structural)]
pub struct Criteria {
    pub window_length: usize,
    pub min_gc_num: u32,
    pub min_gc_den: u32,
    pub min_cpg_num: u32,
    pub min_cpg_den: u32,
}

impl Criteria {
    /// A usable configuration: a nonempty window small enough that the
    /// classification products fit in 128 bits, nonzero denominators, and a
    /// GC threshold of at most one.
    pub open spec fn wf(self) -> bool {
        &&& 1 <= self.window_length <= 0xFFFF_FFFFusize
        &&& self.min_gc_den >= 1
        &&& self.min_cpg_den >= 1
        &&& self.min_gc_num <= self.min_gc_den
    }

    /// Validates a configuration, returning `InvalidCriteria` exactly when
    /// the window length is zero, a denominator is zero, or the GC threshold
    /// exceeds one.
    pub fn new(
        window_length: usize,
        min_gc_num: u32,
        min_gc_den: u32,
        min_cpg_num: u32,
        min_cpg_den: u32,
    ) -> (r: Result<Criteria, DetectError>)
        requires
            window_length <= 0xFFFF_FFFFusize,
        ensures
            (match r {
                Ok(c) => {
                    &&& c.wf()
                    &&& c.window_length == window_length
                    &&& c.min_gc_num == min_gc_num
                    &&& c.min_gc_den == min_gc_den
                    &&& c.min_cpg_num == min_cpg_num
                    &&& c.min_cpg_den == min_cpg_den
                },
                Err(e) => e == DetectError::InvalidCriteria,
            }),
            (match r {
                Ok(_) => true,
                Err(_) => false,
            }) <==> (window_length >= 1 && min_gc_den >= 1 && min_cpg_den >= 1
                && min_gc_num <= min_gc_den),
    {
        if window_length == 0 || min_gc_den == 0 || min_cpg_den == 0 || min_gc_num > min_gc_den {
            Err(DetectError::InvalidCriteria)
        } else {
            Ok(Criteria { window_length, min_gc_num, min_gc_den, min_cpg_num, min_cpg_den })
        }
    }
}

impl Default for Criteria {
    /// The customary defaults: a 200-base window, GC content at least 1/2,
    /// observed/expected CpG ratio at least 3/5.
    fn default() -> (c: Criteria)
        ensures
            c.wf(),
            c.window_length == 200,
            c.min_gc_num == 1,
            c.min_gc_den == 2,
            c.min_cpg_num == 3,
            c.min_cpg_den == 5,
    {
        Criteria { window_length: 200, min_gc_num: 1, min_gc_den: 2, min_cpg_num: 3, min_cpg_den: 5 }
    }
}

} // verus!
