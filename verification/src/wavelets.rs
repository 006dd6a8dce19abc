//! Wavelet families and decomposition depth.
use vstd::prelude::*;

verus! {

/// Number of halvings (rounding up) a signal of length `n` survives before it is shorter
/// than `2 * (width - 1)` samples, for a filter of width `width >= 2`.
pub open spec fn max_level_spec(width: int, n: int) -> int
    decreases n,
{
    if width >= 2 && n >= 2 * (width - 1) && n >= 2 {
        1 + max_level_spec(width, (n + 1) / 2)
    } else {
        0
    }
}

/// Compute the maximum number of decomposition levels for a filter of width `width`
/// applied to a signal of length `n`.
///
/// Returns 0 when the signal is too short for even a single level.
pub fn max_level(width: usize, n: usize) -> (lvl: usize)
    requires
        width != 1,
        width <= usize::MAX / 2,
        width >= 2 && n >= width - 1 ==> n < usize::MAX,
    ensures
        lvl == (if width == 0 || n < width - 1 {
            0
        } else {
            max_level_spec(width as int, n as int)
        }),
{
    if width == 0 {
        return 0;
    }
    if n < width - 1 {
        return 0;
    }
    let mut lvl: usize = 0;
    let mut n = n;
    let ghost n0 = n;
    while n >= 2 * (width - 1)
        invariant
            2 <= width <= usize::MAX / 2,
            n < usize::MAX,
            n <= n0,
            lvl <= n0 - n,
            lvl + max_level_spec(width as int, n as int) == max_level_spec(width as int, n0 as int),
        decreases n,
    {
        lvl += 1;
        n = (n + 1) / 2;
    }
    lvl
}

/// The wavelets that can be selected at runtime.
#[derive(Clone, Copy, Debug, PartialEq, Eq, Hash)]
#[allow(non_camel_case_types)]
pub enum Wavelets {
    /// Daubechies order 1 (Haar), width 2.
    Daubechies1,
    /// Daubechies order 2, width 4.
    Daubechies2,
    /// Daubechies order 3, width 6.
    Daubechies3,
    /// Daubechies order 4, width 8.
    Daubechies4,
    /// Daubechies order 5, width 10.
    Daubechies5,
    /// Daubechies order 6, width 12.
    Daubechies6,
    /// Daubechies order 7, width 14.
    Daubechies7,
    /// Daubechies order 8, width 16.
    Daubechies8,
    /// Daubechies order 9, width 18.
    Daubechies9,
    /// Daubechies order 10, width 20.
    Daubechies10,
    /// Symlet order 4, width 8.
    Symlet4,
    /// Symlet order 5, width 10.
    Symlet5,
    /// Symlet order 6, width 12.
    Symlet6,
    /// Coiflet order 1, width 6.
    Coiflet1,
    /// Coiflet order 2, width 12.
    Coiflet2,
    /// Coiflet order 3, width 18.
    Coiflet3,
    /// Biorthogonal 1.3, width 6.
    Bior1_3,
    /// Biorthogonal 1.5, width 10.
    Bior1_5,
    /// Biorthogonal 2.2, width 6.
    Bior2_2,
    /// Biorthogonal 2.4, width 10.
    Bior2_4,
    /// Biorthogonal 2.6, width 14.
    Bior2_6,
    /// Biorthogonal 2.8, width 18.
    Bior2_8,
    /// Biorthogonal 3.1, width 4.
    Bior3_1,
    /// Biorthogonal 3.3, width 8.
    Bior3_3,
    /// Biorthogonal 3.5, width 12.
    Bior3_5,
    /// Biorthogonal 3.7, width 16.
    Bior3_7,
    /// Biorthogonal 3.9, width 20.
    Bior3_9,
    /// Biorthogonal 4.2, width 8.
    Bior4_2,
    /// Biorthogonal 4.4, width 12.
    Bior4_4,
    /// Biorthogonal 4.6, width 16.
    Bior4_6,
    /// Biorthogonal 5.5, width 14.
    Bior5_5,
    /// Biorthogonal 6.8, width 22.
    Bior6_8,
    /// Cohen–Daubechies–Feauveau 5/3 (JPEG 2000 lossless), width 6.
    CDF5_3,
    /// Cohen–Daubechies–Feauveau 9/7 (JPEG 2000 lossy), width 10.
    CDF9_7,
}

/// The family and order(s) a wavelet's name gives.
#[derive(Clone, Copy, Debug, PartialEq, Eq)]
pub enum WaveletFamily {
    /// Daubechies wavelet of the given order (vanishing moments).
    Daubechies(u8),
    /// Symlet of the given order.
    Symlet(u8),
    /// Coiflet of the given order.
    Coiflet(u8),
    /// Biorthogonal wavelet `r.d`: reconstruction order `r`, decomposition order `d`.
    Biorthogonal(u8, u8),
    /// Cohen–Daubechies–Feauveau wavelet `a/s`: analysis low-pass filter of `a` taps and
    /// synthesis low-pass filter of `s` taps.
    Cdf(u8, u8),
}

/// Number of filter coefficients that the wavelet family and order(s) call for:
/// a Daubechies or Symlet wavelet of order `k` has support `2k`, a Coiflet of order `k`
/// has `6k`, a biorthogonal `r.d` wavelet has `2d + 2 * floor(r / 2)` (the decomposition
/// support widened by the reconstruction order), and a CDF `a/s` wavelet stores its longer,
/// odd-length filter of `a` taps padded to the even length `a + 1`.
pub open spec fn family_width(f: WaveletFamily) -> int {
    match f {
        WaveletFamily::Daubechies(k) => 2 * k,
        WaveletFamily::Symlet(k) => 2 * k,
        WaveletFamily::Coiflet(k) => 6 * k,
        WaveletFamily::Biorthogonal(r, d) => 2 * d + 2 * (r / 2),
        WaveletFamily::Cdf(a, s) => a + 1,
    }
}

impl Wavelets {
    /// The family and order(s) named by each wavelet.
    pub open spec fn family(self) -> WaveletFamily {
        match self {
            Wavelets::Daubechies1 => WaveletFamily::Daubechies(1),
            Wavelets::Daubechies2 => WaveletFamily::Daubechies(2),
            Wavelets::Daubechies3 => WaveletFamily::Daubechies(3),
            Wavelets::Daubechies4 => WaveletFamily::Daubechies(4),
            Wavelets::Daubechies5 => WaveletFamily::Daubechies(5),
            Wavelets::Daubechies6 => WaveletFamily::Daubechies(6),
            Wavelets::Daubechies7 => WaveletFamily::Daubechies(7),
            Wavelets::Daubechies8 => WaveletFamily::Daubechies(8),
            Wavelets::Daubechies9 => WaveletFamily::Daubechies(9),
            Wavelets::Daubechies10 => WaveletFamily::Daubechies(10),
            Wavelets::Symlet4 => WaveletFamily::Symlet(4),
            Wavelets::Symlet5 => WaveletFamily::Symlet(5),
            Wavelets::Symlet6 => WaveletFamily::Symlet(6),
            Wavelets::Coiflet1 => WaveletFamily::Coiflet(1),
            Wavelets::Coiflet2 => WaveletFamily::Coiflet(2),
            Wavelets::Coiflet3 => WaveletFamily::Coiflet(3),
            Wavelets::Bior1_3 => WaveletFamily::Biorthogonal(1, 3),
            Wavelets::Bior1_5 => WaveletFamily::Biorthogonal(1, 5),
            Wavelets::Bior2_2 => WaveletFamily::Biorthogonal(2, 2),
            Wavelets::Bior2_4 => WaveletFamily::Biorthogonal(2, 4),
            Wavelets::Bior2_6 => WaveletFamily::Biorthogonal(2, 6),
            Wavelets::Bior2_8 => WaveletFamily::Biorthogonal(2, 8),
            Wavelets::Bior3_1 => WaveletFamily::Biorthogonal(3, 1),
            Wavelets::Bior3_3 => WaveletFamily::Biorthogonal(3, 3),
            Wavelets::Bior3_5 => WaveletFamily::Biorthogonal(3, 5),
            Wavelets::Bior3_7 => WaveletFamily::Biorthogonal(3, 7),
            Wavelets::Bior3_9 => WaveletFamily::Biorthogonal(3, 9),
            Wavelets::Bior4_2 => WaveletFamily::Biorthogonal(4, 2),
            Wavelets::Bior4_4 => WaveletFamily::Biorthogonal(4, 4),
            Wavelets::Bior4_6 => WaveletFamily::Biorthogonal(4, 6),
            Wavelets::Bior5_5 => WaveletFamily::Biorthogonal(5, 5),
            Wavelets::Bior6_8 => WaveletFamily::Biorthogonal(6, 8),
            Wavelets::CDF5_3 => WaveletFamily::Cdf(5, 3),
            Wavelets::CDF9_7 => WaveletFamily::Cdf(9, 7),
        }
    }

    /// Every wavelet has the number of filter coefficients its family and order call for.
    pub proof fn lemma_width_of_family(self)
        ensures
            self.width_spec() == family_width(self.family()),
    {
    }

    /// The Daubechies wavelet of order `k` has `2k` filter coefficients, so its width
    /// grows by two from one order to the next, starting from the two taps of Haar.
    pub proof fn lemma_daubechies_width(self)
        ensures
            forall|k: u8| self.family() == WaveletFamily::Daubechies(k) ==> self.width_spec() == 2 * k,
            forall|k: u8| self.family() == WaveletFamily::Symlet(k) ==> self.width_spec() == 2 * k,
            forall|k: u8| self.family() == WaveletFamily::Coiflet(k) ==> self.width_spec() == 6 * k,
    {
    }

    /// Number of filter coefficients of each wavelet.
    pub open spec fn width_spec(self) -> int {
        match self {
            Wavelets::Daubechies1 => 2,
            Wavelets::Daubechies2 => 4,
            Wavelets::Daubechies3 => 6,
            Wavelets::Daubechies4 => 8,
            Wavelets::Daubechies5 => 10,
            Wavelets::Daubechies6 => 12,
            Wavelets::Daubechies7 => 14,
            Wavelets::Daubechies8 => 16,
            Wavelets::Daubechies9 => 18,
            Wavelets::Daubechies10 => 20,
            Wavelets::Symlet4 => 8,
            Wavelets::Symlet5 => 10,
            Wavelets::Symlet6 => 12,
            Wavelets::Coiflet1 => 6,
            Wavelets::Coiflet2 => 12,
            Wavelets::Coiflet3 => 18,
            Wavelets::Bior1_3 => 6,
            Wavelets::Bior1_5 => 10,
            Wavelets::Bior2_2 => 6,
            Wavelets::Bior2_4 => 10,
            Wavelets::Bior2_6 => 14,
            Wavelets::Bior2_8 => 18,
            Wavelets::Bior3_1 => 4,
            Wavelets::Bior3_3 => 8,
            Wavelets::Bior3_5 => 12,
            Wavelets::Bior3_7 => 16,
            Wavelets::Bior3_9 => 20,
            Wavelets::Bior4_2 => 8,
            Wavelets::Bior4_4 => 12,
            Wavelets::Bior4_6 => 16,
            Wavelets::Bior5_5 => 14,
            Wavelets::Bior6_8 => 22,
            Wavelets::CDF5_3 => 6,
            Wavelets::CDF9_7 => 10,
        }
    }

    /// Number of filter coefficients for this wavelet.
    pub fn width(&self) -> (w: usize)
        ensures
            w == self.width_spec(),
            w == family_width(self.family()),
            2 <= w <= 22,
            w % 2 == 0,
    {
        match self {
            Wavelets::Daubechies1 => 2,
            Wavelets::Daubechies2 => 4,
            Wavelets::Daubechies3 => 6,
            Wavelets::Daubechies4 => 8,
            Wavelets::Daubechies5 => 10,
            Wavelets::Daubechies6 => 12,
            Wavelets::Daubechies7 => 14,
            Wavelets::Daubechies8 => 16,
            Wavelets::Daubechies9 => 18,
            Wavelets::Daubechies10 => 20,
            Wavelets::Symlet4 => 8,
            Wavelets::Symlet5 => 10,
            Wavelets::Symlet6 => 12,
            Wavelets::Coiflet1 => 6,
            Wavelets::Coiflet2 => 12,
            Wavelets::Coiflet3 => 18,
            Wavelets::Bior1_3 => 6,
            Wavelets::Bior1_5 => 10,
            Wavelets::Bior2_2 => 6,
            Wavelets::Bior2_4 => 10,
            Wavelets::Bior2_6 => 14,
            Wavelets::Bior2_8 => 18,
            Wavelets::Bior3_1 => 4,
            Wavelets::Bior3_3 => 8,
            Wavelets::Bior3_5 => 12,
            Wavelets::Bior3_7 => 16,
            Wavelets::Bior3_9 => 20,
            Wavelets::Bior4_2 => 8,
            Wavelets::Bior4_4 => 12,
            Wavelets::Bior4_6 => 16,
            Wavelets::Bior5_5 => 14,
            Wavelets::Bior6_8 => 22,
            Wavelets::CDF5_3 => 6,
            Wavelets::CDF9_7 => 10,
        }
    }

    /// Maximum decomposition levels for a signal of length `n`.
    pub fn max_level(&self, n: usize) -> (lvl: usize)
        requires
            n < usize::MAX,
        ensures
            lvl == (if n < self.width_spec() - 1 {
                0
            } else {
                max_level_spec(self.width_spec(), n as int)
            }),
    {
        max_level(self.width(), n)
    }
}

} // verus!
