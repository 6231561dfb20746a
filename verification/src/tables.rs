//! Lookup tables of the LDAC format.
//!
//! The per-rate and per-channel-configuration tables are fixed by the
//! format and stated here.  The coding tables (band layout, quantisation
//! unit layout, word lengths, scale-factor weights, gradient resampling,
//! vector-quantiser codebooks and Huffman decoders) are held in a
//! [`CodecTables`] value handed to the frame parser; every property the
//! parser relies on is part of [`CodecTables::wf`].
use vstd::prelude::*;
use crate::consts::{LDAC_NSUPSMPLRATEID, LDAC_CHCONFIGID_MN, LDAC_CHCONFIGID_DL, LDAC_CHCONFIGID_ST, LDAC_BLKID_MONO, LDAC_BLKID_STEREO, LDAC_MAXNBANDS, LDAC_MAXNQUS, LDAC_MAXLSU, LDAC_NIDWL, LDAC_NSFCWTBL, LDAC_MAXGRADQU, LDAC_N2DIMSPECDECTBL, LDAC_N4DIMSPECDECTBL};

verus! {

/// Sampling rate in Hz for sampling-rate id `sfid`.
pub open spec fn spec_smplrate(sfid: int) -> u32 {
    if sfid == 0 { 44_100 } else if sfid == 1 { 48_000 } else if sfid == 2 { 88_200 } else { 96_000 }
}

/// Samples per channel per frame for sampling-rate id `sfid`.
pub open spec fn spec_framesmpls(sfid: int) -> u32 {
    if sfid <= 1 { 128 } else { 256 }
}

/// Base-two logarithm of [`spec_framesmpls`].
pub open spec fn spec_ln_framesmpls(sfid: int) -> usize {
    if sfid <= 1 { 7 } else { 8 }
}

/// Number of channels of channel-configuration id `cci`.
pub open spec fn spec_nch(cci: int) -> u8 {
    if cci == LDAC_CHCONFIGID_MN { 1 } else { 2 }
}

/// Number of audio blocks of channel-configuration id `cci`.
pub open spec fn spec_nblocks(cci: int) -> usize {
    if cci == LDAC_CHCONFIGID_DL { 2 } else { 1 }
}

/// Block type of block `ibk` of channel-configuration id `cci`.
pub open spec fn spec_block_type(cci: int, ibk: int) -> i32 {
    if cci == LDAC_CHCONFIGID_ST { LDAC_BLKID_STEREO } else { LDAC_BLKID_MONO }
}

/// Sampling rate of sampling-rate id `sfid`.
pub fn smplrate(sfid: usize) -> (r: u32)
    requires
        sfid < LDAC_NSUPSMPLRATEID,
    ensures
        r == spec_smplrate(sfid as int),
{
    if sfid == 0 { 44_100 } else if sfid == 1 { 48_000 } else if sfid == 2 { 88_200 } else { 96_000 }
}

/// Samples per channel of a frame at sampling-rate id `sfid`.
pub fn framesmpls(sfid: usize) -> (r: u32)
    requires
        sfid < LDAC_NSUPSMPLRATEID,
    ensures
        r == spec_framesmpls(sfid as int),
{
    if sfid <= 1 { 128 } else { 256 }
}

/// Base-two logarithm of the frame samples at sampling-rate id `sfid`.
pub fn ln_framesmpls(sfid: usize) -> (r: usize)
    requires
        sfid < LDAC_NSUPSMPLRATEID,
    ensures
        r == spec_ln_framesmpls(sfid as int),
{
    if sfid <= 1 { 7 } else { 8 }
}

/// Channel count of channel-configuration id `cci`.
pub fn nch(cci: usize) -> (r: u8)
    requires
        cci <= LDAC_CHCONFIGID_ST,
    ensures
        r == spec_nch(cci as int),
{
    if cci == LDAC_CHCONFIGID_MN { 1 } else { 2 }
}

/// Block count of channel-configuration id `cci`.
pub fn nblocks(cci: usize) -> (r: usize)
    requires
        cci <= LDAC_CHCONFIGID_ST,
    ensures
        r == spec_nblocks(cci as int),
{
    if cci == LDAC_CHCONFIGID_DL { 2 } else { 1 }
}

/// Type of block `ibk` of channel-configuration id `cci`.
pub fn block_type(cci: usize, ibk: usize) -> (r: i32)
    requires
        cci <= LDAC_CHCONFIGID_ST,
        ibk < spec_nblocks(cci as int),
    ensures
        r == spec_block_type(cci as int, ibk as int),
{
    if cci == LDAC_CHCONFIGID_ST { LDAC_BLKID_STEREO } else { LDAC_BLKID_MONO }
}

/// A Huffman decoder: `dec[c]` is the symbol whose code is a prefix of the
/// `maxlen`-bit look-ahead `c`, and `lens[sym]` is the length of that code.
pub struct HuffDec {
    pub maxlen: u32,
    pub mask: i32,
    pub dec: Vec<u8>,
    pub lens: Vec<u8>,
}

impl HuffDec {
    /// Codes of 1 to 16 bits, one decoded symbol per look-ahead value, and
    /// every code length within the look-ahead.
    pub open spec fn wf(&self) -> bool {
        &&& 1 <= self.maxlen <= 16
        &&& 0 <= self.mask <= 0xFF
        &&& self.dec@.len() == vstd::arithmetic::power2::pow2(self.maxlen as nat)
        &&& forall|i: int| 0 <= i < self.dec@.len() ==> (#[trigger] self.dec@[i]) < self.lens@.len()
        &&& forall|j: int| 0 <= j < self.lens@.len() ==> (#[trigger] self.lens@[j]) <= self.maxlen
    }

    /// Check the decoder's well-formedness.
    pub fn is_valid(&self) -> (r: bool)
        ensures
            r == self.wf(),
    {
        if !(1 <= self.maxlen && self.maxlen <= 16 && 0 <= self.mask && self.mask <= 0xFF) {
            return false;
        }
        let size: usize = 1usize << self.maxlen;
        proof {
            vstd::arithmetic::power2::lemma2_to64();
            if self.maxlen < 16 {
                vstd::arithmetic::power2::lemma_pow2_strictly_increases(self.maxlen as nat, 16);
            }
            vstd::bits::lemma_usize_shl_is_mul(1, self.maxlen as usize);
        }
        if self.dec.len() != size {
            return false;
        }
        let mut i: usize = 0;
        while i < self.dec.len()
            invariant
                i <= self.dec@.len(),
                forall|k: int| 0 <= k < i ==> (#[trigger] self.dec@[k]) < self.lens@.len(),
            decreases self.dec@.len() - i,
        {
            if self.dec[i] as usize >= self.lens.len() {
                return false;
            }
            i += 1;
        }
        let mut j: usize = 0;
        while j < self.lens.len()
            invariant
                j <= self.lens@.len(),
                forall|k: int| 0 <= k < j ==> (#[trigger] self.lens@[k]) <= self.maxlen,
            decreases self.lens@.len() - j,
        {
            if self.lens[j] as u32 > self.maxlen {
                return false;
            }
            j += 1;
        }
        true
    }
}

/// The coding tables of the format.
pub struct CodecTables {
    /// Largest band count per sampling-rate id.
    pub max_nbands: Vec<u8>,
    /// Quantisation-unit count per band count.
    pub nqus: Vec<u8>,
    /// First spectrum index of each quantisation unit (and the end index).
    pub isp: Vec<u16>,
    /// Spectrum count of each quantisation unit.
    pub nsps: Vec<u8>,
    /// Word length per word-length id.
    pub wl: Vec<u8>,
    /// Scale-factor weight tables, one row per weight id.
    pub sfcwgt: Vec<Vec<u8>>,
    /// Gradient resampling curves, one row per span.
    pub resamp_grad: Vec<Vec<u8>>,
    /// Two-dimensional spectrum codebook.
    pub spec2: Vec<Vec<i8>>,
    /// Four-dimensional spectrum codebook.
    pub spec4: Vec<Vec<i8>>,
    /// Huffman decoders for absolute scale factors, per bit length 3..=6.
    pub hc_sf0: Vec<HuffDec>,
    /// Huffman decoders for differential scale factors, per bit length 2..=5.
    pub hc_sf1: Vec<HuffDec>,
}

/// `rows` has `n` rows of `len` entries each.
pub open spec fn rows_of_len<T>(rows: Seq<Vec<T>>, n: int, len: int) -> bool {
    &&& rows.len() == n
    &&& forall|r: int| 0 <= r < n ==> (#[trigger] rows[r])@.len() == len
}

/// Every row of `rows` has `len` entries.
fn rows_have_len<T>(rows: &Vec<Vec<T>>, len: usize) -> (r: bool)
    ensures
        r == forall|i: int| 0 <= i < rows@.len() ==> (#[trigger] rows@[i])@.len() == len,
{
    let mut i: usize = 0;
    while i < rows.len()
        invariant
            i <= rows@.len(),
            forall|k: int| 0 <= k < i ==> (#[trigger] rows@[k])@.len() == len,
        decreases rows@.len() - i,
    {
        if rows[i].len() != len {
            return false;
        }
        i += 1;
    }
    true
}

impl CodecTables {
    /// Check the well-formedness of a set of tables.
    pub fn is_valid(&self) -> (r: bool)
        ensures
            r == self.wf(),
    {
        if self.max_nbands.len() != LDAC_NSUPSMPLRATEID || self.nqus.len() != LDAC_MAXNBANDS + 1
            || self.isp.len() != LDAC_MAXNQUS + 1 || self.nsps.len() != LDAC_MAXNQUS || self.wl.len() != LDAC_NIDWL
            || self.sfcwgt.len() != LDAC_NSFCWTBL || self.resamp_grad.len() != LDAC_MAXGRADQU
            || self.spec2.len() != LDAC_N2DIMSPECDECTBL || self.spec4.len() != LDAC_N4DIMSPECDECTBL
            || self.hc_sf0.len() != 4 || self.hc_sf1.len() != 4 {
            return false;
        }
        let mut i: usize = 0;
        while i < LDAC_NSUPSMPLRATEID
            invariant
                i <= LDAC_NSUPSMPLRATEID,
                self.max_nbands@.len() == LDAC_NSUPSMPLRATEID,
                forall|k: int| 0 <= k < i ==> (#[trigger] self.max_nbands@[k]) <= LDAC_MAXNBANDS,
            decreases LDAC_NSUPSMPLRATEID - i,
        {
            if self.max_nbands[i] as usize > LDAC_MAXNBANDS {
                return false;
            }
            i += 1;
        }
        let mut i: usize = 0;
        while i <= LDAC_MAXNBANDS
            invariant
                i <= LDAC_MAXNBANDS + 1,
                self.nqus@.len() == LDAC_MAXNBANDS + 1,
                forall|k: int| 0 <= k < i ==> (#[trigger] self.nqus@[k]) <= LDAC_MAXNQUS,
                forall|k: int| 2 <= k < i ==> (#[trigger] self.nqus@[k]) >= 1,
            decreases LDAC_MAXNBANDS + 1 - i,
        {
            if self.nqus[i] as usize > LDAC_MAXNQUS || (i >= 2 && self.nqus[i] < 1) {
                return false;
            }
            i += 1;
        }
        if self.isp[0] != 0 || self.isp[LDAC_MAXNQUS] as usize > LDAC_MAXLSU {
            return false;
        }
        let mut i: usize = 0;
        while i < LDAC_MAXNQUS
            invariant
                i <= LDAC_MAXNQUS,
                self.isp@.len() == LDAC_MAXNQUS + 1,
                self.nsps@.len() == LDAC_MAXNQUS,
                forall|k: int| 0 <= k < i ==> (#[trigger] self.isp@[k]) + self.nsps@[k] == self.isp@[k + 1],
            decreases LDAC_MAXNQUS - i,
        {
            if self.isp[i] as usize + self.nsps[i] as usize != self.isp[i + 1] as usize {
                return false;
            }
            i += 1;
        }
        let mut i: usize = 1;
        while i < LDAC_NIDWL
            invariant
                1 <= i <= LDAC_NIDWL,
                self.wl@.len() == LDAC_NIDWL,
                forall|k: int| 1 <= k < i ==> 1 <= (#[trigger] self.wl@[k]) <= 16,
            decreases LDAC_NIDWL - i,
        {
            if self.wl[i] < 1 || self.wl[i] > 16 {
                return false;
            }
            i += 1;
        }
        if !rows_have_len(&self.sfcwgt, LDAC_MAXNQUS) || !rows_have_len(&self.resamp_grad, LDAC_MAXGRADQU)
            || !rows_have_len(&self.spec2, 2) || !rows_have_len(&self.spec4, 4) {
            return false;
        }
        let mut i: usize = 0;
        while i < 4
            invariant
                i <= 4,
                self.hc_sf0@.len() == 4,
                self.hc_sf1@.len() == 4,
                forall|k: int| 0 <= k < i ==> (#[trigger] self.hc_sf0@[k]).wf(),
                forall|k: int| 0 <= k < i ==> (#[trigger] self.hc_sf1@[k]).wf(),
            decreases 4 - i,
        {
            if !self.hc_sf0[i].is_valid() || !self.hc_sf1[i].is_valid() {
                return false;
            }
            i += 1;
        }
        true
    }

    /// Well-formedness: every table has its size, and the quantisation units
    /// partition a prefix of the 256-entry spectrum in order.
    pub open spec fn wf(&self) -> bool {
        &&& self.max_nbands@.len() == LDAC_NSUPSMPLRATEID
        &&& forall|i: int| 0 <= i < LDAC_NSUPSMPLRATEID ==> (#[trigger] self.max_nbands@[i]) <= LDAC_MAXNBANDS
        &&& self.nqus@.len() == LDAC_MAXNBANDS + 1
        &&& forall|i: int| 0 <= i <= LDAC_MAXNBANDS ==> (#[trigger] self.nqus@[i]) <= LDAC_MAXNQUS
        &&& forall|i: int| 2 <= i <= LDAC_MAXNBANDS ==> (#[trigger] self.nqus@[i]) >= 1
        &&& self.isp@.len() == LDAC_MAXNQUS + 1
        &&& self.nsps@.len() == LDAC_MAXNQUS
        &&& self.isp@[0] == 0
        &&& self.isp@[LDAC_MAXNQUS as int] <= LDAC_MAXLSU
        &&& forall|i: int| 0 <= i < LDAC_MAXNQUS ==>
                (#[trigger] self.isp@[i]) + self.nsps@[i] == self.isp@[i + 1]
        &&& self.wl@.len() == LDAC_NIDWL
        &&& forall|i: int| 1 <= i < LDAC_NIDWL ==> 1 <= (#[trigger] self.wl@[i]) <= 16
        &&& rows_of_len(self.sfcwgt@, LDAC_NSFCWTBL as int, LDAC_MAXNQUS as int)
        &&& rows_of_len(self.resamp_grad@, LDAC_MAXGRADQU as int, LDAC_MAXGRADQU as int)
        &&& rows_of_len(self.spec2@, LDAC_N2DIMSPECDECTBL as int, 2)
        &&& rows_of_len(self.spec4@, LDAC_N4DIMSPECDECTBL as int, 4)
        &&& self.hc_sf0@.len() == 4
        &&& self.hc_sf1@.len() == 4
        &&& forall|i: int| 0 <= i < 4 ==> (#[trigger] self.hc_sf0@[i]).wf()
        &&& forall|i: int| 0 <= i < 4 ==> (#[trigger] self.hc_sf1@[i]).wf()
    }
}

} // verus!
