//! Decoder state: sound-frame, audio-block and audio-channel structures.
//!
//! Blocks refer to their channels by index into `SfInfo::ac`.
use vstd::prelude::*;
use crate::consts::{LDAC_MAXGRADQU, LDAC_MAXNQUS, LDAC_MAXLSU, LDAC_BLKID_MONO, LDAC_BLKID_STEREO,
    LDAC_CHCONFIGID_ST, LDAC_NSUPSMPLRATEID};
use crate::tables::{spec_nblocks, spec_block_type, spec_nch, nblocks, block_type};

verus! {

#[derive(Clone, Copy)]
pub struct Config {
    pub smplrate_id: usize,
    pub chconfig_id: usize,
    pub frame_length: usize,
    pub frame_status: i32,
}

/// Abstract value of an audio channel.
#[verifier::ext_equal]
pub struct AcModel {
    pub sfc_mode: i32,
    pub sfc_bitlen: i32,
    pub sfc_offset: i32,
    pub sfc_weight: usize,
    pub ext_size: i32,
    pub idsf: Seq<i32>,
    pub idwl1: Seq<i32>,
    pub idwl2: Seq<i32>,
    pub addwl: Seq<i32>,
    pub qspec: Seq<i32>,
    pub rspec: Seq<i32>,
}

/// Audio-channel state.
pub struct Ac {
    pub sfc_mode: i32,
    pub sfc_bitlen: i32,
    pub sfc_offset: i32,
    pub sfc_weight: usize,
    pub ext_size: i32,
    pub a_idsf: Vec<i32>,
    pub a_idwl1: Vec<i32>,
    pub a_idwl2: Vec<i32>,
    pub a_addwl: Vec<i32>,
    pub a_qspec: Vec<i32>,
    pub a_rspec: Vec<i32>,
}

impl View for Ac {
    type V = AcModel;

    open spec fn view(&self) -> AcModel {
        AcModel {
            sfc_mode: self.sfc_mode,
            sfc_bitlen: self.sfc_bitlen,
            sfc_offset: self.sfc_offset,
            sfc_weight: self.sfc_weight,
            ext_size: self.ext_size,
            idsf: self.a_idsf@,
            idwl1: self.a_idwl1@,
            idwl2: self.a_idwl2@,
            addwl: self.a_addwl@,
            qspec: self.a_qspec@,
            rspec: self.a_rspec@,
        }
    }
}

impl AcModel {
    /// Every per-unit array has one entry per quantisation unit, every
    /// spectrum array one entry per spectrum line, and every word-length id
    /// names one of the 16 word lengths.
    pub open spec fn wf(&self) -> bool {
        &&& self.idsf.len() == LDAC_MAXNQUS
        &&& self.idwl1.len() == LDAC_MAXNQUS
        &&& self.idwl2.len() == LDAC_MAXNQUS
        &&& self.addwl.len() == LDAC_MAXNQUS
        &&& self.qspec.len() == LDAC_MAXLSU
        &&& self.rspec.len() == LDAC_MAXLSU
        &&& forall|i: int| 0 <= i < LDAC_MAXNQUS ==> 0 <= #[trigger] self.idwl1[i] <= 15
        &&& forall|i: int| 0 <= i < LDAC_MAXNQUS ==> 0 <= #[trigger] self.idwl2[i] <= 15
    }
}

/// A channel with every field zero.
pub open spec fn zero_channel() -> AcModel {
    AcModel {
        sfc_mode: 0,
        sfc_bitlen: 0,
        sfc_offset: 0,
        sfc_weight: 0,
        ext_size: 0,
        idsf: Seq::new(LDAC_MAXNQUS as nat, |i: int| 0i32),
        idwl1: Seq::new(LDAC_MAXNQUS as nat, |i: int| 0i32),
        idwl2: Seq::new(LDAC_MAXNQUS as nat, |i: int| 0i32),
        addwl: Seq::new(LDAC_MAXNQUS as nat, |i: int| 0i32),
        qspec: Seq::new(LDAC_MAXLSU as nat, |i: int| 0i32),
        rspec: Seq::new(LDAC_MAXLSU as nat, |i: int| 0i32),
    }
}

/// A vector of `n` zeros.
pub fn zeros(n: usize) -> (r: Vec<i32>)
    ensures
        r@ == Seq::new(n as nat, |i: int| 0i32),
{
    let mut v: Vec<i32> = Vec::new();
    let mut i: usize = 0;
    while i < n
        invariant
            i <= n,
            v@ == Seq::new(i as nat, |k: int| 0i32),
        decreases n - i,
    {
        v.push(0);
        i += 1;
    }
    v
}

impl Ac {
    /// A channel with every field zero.
    pub fn new() -> (r: Self)
        ensures
            r@ == zero_channel(),
    {
        Ac {
            sfc_mode: 0,
            sfc_bitlen: 0,
            sfc_offset: 0,
            sfc_weight: 0,
            ext_size: 0,
            a_idsf: zeros(LDAC_MAXNQUS),
            a_idwl1: zeros(LDAC_MAXNQUS),
            a_idwl2: zeros(LDAC_MAXNQUS),
            a_addwl: zeros(LDAC_MAXNQUS),
            a_qspec: zeros(LDAC_MAXLSU),
            a_rspec: zeros(LDAC_MAXLSU),
        }
    }
}

/// Abstract value of an audio block.
#[verifier::ext_equal]
pub struct AbModel {
    pub blk_nchs: usize,
    pub nbands: i32,
    pub nqus: usize,
    pub ext_flag: i32,
    pub ext_mode: i32,
    pub grad_mode: i32,
    pub grad_qu_l: i32,
    pub grad_qu_h: i32,
    pub grad_os_l: i32,
    pub grad_os_h: i32,
    pub grad: Seq<i32>,
    pub nadjqus: i32,
    pub ac_idx: Seq<usize>,
}

/// Audio-block state.
pub struct Ab {
    pub blk_nchs: usize,
    pub nbands: i32,
    pub nqus: usize,
    pub ext_flag: i32,
    pub ext_mode: i32,
    pub grad_mode: i32,
    pub grad_qu_l: i32,
    pub grad_qu_h: i32,
    pub grad_os_l: i32,
    pub grad_os_h: i32,
    pub a_grad: Vec<i32>,
    pub nadjqus: i32,
    /// Indices into `SfInfo::ac` of the channels of this block.
    pub ac_idx: [usize; 2],
}

impl View for Ab {
    type V = AbModel;

    open spec fn view(&self) -> AbModel {
        AbModel {
            blk_nchs: self.blk_nchs,
            nbands: self.nbands,
            nqus: self.nqus,
            ext_flag: self.ext_flag,
            ext_mode: self.ext_mode,
            grad_mode: self.grad_mode,
            grad_qu_l: self.grad_qu_l,
            grad_qu_h: self.grad_qu_h,
            grad_os_l: self.grad_os_l,
            grad_os_h: self.grad_os_h,
            grad: self.a_grad@,
            nadjqus: self.nadjqus,
            ac_idx: self.ac_idx@,
        }
    }
}

/// Channel count of a block of type `blk_type`.
pub open spec fn block_nchs(blk_type: i32) -> usize {
    if blk_type == LDAC_BLKID_MONO { 1 } else if blk_type == LDAC_BLKID_STEREO { 2 } else { 0 }
}

impl Ab {
    /// A zeroed block of type `blk_type`, with its channel count.
    pub fn new(blk_type: i32) -> (r: Self)
        ensures
            r@ == (AbModel {
                blk_nchs: block_nchs(blk_type),
                nbands: 0,
                nqus: 0,
                ext_flag: 0,
                ext_mode: 0,
                grad_mode: 0,
                grad_qu_l: 0,
                grad_qu_h: 0,
                grad_os_l: 0,
                grad_os_h: 0,
                grad: Seq::new(LDAC_MAXGRADQU as nat, |i: int| 0i32),
                nadjqus: 0,
                ac_idx: seq![0usize, 0usize],
            }),
    {
        let blk_nchs: usize = if blk_type == LDAC_BLKID_MONO {
            1
        } else if blk_type == LDAC_BLKID_STEREO {
            2
        } else {
            0
        };
        let r = Ab {
            blk_nchs,
            nbands: 0,
            nqus: 0,
            ext_flag: 0,
            ext_mode: 0,
            grad_mode: 0,
            grad_qu_l: 0,
            grad_qu_h: 0,
            grad_os_l: 0,
            grad_os_h: 0,
            a_grad: zeros(LDAC_MAXGRADQU),
            nadjqus: 0,
            ac_idx: [0, 0],
        };
        assert(r.ac_idx@ =~= seq![0usize, 0usize]);
        r
    }
}

/// Sound-frame info: top-level decoder state.
pub struct SfInfo {
    pub cfg: Config,
    pub ab: Vec<Ab>,
    pub ac: Vec<Ac>,
}

/// The block layout of channel configuration `cci`: block `b` has the
/// channel count of its type, and its channel `ich` is channel `b + ich`.
pub open spec fn layout_ok(cci: int, abs: Seq<AbModel>, nac: int) -> bool {
    &&& abs.len() == spec_nblocks(cci)
    &&& nac == spec_nch(cci)
    &&& forall|b: int| 0 <= b < abs.len() ==> {
            &&& (#[trigger] abs[b]).blk_nchs == block_nchs(spec_block_type(cci, b))
            &&& abs[b].ac_idx.len() == 2
            &&& forall|ich: int| 0 <= ich < abs[b].blk_nchs ==> abs[b].ac_idx[ich] == b + ich
            &&& abs[b].grad.len() == LDAC_MAXGRADQU
            &&& forall|i: int| 0 <= i < LDAC_MAXGRADQU ==> -0x10000 <= #[trigger] abs[b].grad[i] <= 0x10000
        }
}

/// The blocks of channel configuration `cci` right after initialisation.
pub open spec fn initial_blocks(cci: int) -> Seq<AbModel> {
    Seq::new(spec_nblocks(cci) as nat, |b: int| AbModel {
        blk_nchs: block_nchs(spec_block_type(cci, b)),
        nbands: 0,
        nqus: 0,
        ext_flag: 0,
        ext_mode: 0,
        grad_mode: 0,
        grad_qu_l: 0,
        grad_qu_h: 0,
        grad_os_l: 0,
        grad_os_h: 0,
        grad: Seq::new(LDAC_MAXGRADQU as nat, |i: int| 0i32),
        nadjqus: 0,
        ac_idx: seq![b as usize, if block_nchs(spec_block_type(cci, b)) == 2 { (b + 1) as usize } else { 0usize }],
    })
}

/// The channels of channel configuration `cci` right after initialisation.
pub open spec fn initial_channels(cci: int) -> Seq<AcModel> {
    Seq::new(spec_nch(cci) as nat, |c: int| zero_channel())
}

impl SfInfo {
    /// Abstract values of the blocks.
    pub open spec fn abs(&self) -> Seq<AbModel> {
        self.ab@.map_values(|a: Ab| a@)
    }

    /// Abstract values of the channels.
    pub open spec fn acs(&self) -> Seq<AcModel> {
        self.ac@.map_values(|a: Ac| a@)
    }

    /// The configuration ids are in range, the blocks and channels match the
    /// channel configuration, and every array has its size.
    pub open spec fn wf(&self) -> bool {
        &&& self.cfg.smplrate_id < LDAC_NSUPSMPLRATEID
        &&& self.cfg.chconfig_id <= LDAC_CHCONFIGID_ST
        &&& layout_ok(self.cfg.chconfig_id as int, self.abs(), self.ac@.len() as int)
        &&& forall|c: int| 0 <= c < self.ac@.len() ==> (#[trigger] self.ac@[c])@.wf()
    }

    /// Frame info with the given configuration and no blocks or channels.
    pub fn new(smplrate_id: usize, chconfig_id: usize, frame_length: usize, frame_status: i32) -> (r: Self)
        ensures
            r.cfg == (Config { smplrate_id, chconfig_id, frame_length, frame_status }),
            r.ab@.len() == 0,
            r.ac@.len() == 0,
    {
        SfInfo {
            cfg: Config { smplrate_id, chconfig_id, frame_length, frame_status },
            ab: Vec::new(),
            ac: Vec::new(),
        }
    }

    /// Build the block and channel layout of the current channel configuration,
    /// with every block and channel zeroed.
    pub fn init_decode(&mut self)
        requires
            old(self).cfg.chconfig_id <= LDAC_CHCONFIGID_ST,
        ensures
            final(self).cfg == old(self).cfg,
            old(self).cfg.smplrate_id < LDAC_NSUPSMPLRATEID ==> final(self).wf(),
            final(self).abs() == initial_blocks(old(self).cfg.chconfig_id as int),
            final(self).acs() == initial_channels(old(self).cfg.chconfig_id as int),
            forall|c: int| 0 <= c < final(self).ac@.len() ==> (#[trigger] final(self).ac@[c])@ == zero_channel(),
            forall|b: int| 0 <= b < final(self).ab@.len() ==> {
                let m = (#[trigger] final(self).ab@[b])@;
                &&& m.nbands == 0 && m.nqus == 0 && m.ext_flag == 0 && m.ext_mode == 0
                &&& m.grad_mode == 0 && m.grad_qu_l == 0 && m.grad_qu_h == 0
                &&& m.grad_os_l == 0 && m.grad_os_h == 0 && m.nadjqus == 0
                &&& m.grad == Seq::new(LDAC_MAXGRADQU as nat, |i: int| 0i32)
            },
    {
        let cci = self.cfg.chconfig_id;
        let nbks = nblocks(cci);
        self.ab = Vec::new();
        self.ac = Vec::new();
        let mut ch_off: usize = 0;
        let mut ibk: usize = 0;
        while ibk < nbks
            invariant
                nbks == spec_nblocks(cci as int),
                cci == self.cfg.chconfig_id,
                cci <= LDAC_CHCONFIGID_ST,
                self.cfg == old(self).cfg,
                ibk <= nbks,
                self.ab@.len() == ibk,
                ch_off == self.ac@.len(),
                ch_off == (if ibk == 0 { 0 } else if cci == LDAC_CHCONFIGID_ST { 2 } else { ibk as int }),
                forall|c: int| 0 <= c < self.ac@.len() ==> (#[trigger] self.ac@[c])@ == zero_channel(),
                forall|b: int| 0 <= b < ibk ==> {
                    let m = (#[trigger] self.ab@[b])@;
                    &&& m.blk_nchs == block_nchs(spec_block_type(cci as int, b))
                    &&& m.ac_idx.len() == 2
                    &&& forall|ich: int| 0 <= ich < m.blk_nchs ==> m.ac_idx[ich] == b + ich
                    &&& m.blk_nchs < 2 ==> m.ac_idx[1] == 0
                    &&& m.nbands == 0 && m.nqus == 0 && m.ext_flag == 0 && m.ext_mode == 0
                    &&& m.grad_mode == 0 && m.grad_qu_l == 0 && m.grad_qu_h == 0
                    &&& m.grad_os_l == 0 && m.grad_os_h == 0 && m.nadjqus == 0
                    &&& m.grad == Seq::new(LDAC_MAXGRADQU as nat, |i: int| 0i32)
                },
            decreases nbks - ibk,
        {
            let blk_type = block_type(cci, ibk);
            let mut ab = Ab::new(blk_type);
            let mut ich: usize = 0;
            let ghost ab_before = self.ab@;
            while ich < ab.blk_nchs
                invariant
                    self.ab@ == ab_before,
                    self.cfg == old(self).cfg,
                    cci == self.cfg.chconfig_id,
                    ab.blk_nchs == block_nchs(blk_type),
                    blk_type == spec_block_type(cci as int, ibk as int),
                    cci <= LDAC_CHCONFIGID_ST,
                    ibk < nbks,
                    nbks == spec_nblocks(cci as int),
                    ich <= ab.blk_nchs,
                    ch_off == self.ac@.len(),
                    ch_off == (if ibk == 0 { 0 } else if cci == LDAC_CHCONFIGID_ST { 2 } else { ibk as int }) + ich,
                    ab.ac_idx@.len() == 2,
                    forall|k: int| 0 <= k < ich ==> ab.ac_idx@[k] == ibk + k,
                    forall|k: int| ich <= k < 2 ==> ab.ac_idx@[k] == 0,
                    ab.nbands == 0 && ab.nqus == 0 && ab.ext_flag == 0 && ab.ext_mode == 0,
                    ab.grad_mode == 0 && ab.grad_qu_l == 0 && ab.grad_qu_h == 0,
                    ab.grad_os_l == 0 && ab.grad_os_h == 0 && ab.nadjqus == 0,
                    ab.a_grad@ == Seq::new(LDAC_MAXGRADQU as nat, |i: int| 0i32),
                    forall|c: int| 0 <= c < self.ac@.len() ==> (#[trigger] self.ac@[c])@ == zero_channel(),
                decreases ab.blk_nchs - ich,
            {
                proof {
                    if ich == 1 { assert(ab.ac_idx@[0] == ibk); }
                }
                ab.ac_idx[ich] = ch_off;
                self.ac.push(Ac::new());
                ch_off += 1;
                ich += 1;
            }
            self.ab.push(ab);
            ibk += 1;
        }
        assert(self.abs().len() == self.ab@.len());
        assert forall|b: int| 0 <= b < self.abs().len() implies #[trigger] self.abs()[b] == initial_blocks(cci as int)[b] by {
            let m = self.abs()[b];
            let e = initial_blocks(cci as int)[b];
            assert(m.ac_idx =~= e.ac_idx);
            assert(m.grad =~= e.grad);
        }
        assert(self.abs() =~= initial_blocks(cci as int));
        assert(self.acs() =~= initial_channels(cci as int));
    }
}

} // verus!
