//! Frame-header and raw-data-frame parsing.
use vstd::prelude::*;
use vstd::arithmetic::power2::{pow2, lemma2_to64, lemma_pow2_strictly_increases};
use crate::bitreader::{BitReader, field_at, lemma_field_range};
use crate::consts::{LDAC_SYNCWORD, LDAC_MAXNQUS, LDAC_MAXLSU, LDAC_2DIMSPECBITS, LDAC_4DIMSPECBITS};
use crate::error::LdacError;
use crate::sfinfo::{Ac, AcModel};
use crate::tables::{CodecTables, HuffDec};
use crate::consts::{LDAC_SFCMODEBITS, LDAC_SFCBLENBITS, LDAC_IDSFBITS, LDAC_SFCWTBLBITS, LDAC_MINSFCBLEN_0};
use crate::bitalloc::{small, spec_gradient, grad_params_ok, reconst_gradient, grad_adjust, spec_addwl, spec_idwl1, spec_idwl2, spec_adj_wl, spec_base_wl, calc_add_word_length,
    reconst_word_length, lemma_addwl_bound, spec_addwl_at, wl_fits, lemma_small_fits};
use crate::sfinfo::{Ab, AbModel, SfInfo, layout_ok, block_nchs};
use crate::tables::{spec_nblocks, spec_nch, spec_block_type};
use crate::consts::{LDAC_FILLCODE, LDAC_CHCONFIGID_ST, LDAC_MAXBITNUM};
use crate::consts::{LDAC_BYTESIZE, LDAC_MAXGRADQU, LDAC_NBANDBITS, LDAC_BAND_OFFSET, LDAC_FLAGBITS, LDAC_GRADMODEBITS, LDAC_MODE_0,
    LDAC_GRADQU0BITS, LDAC_GRADQU1BITS, LDAC_GRADOSBITS, LDAC_DEFGRADQUH, LDAC_DEFGRADOSH, LDAC_NADJQUBITS,
    LDAC_NSUPSMPLRATEID, LDAC_MAXNBANDS};

verus! {

broadcast use BitReader::lemma_position_nonneg;

/// The low `bits` bits of `v` read as a two's-complement number.
pub open spec fn spec_sign_extend(v: u32, bits: u32) -> int {
    let m = (v as int) % (pow2(bits as nat) as int);
    if m >= pow2((bits - 1) as nat) { m - pow2(bits as nat) } else { m }
}

/// Sign-extend the low `bits` bits of `v`.
pub fn sign_extend(v: u32, bits: u32) -> (r: i32)
    requires
        1 <= bits <= 32,
    ensures
        r as int == spec_sign_extend(v, bits),
{
    let shift = 32 - bits;
    proof {
        let b = bits;
        let k = shift;
        let m: u64 = ((v as u64) & ((1u64 << b) - 1) as u64) as u64;
        assert(((((v << k) as i32) >> k) as int) == (if m >= (1u64 << (b - 1) as u64) {
            m as int - (1u64 << b) as int
        } else {
            m as int
        })) by (bit_vector)
            requires
                1 <= b <= 32,
                k == 32 - b,
                m == ((v as u64) & ((1u64 << b) - 1) as u64),
        ;
        lemma2_to64();
        if b < 32 { lemma_pow2_strictly_increases(b as nat, 32); }
        assert(((1u64 << b) - 1) as u64 == vstd::bits::low_bits_mask(b as nat) as u64) by {
            vstd::bits::lemma_u64_shl_is_mul(1, b as u64);
        }
        vstd::bits::lemma_u64_low_bits_mask_is_mod(v as u64, b as nat);
        lemma2_to64();
        if b < 32 {
            lemma_pow2_strictly_increases(b as nat, 32);
        }
        lemma_pow2_strictly_increases((b - 1) as nat, b as nat);
        vstd::bits::lemma_u64_shl_is_mul(1, b as u64);
        vstd::bits::lemma_u64_shl_is_mul(1, (b - 1) as u64);
    }
    ((v << shift) as i32) >> shift
}

/// Law: a sign-extended field lies in the signed range of its width and
/// agrees with the field modulo `2^bits`.
pub proof fn lemma_sign_extend_range(v: u32, bits: u32)
    requires
        1 <= bits <= 32,
    ensures
        -(pow2((bits - 1) as nat) as int) <= spec_sign_extend(v, bits) < pow2((bits - 1) as nat),
        (spec_sign_extend(v, bits) + pow2(bits as nat)) % (pow2(bits as nat) as int) == (v as int) % (pow2(bits as nat) as int),
{
    vstd::arithmetic::power2::lemma_pow2_unfold(bits as nat);
    vstd::arithmetic::power2::lemma_pow2_pos((bits - 1) as nat);
    let p = pow2(bits as nat) as int;
    let m = (v as int) % p;
    vstd::arithmetic::div_mod::lemma_mod_bound(v as int, p);
    if m >= pow2((bits - 1) as nat) {
        assert((m - p + p) % p == m % p);
        vstd::arithmetic::div_mod::lemma_mod_twice(v as int, p);
    } else {
        vstd::arithmetic::div_mod::lemma_mod_add_multiples_vanish(m, p);
        vstd::arithmetic::div_mod::lemma_mod_twice(v as int, p);
    }
}

/// The fields of the 3-byte LDAC transport frame header.
pub struct FrameHeader {
    pub smplrate_id: usize,
    pub chconfig_id: usize,
    pub frame_length: usize,
    pub frame_status: i32,
}

/// The header that a stream starting with the syncword carries: after the
/// 8-bit syncword, a 3-bit sampling-rate id, a 2-bit channel-configuration
/// id, a 9-bit frame length less one and a 2-bit frame status.
pub open spec fn header_fields_ok(h: FrameHeader, s: Seq<u8>) -> bool {
    &&& h.smplrate_id == field_at(s, 8, 3)
    &&& h.chconfig_id == field_at(s, 11, 2)
    &&& h.frame_length == field_at(s, 13, 9) + 1
    &&& h.frame_status == field_at(s, 22, 2)
}

/// Parse the transport frame header at the start of `stream`; `None`
/// without the syncword.
pub fn parse_frame_header(stream: &[u8]) -> (r: Option<FrameHeader>)
    ensures
        r is Some <==> (stream@.len() > 0 && stream@[0] == LDAC_SYNCWORD),
        r matches Some(h) ==> header_fields_ok(h, stream@),
{
    if stream.len() == 0 || stream[0] != LDAC_SYNCWORD {
        return None;
    }
    let mut br = BitReader::new(stream);
    br.read(8);
    let smplrate_id = br.read(3) as usize;
    let chconfig_id = br.read(2) as usize;
    proof {
        lemma_field_range(stream@, 13, 9);
        lemma_field_range(stream@, 22, 2);
        lemma2_to64();
    }
    let frame_length = br.read(9) as usize + 1;
    let frame_status = br.read(2) as i32;
    Some(FrameHeader { smplrate_id, chconfig_id, frame_length, frame_status })
}

/// Law: the header fields lie in the ranges their widths allow; in
/// particular a frame is 1 to 512 bytes long.
pub proof fn lemma_header_ranges(h: FrameHeader, s: Seq<u8>)
    requires
        header_fields_ok(h, s),
    ensures
        h.smplrate_id < 8,
        h.chconfig_id < 4,
        1 <= h.frame_length <= 512,
        0 <= h.frame_status < 4,
{
    lemma_field_range(s, 8, 3);
    lemma_field_range(s, 11, 2);
    lemma_field_range(s, 13, 9);
    lemma_field_range(s, 22, 2);
    lemma2_to64();
}

/// Bit positions up to which the parser's reads are kept; the frame parser
/// never goes beyond it.
pub open spec fn pos_limit() -> int {
    0x100000
}

/// Bits that quantisation unit `j` takes in the quantised spectrum, given its
/// first word-length id `w1`.
pub open spec fn qu_bits(t: CodecTables, w1: int, j: int) -> int {
    let nsps = t.nsps@[j] as int;
    if w1 == 1 {
        if nsps == 2 { LDAC_2DIMSPECBITS as int } else { LDAC_4DIMSPECBITS * (nsps / 4) }
    } else {
        t.wl@[w1] as int * nsps
    }
}

/// Bit position at which unit `j` of the quantised spectrum starts.
pub open spec fn qu_pos(t: CodecTables, idwl1: Seq<i32>, p0: int, j: nat) -> int
    decreases j,
{
    if j == 0 {
        p0
    } else {
        qu_pos(t, idwl1, p0, (j - 1) as nat) + qu_bits(t, idwl1[j - 1] as int, j - 1)
    }
}

/// Value of spectrum line `off` of unit `j`, whose codes start at bit `p`:
/// a two- or four-dimensional codebook entry for word-length id 1, else a
/// signed `wl`-bit word.
pub open spec fn qu_value(t: CodecTables, s: Seq<u8>, w1: int, p: int, j: int, off: int) -> i32 {
    let nsps = t.nsps@[j] as int;
    if w1 == 1 {
        if nsps == 2 {
            t.spec2@[field_at(s, p, 3)]@[off] as i32
        } else if off < 4 * (nsps / 4) {
            t.spec4@[field_at(s, p + 7 * (off / 4), 7)]@[off % 4] as i32
        } else {
            0
        }
    } else {
        let wl = t.wl@[w1] as int;
        spec_sign_extend(field_at(s, p + wl * off, wl) as u32, wl as u32) as i32
    }
}

/// The quantised spectrum after the first `n` units: every line of unit `j`
/// holds its value, every other line zero.
pub open spec fn spec_qspec(t: CodecTables, s: Seq<u8>, idwl1: Seq<i32>, p0: int, n: nat) -> Seq<i32>
    decreases n,
{
    if n == 0 {
        Seq::new(LDAC_MAXLSU as nat, |x: int| 0i32)
    } else {
        let j = (n - 1) as nat;
        let prev = spec_qspec(t, s, idwl1, p0, j);
        let p = qu_pos(t, idwl1, p0, j);
        let lo = t.isp@[j as int] as int;
        let len = t.nsps@[j as int] as int;
        Seq::new(LDAC_MAXLSU as nat, |x: int|
            if lo <= x < lo + len { qu_value(t, s, idwl1[j as int] as int, p, j as int, x - lo) } else { prev[x] })
    }
}

/// Group `g` of unit `j` is a four-dimensional code outside the codebook.
pub open spec fn bad_group(t: CodecTables, s: Seq<u8>, idwl1: Seq<i32>, p0: int, j: int, g: int) -> bool {
    &&& idwl1[j] == 1
    &&& t.nsps@[j] != 2
    &&& 0 <= g < t.nsps@[j] / 4
    &&& field_at(s, qu_pos(t, idwl1, p0, j as nat) + 7 * g, 7) > 80
}

/// Some unit below `n` holds a four-dimensional code outside the codebook.
pub open spec fn spec_qspec_err(t: CodecTables, s: Seq<u8>, idwl1: Seq<i32>, p0: int, n: int) -> bool {
    exists|j: int, g: int| 0 <= j < n && #[trigger] bad_group(t, s, idwl1, p0, j, g)
}

/// Group `g` of unit `j` is the first out-of-codebook group below unit `n`:
/// no earlier unit holds one, nor an earlier group of unit `j`.
pub open spec fn first_bad(t: CodecTables, s: Seq<u8>, idwl1: Seq<i32>, p0: int, n: int, j: int, g: int) -> bool {
    &&& 0 <= j < n
    &&& bad_group(t, s, idwl1, p0, j, g)
    &&& forall|k: int, h: int| 0 <= k < j ==> !#[trigger] bad_group(t, s, idwl1, p0, k, h)
    &&& forall|h: int| 0 <= h < g ==> !#[trigger] bad_group(t, s, idwl1, p0, j, h)
}

/// The quantised spectrum that parsing leaves when it stops at the first
/// out-of-codebook group: the units before it complete, the groups of its
/// unit before it decoded, every other line zero.
pub open spec fn spec_qspec_fail(t: CodecTables, s: Seq<u8>, idwl1: Seq<i32>, p0: int, n: int) -> Seq<i32> {
    let (j, g) = choose|j: int, g: int| first_bad(t, s, idwl1, p0, n, j, g);
    let prev = spec_qspec(t, s, idwl1, p0, j as nat);
    let lo = t.isp@[j] as int;
    Seq::new(LDAC_MAXLSU as nat, |x: int|
        if lo <= x < lo + 4 * g { qu_value(t, s, 1, qu_pos(t, idwl1, p0, j as nat), j, x - lo) } else { prev[x] })
}

proof fn lemma_first_bad_unique(t: CodecTables, s: Seq<u8>, idwl1: Seq<i32>, p0: int, n: int, j1: int, g1: int,
    j2: int, g2: int)
    requires
        first_bad(t, s, idwl1, p0, n, j1, g1),
        first_bad(t, s, idwl1, p0, n, j2, g2),
    ensures
        j1 == j2 && g1 == g2,
{
    if j1 < j2 {
        assert(!bad_group(t, s, idwl1, p0, j1, g1));
    } else if j2 < j1 {
        assert(!bad_group(t, s, idwl1, p0, j2, g2));
    } else if g1 < g2 {
        assert(!bad_group(t, s, idwl1, p0, j1, g1));
    } else if g2 < g1 {
        assert(!bad_group(t, s, idwl1, p0, j2, g2));
    }
}

/// Word-length ids that a reconstructed channel can hold below `nqus`.
pub open spec fn idwl_ok(idwl1: Seq<i32>, idwl2: Seq<i32>, nqus: int) -> bool {
    &&& idwl1.len() == LDAC_MAXNQUS
    &&& idwl2.len() == LDAC_MAXNQUS
    &&& forall|i: int| 0 <= i < nqus ==> 1 <= #[trigger] idwl1[i] <= 15
    &&& forall|i: int| 0 <= i < LDAC_MAXNQUS ==> 0 <= #[trigger] idwl2[i] <= 15
}

proof fn lemma_qu_bits_bound(t: CodecTables, w1: int, j: int)
    requires
        t.wf(),
        0 <= j < LDAC_MAXNQUS,
        1 <= w1 <= 15,
    ensures
        0 <= qu_bits(t, w1, j) <= 16 * t.nsps@[j],
{
    let nsps = t.nsps@[j] as int;
    if w1 != 1 {
        let wl = t.wl@[w1] as int;
        assert(1 <= wl <= 16);
        assert(0 <= wl * nsps <= 16 * nsps) by (nonlinear_arith)
            requires 1 <= wl <= 16, 0 <= nsps;
    }
}

proof fn lemma_qu_pos_bound(t: CodecTables, idwl1: Seq<i32>, p0: int, j: nat)
    requires
        t.wf(),
        j <= LDAC_MAXNQUS,
        idwl1.len() == LDAC_MAXNQUS,
        forall|i: int| 0 <= i < j ==> 1 <= #[trigger] idwl1[i] <= 15,
    ensures
        p0 <= qu_pos(t, idwl1, p0, j) <= p0 + 16 * t.isp@[j as int],
    decreases j,
{
    if j > 0 {
        lemma_qu_pos_bound(t, idwl1, p0, (j - 1) as nat);
        lemma_qu_bits_bound(t, idwl1[j - 1] as int, j - 1);
        assert(t.isp@[j - 1] + t.nsps@[j - 1] == t.isp@[j as int]);
    }
}

proof fn lemma_isp_mono(t: CodecTables, a: int, b: int)
    requires
        t.wf(),
        0 <= a <= b <= LDAC_MAXNQUS,
    ensures
        t.isp@[a] <= t.isp@[b],
    decreases b - a,
{
    if a < b {
        lemma_isp_mono(t, a, b - 1);
        assert(t.isp@[b - 1] + t.nsps@[b - 1] == t.isp@[b]);
    }
}

/// A line of unit `j` keeps the value that unit gave it once later units are
/// parsed.
#[verifier::spinoff_prover]
proof fn lemma_qspec_unit_line(t: CodecTables, s: Seq<u8>, idwl1: Seq<i32>, p0: int, n: nat, j: int, x: int)
    requires
        t.wf(),
        0 <= j < n <= LDAC_MAXNQUS,
        t.isp@[j] <= x < t.isp@[j] + t.nsps@[j],
    ensures
        spec_qspec(t, s, idwl1, p0, n)[x]
            == qu_value(t, s, idwl1[j] as int, qu_pos(t, idwl1, p0, j as nat), j, x - t.isp@[j]),
    decreases n,
{
    let m = (n - 1) as nat;
    let lo = t.isp@[m as int] as int;
    let len = t.nsps@[m as int] as int;
    let prev = spec_qspec(t, s, idwl1, p0, m);
    assert(spec_qspec(t, s, idwl1, p0, n) == Seq::new(LDAC_MAXLSU as nat, |y: int|
        if lo <= y < lo + len { qu_value(t, s, idwl1[m as int] as int, qu_pos(t, idwl1, p0, m), m as int, y - lo) }
        else { prev[y] }));
    assert(t.isp@[j] + t.nsps@[j] == t.isp@[j + 1]);
    lemma_isp_mono(t, j + 1, LDAC_MAXNQUS as int);
    assert(x < LDAC_MAXLSU);
    if m > j {
        lemma_qspec_unit_line(t, s, idwl1, p0, m, j, x);
        lemma_isp_mono(t, j + 1, m as int);
        assert(!(lo <= x));
    }
}

/// Law: in a unit whose first word-length id is 2 or more, every line of
/// the quantised spectrum is its `wl`-bit word read as a two's-complement
/// number: it lies in `[-2^(wl-1), 2^(wl-1))` and agrees with the word
/// modulo `2^wl` (so an all-ones word gives -1).
#[verifier::spinoff_prover]
pub proof fn lemma_qspec_signed_words(t: CodecTables, s: Seq<u8>, idwl1: Seq<i32>, p0: int, n: nat, j: int, x: int)
    requires
        t.wf(),
        0 <= j < n <= LDAC_MAXNQUS,
        2 <= idwl1[j] <= 15,
        t.isp@[j] <= x < t.isp@[j] + t.nsps@[j],
    ensures
        ({
            let wl = t.wl@[idwl1[j] as int] as nat;
            let word = field_at(s, qu_pos(t, idwl1, p0, j as nat) + wl * (x - t.isp@[j]), wl as int);
            let v = spec_qspec(t, s, idwl1, p0, n)[x] as int;
            &&& -(pow2((wl - 1) as nat) as int) <= v < pow2((wl - 1) as nat)
            &&& (v + pow2(wl)) % (pow2(wl) as int) == word
        }),
{
    let wl = t.wl@[idwl1[j] as int] as nat;
    let q = qu_pos(t, idwl1, p0, j as nat) + wl * (x - t.isp@[j]);
    assert(spec_qspec(t, s, idwl1, p0, n)[x] == spec_sign_extend(field_at(s, q, wl as int) as u32, wl as u32) as i32) by {
        lemma_qspec_unit_line(t, s, idwl1, p0, n, j, x);
    }
    assert(1 <= wl <= 16);
    lemma_signed_word(s, q, wl);
}

/// Parse the quantised spectrum of the first `nqus` units.
pub(crate) fn unpack_qspec(t: &CodecTables, ac: &mut Ac, nqus: usize, br: &mut BitReader)
    -> (r: Result<(), LdacError>)
    requires
        t.wf(),
        old(ac)@.wf(),
        nqus <= LDAC_MAXNQUS,
        idwl_ok(old(ac)@.idwl1, old(ac)@.idwl2, nqus as int),
        old(br).position() <= pos_limit() + 0x4000,
    ensures
        final(br).bytes() == old(br).bytes(),
        final(br).position() <= old(br).position() + 16 * LDAC_MAXLSU,
        r is Err <==> spec_qspec_err(*t, old(br).bytes(), old(ac)@.idwl1, old(br).position(), nqus as int),
        r is Err ==> r == Err::<(), LdacError>(LdacError::SyntaxSpec),
        final(ac)@.wf(),
        final(ac)@ == (AcModel { qspec: final(ac)@.qspec, ..old(ac)@ }),
        r is Ok ==> final(ac)@.qspec == spec_qspec(*t, old(br).bytes(), old(ac)@.idwl1, old(br).position(), nqus as nat),
        r is Ok ==> final(br).position() == qu_pos(*t, old(ac)@.idwl1, old(br).position(), nqus as nat),
        r is Err ==> final(ac)@.qspec == spec_qspec_fail(*t, old(br).bytes(), old(ac)@.idwl1, old(br).position(), nqus as int),
{
    let ghost a0 = ac@;
    let ghost s = br.bytes();
    let ghost p0 = br.position();
    let mut x: usize = 0;
    while x < LDAC_MAXLSU
        invariant
            a0 == (AcModel { qspec: a0.qspec, ..ac@ }),
            a0.wf(),
            x <= LDAC_MAXLSU,
            ac.a_qspec@.len() == LDAC_MAXLSU,
            forall|k: int| 0 <= k < x ==> ac.a_qspec@[k] == 0,
        decreases LDAC_MAXLSU - x,
    {
        ac.a_qspec[x] = 0;
        x += 1;
    }
    assert(ac.a_qspec@ =~= spec_qspec(*t, s, a0.idwl1, p0, 0));
    let mut iqu: usize = 0;
    while iqu < nqus
        invariant
            t.wf(),
            a0.wf(),
            a0 == (AcModel { qspec: a0.qspec, ..ac@ }),
            nqus <= LDAC_MAXNQUS,
            idwl_ok(a0.idwl1, a0.idwl2, nqus as int),
            iqu <= nqus,
            br.bytes() == s,
            s == old(br).bytes(),
            p0 == old(br).position(),
            a0 == old(ac)@,
            p0 <= pos_limit() + 0x4000,
            br.position() == qu_pos(*t, a0.idwl1, p0, iqu as nat),
            ac.a_qspec@ == spec_qspec(*t, s, a0.idwl1, p0, iqu as nat),
            forall|j: int, g: int| 0 <= j < iqu ==> !#[trigger] bad_group(*t, s, a0.idwl1, p0, j, g),
        decreases nqus - iqu,
    {
        proof {
            lemma_qu_pos_bound(*t, a0.idwl1, p0, iqu as nat);
            lemma_isp_mono(*t, iqu as int, LDAC_MAXNQUS as int);
            lemma_qu_bits_bound(*t, a0.idwl1[iqu as int] as int, iqu as int);
            lemma_isp_mono(*t, iqu + 1, LDAC_MAXNQUS as int);
            lemma_qu_pos_bound(*t, a0.idwl1, p0, (iqu + 1) as nat);
        }
        let ghost prev = ac.a_qspec@;
        let ghost pq = br.position();
        let idwl1 = ac.a_idwl1[iqu] as usize;
        let lsp = t.isp[iqu] as usize;
        let nsps = t.nsps[iqu] as usize;
        assert(t.isp@[iqu as int] + t.nsps@[iqu as int] == t.isp@[iqu + 1]);
        if idwl1 == 1 {
            if nsps == 2 {
                let idx = br.read(LDAC_2DIMSPECBITS) as usize;
                proof { lemma_field_range(s, pq, 3); lemma2_to64(); }
                ac.a_qspec[lsp] = t.spec2[idx][0] as i32;
                ac.a_qspec[lsp + 1] = t.spec2[idx][1] as i32;
                assert(ac.a_qspec@ =~= spec_qspec(*t, s, a0.idwl1, p0, (iqu + 1) as nat));
            } else {
                let groups = nsps >> 2;
                assert(groups == nsps / 4) by (bit_vector)
                    requires groups == nsps >> 2;
                let mut g: usize = 0;
                while g < groups
                    invariant
                        t.wf(),
                        a0 == (AcModel { qspec: a0.qspec, ..ac@ }),
                        a0.wf(),
                        iqu < nqus,
                        nqus <= LDAC_MAXNQUS,
                        idwl1 == 1,
                        a0.idwl1[iqu as int] == 1,
                        lsp == t.isp@[iqu as int],
                        nsps == t.nsps@[iqu as int],
                        nsps != 2,
                        lsp + nsps <= LDAC_MAXLSU,
                        groups == nsps / 4,
                        g <= groups,
                        br.bytes() == s,
                        s == old(br).bytes(),
                        p0 == old(br).position(),
                        a0 == old(ac)@,
                        prev.len() == LDAC_MAXLSU,
                        prev == spec_qspec(*t, s, a0.idwl1, p0, iqu as nat),
                        forall|j: int, gg: int| 0 <= j < iqu ==> !#[trigger] bad_group(*t, s, a0.idwl1, p0, j, gg),
                        pq + 7 * groups <= p0 + 16 * LDAC_MAXLSU,
                        pq == qu_pos(*t, a0.idwl1, p0, iqu as nat),
                        pq <= pos_limit() + 0x8000,
                        br.position() == pq + 7 * g,
                        ac.a_qspec@.len() == LDAC_MAXLSU,
                        forall|x: int| 0 <= x < LDAC_MAXLSU && !(lsp <= x < lsp + 4 * g) ==> ac.a_qspec@[x] == prev[x],
                        forall|x: int| lsp <= x < lsp + 4 * g ==>
                            ac.a_qspec@[x] == qu_value(*t, s, 1, pq, iqu as int, x - lsp),
                        forall|gg: int| 0 <= gg < g ==> !#[trigger] bad_group(*t, s, a0.idwl1, p0, iqu as int, gg),
                    decreases groups - g,
                {
                    let idx = br.read(LDAC_4DIMSPECBITS) as usize;
                    if idx > 80 {
                        assert(bad_group(*t, s, a0.idwl1, p0, iqu as int, g as int));
                        proof {
                            assert(first_bad(*t, s, a0.idwl1, p0, nqus as int, iqu as int, g as int));
                            let (j, gg) = choose|j: int, gg: int| first_bad(*t, s, a0.idwl1, p0, nqus as int, j, gg);
                            lemma_first_bad_unique(*t, s, a0.idwl1, p0, nqus as int, iqu as int, g as int, j, gg);
                            assert(ac.a_qspec@ =~= spec_qspec_fail(*t, s, a0.idwl1, p0, nqus as int));
                        }
                        return Err(LdacError::SyntaxSpec);
                    }
                    let b = lsp + g * 4;
                    let mut k: usize = 0;
                    while k < 4
                        invariant
                            t.wf(),
                            a0 == (AcModel { qspec: a0.qspec, ..ac@ }),
                            a0.wf(),
                            idx <= 80,
                            idx == field_at(s, pq + 7 * g, 7),
                            b == lsp + g * 4,
                            g < groups,
                            groups == nsps / 4,
                            lsp + nsps <= LDAC_MAXLSU,
                            k <= 4,
                            ac.a_qspec@.len() == LDAC_MAXLSU,
                            forall|x: int| 0 <= x < LDAC_MAXLSU && !(lsp <= x < b + k) ==> ac.a_qspec@[x] == prev[x],
                            forall|x: int| lsp <= x < lsp + 4 * g ==>
                                ac.a_qspec@[x] == qu_value(*t, s, 1, pq, iqu as int, x - lsp),
                            forall|x: int| b <= x < b + k ==> ac.a_qspec@[x] == t.spec4@[idx as int]@[x - b] as i32,
                        decreases 4 - k,
                    {
                        ac.a_qspec[b + k] = t.spec4[idx][k] as i32;
                        k += 1;
                    }
                    assert forall|x: int| lsp <= x < lsp + 4 * (g + 1) implies
                        ac.a_qspec@[x] == qu_value(*t, s, 1, pq, iqu as int, x - lsp) by {
                        if x >= b {
                            assert((x - lsp) / 4 == g);
                            assert((x - lsp) % 4 == x - b);
                        }
                    }
                    g += 1;
                }
                assert forall|x: int| 0 <= x < LDAC_MAXLSU implies
                    ac.a_qspec@[x] == spec_qspec(*t, s, a0.idwl1, p0, (iqu + 1) as nat)[x] by {
                    if lsp + 4 * groups <= x < lsp + nsps {
                        assert(x - lsp >= 4 * (nsps / 4));
                        assert(prev[x] == 0) by {
                            lemma_spec_qspec_outside(*t, s, a0.idwl1, p0, iqu as nat, x);
                        }
                    }
                }
                assert(ac.a_qspec@ =~= spec_qspec(*t, s, a0.idwl1, p0, (iqu + 1) as nat));
            }
        } else {
            let wl = t.wl[idwl1] as u32;
            let hsp = lsp + nsps;
            let mut x: usize = lsp;
            assert(wl * (x - lsp) == 0);
            while x < hsp
                invariant
                    t.wf(),
                    a0 == (AcModel { qspec: a0.qspec, ..ac@ }),
                    a0.wf(),
                    iqu < nqus,
                    nqus <= LDAC_MAXNQUS,
                    2 <= idwl1 <= 15,
                    a0.idwl1[iqu as int] == idwl1,
                    wl == t.wl@[idwl1 as int],
                    1 <= wl <= 16,
                    lsp == t.isp@[iqu as int],
                    hsp == lsp + nsps,
                    hsp <= LDAC_MAXLSU,
                    lsp <= x <= hsp,
                    br.bytes() == s,
                    pq == qu_pos(*t, a0.idwl1, p0, iqu as nat),
                    pq <= pos_limit() + 0x8000,
                    br.position() == pq + wl * (x - lsp),
                    ac.a_qspec@.len() == LDAC_MAXLSU,
                    forall|y: int| 0 <= y < LDAC_MAXLSU && !(lsp <= y < x) ==> ac.a_qspec@[y] == prev[y],
                    forall|y: int| lsp <= y < x ==> ac.a_qspec@[y] == qu_value(*t, s, idwl1 as int, pq, iqu as int, y - lsp),
                decreases hsp - x,
            {
                proof {
                    assert(wl * (x - lsp) <= 16 * LDAC_MAXLSU) by (nonlinear_arith)
                        requires 1 <= wl <= 16, 0 <= x - lsp <= LDAC_MAXLSU;
                }
                let v = br.read(wl);
                ac.a_qspec[x] = sign_extend(v, wl);
                proof {
                    assert(wl * (x + 1 - lsp) == wl * (x - lsp) + wl) by (nonlinear_arith);
                }
                x += 1;
            }
            proof {
                assert(wl * nsps == qu_bits(*t, idwl1 as int, iqu as int));
            }
            assert(ac.a_qspec@ =~= spec_qspec(*t, s, a0.idwl1, p0, (iqu + 1) as nat));
        }
        iqu += 1;
    }
    proof {
        lemma_qu_pos_bound(*t, a0.idwl1, p0, nqus as nat);
        lemma_isp_mono(*t, nqus as int, LDAC_MAXNQUS as int);
    }
    Ok(())
}

/// Bits that unit `j` takes in the residual spectrum, given its second
/// word-length id `w2`.
pub open spec fn ru_bits(t: CodecTables, w2: int, j: int) -> int {
    if w2 > 0 { t.wl@[w2] as int * t.nsps@[j] as int } else { 0 }
}

/// Bit position at which unit `j` of the residual spectrum starts.
pub open spec fn ru_pos(t: CodecTables, idwl2: Seq<i32>, p0: int, j: nat) -> int
    decreases j,
{
    if j == 0 {
        p0
    } else {
        ru_pos(t, idwl2, p0, (j - 1) as nat) + ru_bits(t, idwl2[j - 1] as int, j - 1)
    }
}

/// The residual spectrum after the first `n` units: the lines of a unit with
/// a second word length hold signed words of that length, all others zero.
pub open spec fn spec_rspec(t: CodecTables, s: Seq<u8>, idwl2: Seq<i32>, p0: int, n: nat) -> Seq<i32>
    decreases n,
{
    if n == 0 {
        Seq::new(LDAC_MAXLSU as nat, |x: int| 0i32)
    } else {
        let j = (n - 1) as nat;
        let prev = spec_rspec(t, s, idwl2, p0, j);
        let p = ru_pos(t, idwl2, p0, j);
        let lo = t.isp@[j as int] as int;
        let len = t.nsps@[j as int] as int;
        let w2 = idwl2[j as int] as int;
        let wl = t.wl@[w2] as int;
        Seq::new(LDAC_MAXLSU as nat, |x: int|
            if lo <= x < lo + len && w2 > 0 {
                spec_sign_extend(field_at(s, p + wl * (x - lo), wl) as u32, wl as u32) as i32
            } else {
                prev[x]
            })
    }
}

/// A line of unit `j` keeps the residual value that unit gave it once later
/// units are parsed.
#[verifier::spinoff_prover]
proof fn lemma_rspec_unit_line(t: CodecTables, s: Seq<u8>, idwl2: Seq<i32>, p0: int, n: nat, j: int, x: int)
    requires
        t.wf(),
        0 <= j < n <= LDAC_MAXNQUS,
        t.isp@[j] <= x < t.isp@[j] + t.nsps@[j],
    ensures
        spec_rspec(t, s, idwl2, p0, n)[x] == (if idwl2[j] > 0 {
            spec_sign_extend(field_at(s, ru_pos(t, idwl2, p0, j as nat) + t.wl@[idwl2[j] as int] as int * (x - t.isp@[j]),
                t.wl@[idwl2[j] as int] as int) as u32, t.wl@[idwl2[j] as int] as u32) as i32
        } else {
            spec_rspec(t, s, idwl2, p0, j as nat)[x]
        }),
    decreases n,
{
    let m = (n - 1) as nat;
    assert(t.isp@[j] + t.nsps@[j] == t.isp@[j + 1]);
    lemma_isp_mono(t, j + 1, LDAC_MAXNQUS as int);
    if m > j {
        lemma_rspec_unit_line(t, s, idwl2, p0, m, j, x);
        lemma_isp_mono(t, j + 1, m as int);
        assert(!(t.isp@[m as int] <= x));
    }
}

/// Law: a residual line of a unit with a second word-length id is its
/// `wl`-bit word read as a two's-complement number: it lies in
/// `[-2^(wl-1), 2^(wl-1))` and agrees with the word modulo `2^wl`; a unit
/// without one leaves its lines zero.
/// A `wl`-bit word read as a two's-complement number lies in
/// `[-2^(wl-1), 2^(wl-1))` and agrees with the word modulo `2^wl`.
proof fn lemma_signed_word(s: Seq<u8>, q: int, wl: nat)
    requires
        1 <= wl <= 16,
    ensures
        ({
            let word = field_at(s, q, wl as int);
            let v = spec_sign_extend(word as u32, wl as u32) as i32 as int;
            &&& -(pow2((wl - 1) as nat) as int) <= v < pow2((wl - 1) as nat)
            &&& (v + pow2(wl)) % (pow2(wl) as int) == word
        }),
{
    let word = field_at(s, q, wl as int);
    lemma_field_range(s, q, wl as int);
    lemma2_to64();
    if wl < 16 {
        lemma_pow2_strictly_increases(wl, 16);
    }
    lemma_sign_extend_range(word as u32, wl as u32);
    vstd::arithmetic::div_mod::lemma_small_mod(word as nat, pow2(wl));
    vstd::arithmetic::power2::lemma_pow2_pos((wl - 1) as nat);
    if wl - 1 < 16 {
        lemma_pow2_strictly_increases((wl - 1) as nat, 16);
    }
}

/// Law: a residual line of a unit with a second word-length id is its
/// `wl`-bit word read as a two's-complement number: it lies in
/// `[-2^(wl-1), 2^(wl-1))` and agrees with the word modulo `2^wl`; a unit
/// without one leaves its lines zero.
#[verifier::spinoff_prover]
#[verifier::rlimit(40)]
pub proof fn lemma_rspec_signed_words(t: CodecTables, s: Seq<u8>, idwl2: Seq<i32>, p0: int, n: nat, j: int, x: int)
    requires
        t.wf(),
        0 <= j < n <= LDAC_MAXNQUS,
        0 <= idwl2[j] <= 15,
        t.isp@[j] <= x < t.isp@[j] + t.nsps@[j],
    ensures
        ({
            let wl = t.wl@[idwl2[j] as int] as nat;
            let word = field_at(s, ru_pos(t, idwl2, p0, j as nat) + wl * (x - t.isp@[j]), wl as int);
            let v = spec_rspec(t, s, idwl2, p0, n)[x] as int;
            &&& idwl2[j] > 0 ==> -(pow2((wl - 1) as nat) as int) <= v < pow2((wl - 1) as nat)
                && (v + pow2(wl)) % (pow2(wl) as int) == word
            &&& idwl2[j] == 0 ==> v == 0
        }),
{
    let wl = t.wl@[idwl2[j] as int] as nat;
    let q = ru_pos(t, idwl2, p0, j as nat) + wl * (x - t.isp@[j]);
    let v = spec_rspec(t, s, idwl2, p0, n)[x];
    if idwl2[j] > 0 {
        assert(v == spec_sign_extend(field_at(s, q, wl as int) as u32, wl as u32) as i32) by {
            lemma_rspec_unit_line(t, s, idwl2, p0, n, j, x);
        }
        assert(1 <= wl <= 16);
        lemma_signed_word(s, q, wl);
    } else {
        assert(v == 0) by {
            lemma_rspec_unit_line(t, s, idwl2, p0, n, j, x);
            lemma_rspec_outside_zero(t, s, idwl2, p0, j as nat, x);
        }
    }
}

/// Lines of unit `j` or beyond are zero in the residual spectrum of the
/// first `j` units.
proof fn lemma_rspec_outside_zero(t: CodecTables, s: Seq<u8>, idwl2: Seq<i32>, p0: int, n: nat, x: int)
    requires
        t.wf(),
        n <= LDAC_MAXNQUS,
        t.isp@[n as int] <= x < LDAC_MAXLSU,
    ensures
        spec_rspec(t, s, idwl2, p0, n)[x] == 0,
    decreases n,
{
    if n > 0 {
        lemma_isp_mono(t, (n - 1) as int, n as int);
        assert(t.isp@[n - 1] + t.nsps@[n - 1] == t.isp@[n as int]);
        lemma_rspec_outside_zero(t, s, idwl2, p0, (n - 1) as nat, x);
    }
}

proof fn lemma_ru_pos_bound(t: CodecTables, idwl2: Seq<i32>, p0: int, j: nat)
    requires
        t.wf(),
        j <= LDAC_MAXNQUS,
        idwl2.len() == LDAC_MAXNQUS,
        forall|i: int| 0 <= i < LDAC_MAXNQUS ==> 0 <= #[trigger] idwl2[i] <= 15,
    ensures
        p0 <= ru_pos(t, idwl2, p0, j) <= p0 + 16 * t.isp@[j as int],
    decreases j,
{
    if j > 0 {
        lemma_ru_pos_bound(t, idwl2, p0, (j - 1) as nat);
        assert(t.isp@[j - 1] + t.nsps@[j - 1] == t.isp@[j as int]);
        let w2 = idwl2[j - 1] as int;
        if w2 > 0 {
            let wl = t.wl@[w2] as int;
            let nsps = t.nsps@[j - 1] as int;
            assert(0 <= wl * nsps <= 16 * nsps) by (nonlinear_arith)
                requires 1 <= wl <= 16, 0 <= nsps;
        }
    }
}

/// Parse the residual spectrum of the first `nqus` units.
pub(crate) fn unpack_rspec(t: &CodecTables, ac: &mut Ac, nqus: usize, br: &mut BitReader)
    requires
        t.wf(),
        old(ac)@.wf(),
        nqus <= LDAC_MAXNQUS,
        old(br).position() <= pos_limit() + 0x8000,
    ensures
        final(br).bytes() == old(br).bytes(),
        final(ac)@ == (AcModel {
            rspec: spec_rspec(*t, old(br).bytes(), old(ac)@.idwl2, old(br).position(), nqus as nat),
            ..old(ac)@
        }),
        final(br).position() == ru_pos(*t, old(ac)@.idwl2, old(br).position(), nqus as nat),
        final(br).position() <= old(br).position() + 16 * LDAC_MAXLSU,
{
    let ghost a0 = ac@;
    let ghost s = br.bytes();
    let ghost p0 = br.position();
    let mut x: usize = 0;
    while x < LDAC_MAXLSU
        invariant
            a0 == (AcModel { rspec: a0.rspec, ..ac@ }),
            a0.wf(),
            x <= LDAC_MAXLSU,
            ac.a_rspec@.len() == LDAC_MAXLSU,
            forall|k: int| 0 <= k < x ==> ac.a_rspec@[k] == 0,
        decreases LDAC_MAXLSU - x,
    {
        ac.a_rspec[x] = 0;
        x += 1;
    }
    assert(ac.a_rspec@ =~= spec_rspec(*t, s, a0.idwl2, p0, 0));
    let mut iqu: usize = 0;
    while iqu < nqus
        invariant
            t.wf(),
            a0.wf(),
            a0 == (AcModel { rspec: a0.rspec, ..ac@ }),
            a0 == old(ac)@,
            nqus <= LDAC_MAXNQUS,
            iqu <= nqus,
            br.bytes() == s,
            s == old(br).bytes(),
            p0 == old(br).position(),
            p0 <= pos_limit() + 0x8000,
            br.position() == ru_pos(*t, a0.idwl2, p0, iqu as nat),
            ac.a_rspec@ == spec_rspec(*t, s, a0.idwl2, p0, iqu as nat),
        decreases nqus - iqu,
    {
        proof {
            lemma_ru_pos_bound(*t, a0.idwl2, p0, iqu as nat);
            lemma_isp_mono(*t, iqu as int, LDAC_MAXNQUS as int);
            lemma_isp_mono(*t, iqu + 1, LDAC_MAXNQUS as int);
        }
        let ghost prev = ac.a_rspec@;
        let ghost pq = br.position();
        let idwl2 = ac.a_idwl2[iqu];
        assert(t.isp@[iqu as int] + t.nsps@[iqu as int] == t.isp@[iqu + 1]);
        if idwl2 > 0 {
            let lsp = t.isp[iqu] as usize;
            let hsp = t.isp[iqu + 1] as usize;
            let wl = t.wl[idwl2 as usize] as u32;
            let mut x: usize = lsp;
            assert(wl * (x - lsp) == 0);
            assert(br.position() == pq);
            while x < hsp
                invariant
                    t.wf(),
                    a0 == (AcModel { rspec: a0.rspec, ..ac@ }),
                    a0.wf(),
                    iqu < nqus,
                    nqus <= LDAC_MAXNQUS,
                    1 <= idwl2 <= 15,
                    a0.idwl2[iqu as int] == idwl2,
                    wl == t.wl@[idwl2 as int],
                    1 <= wl <= 16,
                    lsp == t.isp@[iqu as int],
                    hsp == lsp + t.nsps@[iqu as int],
                    hsp <= LDAC_MAXLSU,
                    lsp <= x <= hsp,
                    br.bytes() == s,
                    pq == ru_pos(*t, a0.idwl2, p0, iqu as nat),
                    pq <= pos_limit() + 0x9000,
                    br.position() == pq + wl * (x - lsp),
                    ac.a_rspec@.len() == LDAC_MAXLSU,
                    prev.len() == LDAC_MAXLSU,
                    forall|y: int| 0 <= y < LDAC_MAXLSU && !(lsp <= y < x) ==> ac.a_rspec@[y] == prev[y],
                    forall|y: int| lsp <= y < x ==> ac.a_rspec@[y]
                        == spec_sign_extend(field_at(s, pq + wl * (y - lsp), wl as int) as u32, wl) as i32,
                decreases hsp - x,
            {
                proof {
                    assert(wl * (x - lsp) <= 16 * LDAC_MAXLSU) by (nonlinear_arith)
                        requires 1 <= wl <= 16, 0 <= x - lsp <= LDAC_MAXLSU;
                }
                let v = br.read(wl);
                ac.a_rspec[x] = sign_extend(v, wl);
                proof {
                    assert(wl * (x + 1 - lsp) == wl * (x - lsp) + wl) by (nonlinear_arith);
                }
                x += 1;
            }
        }
        assert(ac.a_rspec@ =~= spec_rspec(*t, s, a0.idwl2, p0, (iqu + 1) as nat));
        iqu += 1;
    }
    proof {
        lemma_ru_pos_bound(*t, a0.idwl2, p0, nqus as nat);
        lemma_isp_mono(*t, nqus as int, LDAC_MAXNQUS as int);
    }
}

/// Symbol that Huffman decoder `h` decodes from the code starting at bit `q`.
pub open spec fn huff_sym(h: HuffDec, s: Seq<u8>, q: int) -> int {
    h.dec@[field_at(s, q, h.maxlen as int)] as int
}

/// Bit position after `k` consecutive codes that start at bit `q0`.
pub open spec fn huff_pos(h: HuffDec, s: Seq<u8>, q0: int, k: nat) -> int
    decreases k,
{
    if k == 0 {
        q0
    } else {
        let q = huff_pos(h, s, q0, (k - 1) as nat);
        q + h.lens@[huff_sym(h, s, q)] as int
    }
}

/// Symbol of code `k` (counting from zero) of a run of codes that starts at bit `q0`.
pub open spec fn huff_code(h: HuffDec, s: Seq<u8>, q0: int, k: nat) -> int {
    huff_sym(h, s, huff_pos(h, s, q0, k))
}

proof fn lemma_huff_pos_bound(h: HuffDec, s: Seq<u8>, q0: int, k: nat)
    requires
        h.wf(),
    ensures
        q0 <= huff_pos(h, s, q0, k) <= q0 + 16 * k,
        huff_pos(h, s, q0, k) <= q0 + h.maxlen * k,
    decreases k,
{
    if k > 0 {
        lemma_huff_pos_bound(h, s, q0, (k - 1) as nat);
        let q = huff_pos(h, s, q0, (k - 1) as nat);
        lemma_field_range(s, q, h.maxlen as int);
        let sym = huff_sym(h, s, q);
        assert(0 <= sym < h.lens@.len());
        assert(h.maxlen * k == h.maxlen * (k - 1) + h.maxlen) by (nonlinear_arith);
    }
}

/// Read one Huffman code: look `maxlen` bits ahead, decode, and step back
/// over the bits the code does not use.
fn read_huff(h: &HuffDec, br: &mut BitReader) -> (sym: u32)
    requires
        h.wf(),
        old(br).position() <= pos_limit() + 0x1000,
    ensures
        final(br).bytes() == old(br).bytes(),
        sym == huff_sym(*h, old(br).bytes(), old(br).position()),
        final(br).position() == old(br).position() + h.lens@[sym as int],
        sym < h.lens@.len(),
        h.lens@[sym as int] <= h.maxlen,
        sym <= 255,
{
    proof {
        lemma_field_range(br.bytes(), br.position(), h.maxlen as int);
    }
    let raw = br.read(h.maxlen) as usize;
    let sym = h.dec[raw];
    assert(h.dec@[raw as int] < h.lens@.len());
    let len = h.lens[sym as usize];
    assert(h.lens@[sym as int] <= h.maxlen);
    br.rewind(h.maxlen - len as u32);
    sym as u32
}

/// Running value of code `k` of an absolute Huffman-coded scale-factor run:
/// the first value is `r0`, each further one adds the decoded symbol to the
/// previous one under `mask`.
pub open spec fn sf0_prefix(h: HuffDec, s: Seq<u8>, q1: int, r0: int, k: nat) -> int
    decreases k,
{
    if k == 0 {
        r0
    } else {
        (((huff_code(h, s, q1, (k - 1) as nat) + sf0_prefix(h, s, q1, r0, (k - 1) as nat)) as i32) & h.mask) as int
    }
}

proof fn lemma_and_mask(x: i32, m: i32)
    requires
        0 <= x,
        0 <= m <= 0xFF,
    ensures
        0 <= x & m <= m,
{
    assert(0 <= x && 0 <= m <= 0xFF ==> 0 <= x & m <= m) by (bit_vector);
}

proof fn lemma_sf0_prefix_range(h: HuffDec, s: Seq<u8>, q1: int, r0: int, k: nat)
    requires
        h.wf(),
        0 <= r0 < 0x100,
    ensures
        0 <= sf0_prefix(h, s, q1, r0, k) < 0x100,
    decreases k,
{
    if k > 0 {
        lemma_sf0_prefix_range(h, s, q1, r0, (k - 1) as nat);
        let q = huff_pos(h, s, q1, (k - 1) as nat);
        lemma_field_range(s, q, h.maxlen as int);
        let x = (huff_code(h, s, q1, (k - 1) as nat) + sf0_prefix(h, s, q1, r0, (k - 1) as nat)) as i32;
        lemma_and_mask(x, h.mask);
    }
}

/// Scale factors of the absolute Huffman-coded mode, whose fields start at
/// bit `p`: bit length, offset, weight table, the first value, then `nqus - 1`
/// codes; each value is offset and weighted at the end.
pub open spec fn spec_sf0(t: CodecTables, s: Seq<u8>, p: int, nqus: int, ac: AcModel) -> (AcModel, int) {
    let bl = field_at(s, p, 2) + LDAC_MINSFCBLEN_0;
    let off = field_at(s, p + 2, 5);
    let w = field_at(s, p + 7, 3);
    let r0 = field_at(s, p + 10, bl);
    let q1 = p + 10 + bl;
    let h = t.hc_sf0@[bl - LDAC_MINSFCBLEN_0];
    (AcModel {
        sfc_bitlen: bl as i32,
        sfc_offset: off as i32,
        sfc_weight: w as usize,
        idsf: Seq::new(LDAC_MAXNQUS as nat, |i: int|
            if i < nqus { (sf0_prefix(h, s, q1, r0, i as nat) + off - t.sfcwgt@[w]@[i]) as i32 } else { ac.idsf[i] }),
        ..ac
    }, huff_pos(h, s, q1, (nqus - 1) as nat))
}

/// Parse the absolute Huffman-coded scale factors of `nqus` units.
#[verifier::spinoff_prover]
pub(crate) fn unpack_scale_factor_0(t: &CodecTables, ac: &mut Ac, nqus: usize, br: &mut BitReader)
    requires
        t.wf(),
        old(ac)@.wf(),
        1 <= nqus <= LDAC_MAXNQUS,
        old(br).position() <= pos_limit() + 8,
    ensures
        final(br).bytes() == old(br).bytes(),
        (final(ac)@, final(br).position() as int) == spec_sf0(*t, old(br).bytes(), old(br).position(), nqus as int, old(ac)@),
        final(br).position() <= old(br).position() + 16 * LDAC_MAXNQUS,
        forall|i: int| 0 <= i < nqus ==> -0x100 <= #[trigger] final(ac).a_idsf@[i] < 0x200,
{
    let ghost a0 = ac@;
    let ghost s = br.bytes();
    let ghost p0 = br.position();
    proof {
        lemma_field_range(s, p0, 2);
        lemma_field_range(s, p0 + 2, 5);
        lemma_field_range(s, p0 + 7, 3);
        lemma2_to64();
    }
    ac.sfc_bitlen = br.read(LDAC_SFCBLENBITS) as i32 + LDAC_MINSFCBLEN_0;
    ac.sfc_offset = br.read(LDAC_IDSFBITS) as i32;
    ac.sfc_weight = br.read(LDAC_SFCWTBLBITS) as usize;
    proof {
        lemma_field_range(s, p0 + 10, ac.sfc_bitlen as int);
        assert(pow2(ac.sfc_bitlen as nat) <= 64);
    }
    let r0 = br.read(ac.sfc_bitlen as u32) as i32;
    ac.a_idsf[0] = r0;
    let hidx = (ac.sfc_bitlen - LDAC_MINSFCBLEN_0) as usize;
    let h = &t.hc_sf0[hidx];
    let w = ac.sfc_weight;
    let off = ac.sfc_offset;
    let ghost q1 = br.position();
    let ghost bl = ac.sfc_bitlen as int;
    let mut iqu: usize = 1;
    while iqu < nqus
        invariant
            t.wf(),
            h.wf(),
            *h == t.hc_sf0@[hidx as int],
            hidx == bl - LDAC_MINSFCBLEN_0,
            1 <= iqu <= nqus,
            nqus <= LDAC_MAXNQUS,
            0 <= w < 8,
            0 <= off < 32,
            0 <= r0 < 64,
            br.bytes() == s,
            q1 <= pos_limit() + 40,
            br.position() == huff_pos(*h, s, q1, (iqu - 1) as nat),
            ac.a_idsf@.len() == LDAC_MAXNQUS,
            a0.idsf.len() == LDAC_MAXNQUS,
            ac.a_idsf@[iqu - 1] == sf0_prefix(*h, s, q1, r0 as int, (iqu - 1) as nat),
            forall|k: int| 0 <= k < iqu - 1 ==> ac.a_idsf@[k]
                == (sf0_prefix(*h, s, q1, r0 as int, k as nat) + off - t.sfcwgt@[w as int]@[k]) as i32,
            forall|k: int| iqu <= k < LDAC_MAXNQUS ==> ac.a_idsf@[k] == a0.idsf[k],
            ac@ == (AcModel { idsf: ac@.idsf, sfc_bitlen: bl as i32, sfc_offset: off, sfc_weight: w, ..a0 }),
        decreases nqus - iqu,
    {
        proof {
            lemma_huff_pos_bound(*h, s, q1, (iqu - 1) as nat);
            lemma_sf0_prefix_range(*h, s, q1, r0 as int, (iqu - 1) as nat);
        }
        let sym = read_huff(h, br);
        let prev = ac.a_idsf[iqu - 1];
        proof {
            lemma_and_mask((sym as i32 + prev) as i32, h.mask);
        }
        ac.a_idsf[iqu] = (sym as i32 + prev) & h.mask;
        ac.a_idsf[iqu - 1] = prev + off - t.sfcwgt[w][iqu - 1] as i32;
        iqu += 1;
    }
    proof {
        lemma_huff_pos_bound(*h, s, q1, (nqus - 1) as nat);
        lemma_sf0_prefix_range(*h, s, q1, r0 as int, (nqus - 1) as nat);
    }
    let last = ac.a_idsf[nqus - 1];
    ac.a_idsf[nqus - 1] = last + off - t.sfcwgt[w][nqus - 1] as i32;
    proof {
        assert forall|i: int| 0 <= i < nqus implies -0x100 <= #[trigger] ac.a_idsf@[i] < 0x200 by {
            lemma_sf0_prefix_range(*h, s, q1, r0 as int, i as nat);
        }
        assert(ac.a_idsf@ =~= spec_sf0(*t, s, p0, nqus as int, a0).0.idsf);
    }
}

proof fn lemma_and_1f(x: i32)
    ensures
        0 <= x & 0x1F <= 31,
{
    assert(0 <= x & 0x1F <= 31) by (bit_vector);
}

/// Scale factors of a channel whose fields start at bit `pos`: a mode bit,
/// then for channel 1 in mode 1 Huffman-coded differences from channel 0,
/// for channel 0 in mode 1 fixed-length values (offset and weighted when
/// shorter than five bits), and otherwise the absolute Huffman-coded run.
/// Units from `nqus` on hold zero.
pub open spec fn spec_scale_factors(t: CodecTables, s: Seq<u8>, pos: int, nqus: int, ich: int, ac: AcModel,
    ch0: Seq<i32>) -> (AcModel, int)
{
    let mode = field_at(s, pos, 1);
    let p = pos + 1;
    let a1 = AcModel { sfc_mode: mode as i32, idsf: Seq::new(LDAC_MAXNQUS as nat, |i: int| 0i32), ..ac };
    if ich > 0 && mode != 0 {
        let bl = field_at(s, p, 2);
        let h = t.hc_sf1@[bl];
        let q0 = p + 2;
        (AcModel {
            sfc_bitlen: (bl + 2) as i32,
            idsf: Seq::new(LDAC_MAXNQUS as nat, |i: int|
                if i < nqus {
                    ((ch0[i] + spec_sign_extend(huff_code(h, s, q0, i as nat) as u32, (bl + 2) as u32)) as i32) & 0x1F
                } else {
                    0i32
                }),
            ..a1
        }, huff_pos(h, s, q0, nqus as nat))
    } else if ich == 0 && mode != 0 {
        let bl = field_at(s, p, 2) + 2;
        let q = p + 2;
        if bl > 4 {
            (AcModel {
                sfc_bitlen: bl as i32,
                idsf: Seq::new(LDAC_MAXNQUS as nat, |i: int| if i < nqus { field_at(s, q + bl * i, bl) as i32 } else { 0i32 }),
                ..a1
            }, q + bl * nqus)
        } else {
            let off = field_at(s, q, 5);
            let w = field_at(s, q + 5, 3);
            (AcModel {
                sfc_bitlen: bl as i32,
                sfc_offset: off as i32,
                sfc_weight: w as usize,
                idsf: Seq::new(LDAC_MAXNQUS as nat, |i: int|
                    if i < nqus { (field_at(s, q + 8 + bl * i, bl) + off - t.sfcwgt@[w]@[i]) as i32 } else { 0i32 }),
                ..a1
            }, q + 8 + bl * nqus)
        }
    } else {
        spec_sf0(t, s, p, nqus, a1)
    }
}

proof fn lemma_low5(x: i32)
    requires
        -16 <= x < 47,
    ensures
        (x & 0x1F) as int == (x as int) % 32,
{
    if x < 0 {
        assert(-16 <= x < 0 ==> (x & 0x1F) == x + 32) by (bit_vector);
    } else if x >= 32 {
        assert(32 <= x < 47 ==> (x & 0x1F) == x - 32) by (bit_vector);
    } else {
        assert(0 <= x < 32 ==> (x & 0x1F) == x) by (bit_vector);
    }
}

/// Law: a differentially coded scale factor of channel 1 is channel 0's
/// scale factor plus the decoded difference (the Huffman symbol read as a
/// signed `2..=5`-bit number), taken modulo 32; so a positive difference
/// that stays below 32 raises it by exactly that difference.
pub proof fn lemma_differential_scale_factor(t: CodecTables, s: Seq<u8>, pos: int, nqus: int, ich: int, ac: AcModel,
    ch0: Seq<i32>, i: int)
    requires
        t.wf(),
        ich > 0,
        field_at(s, pos, 1) != 0,
        0 <= i < nqus <= LDAC_MAXNQUS,
        0 <= ch0[i] <= 31,
    ensures
        ({
            let bl = field_at(s, pos + 1, 2);
            let d = spec_sign_extend(huff_code(t.hc_sf1@[bl], s, pos + 3, i as nat) as u32, (bl + 2) as u32);
            let v = spec_scale_factors(t, s, pos, nqus, ich, ac, ch0).0.idsf[i] as int;
            &&& -16 <= d < 16
            &&& v == (ch0[i] + d) % 32
            &&& 0 <= v <= 31
            &&& (0 <= d && ch0[i] + d < 32 ==> v == ch0[i] + d)
        }),
{
    let bl = field_at(s, pos + 1, 2);
    let blen = (bl + 2) as u32;
    let d = spec_sign_extend(huff_code(t.hc_sf1@[bl], s, pos + 3, i as nat) as u32, blen);
    lemma_field_range(s, pos + 1, 2);
    lemma2_to64();
    lemma_sign_extend_range(huff_code(t.hc_sf1@[bl], s, pos + 3, i as nat) as u32, blen);
    if blen < 5 {
        lemma_pow2_strictly_increases((blen - 1) as nat, 4);
    }
    assert(-16 <= d < 16);
    let x = (ch0[i] + d) as i32;
    lemma_low5(x);
    assert(spec_scale_factors(t, s, pos, nqus, ich, ac, ch0).0.idsf[i] == x & 0x1F);
}

/// Parse the scale factors of channel `ich` of a block with `nqus` units;
/// `ch0` holds the scale factors of the block's channel 0.
#[verifier::spinoff_prover]
pub(crate) fn unpack_scale_factors(t: &CodecTables, ac: &mut Ac, nqus: usize, ich: usize, ch0: &Vec<i32>, br: &mut BitReader)
    requires
        t.wf(),
        old(ac)@.wf(),
        1 <= nqus <= LDAC_MAXNQUS,
        ich < 2,
        ch0@.len() == LDAC_MAXNQUS,
        ich > 0 ==> forall|i: int| 0 <= i < LDAC_MAXNQUS ==> small(#[trigger] ch0@[i]),
        old(br).position() <= pos_limit(),
    ensures
        final(br).bytes() == old(br).bytes(),
        (final(ac)@, final(br).position() as int)
            == spec_scale_factors(*t, old(br).bytes(), old(br).position(), nqus as int, ich as int, old(ac)@, ch0@),
        final(ac)@.wf(),
        final(br).position() <= old(br).position() + 0x400,
        forall|i: int| 0 <= i < LDAC_MAXNQUS ==> -0x100 <= #[trigger] final(ac).a_idsf@[i] < 0x200,
{
    let ghost a0 = ac@;
    let ghost s = br.bytes();
    let ghost p0 = br.position();
    let mut x: usize = 0;
    while x < LDAC_MAXNQUS
        invariant
            a0 == (AcModel { idsf: a0.idsf, ..ac@ }),
            a0.wf(),
            x <= LDAC_MAXNQUS,
            ac.a_idsf@.len() == LDAC_MAXNQUS,
            forall|k: int| 0 <= k < x ==> ac.a_idsf@[k] == 0,
        decreases LDAC_MAXNQUS - x,
    {
        ac.a_idsf[x] = 0;
        x += 1;
    }
    proof {
        lemma_field_range(s, p0, 1);
        lemma_field_range(s, p0 + 1, 2);
        lemma2_to64();
    }
    ac.sfc_mode = br.read(LDAC_SFCMODEBITS) as i32;
    let mode = ac.sfc_mode;
    let ghost a1 = AcModel { sfc_mode: mode, idsf: Seq::new(LDAC_MAXNQUS as nat, |i: int| 0i32), ..a0 };
    assert(ac@ =~= a1);
    if ich > 0 && mode != 0 {
        let bl = br.read(LDAC_SFCBLENBITS);
        let h = &t.hc_sf1[bl as usize];
        ac.sfc_bitlen = bl as i32 + 2;
        let blen = (bl + 2) as u32;
        let ghost q0 = br.position();
        let mut iqu: usize = 0;
        while iqu < nqus
            invariant
                t.wf(),
                h.wf(),
                *h == t.hc_sf1@[bl as int],
                bl < 4,
                blen == bl + 2,
                iqu <= nqus,
                nqus <= LDAC_MAXNQUS,
                br.bytes() == s,
                q0 <= pos_limit() + 8,
                br.position() == huff_pos(*h, s, q0, iqu as nat),
                ch0@.len() == LDAC_MAXNQUS,
                forall|i: int| 0 <= i < LDAC_MAXNQUS ==> small(#[trigger] ch0@[i]),
                ac.a_idsf@.len() == LDAC_MAXNQUS,
                forall|k: int| 0 <= k < iqu ==> ac.a_idsf@[k]
                    == ((ch0@[k] + spec_sign_extend(huff_code(*h, s, q0, k as nat) as u32, blen)) as i32) & 0x1F,
                forall|k: int| iqu <= k < LDAC_MAXNQUS ==> ac.a_idsf@[k] == 0,
                ac@ == (AcModel { idsf: ac@.idsf, sfc_bitlen: (bl + 2) as i32, ..a1 }),
            decreases nqus - iqu,
        {
            proof {
                lemma_huff_pos_bound(*h, s, q0, iqu as nat);
            }
            let sym = read_huff(h, br);
            let dif = sign_extend(sym, blen);
            proof {
                lemma2_to64();
                lemma_pow2_strictly_increases(1, blen as nat);
                assert(-16 <= dif < 16) by {
                    assert(pow2(blen as nat) <= 32) by {
                        if blen < 5 { lemma_pow2_strictly_increases(blen as nat, 5); }
                    }
                    assert(pow2((blen - 1) as nat) <= 16) by {
                        if blen < 5 { lemma_pow2_strictly_increases((blen - 1) as nat, 4); }
                    }
                }
            }
            let v = (ch0[iqu] + dif) & 0x1F;
            ac.a_idsf[iqu] = v;
            iqu += 1;
        }
        proof {
            lemma_huff_pos_bound(*h, s, q0, nqus as nat);
            assert forall|i: int| 0 <= i < LDAC_MAXNQUS implies -0x100 <= #[trigger] ac.a_idsf@[i] < 0x200 by {
                if i < nqus {
                    lemma_and_1f(((ch0@[i] + spec_sign_extend(huff_code(*h, s, q0, i as nat) as u32, blen)) as i32));
                }
            }
        }
        assert(ac.a_idsf@ =~= spec_scale_factors(*t, s, p0, nqus as int, ich as int, a0, ch0@).0.idsf);
    } else if ich == 0 && mode != 0 {
        ac.sfc_bitlen = br.read(LDAC_SFCBLENBITS) as i32 + 2;
        let bl = ac.sfc_bitlen as u32;
        let ghost q = br.position();
        if bl > 4 {
            let mut iqu: usize = 0;
            while iqu < nqus
                invariant
                    bl == 5,
                    iqu <= nqus,
                    nqus <= LDAC_MAXNQUS,
                    br.bytes() == s,
                    q <= pos_limit() + 8,
                    br.position() == q + bl * iqu,
                    ac.a_idsf@.len() == LDAC_MAXNQUS,
                    forall|k: int| 0 <= k < iqu ==> ac.a_idsf@[k] == field_at(s, q + bl * k, bl as int) as i32,
                    forall|k: int| iqu <= k < LDAC_MAXNQUS ==> ac.a_idsf@[k] == 0,
                    ac@ == (AcModel { idsf: ac@.idsf, sfc_bitlen: bl as i32, ..a1 }),
                decreases nqus - iqu,
            {
                proof {
                    lemma_field_range(s, q + bl * iqu, bl as int);
                    lemma2_to64();
                }
                ac.a_idsf[iqu] = br.read(bl) as i32;
                iqu += 1;
            }
            assert(br.position() <= p0 + 3 + 5 * LDAC_MAXNQUS);
            assert(ac.a_idsf@ =~= spec_scale_factors(*t, s, p0, nqus as int, ich as int, a0, ch0@).0.idsf);
        } else {
            proof {
                lemma_field_range(s, q, 5);
                lemma_field_range(s, q + 5, 3);
            }
            ac.sfc_offset = br.read(LDAC_IDSFBITS) as i32;
            ac.sfc_weight = br.read(LDAC_SFCWTBLBITS) as usize;
            let off = ac.sfc_offset;
            let w = ac.sfc_weight;
            let mut iqu: usize = 0;
            while iqu < nqus
                invariant
                    t.wf(),
                    2 <= bl <= 4,
                    0 <= off < 32,
                    w < 8,
                    iqu <= nqus,
                    nqus <= LDAC_MAXNQUS,
                    br.bytes() == s,
                    q <= pos_limit() + 8,
                    br.position() == q + 8 + bl * iqu,
                    ac.a_idsf@.len() == LDAC_MAXNQUS,
                    forall|k: int| 0 <= k < iqu ==> ac.a_idsf@[k]
                        == (field_at(s, q + 8 + bl * k, bl as int) + off - t.sfcwgt@[w as int]@[k]) as i32,
                    forall|k: int| 0 <= k < iqu ==> -0x100 <= #[trigger] ac.a_idsf@[k] < 0x200,
                    forall|k: int| iqu <= k < LDAC_MAXNQUS ==> ac.a_idsf@[k] == 0,
                    ac@ == (AcModel { idsf: ac@.idsf, sfc_bitlen: bl as i32, sfc_offset: off, sfc_weight: w, ..a1 }),
                decreases nqus - iqu,
            {
                proof {
                    lemma_field_range(s, q + 8 + bl * iqu, bl as int);
                    lemma2_to64();
                    assert(pow2(bl as nat) <= 16) by {
                        if bl < 4 { lemma_pow2_strictly_increases(bl as nat, 4); }
                    }
                }
                ac.a_idsf[iqu] = br.read(bl) as i32 + off - t.sfcwgt[w][iqu] as i32;
                proof {
                    assert(bl * (iqu + 1) == bl * iqu + bl) by (nonlinear_arith);
                }
                iqu += 1;
            }
            proof {
                assert(bl * nqus <= 4 * LDAC_MAXNQUS) by (nonlinear_arith)
                    requires bl <= 4, nqus <= LDAC_MAXNQUS;
            }
            assert(ac.a_idsf@ =~= spec_scale_factors(*t, s, p0, nqus as int, ich as int, a0, ch0@).0.idsf);
        }
    } else {
        unpack_scale_factor_0(t, ac, nqus, br);
    }
}

/// Some scale factor lies outside 0 to 31.
pub open spec fn idsf_over(idsf: Seq<i32>) -> bool {
    exists|i: int| 0 <= i < LDAC_MAXNQUS && !(0 <= #[trigger] idsf[i] <= 31)
}

/// Block parameters with which a channel can be parsed.
pub open spec fn block_ready(ab: AbModel) -> bool {
    &&& 1 <= ab.nqus <= LDAC_MAXNQUS
    &&& 0 <= ab.nadjqus <= ab.nqus
    &&& 0 <= ab.grad_mode <= 3
    &&& ab.grad.len() == LDAC_MAXGRADQU
    &&& forall|i: int| 0 <= i < LDAC_MAXGRADQU ==> small(#[trigger] ab.grad[i])
}

/// A channel parsed from bit `pos`: scale factors (refused outside 0 to 31),
/// additional and first/second word lengths, quantised spectrum (refused on
/// an out-of-codebook code) and residual spectrum.  Gives the channel as
/// parsing leaves it, refused or not, and the end position or the error.
#[verifier::opaque]
pub open spec fn spec_channel(t: CodecTables, s: Seq<u8>, pos: int, ab: AbModel, ich: int, ac: AcModel,
    ch0: Seq<i32>) -> (AcModel, Result<int, LdacError>)
{
    let nqus = ab.nqus as int;
    let (a1, p1) = spec_scale_factors(t, s, pos, nqus, ich, ac, ch0);
    if idsf_over(a1.idsf) {
        (a1, Err(LdacError::SyntaxIdsf))
    } else {
        let a2 = AcModel { addwl: spec_addwl(a1.idsf, nqus, ab.grad_mode), ..a1 };
        let a3 = AcModel { idwl1: spec_idwl1(a2, ab), idwl2: spec_idwl2(a2, ab), ..a2 };
        if spec_qspec_err(t, s, a3.idwl1, p1, nqus) {
            (AcModel { qspec: spec_qspec_fail(t, s, a3.idwl1, p1, nqus), ..a3 }, Err(LdacError::SyntaxSpec))
        } else {
            let p2 = qu_pos(t, a3.idwl1, p1, nqus as nat);
            (AcModel {
                qspec: spec_qspec(t, s, a3.idwl1, p1, nqus as nat),
                rspec: spec_rspec(t, s, a3.idwl2, p2, nqus as nat),
                ..a3
            }, Ok(ru_pos(t, a3.idwl2, p2, nqus as nat)))
        }
    }
}

/// Law: a channel parsed without error has every scale factor between 0 and
/// 31 and every first word-length id of its units between 1 and 15.
pub proof fn lemma_channel_ok_ranges(t: CodecTables, s: Seq<u8>, pos: int, ab: AbModel, ich: int, ac: AcModel,
    ch0: Seq<i32>)
    requires
        ac.wf(),
        block_ready(ab),
        spec_channel(t, s, pos, ab, ich, ac, ch0).1 is Ok,
    ensures
        ({
            let m = spec_channel(t, s, pos, ab, ich, ac, ch0).0;
            &&& forall|i: int| 0 <= i < LDAC_MAXNQUS ==> 0 <= #[trigger] m.idsf[i] <= 31
            &&& forall|i: int| 0 <= i < ab.nqus ==> 1 <= #[trigger] m.idwl1[i] <= 15
        }),
{
    reveal(spec_channel);
    let nqus = ab.nqus as int;
    let (a1, p1) = spec_scale_factors(t, s, pos, nqus, ich, ac, ch0);
    let a2 = AcModel { addwl: spec_addwl(a1.idsf, nqus, ab.grad_mode), ..a1 };
    assert forall|i: int| 0 <= i < ab.nqus implies 1 <= #[trigger] spec_idwl1(a2, ab)[i] <= 15 by {
        assert(spec_base_wl(a2, ab, i) >= 1);
    }
}

proof fn lemma_idwl_ok(a2: AcModel, ab: AbModel)
    requires
        a2.wf(),
        block_ready(ab),
    ensures
        idwl_ok(spec_idwl1(a2, ab), spec_idwl2(a2, ab), ab.nqus as int),
        (AcModel { idwl1: spec_idwl1(a2, ab), idwl2: spec_idwl2(a2, ab), ..a2 }).wf(),
{
    assert forall|i: int| 0 <= i < ab.nqus implies 1 <= #[trigger] spec_idwl1(a2, ab)[i] <= 15 by {
        assert(spec_base_wl(a2, ab, i) >= 1);
        assert(spec_adj_wl(a2, ab, i) >= 1);
    }
    assert forall|i: int| 0 <= i < LDAC_MAXNQUS implies 0 <= #[trigger] spec_idwl1(a2, ab)[i] <= 15 by {
        if i < ab.nqus {
            assert(spec_base_wl(a2, ab, i) >= 1);
        }
    }
}

fn any_idsf_over(idsf: &Vec<i32>) -> (r: bool)
    requires
        idsf@.len() == LDAC_MAXNQUS,
    ensures
        r == idsf_over(idsf@),
{
    let mut i: usize = 0;
    while i < LDAC_MAXNQUS
        invariant
            i <= LDAC_MAXNQUS,
            idsf@.len() == LDAC_MAXNQUS,
            forall|k: int| 0 <= k < i ==> 0 <= #[trigger] idsf@[k] <= 31,
        decreases LDAC_MAXNQUS - i,
    {
        if idsf[i] < 0 || idsf[i] > 31 {
            return true;
        }
        i += 1;
    }
    false
}

/// Parse channel `ich` of a block; `ch0` holds the scale factors of the
/// block's channel 0.
pub(crate) fn unpack_channel(t: &CodecTables, ac: &mut Ac, ab: &Ab, ich: usize, ch0: &Vec<i32>, br: &mut BitReader)
    -> (r: Result<(), LdacError>)
    requires
        t.wf(),
        old(ac)@.wf(),
        block_ready(ab@),
        ich < 2,
        ch0@.len() == LDAC_MAXNQUS,
        ich > 0 ==> forall|i: int| 0 <= i < LDAC_MAXNQUS ==> small(#[trigger] ch0@[i]),
        old(br).position() <= pos_limit(),
    ensures
        final(br).bytes() == old(br).bytes(),
        final(br).position() <= old(br).position() + 0x2400,
        final(ac)@.wf(),
        final(ac)@ == spec_channel(*t, old(br).bytes(), old(br).position(), ab@, ich as int, old(ac)@, ch0@).0,
        match spec_channel(*t, old(br).bytes(), old(br).position(), ab@, ich as int, old(ac)@, ch0@).1 {
            Ok(p) => r is Ok && final(br).position() == p,
            Err(e) => r == Err::<(), LdacError>(e),
        },
{
    reveal(spec_channel);
    let ghost a0 = ac@;
    let ghost s = br.bytes();
    let ghost p0 = br.position();
    let nqus = ab.nqus;
    unpack_scale_factors(t, ac, nqus, ich, ch0, br);
    let ghost a1 = ac@;
    let ghost p1 = br.position();
    if any_idsf_over(&ac.a_idsf) {
        return Err(LdacError::SyntaxIdsf);
    }
    calc_add_word_length(ac, ab);
    proof {
        assert forall|i: int| 0 <= i < ab.nqus implies #[trigger] wl_fits(ac@, ab@, i) by {
            lemma_addwl_bound(a1.idsf, nqus as int, i);
            lemma_small_fits(ac@, ab@, i);
        }
    }
    let ghost a2 = ac@;
    reconst_word_length(ac, ab);
    proof {
        lemma_idwl_ok(a2, ab@);
    }
    let ghost a3 = ac@;
    let q = unpack_qspec(t, ac, nqus, br);
    if q.is_err() {
        return Err(LdacError::SyntaxSpec);
    }
    unpack_rspec(t, ac, nqus, br);
    Ok(())
}

/// Abstract values of a sequence of channels.
pub open spec fn models(acs: Seq<Ac>) -> Seq<AcModel> {
    acs.map_values(|a: Ac| a@)
}

/// Bit position after an extension record at `q`: a 7-bit size followed by
/// as many 16-bit words as the size needs.
pub open spec fn ext_end(s: Seq<u8>, q: int) -> int {
    q + 7 + 16 * ((field_at(s, q, 7) + 15) / 16)
}

/// The extension fields of a block header starting at `p1` (just after the
/// extension flag): the extension mode when the flag is set, and for mode 3
/// one extension record per channel of the block, whose size the channel
/// keeps.
pub open spec fn spec_ext(s: Seq<u8>, p1: int, ext_flag: int, ab: AbModel, acs: Seq<AcModel>)
    -> (i32, Seq<AcModel>, int)
{
    let ext_mode = if ext_flag != 0 { field_at(s, p1, 2) as i32 } else { ab.ext_mode };
    let p2 = if ext_flag != 0 { p1 + 2 } else { p1 };
    let has_ext = ext_flag != 0 && ext_mode == 3;
    let i0 = ab.ac_idx[0] as int;
    let i1 = ab.ac_idx[1] as int;
    let p3 = if has_ext && ab.blk_nchs >= 1 { ext_end(s, p2) } else { p2 };
    let acs1 = if has_ext && ab.blk_nchs >= 1 {
        acs.update(i0, AcModel { ext_size: field_at(s, p2, 7) as i32, ..acs[i0] })
    } else {
        acs
    };
    let p4 = if has_ext && ab.blk_nchs >= 2 { ext_end(s, p3) } else { p3 };
    let acs2 = if has_ext && ab.blk_nchs >= 2 {
        acs1.update(i1, AcModel { ext_size: field_at(s, p3, 7) as i32, ..acs1[i1] })
    } else {
        acs1
    };
    (ext_mode, acs2, p4)
}

/// The gradient fields of a block header starting at bit `p`, read into
/// block `ab`: the mode, then in mode 0 both unit bounds (the upper one
/// stored less one) and both offsets, otherwise the lower bound and offset
/// with fixed upper ones.  A bound out of range stops the reading with the
/// fields read so far in place.  Gives the block and the end position or
/// the error.
pub open spec fn spec_grad_fields(s: Seq<u8>, p: int, ab: AbModel) -> (AbModel, Result<int, LdacError>) {
    let grad_mode = field_at(s, p, 2) as i32;
    let q = p + 2;
    if grad_mode == LDAC_MODE_0 {
        let qu_l = field_at(s, q, 6) as i32;
        let qu_h = (field_at(s, q + 6, 6) + 1) as i32;
        let ab_l = AbModel { grad_mode, grad_qu_l: qu_l, ..ab };
        let ab_h = AbModel { grad_qu_h: qu_h, ..ab_l };
        if qu_l >= LDAC_MAXGRADQU {
            (ab_l, Err(LdacError::SyntaxGradA))
        } else if qu_h >= LDAC_MAXGRADQU {
            (ab_h, Err(LdacError::SyntaxGradB))
        } else if qu_h < qu_l {
            (ab_h, Err(LdacError::SyntaxGradC))
        } else {
            (AbModel { grad_os_l: field_at(s, q + 12, 5) as i32, grad_os_h: field_at(s, q + 17, 5) as i32, ..ab_h },
                Ok(q + 22))
        }
    } else {
        let qu_l = field_at(s, q, 5) as i32;
        let ab_l = AbModel { grad_mode, grad_qu_l: qu_l, ..ab };
        if qu_l > LDAC_DEFGRADQUH {
            (ab_l, Err(LdacError::SyntaxGradD))
        } else {
            (AbModel { grad_os_l: field_at(s, q + 5, 5) as i32, grad_qu_h: LDAC_DEFGRADQUH,
                grad_os_h: LDAC_DEFGRADOSH, ..ab_l }, Ok(q + 10))
        }
    }
}

/// A block header starting at bit `pos`: band count (refused above the
/// rate's maximum), extension fields, gradient fields and the count of
/// adjusted units (refused above the unit count).  Gives the block and
/// channels as parsing leaves them, refused or not, and the end position or
/// the error.
#[verifier::opaque]
pub open spec fn spec_block_header(t: CodecTables, s: Seq<u8>, pos: int, sr: int, ab: AbModel, acs: Seq<AcModel>)
    -> (AbModel, Seq<AcModel>, Result<int, LdacError>)
{
    let nbands = field_at(s, pos, 4) + LDAC_BAND_OFFSET;
    let ab0 = AbModel { nbands: nbands as i32, ..ab };
    if nbands > t.max_nbands@[sr] {
        (ab0, acs, Err(LdacError::SyntaxBand))
    } else {
        let nqus = t.nqus@[nbands] as int;
        let ext_flag = field_at(s, pos + 4, 1);
        let (ext_mode, acs2, p4) = spec_ext(s, pos + 5, ext_flag, ab, acs);
        let ab1 = AbModel { nqus: nqus as usize, ext_flag: ext_flag as i32, ext_mode, ..ab0 };
        let (ab2, g) = spec_grad_fields(s, p4, ab1);
        match g {
            Err(e) => (ab2, acs2, Err(e)),
            Ok(p6) => {
                let nadjqus = field_at(s, p6, 5);
                let ab3 = AbModel { nadjqus: nadjqus as i32, ..ab2 };
                if nqus < nadjqus {
                    (ab3, acs2, Err(LdacError::SyntaxGradE))
                } else {
                    (ab3, acs2, Ok(p6 + 5))
                }
            },
        }
    }
}

/// Law: a block header is refused for its band count exactly when the count
/// (the 4-bit field plus 2) exceeds the rate's largest band count; a count
/// equal to that maximum is accepted, and an accepted header records the
/// count and its number of quantisation units.
pub proof fn lemma_band_refusal(t: CodecTables, s: Seq<u8>, pos: int, sr: int, ab: AbModel, acs: Seq<AcModel>)
    ensures
        ({
            let nbands = field_at(s, pos, 4) + 2;
            let (m, _, res) = spec_block_header(t, s, pos, sr, ab, acs);
            &&& (res == Err::<int, LdacError>(LdacError::SyntaxBand) <==> nbands > t.max_nbands@[sr])
            &&& m.nbands == nbands
            &&& (res is Ok ==> nbands <= t.max_nbands@[sr] && m.nqus == t.nqus@[nbands])
        }),
{
    reveal(spec_block_header);
    lemma_field_range(s, pos, 4);
    lemma2_to64();
}

/// Law: after an accepted band count, a block header is refused for its
/// gradient fields exactly when: in mode 0 the lower unit (6 bits) is 50 or
/// more (A), else the upper unit (6 bits plus 1) is 50 or more (B), else it
/// lies below the lower one (C); in the other modes the lower unit (5 bits)
/// exceeds 26 (D); and otherwise the adjusted-unit count (5 bits) exceeds the
/// unit count (E).
pub proof fn lemma_grad_refusals(t: CodecTables, s: Seq<u8>, pos: int, sr: int, ab: AbModel, acs: Seq<AcModel>)
    requires
        field_at(s, pos, 4) + 2 <= t.max_nbands@[sr],
    ensures
        ({
            let ext_flag = field_at(s, pos + 4, 1);
            let p4 = spec_ext(s, pos + 5, ext_flag, ab, acs).2;
            let mode = field_at(s, p4, 2);
            let ql0 = field_at(s, p4 + 2, 6);
            let qh0 = field_at(s, p4 + 8, 6) + 1;
            let ql1 = field_at(s, p4 + 2, 5);
            let grad_ok = if mode == 0 { ql0 < 50 && qh0 < 50 && ql0 <= qh0 } else { ql1 <= 26 };
            let p6 = if mode == 0 { p4 + 24 } else { p4 + 12 };
            let nqus = t.nqus@[field_at(s, pos, 4) + 2] as int;
            let res = spec_block_header(t, s, pos, sr, ab, acs).2;
            &&& (res == Err::<int, LdacError>(LdacError::SyntaxGradA) <==> mode == 0 && ql0 >= 50)
            &&& (res == Err::<int, LdacError>(LdacError::SyntaxGradB) <==> mode == 0 && ql0 < 50 && qh0 >= 50)
            &&& (res == Err::<int, LdacError>(LdacError::SyntaxGradC) <==> mode == 0 && ql0 < 50 && qh0 < 50 && qh0 < ql0)
            &&& (res == Err::<int, LdacError>(LdacError::SyntaxGradD) <==> mode != 0 && ql1 > 26)
            &&& (res == Err::<int, LdacError>(LdacError::SyntaxGradE) <==> grad_ok && nqus < field_at(s, p6, 5))
            &&& (res is Ok <==> grad_ok && field_at(s, p6, 5) <= nqus)
        }),
{
    reveal(spec_block_header);
    let ext_flag = field_at(s, pos + 4, 1);
    let p4 = spec_ext(s, pos + 5, ext_flag, ab, acs).2;
    lemma_field_range(s, p4, 2);
    lemma_field_range(s, p4 + 2, 6);
    lemma_field_range(s, p4 + 8, 6);
    lemma_field_range(s, p4 + 2, 5);
    lemma_field_range(s, p4 + 24, 5);
    lemma_field_range(s, p4 + 12, 5);
    lemma_field_range(s, pos, 4);
    lemma2_to64();
}

/// Fields of a block that parsing keeps: its channel layout and gradient curve.
pub open spec fn same_layout(a: AbModel, b: AbModel) -> bool {
    &&& a.blk_nchs == b.blk_nchs
    &&& a.ac_idx == b.ac_idx
    &&& a.grad == b.grad
}

/// Channels whose fields differ at most in the parsed values, keeping sizes
/// and bounds.
pub open spec fn channels_wf(acs: Seq<AcModel>) -> bool {
    forall|c: int| 0 <= c < acs.len() ==> (#[trigger] acs[c]).wf()
}

/// Block and channels whose layout lets the block be parsed.
pub open spec fn block_layout_ok(ab: AbModel, nac: int) -> bool {
    &&& 1 <= ab.blk_nchs <= 2
    &&& ab.ac_idx.len() == 2
    &&& forall|ich: int| 0 <= ich < ab.blk_nchs ==> ab.ac_idx[ich] < nac
    &&& ab.blk_nchs == 2 ==> ab.ac_idx[0] != ab.ac_idx[1]
    &&& ab.grad.len() == LDAC_MAXGRADQU
    &&& forall|i: int| 0 <= i < LDAC_MAXGRADQU ==> small(#[trigger] ab.grad[i])
}

proof fn lemma_ext_end_bound(s: Seq<u8>, q: int)
    ensures
        q + 7 <= ext_end(s, q) <= q + 7 + 16 * 8,
{
    lemma_field_range(s, q, 7);
    lemma2_to64();
}

/// Read the extension record of channel `c`: its size, then skip the words.
fn unpack_ext_record(acs: &mut Vec<Ac>, c: usize, br: &mut BitReader)
    requires
        c < old(acs)@.len(),
        old(br).position() <= pos_limit() + 0x100,
    ensures
        final(br).bytes() == old(br).bytes(),
        final(br).position() == ext_end(old(br).bytes(), old(br).position()),
        final(acs)@.len() == old(acs)@.len(),
        models(final(acs)@) == models(old(acs)@).update(c as int,
            AcModel { ext_size: field_at(old(br).bytes(), old(br).position(), 7) as i32, ..old(acs)@[c as int]@ }),
{
    let ghost s = br.bytes();
    let ghost q = br.position();
    proof {
        lemma_field_range(s, q, 7);
        lemma2_to64();
    }
    let size = br.read(7) as i32;
    acs[c].ext_size = size;
    let mut ext = size;
    let ghost n0 = (size + 15) / 16;
    while ext > 0
        invariant
            br.bytes() == s,
            0 <= size < 128,
            -16 < ext <= size,
            (size - ext) % 16 == 0,
            br.position() == q + 7 + 16 * ((size - ext) / 16),
            q <= pos_limit() + 0x100,
        decreases ext + 16,
    {
        br.read(16);
        ext -= 16;
    }
    assert(models(acs@) =~= models(old(acs)@).update(c as int, AcModel { ext_size: size, ..old(acs)@[c as int]@ }));
}

/// Parse the extension flag and fields of a block header.
fn unpack_extension(ab: &mut Ab, acs: &mut Vec<Ac>, br: &mut BitReader)
    requires
        block_layout_ok(old(ab)@, old(acs)@.len() as int),
        channels_wf(models(old(acs)@)),
        old(br).position() <= pos_limit() + 8,
    ensures
        final(br).bytes() == old(br).bytes(),
        final(br).position() <= old(br).position() + 0x120,
        final(acs)@.len() == old(acs)@.len(),
        channels_wf(models(final(acs)@)),
        ({
            let ext_flag = field_at(old(br).bytes(), old(br).position(), 1);
            let (em, cs, p) = spec_ext(old(br).bytes(), old(br).position() + 1, ext_flag, old(ab)@, models(old(acs)@));
            &&& final(ab)@ == (AbModel { ext_flag: ext_flag as i32, ext_mode: em, ..old(ab)@ })
            &&& models(final(acs)@) == cs
            &&& final(br).position() == p
        }),
        forall|c: int| 0 <= c < old(acs)@.len() && !own_channel(old(ab)@, c) ==> #[trigger] final(acs)@[c]@ == old(acs)@[c]@,
{
    let ghost s = br.bytes();
    let ghost p0 = br.position();
    proof {
        lemma_field_range(s, p0, 1);
        lemma_field_range(s, p0 + 1, 2);
        lemma2_to64();
    }
    ab.ext_flag = br.read(LDAC_FLAGBITS) as i32;
    if ab.ext_flag != 0 {
        ab.ext_mode = br.read(2) as i32;
        if ab.ext_mode == 3 {
            let ghost p2 = br.position();
            let ghost before = acs@;
            unpack_ext_record(acs, ab.ac_idx[0], br);
            proof {
                lemma_ext_end_bound(s, p2);
                assert forall|c: int| 0 <= c < acs@.len() && c != ab.ac_idx[0] as int implies
                    #[trigger] acs@[c]@ == before[c]@ by {
                    assert(models(acs@)[c] == acs@[c]@ && models(before)[c] == before[c]@);
                }
            }
            if ab.blk_nchs >= 2 {
                let ghost p3 = br.position();
                let ghost mid = acs@;
                unpack_ext_record(acs, ab.ac_idx[1], br);
                proof {
                    lemma_ext_end_bound(s, p3);
                    assert forall|c: int| 0 <= c < acs@.len() && c != ab.ac_idx[1] as int implies
                        #[trigger] acs@[c]@ == mid[c]@ by {
                        assert(models(acs@)[c] == acs@[c]@ && models(mid)[c] == mid[c]@);
                    }
                }
            }
        }
    }
}

/// Parse the gradient fields of a block header.
fn unpack_grad_fields(ab: &mut Ab, br: &mut BitReader) -> (r: Result<(), LdacError>)
    requires
        old(br).position() <= pos_limit() + 0x200,
    ensures
        final(br).bytes() == old(br).bytes(),
        final(br).position() <= old(br).position() + 24,
        final(ab)@ == spec_grad_fields(old(br).bytes(), old(br).position(), old(ab)@).0,
        match spec_grad_fields(old(br).bytes(), old(br).position(), old(ab)@).1 {
            Ok(p) => r is Ok && final(br).position() == p,
            Err(e) => r == Err::<(), LdacError>(e),
        },
{
    let ghost s = br.bytes();
    let ghost p4 = br.position();
    proof {
        lemma_field_range(s, p4, 2);
        lemma_field_range(s, p4 + 2, 6);
        lemma_field_range(s, p4 + 8, 6);
        lemma_field_range(s, p4 + 14, 5);
        lemma_field_range(s, p4 + 19, 5);
        lemma_field_range(s, p4 + 2, 5);
        lemma_field_range(s, p4 + 7, 5);
        lemma2_to64();
    }
    ab.grad_mode = br.read(LDAC_GRADMODEBITS) as i32;
    if ab.grad_mode == LDAC_MODE_0 {
        ab.grad_qu_l = br.read(LDAC_GRADQU0BITS) as i32;
        if ab.grad_qu_l >= LDAC_MAXGRADQU as i32 {
            return Err(LdacError::SyntaxGradA);
        }
        ab.grad_qu_h = br.read(LDAC_GRADQU0BITS) as i32 + 1;
        if ab.grad_qu_h >= LDAC_MAXGRADQU as i32 {
            return Err(LdacError::SyntaxGradB);
        }
        if ab.grad_qu_h < ab.grad_qu_l {
            return Err(LdacError::SyntaxGradC);
        }
        ab.grad_os_l = br.read(LDAC_GRADOSBITS) as i32;
        ab.grad_os_h = br.read(LDAC_GRADOSBITS) as i32;
    } else {
        ab.grad_qu_l = br.read(LDAC_GRADQU1BITS) as i32;
        if ab.grad_qu_l > LDAC_DEFGRADQUH {
            return Err(LdacError::SyntaxGradD);
        }
        ab.grad_os_l = br.read(LDAC_GRADOSBITS) as i32;
        ab.grad_qu_h = LDAC_DEFGRADQUH;
        ab.grad_os_h = LDAC_DEFGRADOSH;
    }
    Ok(())
}

/// Parse a block header.
#[verifier::spinoff_prover]
#[verifier::rlimit(30)]
pub(crate) fn unpack_block_header(t: &CodecTables, ab: &mut Ab, acs: &mut Vec<Ac>, sr: usize, br: &mut BitReader)
    -> (r: Result<(), LdacError>)
    requires
        t.wf(),
        sr < LDAC_NSUPSMPLRATEID,
        block_layout_ok(old(ab)@, old(acs)@.len() as int),
        channels_wf(models(old(acs)@)),
        old(br).position() <= pos_limit(),
    ensures
        final(br).bytes() == old(br).bytes(),
        final(br).position() <= old(br).position() + 0x200,
        same_layout(final(ab)@, old(ab)@),
        final(acs)@.len() == old(acs)@.len(),
        channels_wf(models(final(acs)@)),
        ({
            let (m, cs, res) = spec_block_header(*t, old(br).bytes(), old(br).position(), sr as int, old(ab)@,
                models(old(acs)@));
            &&& final(ab)@ == m
            &&& models(final(acs)@) == cs
            &&& match res {
                Ok(p) => r is Ok && final(br).position() == p,
                Err(e) => r == Err::<(), LdacError>(e),
            }
        }),
        forall|c: int| 0 <= c < old(acs)@.len() && !own_channel(old(ab)@, c) ==> #[trigger] final(acs)@[c]@ == old(acs)@[c]@,
        r is Ok ==> grad_params_ok(final(ab)@),
        r is Ok ==> 1 <= final(ab).nqus <= LDAC_MAXNQUS,
        r is Ok ==> 0 <= final(ab).nadjqus <= final(ab).nqus,
        r is Ok ==> 0 <= final(ab).grad_mode <= 3,
{
    reveal(spec_block_header);
    let ghost s = br.bytes();
    let ghost p0 = br.position();
    proof {
        lemma_field_range(s, p0, 4);
        lemma2_to64();
    }
    ab.nbands = br.read(LDAC_NBANDBITS) as i32 + LDAC_BAND_OFFSET;
    if ab.nbands as u8 > t.max_nbands[sr] {
        return Err(LdacError::SyntaxBand);
    }
    ab.nqus = t.nqus[ab.nbands as usize] as usize;
    unpack_extension(ab, acs, br);
    let ghost p4 = br.position();
    let g = unpack_grad_fields(ab, br);
    if let Err(e) = g {
        return Err(e);
    }
    proof {
        lemma_field_range(s, p4, 2);
        lemma_field_range(s, p4 + 2, 6);
        lemma_field_range(s, p4 + 8, 6);
        lemma_field_range(s, p4 + 14, 5);
        lemma_field_range(s, p4 + 19, 5);
        lemma_field_range(s, p4 + 2, 5);
        lemma_field_range(s, p4 + 7, 5);
    }
    let ghost p6 = br.position();
    proof { lemma_field_range(s, p6, 5); }
    ab.nadjqus = br.read(LDAC_NADJQUBITS) as i32;
    if ab.nqus < ab.nadjqus as usize {
        return Err(LdacError::SyntaxGradE);
    }
    Ok(())
}

/// The channels of a block parsed from bit `p`, channel 1 (if any) after
/// channel 0 and against channel 0's new scale factors.
#[verifier::opaque]
pub open spec fn spec_channels(t: CodecTables, s: Seq<u8>, p: int, ab: AbModel, acs: Seq<AcModel>)
    -> (Seq<AcModel>, Result<int, LdacError>)
{
    let i0 = ab.ac_idx[0] as int;
    let (m0, r0) = spec_channel(t, s, p, ab, 0, acs[i0], acs[i0].idsf);
    let acs1 = acs.update(i0, m0);
    match r0 {
        Err(e) => (acs1, Err(e)),
        Ok(q0) => {
            if ab.blk_nchs < 2 {
                (acs1, Ok(q0))
            } else {
                let i1 = ab.ac_idx[1] as int;
                let (m1, r1) = spec_channel(t, s, q0, ab, 1, acs1[i1], acs1[i0].idsf);
                (acs1.update(i1, m1), r1)
            }
        },
    }
}

/// A block parsed from bit `pos` of a frame of `nbytes` bytes: header,
/// gradient curve, channels, then zero padding to a byte boundary; refused
/// when the channels end past the frame.  Gives the block and channels as
/// parsing leaves them, refused or not, and the end position or the error.
#[verifier::opaque]
pub open spec fn spec_block(t: CodecTables, s: Seq<u8>, pos: int, sr: int, nbytes: int, ab: AbModel,
    acs: Seq<AcModel>) -> (AbModel, Seq<AcModel>, Result<int, LdacError>)
{
    let (ab1, acs1, r1) = spec_block_header(t, s, pos, sr, ab, acs);
    match r1 {
        Err(e) => (ab1, acs1, Err(e)),
        Ok(p1) => {
            let ab2 = AbModel { grad: spec_gradient(t, ab1, ab1.nqus as int), ..ab1 };
            let (acs2, r2) = spec_channels(t, s, p1, ab2, acs1);
            match r2 {
                Err(e) => (ab2, acs2, Err(e)),
                Ok(p2) => {
                    if p2 > LDAC_BYTESIZE * nbytes {
                        (ab2, acs2, Err(LdacError::FrameLengthOver))
                    } else {
                        let pad = (8 - p2 % 8) % 8;
                        if pad > 0 && field_at(s, p2, pad) != 0 {
                            (ab2, acs2, Err(LdacError::UnpackBlockAlign))
                        } else {
                            (ab2, acs2, Ok(p2 + pad))
                        }
                    }
                },
            }
        },
    }
}

fn copy_values(v: &Vec<i32>) -> (r: Vec<i32>)
    ensures
        r@ == v@,
{
    let mut r: Vec<i32> = Vec::new();
    let mut i: usize = 0;
    while i < v.len()
        invariant
            i <= v@.len(),
            r@ == v@.subrange(0, i as int),
        decreases v@.len() - i,
    {
        r.push(v[i]);
        i += 1;
    }
    assert(r@ =~= v@);
    r
}

proof fn lemma_gradient_small(t: CodecTables, ab: AbModel, hqu: int)
    requires
        t.wf(),
        grad_params_ok(ab),
        ab.grad.len() == LDAC_MAXGRADQU,
        forall|i: int| 0 <= i < LDAC_MAXGRADQU ==> small(#[trigger] ab.grad[i]),
    ensures
        forall|i: int| 0 <= i < LDAC_MAXGRADQU ==> small(#[trigger] spec_gradient(t, ab, hqu)[i]),
{
    assert forall|i: int| 0 <= i < LDAC_MAXGRADQU implies small(#[trigger] spec_gradient(t, ab, hqu)[i]) by {
        let span = ab.grad_qu_h - ab.grad_qu_l;
        let diff = ab.grad_os_h - ab.grad_os_l;
        if ab.grad_qu_l <= i < ab.grad_qu_h && span > 0 {
            let tv = t.resamp_grad@[span - 1]@[i - ab.grad_qu_l] as int;
            assert(0 <= tv <= 255);
            if diff > 0 {
                assert(0 <= tv * (diff - 1) <= 255 * 31) by (nonlinear_arith)
                    requires 0 <= tv <= 255, 0 <= diff - 1 <= 31;
            } else if diff < 0 {
                assert(0 <= tv * (-diff - 1) <= 255 * 31) by (nonlinear_arith)
                    requires 0 <= tv <= 255, 0 <= -diff - 1 <= 31;
            }
        }
    }
}

/// Parse a block header and reconstruct the block's gradient curve.
fn unpack_block_head(t: &CodecTables, ab: &mut Ab, acs: &mut Vec<Ac>, sr: usize, br: &mut BitReader)
    -> (r: Result<(), LdacError>)
    requires
        t.wf(),
        sr < LDAC_NSUPSMPLRATEID,
        block_layout_ok(old(ab)@, old(acs)@.len() as int),
        channels_wf(models(old(acs)@)),
        old(br).position() <= pos_limit(),
    ensures
        final(br).bytes() == old(br).bytes(),
        final(br).position() <= old(br).position() + 0x200,
        block_layout_ok(final(ab)@, final(acs)@.len() as int),
        final(ab)@.blk_nchs == old(ab)@.blk_nchs,
        final(ab)@.ac_idx == old(ab)@.ac_idx,
        final(acs)@.len() == old(acs)@.len(),
        channels_wf(models(final(acs)@)),
        r is Ok ==> block_ready(final(ab)@) && grad_params_ok(final(ab)@),
        forall|c: int| 0 <= c < old(acs)@.len() && !own_channel(old(ab)@, c) ==> #[trigger] final(acs)@[c]@ == old(acs)@[c]@,
        ({
            let (m, cs, res) = spec_block_header(*t, old(br).bytes(), old(br).position(), sr as int, old(ab)@,
                models(old(acs)@));
            &&& models(final(acs)@) == cs
            &&& match res {
                Ok(p) => r is Ok && final(ab)@ == (AbModel { grad: spec_gradient(*t, m, m.nqus as int), ..m })
                    && final(br).position() == p,
                Err(e) => r == Err::<(), LdacError>(e) && final(ab)@ == m,
            }
        }),
{
    reveal(spec_block_header);
    let h = unpack_block_header(t, ab, acs, sr, br);
    if let Err(e) = h {
        return Err(e);
    }
    let ghost ab1 = ab@;
    let nqus = ab.nqus;
    proof {
        lemma_gradient_small(*t, ab1, nqus as int);
    }
    reconst_gradient(t, ab, nqus);
    Ok(())
}

/// Every scale factor lies between 0 and 31.
pub open spec fn idsf_ok(idsf: Seq<i32>) -> bool {
    forall|i: int| 0 <= i < LDAC_MAXNQUS ==> 0 <= #[trigger] idsf[i] <= 31
}

/// Channel `c` is one of the channels of block `ab`.
pub open spec fn own_channel(ab: AbModel, c: int) -> bool {
    (ab.blk_nchs >= 1 && ab.ac_idx[0] == c) || (ab.blk_nchs >= 2 && ab.ac_idx[1] == c)
}

/// Parse the channels of a block whose header and gradient are in place.
fn unpack_channels(t: &CodecTables, ab: &Ab, acs: &mut Vec<Ac>, br: &mut BitReader) -> (r: Result<(), LdacError>)
    requires
        t.wf(),
        block_ready(ab@),
        block_layout_ok(ab@, old(acs)@.len() as int),
        channels_wf(models(old(acs)@)),
        old(br).position() <= pos_limit() - 0x4800,
    ensures
        final(br).bytes() == old(br).bytes(),
        final(br).position() <= old(br).position() + 0x4800,
        final(acs)@.len() == old(acs)@.len(),
        channels_wf(models(final(acs)@)),
        models(final(acs)@) == spec_channels(*t, old(br).bytes(), old(br).position(), ab@, models(old(acs)@)).0,
        match spec_channels(*t, old(br).bytes(), old(br).position(), ab@, models(old(acs)@)).1 {
            Ok(p) => r is Ok && final(br).position() == p,
            Err(e) => r == Err::<(), LdacError>(e),
        },
        forall|c: int| 0 <= c < old(acs)@.len() && !own_channel(ab@, c) ==> #[trigger] final(acs)@[c]@ == old(acs)@[c]@,
        r is Ok ==> forall|c: int| 0 <= c < old(acs)@.len() && own_channel(ab@, c) ==> idsf_ok(#[trigger] final(acs)@[c]@.idsf),
{
    reveal(spec_channels);
    let ghost acs0 = models(acs@);
    let i0 = ab.ac_idx[0];
    let ch0 = copy_values(&acs[i0].a_idsf);
    assert(acs0[i0 as int].wf());
    let c0 = unpack_channel(t, &mut acs[i0], ab, 0, &ch0, br);
    proof {
        assert(models(acs@) =~= acs0.update(i0 as int, acs@[i0 as int]@));
    }
    if let Err(e) = c0 {
        return Err(e);
    }
    proof {
        lemma_channel_ok_ranges(*t, old(br).bytes(), old(br).position(), ab@, 0, acs0[i0 as int],
            acs0[i0 as int].idsf);
        assert(idsf_ok(acs@[i0 as int]@.idsf));
    }
    if ab.blk_nchs >= 2 {
        let ghost acs1 = models(acs@);
        let i1 = ab.ac_idx[1];
        let ch0 = copy_values(&acs[i0].a_idsf);
        proof {
            lemma_channel_ok_ranges(*t, old(br).bytes(), old(br).position(), ab@, 0, acs0[i0 as int],
                acs0[i0 as int].idsf);
            assert(acs1[i0 as int] == acs@[i0 as int]@);
        }
        assert(acs1[i1 as int].wf());
        let ghost q0 = br.position();
        let c1 = unpack_channel(t, &mut acs[i1], ab, 1, &ch0, br);
        proof {
            assert(models(acs@) =~= acs1.update(i1 as int, acs@[i1 as int]@));
        }
        if let Err(e) = c1 {
            return Err(e);
        }
        proof {
            lemma_channel_ok_ranges(*t, old(br).bytes(), q0, ab@, 1, acs1[i1 as int], acs1[i0 as int].idsf);
            assert(idsf_ok(acs@[i1 as int]@.idsf));
            assert(idsf_ok(acs@[i0 as int]@.idsf));
        }
    }
    Ok(())
}

/// Parse one block of a frame of `nbytes` bytes.
pub(crate) fn unpack_block(t: &CodecTables, ab: &mut Ab, acs: &mut Vec<Ac>, sr: usize, nbytes: usize, br: &mut BitReader)
    -> (r: Result<(), LdacError>)
    requires
        t.wf(),
        sr < LDAC_NSUPSMPLRATEID,
        nbytes <= usize::MAX / 8,
        block_layout_ok(old(ab)@, old(acs)@.len() as int),
        channels_wf(models(old(acs)@)),
        old(br).position() <= pos_limit() - 0x5000,
    ensures
        final(br).bytes() == old(br).bytes(),
        final(br).position() <= old(br).position() + 0x5000,
        block_layout_ok(final(ab)@, final(acs)@.len() as int),
        final(ab)@.blk_nchs == old(ab)@.blk_nchs,
        final(ab)@.ac_idx == old(ab)@.ac_idx,
        final(acs)@.len() == old(acs)@.len(),
        channels_wf(models(final(acs)@)),
        forall|c: int| 0 <= c < old(acs)@.len() && !own_channel(old(ab)@, c) ==> #[trigger] final(acs)@[c]@ == old(acs)@[c]@,
        r is Ok ==> forall|c: int| 0 <= c < old(acs)@.len() && own_channel(old(ab)@, c) ==> idsf_ok(#[trigger] final(acs)@[c]@.idsf),
        r is Ok ==> block_ready(final(ab)@) && grad_params_ok(final(ab)@),
        ({
            let (m, cs, res) = spec_block(*t, old(br).bytes(), old(br).position(), sr as int, nbytes as int, old(ab)@,
                models(old(acs)@));
            &&& final(ab)@ == m
            &&& models(final(acs)@) == cs
            &&& match res {
                Ok(p) => r is Ok && final(br).position() == p,
                Err(e) => r == Err::<(), LdacError>(e),
            }
        }),
{
    reveal(spec_block);
    let ghost s = br.bytes();
    let h = unpack_block_head(t, ab, acs, sr, br);
    if let Err(e) = h {
        return Err(e);
    }
    let c = unpack_channels(t, ab, acs, br);
    if let Err(e) = c {
        return Err(e);
    }
    let pos = br.pos();
    if pos > LDAC_BYTESIZE * nbytes {
        return Err(LdacError::FrameLengthOver);
    }
    let pad = (LDAC_BYTESIZE - (pos % LDAC_BYTESIZE)) % LDAC_BYTESIZE;
    if pad > 0 && br.read(pad as u32) != 0 {
        return Err(LdacError::UnpackBlockAlign);
    }
    Ok(())
}

/// The first `n` blocks of a frame of `nbytes` bytes parsed in order from
/// bit 0, stopping at the first refused one.  Gives the blocks and channels
/// as parsing leaves them and the end position or the error.
pub open spec fn spec_blocks(t: CodecTables, s: Seq<u8>, sr: int, nbytes: int, abs: Seq<AbModel>,
    acs: Seq<AcModel>, n: nat) -> (Seq<AbModel>, Seq<AcModel>, Result<int, LdacError>)
    decreases n,
{
    if n == 0 {
        (abs, acs, Ok(0))
    } else {
        let (abs1, acs1, r1) = spec_blocks(t, s, sr, nbytes, abs, acs, (n - 1) as nat);
        match r1 {
            Err(e) => (abs1, acs1, Err(e)),
            Ok(p) => {
                let (ab2, acs2, r2) = spec_block(t, s, p, sr, nbytes, abs1[n - 1], acs1);
                (abs1.update(n - 1, ab2), acs2, r2)
            },
        }
    }
}

/// The `filled` bytes from bit `p` on all hold the fill code.
pub open spec fn fill_ok(s: Seq<u8>, p: int, filled: int) -> bool {
    forall|i: int| 0 <= i < filled ==> #[trigger] field_at(s, p + 8 * i, 8) == LDAC_FILLCODE
}

/// A raw data frame of `nbytes` bytes: its blocks in order, then fill codes up
/// to the frame length.  Gives the blocks and channels as parsing leaves
/// them, refused or not, and the number of bytes consumed or the error.
pub open spec fn spec_unpack_frame(t: CodecTables, s: Seq<u8>, sr: int, nbytes: int, abs: Seq<AbModel>,
    acs: Seq<AcModel>) -> (Seq<AbModel>, Seq<AcModel>, Result<int, LdacError>)
{
    let (abs1, acs1, r1) = spec_blocks(t, s, sr, nbytes, abs, acs, abs.len());
    match r1 {
        Err(e) => (abs1, acs1, Err(e)),
        Ok(p) => {
            let filled = nbytes - p / 8;
            if !fill_ok(s, p, filled) {
                (abs1, acs1, Err(LdacError::UnpackFrameAlign))
            } else {
                (abs1, acs1, Ok((p + 8 * filled) / 8))
            }
        },
    }
}

/// Block `b` of a frame in a valid layout can be parsed on its own.
proof fn lemma_layout_block(cci: int, abs: Seq<AbModel>, nac: int, b: int)
    requires
        0 <= cci <= LDAC_CHCONFIGID_ST,
        layout_ok(cci, abs, nac),
        0 <= b < abs.len(),
    ensures
        block_layout_ok(abs[b], nac),
{
    let m = abs[b];
    assert(m.blk_nchs == block_nchs(spec_block_type(cci, b)));
    assert forall|i: int| 0 <= i < LDAC_MAXGRADQU implies small(#[trigger] m.grad[i]) by {
        assert(-0x10000 <= m.grad[i] <= 0x10000);
    }
    if m.blk_nchs == 2 {
        assert(m.ac_idx[0] == b);
        assert(m.ac_idx[1] == b + 1);
    }
    assert forall|ich: int| 0 <= ich < m.blk_nchs implies m.ac_idx[ich] < nac by {
        assert(m.ac_idx[ich] == b + ich);
    }
}

/// Channels of channel configuration `cci` that its first `nb` blocks hold.
pub open spec fn done_channels(cci: int, nb: int) -> int {
    if cci == LDAC_CHCONFIGID_ST { 2 * nb } else { nb }
}

/// Parse one raw data frame (after the transport header) into the decoder
/// state, returning the number of bytes consumed.
pub fn unpack_raw_data_frame(t: &CodecTables, sf: &mut SfInfo, stream: &[u8]) -> (r: Result<usize, LdacError>)
    requires
        t.wf(),
        old(sf).wf(),
        old(sf).cfg.frame_length <= usize::MAX / 8,
    ensures
        final(sf).wf(),
        final(sf).cfg == old(sf).cfg,
        ({
            let (abs, acs, res) = spec_unpack_frame(*t, stream@, old(sf).cfg.smplrate_id as int,
                old(sf).cfg.frame_length as int, old(sf).abs(), old(sf).acs());
            &&& final(sf).abs() == abs
            &&& final(sf).acs() == acs
            &&& match res {
                Ok(n) => r == Ok::<usize, LdacError>(n as usize),
                Err(e) => r == Err::<usize, LdacError>(e),
            }
        }),
        r matches Ok(n) ==> n == old(sf).cfg.frame_length,
        r is Ok ==> forall|c: int| 0 <= c < final(sf).ac@.len() ==> idsf_ok(#[trigger] final(sf).ac@[c]@.idsf),
        r is Ok ==> forall|b: int| 0 <= b < final(sf).ab@.len() ==>
            block_ready(#[trigger] final(sf).ab@[b]@) && grad_params_ok(final(sf).ab@[b]@),
{
    let nbytes_frame = sf.cfg.frame_length;
    let smplrate_id = sf.cfg.smplrate_id;
    let ghost cci = sf.cfg.chconfig_id as int;
    let mut br = BitReader::new(stream);
    let nbks = sf.ab.len();
    let mut ibk: usize = 0;
    while ibk < nbks
        invariant
            t.wf(),
            sf.wf(),
            sf.cfg == old(sf).cfg,
            cci == sf.cfg.chconfig_id,
            nbks == sf.ab@.len(),
            nbks == old(sf).ab@.len(),
            old(sf).abs().len() == nbks,
            nbks <= 2,
            ibk <= nbks,
            nbytes_frame == sf.cfg.frame_length,
            smplrate_id == sf.cfg.smplrate_id,
            nbytes_frame <= usize::MAX / 8,
            br.bytes() == stream@,
            br.position() <= 0x5000 * ibk,
            spec_blocks(*t, stream@, smplrate_id as int, nbytes_frame as int, old(sf).abs(), old(sf).acs(), ibk as nat)
                == (sf.abs(), sf.acs(), Ok::<int, LdacError>(br.position())),
            forall|c: int| 0 <= c < done_channels(cci, ibk as int) && c < sf.ac@.len() ==>
                idsf_ok(#[trigger] sf.ac@[c]@.idsf),
            forall|b: int| 0 <= b < ibk ==> block_ready(#[trigger] sf.ab@[b]@) && grad_params_ok(sf.ab@[b]@),
        decreases nbks - ibk,
    {
        proof {
            lemma_layout_block(cci, sf.abs(), sf.ac@.len() as int, ibk as int);
        }
        let ghost abs0 = sf.abs();
        let ghost acs0 = sf.acs();
        let ghost ac_before = sf.ac@;
        let res = unpack_block(t, &mut sf.ab[ibk], &mut sf.ac, smplrate_id, nbytes_frame, &mut br);
        proof {
            assert(sf.abs() =~= abs0.update(ibk as int, sf.ab@[ibk as int]@));
            assert(sf.acs() =~= models(sf.ac@));
            let nb = sf.abs()[ibk as int];
            assert forall|b: int| 0 <= b < sf.abs().len() implies {
                &&& (#[trigger] sf.abs()[b]).blk_nchs == block_nchs(spec_block_type(cci, b))
                &&& sf.abs()[b].ac_idx.len() == 2
                &&& forall|ich: int| 0 <= ich < sf.abs()[b].blk_nchs ==> sf.abs()[b].ac_idx[ich] == b + ich
                &&& sf.abs()[b].grad.len() == LDAC_MAXGRADQU
                &&& forall|i: int| 0 <= i < LDAC_MAXGRADQU ==> -0x10000 <= #[trigger] sf.abs()[b].grad[i] <= 0x10000
            } by {
                if b == ibk {
                    assert forall|i: int| 0 <= i < LDAC_MAXGRADQU implies -0x10000 <= #[trigger] sf.abs()[b].grad[i] <= 0x10000 by {
                        assert(small(nb.grad[i]));
                    }
                } else {
                    assert(sf.abs()[b] == abs0[b]);
                }
            }
            assert(layout_ok(cci, sf.abs(), sf.ac@.len() as int));
            assert forall|c: int| 0 <= c < sf.ac@.len() implies (#[trigger] sf.ac@[c])@.wf() by {
                assert(models(sf.ac@)[c] == sf.ac@[c]@);
            }
        }
        if let Err(e) = res {
            proof {
                assert(spec_blocks(*t, stream@, smplrate_id as int, nbytes_frame as int, old(sf).abs(), old(sf).acs(),
                    (ibk + 1) as nat) == (sf.abs(), sf.acs(), Err::<int, LdacError>(e)));
                lemma_blocks_err(*t, stream@, smplrate_id as int, nbytes_frame as int, old(sf).abs(), old(sf).acs(),
                    (ibk + 1) as nat, nbks as nat);
            }
            return Err(e);
        }
        proof {
            let ob = abs0[ibk as int];
            assert forall|c: int| 0 <= c < done_channels(cci, ibk + 1) && c < sf.ac@.len() implies
                idsf_ok(#[trigger] sf.ac@[c]@.idsf) by {
                if c < done_channels(cci, ibk as int) {
                    if cci == LDAC_CHCONFIGID_ST {
                        assert(false);
                    }
                    assert(!own_channel(ob, c)) by {
                        assert(ob.ac_idx[0] == ibk);
                    }
                    assert(sf.ac@[c]@ == ac_before[c]@);
                } else {
                    assert(ob.ac_idx[0] == ibk);
                    if cci == LDAC_CHCONFIGID_ST {
                        assert(ob.blk_nchs == 2);
                        assert(ob.ac_idx[1] == ibk + 1);
                    }
                    assert(own_channel(ob, c));
                }
            }
            assert forall|b: int| 0 <= b < ibk + 1 implies block_ready(#[trigger] sf.ab@[b]@) && grad_params_ok(sf.ab@[b]@) by {
                if b < ibk {
                    assert(sf.abs()[b] == abs0[b]);
                    assert(sf.abs()[b] == sf.ab@[b]@);
                }
            }
        }
        ibk += 1;
    }
    proof {
        assert(done_channels(cci, nbks as int) == sf.ac@.len());
    }
    let pos = br.pos();
    proof {
        lemma_blocks_end(*t, stream@, smplrate_id as int, nbytes_frame as int, old(sf).abs(), old(sf).acs(), nbks as nat);
    }
    let filled = nbytes_frame - pos / LDAC_BYTESIZE;
    if !check_fill(&mut br, filled) {
        return Err(LdacError::UnpackFrameAlign);
    }
    Ok(br.pos() / LDAC_BYTESIZE)
}

/// Read `filled` bytes and check that each is the fill code.
fn check_fill(br: &mut BitReader, filled: usize) -> (r: bool)
    requires
        old(br).position() <= 0xA000,
    ensures
        final(br).bytes() == old(br).bytes(),
        r == fill_ok(old(br).bytes(), old(br).position(), filled as int),
        r ==> final(br).position() == old(br).position() + 8 * filled,
{
    let ghost s = br.bytes();
    let ghost pf = br.position();
    let mut i: usize = 0;
    while i < filled
        invariant
            i <= filled,
            br.bytes() == s,
            br.position() == pf + 8 * i,
            s == old(br).bytes(),
            pf == old(br).position(),
            pf <= 0xA000,
            pf + 8 * i <= 0xA000 + 0x2010,
            forall|k: int| 0 <= k < i ==> #[trigger] field_at(s, pf + 8 * k, 8) == LDAC_FILLCODE,
        decreases filled - i,
    {
        let v = br.read(LDAC_BYTESIZE as u32);
        if v != LDAC_FILLCODE {
            return false;
        }
        proof {
            assert(pf + 8 * i < LDAC_MAXBITNUM);
        }
        i += 1;
    }
    true
}

/// Once a block fails, every longer run of blocks fails the same way.
proof fn lemma_blocks_err(t: CodecTables, s: Seq<u8>, sr: int, nbytes: int, abs: Seq<AbModel>,
    acs: Seq<AcModel>, k: nat, m: nat)
    requires
        k <= m,
        spec_blocks(t, s, sr, nbytes, abs, acs, k).2 is Err,
    ensures
        spec_blocks(t, s, sr, nbytes, abs, acs, m) == spec_blocks(t, s, sr, nbytes, abs, acs, k),
    decreases m - k,
{
    if k < m {
        lemma_blocks_err(t, s, sr, nbytes, abs, acs, k, (m - 1) as nat);
    }
}

/// A block parsed without error ends byte-aligned within the frame.
proof fn lemma_block_end(t: CodecTables, s: Seq<u8>, pos: int, sr: int, nbytes: int, ab: AbModel, acs: Seq<AcModel>)
    requires
        spec_block(t, s, pos, sr, nbytes, ab, acs).2 is Ok,
        spec_block(t, s, pos, sr, nbytes, ab, acs).2->Ok_0 >= 0,
    ensures
        ({
            let p = spec_block(t, s, pos, sr, nbytes, ab, acs).2->Ok_0;
            p <= 8 * nbytes && p % 8 == 0
        }),
{
    reveal(spec_block);
}

/// After blocks parsed without error, the position is byte-aligned and
/// within the frame.
proof fn lemma_blocks_end(t: CodecTables, s: Seq<u8>, sr: int, nbytes: int, abs: Seq<AbModel>,
    acs: Seq<AcModel>, n: nat)
    requires
        n >= 1,
        spec_blocks(t, s, sr, nbytes, abs, acs, n).2 is Ok,
        spec_blocks(t, s, sr, nbytes, abs, acs, n).2->Ok_0 >= 0,
    ensures
        ({
            let p = spec_blocks(t, s, sr, nbytes, abs, acs, n).2->Ok_0;
            p <= 8 * nbytes && p % 8 == 0
        }),
{
    let (abs1, acs1, r1) = spec_blocks(t, s, sr, nbytes, abs, acs, (n - 1) as nat);
    lemma_block_end(t, s, r1->Ok_0, sr, nbytes, abs1[n - 1], acs1);
}

/// Lines beyond the first `n` units are zero in the quantised spectrum.
proof fn lemma_spec_qspec_outside(t: CodecTables, s: Seq<u8>, idwl1: Seq<i32>, p0: int, n: nat, x: int)
    requires
        t.wf(),
        n <= LDAC_MAXNQUS,
        t.isp@[n as int] <= x < LDAC_MAXLSU,
    ensures
        spec_qspec(t, s, idwl1, p0, n)[x] == 0,
    decreases n,
{
    if n > 0 {
        lemma_isp_mono(t, (n - 1) as int, n as int);
        assert(t.isp@[n - 1] + t.nsps@[n - 1] == t.isp@[n as int]);
        lemma_spec_qspec_outside(t, s, idwl1, p0, (n - 1) as nat, x);
    }
}

} // verus!
