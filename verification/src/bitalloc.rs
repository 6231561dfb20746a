//! Bit-allocation reconstruction: gradient curve, additional word lengths
//! and the per-unit word-length ids.
use vstd::prelude::*;
use crate::consts::{LDAC_MAXGRADQU, LDAC_MAXNQUS, LDAC_MAXIDWL1, LDAC_MAXIDWL2, LDAC_MODE_0,
    LDAC_MODE_1, LDAC_MODE_2, LDAC_MODE_3};
use crate::sfinfo::{Ab, Ac, AbModel, AcModel};
use crate::tables::CodecTables;

verus! {

/// Bound on the magnitude of scale-factor, gradient and additional
/// word-length entries under which the word-length arithmetic is exact.
pub open spec fn small(x: i32) -> bool {
    -0x10000 <= x <= 0x10000
}

/// Correction that the resampled gradient curve applies to unit `i`.
pub open spec fn grad_adjust(t: CodecTables, ab: AbModel, i: int) -> int {
    let span = ab.grad_qu_h - ab.grad_qu_l;
    let diff = ab.grad_os_h - ab.grad_os_l;
    if 0 <= ab.grad_qu_l <= i < ab.grad_qu_h && span > 0 {
        let tv = t.resamp_grad@[span - 1]@[i - ab.grad_qu_l] as int;
        if diff > 0 {
            -((tv * (diff - 1)) / 256 + 1)
        } else if diff < 0 {
            (tv * (-diff - 1)) / 256 + 1
        } else {
            0
        }
    } else {
        0
    }
}

/// The gradient curve of a block after reconstruction up to unit `hqu`:
/// `-grad_os_l` below `grad_qu_h` (bent by the resampled curve between
/// `grad_qu_l` and `grad_qu_h`), `-grad_os_h` from `grad_qu_h` to `hqu`,
/// and the previous values above.
pub open spec fn spec_gradient(t: CodecTables, ab: AbModel, hqu: int) -> Seq<i32> {
    Seq::new(LDAC_MAXGRADQU as nat, |i: int|
        if i < ab.grad_qu_h {
            (-ab.grad_os_l + grad_adjust(t, ab, i)) as i32
        } else if i < hqu {
            (-ab.grad_os_h) as i32
        } else {
            ab.grad[i]
        })
}

/// Gradient parameters on which the reconstruction neither indexes out of
/// its arrays nor overflows: `grad_qu_h` within the curve, a span of at most
/// `LDAC_MAXGRADQU` units (a negative `grad_qu_l` bends nothing), and offsets
/// of moderate size.
pub open spec fn grad_call_ok(ab: AbModel) -> bool {
    &&& 0 <= ab.grad_qu_h <= LDAC_MAXGRADQU
    &&& ab.grad_qu_h - ab.grad_qu_l <= LDAC_MAXGRADQU
    &&& -0x10000 <= ab.grad_os_l <= 0x10000
    &&& -0x10000 <= ab.grad_os_h <= 0x10000
}

/// The gradient parameters a block header can carry.
pub open spec fn grad_params_ok(ab: AbModel) -> bool {
    &&& 0 <= ab.grad_qu_l <= ab.grad_qu_h < LDAC_MAXGRADQU
    &&& 0 <= ab.grad_os_l <= 31
    &&& 0 <= ab.grad_os_h <= 31
}

proof fn lemma_shr8(x: i32)
    requires
        0 <= x,
    ensures
        x >> 8 == x / 256,
{
    assert(0 <= x ==> x >> 8 == x / 256) by (bit_vector);
}

/// Reconstruct a block's gradient curve up to unit `hqu`.
pub fn reconst_gradient(t: &CodecTables, ab: &mut Ab, hqu: usize)
    requires
        t.wf(),
        grad_call_ok(old(ab)@),
        old(ab).a_grad@.len() == LDAC_MAXGRADQU,
        hqu <= LDAC_MAXGRADQU,
    ensures
        final(ab)@ == (AbModel { grad: spec_gradient(*t, old(ab)@, hqu as int), ..old(ab)@ }),
{
    let gqu_h = ab.grad_qu_h as usize;
    let gos_l = ab.grad_os_l;
    let gos_h = ab.grad_os_h;
    let ghost a0 = ab@;
    let mut i: usize = 0;
    while i < gqu_h
        invariant
            a0 == (AbModel { grad: a0.grad, ..ab@ }),
            grad_call_ok(a0),
            gqu_h == a0.grad_qu_h,
            gos_l == a0.grad_os_l,
            i <= gqu_h,
            a0.grad.len() == LDAC_MAXGRADQU,
            ab.a_grad@.len() == LDAC_MAXGRADQU,
            forall|k: int| 0 <= k < i ==> ab.a_grad@[k] == -gos_l,
            forall|k: int| i <= k < LDAC_MAXGRADQU ==> ab.a_grad@[k] == a0.grad[k],
        decreases gqu_h - i,
    {
        ab.a_grad[i] = -gos_l;
        i += 1;
    }
    let mut i: usize = gqu_h;
    while i < hqu
        invariant
            a0 == (AbModel { grad: a0.grad, ..ab@ }),
            grad_call_ok(a0),
            gqu_h == a0.grad_qu_h,
            gos_l == a0.grad_os_l,
            gos_h == a0.grad_os_h,
            hqu <= LDAC_MAXGRADQU,
            gqu_h <= i,
            i <= hqu || i == gqu_h,
            a0.grad.len() == LDAC_MAXGRADQU,
            ab.a_grad@.len() == LDAC_MAXGRADQU,
            forall|k: int| 0 <= k < gqu_h ==> ab.a_grad@[k] == -gos_l,
            forall|k: int| gqu_h <= k < i ==> ab.a_grad@[k] == -gos_h,
            forall|k: int| i <= k < LDAC_MAXGRADQU ==> ab.a_grad@[k] == a0.grad[k],
        decreases hqu - i,
    {
        ab.a_grad[i] = -gos_h;
        i += 1;
    }
    let ghost filled = ab.a_grad@;
    let span = gqu_h as i32 - ab.grad_qu_l;
    let diff = gos_h - gos_l;
    if span > 0 && diff != 0 && ab.grad_qu_l >= 0 {
        let gqu_l = ab.grad_qu_l as usize;
        let row = (span - 1) as usize;
        let d = if diff > 0 { diff - 1 } else { -diff - 1 };
        let mut k: usize = 0;
        while k < gqu_h - gqu_l
            invariant
                t.wf(),
                a0 == (AbModel { grad: a0.grad, ..ab@ }),
                grad_call_ok(a0),
                0 <= a0.grad_qu_l,
                gqu_l == a0.grad_qu_l,
                gqu_h == a0.grad_qu_h,
                gos_l == a0.grad_os_l,
                gos_h == a0.grad_os_h,
                span == gqu_h - gqu_l,
                row == span - 1,
                diff == gos_h - gos_l,
                diff != 0,
                d == (if diff > 0 { diff - 1 } else { -diff - 1 }),
                k <= gqu_h - gqu_l,
                ab.a_grad@.len() == LDAC_MAXGRADQU,
                filled.len() == LDAC_MAXGRADQU,
                forall|j: int| 0 <= j < LDAC_MAXGRADQU && !(gqu_l <= j < gqu_l + k) ==> ab.a_grad@[j] == filled[j],
                forall|j: int| gqu_l <= j < gqu_l + k ==> ab.a_grad@[j] == filled[j] + grad_adjust(*t, a0, j),
                forall|j: int| 0 <= j < gqu_h ==> filled[j] == -gos_l,
            decreases gqu_h - gqu_l - k,
        {
            let iqu = gqu_l + k;
            let tv = t.resamp_grad[row][k] as i32;
            proof {
                assert(0 <= tv <= 255);
                assert(0 <= d <= 0x20000);
                assert(0 <= tv * d <= 255 * 0x20000) by (nonlinear_arith)
                    requires 0 <= tv <= 255, 0 <= d <= 0x20000;
                lemma_shr8((tv * d) as i32);
            }
            assert(ab.a_grad@[iqu as int] == filled[iqu as int]);
            assert(filled[iqu as int] == -gos_l);
            assert(tv == t.resamp_grad@[span - 1]@[iqu - a0.grad_qu_l]);
            if diff > 0 {
                ab.a_grad[iqu] = ab.a_grad[iqu] - (((tv * d) >> 8) + 1);
            } else {
                ab.a_grad[iqu] = ab.a_grad[iqu] + (((tv * d) >> 8) + 1);
            }
            assert(ab.a_grad@[iqu as int] == filled[iqu as int] + grad_adjust(*t, a0, iqu as int));
            k += 1;
        }
        assert forall|j: int| 0 <= j < LDAC_MAXGRADQU implies #[trigger] ab.a_grad@[j] == filled[j] + grad_adjust(*t, a0, j) by {
            if !(a0.grad_qu_l <= j < gqu_h) {
                assert(grad_adjust(*t, a0, j) == 0);
            }
        }
    } else {
        assert forall|j: int| 0 <= j < LDAC_MAXGRADQU implies #[trigger] ab.a_grad@[j] == filled[j] + grad_adjust(*t, a0, j) by {
            assert(grad_adjust(*t, a0, j) == 0);
        }
    }
    assert forall|j: int| 0 <= j < LDAC_MAXGRADQU implies #[trigger] ab.a_grad@[j] == spec_gradient(*t, a0, hqu as int)[j] by {
        assert(ab.a_grad@[j] == filled[j] + grad_adjust(*t, a0, j));
        if j >= gqu_h {
            assert(grad_adjust(*t, a0, j) == 0);
        }
    }
    assert(ab.a_grad@ =~= spec_gradient(*t, a0, hqu as int));
}

/// Additional word length of unit `i` from the scale-factor steps around it.
pub open spec fn spec_addwl_at(idsf: Seq<i32>, nqus: int, i: int) -> int {
    let up = if 1 <= i < nqus && idsf[i] - idsf[i - 1] > 1 {
        vstd::math::min(idsf[i] - idsf[i - 1] - 1, 5)
    } else {
        0
    };
    let down = if i + 1 < nqus && idsf[i + 1] - idsf[i] < -1 {
        vstd::math::min(idsf[i] - idsf[i + 1] - 1, 5)
    } else {
        0
    };
    up + down
}

/// Additional word lengths of a channel: zero in gradient mode 0, otherwise
/// the contributions of the scale-factor steps of more than one.
pub open spec fn spec_addwl(idsf: Seq<i32>, nqus: int, grad_mode: i32) -> Seq<i32> {
    Seq::new(LDAC_MAXNQUS as nat, |i: int|
        if grad_mode == LDAC_MODE_0 { 0i32 } else { spec_addwl_at(idsf, nqus, i) as i32 })
}

/// The steps between neighbouring scale factors below unit `nqus` fit an
/// `i32` and can be negated.
pub open spec fn steps_fit(idsf: Seq<i32>, nqus: int) -> bool {
    forall|i: int| 1 <= i < nqus ==> i32::MIN < #[trigger] idsf[i] - idsf[i - 1] <= i32::MAX
}

/// Law: an additional word length lies between 0 and 10, at most five from
/// the step below a unit and five from the step above it.
pub proof fn lemma_addwl_bound(idsf: Seq<i32>, n: int, i: int)
    ensures
        0 <= spec_addwl_at(idsf, n, i) <= 10,
{
}

/// Compute a channel's additional word lengths from its scale factors.
pub fn calc_add_word_length(ac: &mut Ac, ab: &Ab)
    requires
        old(ac)@.wf(),
        ab.nqus <= LDAC_MAXNQUS,
        ab.grad_mode != LDAC_MODE_0 ==> steps_fit(old(ac)@.idsf, ab.nqus as int),
    ensures
        final(ac)@ == (AcModel { addwl: spec_addwl(old(ac)@.idsf, ab.nqus as int, ab.grad_mode), ..old(ac)@ }),
{
    let nqus = ab.nqus;
    let ghost a0 = ac@;
    let mut i: usize = 0;
    while i < LDAC_MAXNQUS
        invariant
            a0 == (AcModel { addwl: a0.addwl, ..ac@ }),
            a0.wf(),
            i <= LDAC_MAXNQUS,
            ac.a_addwl@.len() == LDAC_MAXNQUS,
            forall|k: int| 0 <= k < i ==> ac.a_addwl@[k] == 0,
        decreases LDAC_MAXNQUS - i,
    {
        ac.a_addwl[i] = 0;
        i += 1;
    }
    if ab.grad_mode == LDAC_MODE_0 {
        assert(ac.a_addwl@ =~= spec_addwl(a0.idsf, nqus as int, ab.grad_mode));
        return;
    }
    let mut iqu: usize = 1;
    while iqu < nqus
        invariant
            a0 == (AcModel { addwl: a0.addwl, ..ac@ }),
            a0.wf(),
            nqus <= LDAC_MAXNQUS,
            1 <= iqu,
            iqu <= nqus || (nqus == 0 && iqu == 1),
            steps_fit(a0.idsf, nqus as int),
            ac.a_addwl@.len() == LDAC_MAXNQUS,
            forall|k: int| 0 <= k < LDAC_MAXNQUS ==> ac.a_addwl@[k] == spec_addwl_at(a0.idsf, iqu as int, k),
        decreases nqus - iqu,
    {
        proof {
            lemma_addwl_bound(a0.idsf, iqu as int, iqu as int);
            lemma_addwl_bound(a0.idsf, iqu as int, iqu - 1);
        }
        let ghost prev = ac.a_addwl@;
        assert(i32::MIN < a0.idsf[iqu as int] - a0.idsf[iqu - 1] <= i32::MAX);
        let dif = ac.a_idsf[iqu] - ac.a_idsf[iqu - 1];
        if dif > 1 {
            let add = if dif - 1 < 5 { dif - 1 } else { 5 };
            ac.a_addwl[iqu] = ac.a_addwl[iqu] + add;
        } else if dif < -1 {
            let add = if -dif - 1 < 5 { -dif - 1 } else { 5 };
            ac.a_addwl[iqu - 1] = ac.a_addwl[iqu - 1] + add;
        }
        assert forall|k: int| 0 <= k < LDAC_MAXNQUS implies #[trigger] ac.a_addwl@[k] == spec_addwl_at(a0.idsf, iqu + 1, k) by {
            assert(prev[k] == spec_addwl_at(a0.idsf, iqu as int, k));
        }
        iqu += 1;
    }
    assert forall|k: int| 0 <= k < LDAC_MAXNQUS implies #[trigger] ac.a_addwl@[k] == spec_addwl(a0.idsf, nqus as int, ab.grad_mode)[k] by {
        assert(spec_addwl_at(a0.idsf, iqu as int, k) == spec_addwl_at(a0.idsf, nqus as int, k));
    }
    assert(ac.a_addwl@ =~= spec_addwl(a0.idsf, nqus as int, ab.grad_mode));
}

/// Word-length id of unit `i` before the adjustment and the split into the
/// first and second word lengths.
pub open spec fn spec_base_wl(ac: AcModel, ab: AbModel, i: int) -> int {
    let v = ac.idsf[i] + ab.grad[i] + ac.addwl[i];
    if ab.grad_mode == LDAC_MODE_0 {
        vstd::math::max(ac.idsf[i] + ab.grad[i], 1)
    } else if ab.grad_mode == LDAC_MODE_1 {
        vstd::math::max(if v > 0 { v / 2 } else { v }, 1)
    } else if ab.grad_mode == LDAC_MODE_2 {
        vstd::math::max(if v > 0 { (v * 3) / 8 } else { v }, 1)
    } else if ab.grad_mode == LDAC_MODE_3 {
        vstd::math::max(if v > 0 { v / 4 } else { v }, 1)
    } else {
        ac.idwl1[i] as int
    }
}

/// Word-length id of unit `i` after the first `nadjqus` units gain one.
pub open spec fn spec_adj_wl(ac: AcModel, ab: AbModel, i: int) -> int {
    spec_base_wl(ac, ab, i) + if i < ab.nadjqus { 1int } else { 0int }
}

/// First word-length ids: the adjusted id capped at 15 below `nqus`; above,
/// the previous id, one more for an adjusted unit.
pub open spec fn spec_idwl1(ac: AcModel, ab: AbModel) -> Seq<i32> {
    Seq::new(LDAC_MAXNQUS as nat, |i: int|
        if i < ab.nqus {
            vstd::math::min(spec_adj_wl(ac, ab, i), LDAC_MAXIDWL1 as int) as i32
        } else {
            (ac.idwl1[i] + if i < ab.nadjqus { 1int } else { 0int }) as i32
        })
}

/// Second word-length ids: what exceeds 15, itself capped at 15, below `nqus`.
pub open spec fn spec_idwl2(ac: AcModel, ab: AbModel) -> Seq<i32> {
    Seq::new(LDAC_MAXNQUS as nat, |i: int|
        if i < ab.nqus {
            if spec_adj_wl(ac, ab, i) > LDAC_MAXIDWL1 {
                vstd::math::min(spec_adj_wl(ac, ab, i) - LDAC_MAXIDWL1, LDAC_MAXIDWL2 as int) as i32
            } else {
                0i32
            }
        } else {
            ac.idwl2[i]
        })
}

/// Law: a unit has a second word length only when its first word length is
/// capped at 15.
pub proof fn lemma_second_wl_only_when_capped(ac: AcModel, ab: AbModel, i: int)
    requires
        0 <= i < ab.nqus,
        ab.nqus <= LDAC_MAXNQUS,
        spec_idwl2(ac, ab)[i] > 0,
    ensures
        spec_idwl1(ac, ab)[i] == LDAC_MAXIDWL1,
{
}

/// Law: the first word-length id of an unadjusted unit follows its gradient
/// mode.  With `s` the sum of scale factor and gradient and `v` that sum plus
/// the additional word length, mode 0 takes `s` itself, mode 1 half of a
/// positive `v`, mode 2 three eighths and mode 3 a quarter (each rounded
/// down); a result below 1 becomes 1, one above 15 becomes 15 with the excess
/// (at most 15) as the second id.
pub proof fn lemma_first_wl_by_mode(ac: AcModel, ab: AbModel, i: int)
    requires
        0 <= i < ab.nqus,
        ab.nqus <= LDAC_MAXNQUS,
        ab.nadjqus <= i,
        0 <= ab.grad_mode <= 3,
    ensures
        ({
            let s = ac.idsf[i] + ab.grad[i];
            let v = s + ac.addwl[i];
            let w = spec_idwl1(ac, ab)[i] as int;
            let w2 = spec_idwl2(ac, ab)[i] as int;
            &&& 1 <= w <= 15
            &&& (ab.grad_mode == 0 && 1 <= s <= 15 ==> w == s)
            &&& (ab.grad_mode == 0 && s < 1 ==> w == 1)
            &&& (ab.grad_mode == 0 && s > 15 ==> w == 15 && w2 == if s - 15 < 15 { s - 15 } else { 15 })
            &&& (ab.grad_mode == 1 && 2 <= v < 32 ==> 2 * w <= v < 2 * w + 2)
            &&& (ab.grad_mode == 2 && 8 <= 3 * v < 128 ==> 8 * w <= 3 * v < 8 * w + 8)
            &&& (ab.grad_mode == 3 && 4 <= v < 64 ==> 4 * w <= v < 4 * w + 4)
            &&& (1 <= ab.grad_mode <= 3 && v < 2 ==> w == 1)
            &&& (w < 15 ==> w2 == 0)
        }),
{
}

/// Law: an adjusted unit (one of the first `nadjqus`) gets one more first
/// word-length id than it would unadjusted, capped at 15; and below the
/// unit count the two ids together carry the uncapped id up to 30.
pub proof fn lemma_adjusted_units(ac: AcModel, ab: AbModel, i: int)
    requires
        0 <= i < ab.nqus,
        ab.nqus <= LDAC_MAXNQUS,
        0 <= ab.grad_mode <= 3,
    ensures
        i < ab.nadjqus ==> spec_idwl1(ac, ab)[i]
            == vstd::math::min(spec_idwl1(ac, AbModel { nadjqus: 0, ..ab })[i] + 1, 15),
        i >= ab.nadjqus ==> spec_idwl1(ac, ab)[i] == spec_idwl1(ac, AbModel { nadjqus: 0, ..ab })[i],
        spec_idwl1(ac, ab)[i] + spec_idwl2(ac, ab)[i] == vstd::math::min(spec_adj_wl(ac, ab, i), 30),
{
}

/// The word-length arithmetic of unit `i` stays within `i32`: the sum of
/// scale factor and gradient, in modes 1 to 3 that sum plus the additional
/// word length and, in mode 2, three times a positive total; and for an
/// adjusted unit the id before the adjustment is below `i32::MAX`.
pub open spec fn wl_fits(ac: AcModel, ab: AbModel, i: int) -> bool {
    let s = ac.idsf[i] + ab.grad[i];
    let v = s + ac.addwl[i];
    &&& (0 <= ab.grad_mode <= 3 ==> i32::MIN <= s <= i32::MAX)
    &&& (1 <= ab.grad_mode <= 3 ==> i32::MIN <= v <= i32::MAX)
    &&& (ab.grad_mode == LDAC_MODE_2 && v > 0 ==> v * 3 <= i32::MAX)
    &&& (i < ab.nadjqus ==> spec_base_wl(ac, ab, i) < i32::MAX)
}

proof fn lemma_shifts(v: i32)
    requires
        0 < v,
    ensures
        v >> 1 == v / 2,
        v >> 2 == v / 4,
        v * 3 <= i32::MAX ==> ((v * 3) as i32) >> 3 == (v * 3) / 8,
{
    assert(0 < v ==> v >> 1 == v / 2 && v >> 2 == v / 4) by (bit_vector);
    assert(0 < v && v * 3 <= 0x7fff_ffff ==> ((v * 3) as i32) >> 3 == (v * 3) / 8) by (bit_vector);
}

/// Entries of the sizes a block header can carry keep the word-length
/// arithmetic within `i32`.
pub proof fn lemma_small_fits(ac: AcModel, ab: AbModel, i: int)
    requires
        small(ac.idsf[i]),
        small(ac.addwl[i]),
        small(ac.idwl1[i]),
        small(ab.grad[i]),
    ensures
        wl_fits(ac, ab, i),
{
    let v = ac.idsf[i] + ab.grad[i] + ac.addwl[i];
    if v > 0 {
        assert(v / 2 <= v && v / 4 <= v && (v * 3) / 8 <= v);
    }
}

/// Reconstruct a channel's first and second word-length ids.
pub fn reconst_word_length(ac: &mut Ac, ab: &Ab)
    requires
        old(ac)@.wf(),
        ab.a_grad@.len() == crate::consts::LDAC_MAXGRADQU,
        ab.nqus <= LDAC_MAXNQUS,
        0 <= ab.nadjqus <= LDAC_MAXNQUS,
        forall|i: int| 0 <= i < ab.nqus ==> #[trigger] wl_fits(old(ac)@, ab@, i),
    ensures
        final(ac)@ == (AcModel {
            idwl1: spec_idwl1(old(ac)@, ab@),
            idwl2: spec_idwl2(old(ac)@, ab@),
            ..old(ac)@
        }),
{
    let hqu = ab.nqus;
    let ghost a0 = ac@;
    let mut i: usize = 0;
    while i < hqu
        invariant
            a0 == (AcModel { idwl1: a0.idwl1, ..ac@ }),
            a0.wf(),
            hqu == ab.nqus,
            hqu <= LDAC_MAXNQUS,
            ab.a_grad@.len() == crate::consts::LDAC_MAXGRADQU,
            forall|i: int| 0 <= i < ab.nqus ==> #[trigger] wl_fits(a0, ab@, i),
            i <= hqu,
            ac.a_idwl1@.len() == LDAC_MAXNQUS,
            forall|k: int| 0 <= k < i ==> ac.a_idwl1@[k] == spec_base_wl(a0, ab@, k),
            forall|k: int| i <= k < LDAC_MAXNQUS ==> ac.a_idwl1@[k] == a0.idwl1[k],
        decreases hqu - i,
    {
        assert(wl_fits(a0, ab@, i as int));
        if ab.grad_mode == LDAC_MODE_0 {
            let s = ac.a_idsf[i] + ab.a_grad[i];
            ac.a_idwl1[i] = if s > 1 { s } else { 1 };
        } else if ab.grad_mode == LDAC_MODE_1 || ab.grad_mode == LDAC_MODE_2 || ab.grad_mode == LDAC_MODE_3 {
            let mut v = ac.a_idsf[i] + ab.a_grad[i] + ac.a_addwl[i];
            if v > 0 {
                proof { lemma_shifts(v); }
                if ab.grad_mode == LDAC_MODE_1 {
                    v = v >> 1;
                } else if ab.grad_mode == LDAC_MODE_2 {
                    v = (v * 3) >> 3;
                } else {
                    v = v >> 2;
                }
            }
            ac.a_idwl1[i] = if v > 1 { v } else { 1 };
        }
        i += 1;
    }
    let ghost b1 = ac.a_idwl1@;
    let mut i: usize = 0;
    while i < ab.nadjqus as usize
        invariant
            a0 == (AcModel { idwl1: a0.idwl1, ..ac@ }),
            a0.wf(),
            0 <= ab.nadjqus <= LDAC_MAXNQUS,
            ab.nqus <= LDAC_MAXNQUS,
            forall|i: int| 0 <= i < ab.nqus ==> #[trigger] wl_fits(a0, ab@, i),
            forall|k: int| 0 <= k < ab.nqus ==> b1[k] == spec_base_wl(a0, ab@, k),
            forall|k: int| ab.nqus <= k < LDAC_MAXNQUS ==> b1[k] == a0.idwl1[k],
            i <= ab.nadjqus,
            ac.a_idwl1@.len() == LDAC_MAXNQUS,
            b1.len() == LDAC_MAXNQUS,
            forall|k: int| 0 <= k < i ==> ac.a_idwl1@[k] == b1[k] + 1,
            forall|k: int| i <= k < LDAC_MAXNQUS ==> ac.a_idwl1@[k] == b1[k],
        decreases ab.nadjqus - i,
    {
        assert(ac.a_idwl1@[i as int] == b1[i as int]);
        if i < ab.nqus {
            assert(wl_fits(a0, ab@, i as int));
        }
        ac.a_idwl1[i] = ac.a_idwl1[i] + 1;
        i += 1;
    }
    let ghost b2 = ac.a_idwl1@;
    assert forall|k: int| 0 <= k < LDAC_MAXNQUS implies #[trigger] b2[k] == (if k < ab.nqus {
        spec_base_wl(a0, ab@, k) } else { a0.idwl1[k] as int }) + (if k < ab.nadjqus { 1int } else { 0int }) by {
        if k < ab.nqus {
            assert(b1[k] == spec_base_wl(a0, ab@, k));
        }
    }
    let mut i: usize = 0;
    while i < hqu
        invariant
            a0 == (AcModel { idwl1: a0.idwl1, idwl2: a0.idwl2, ..ac@ }),
            hqu == ab.nqus,
            hqu <= LDAC_MAXNQUS,
            i <= hqu,
            ac.a_idwl1@.len() == LDAC_MAXNQUS,
            ac.a_idwl2@.len() == LDAC_MAXNQUS,
            b2.len() == LDAC_MAXNQUS,
            forall|k: int| 0 <= k < LDAC_MAXNQUS ==> #[trigger] b2[k] == (if k < ab.nqus {
                spec_base_wl(a0, ab@, k) } else { a0.idwl1[k] as int }) + (if k < ab.nadjqus { 1int } else { 0int }),
            forall|k: int| 0 <= k < i ==> ac.a_idwl1@[k] == vstd::math::min(b2[k] as int, LDAC_MAXIDWL1 as int),
            forall|k: int| 0 <= k < i ==> ac.a_idwl2@[k] == (if b2[k] > LDAC_MAXIDWL1 {
                vstd::math::min(b2[k] - LDAC_MAXIDWL1, LDAC_MAXIDWL2 as int) } else { 0 }),
            forall|k: int| i <= k < LDAC_MAXNQUS ==> ac.a_idwl1@[k] == b2[k],
            forall|k: int| i <= k < LDAC_MAXNQUS ==> ac.a_idwl2@[k] == a0.idwl2[k],
        decreases hqu - i,
    {
        let w1 = ac.a_idwl1[i];
        if w1 > LDAC_MAXIDWL1 {
            let e = w1 - LDAC_MAXIDWL1;
            ac.a_idwl2[i] = if e < LDAC_MAXIDWL2 { e } else { LDAC_MAXIDWL2 };
            ac.a_idwl1[i] = LDAC_MAXIDWL1;
        } else {
            ac.a_idwl2[i] = 0;
        }
        i += 1;
    }
    assert forall|k: int| 0 <= k < LDAC_MAXNQUS implies #[trigger] ac.a_idwl1@[k] == spec_idwl1(a0, ab@)[k] by {
        assert(b2[k] == (if k < ab.nqus { spec_base_wl(a0, ab@, k) } else { a0.idwl1[k] as int })
            + (if k < ab.nadjqus { 1int } else { 0int }));
    }
    assert(ac.a_idwl1@ =~= spec_idwl1(a0, ab@));
    assert(ac.a_idwl2@ =~= spec_idwl2(a0, ab@));
}

} // verus!
