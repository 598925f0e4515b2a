//! L1 (sum of absolute differences) distance between two pictures'
//! channel bytes, with a portable kernel and block-wise kernels that
//! follow the SIMD register widths of x86 (SSE2, AVX2) and AArch64 (NEON).

use vstd::prelude::*;
use crate::rgb_image::RgbImage;

verus! {

/// `|a - b|`.
pub open spec fn abs_diff(a: u8, b: u8) -> int {
    if a >= b {
        a - b
    } else {
        b - a
    }
}

/// Sum of `|a[i] - b[i]|` over `lo <= i < hi`.
pub open spec fn sad(a: Seq<u8>, b: Seq<u8>, lo: int, hi: int) -> int
    decreases hi - lo,
{
    if hi <= lo {
        0
    } else {
        sad(a, b, lo, hi - 1) + abs_diff(a[hi - 1], b[hi - 1])
    }
}

/// L1 distance of two byte sequences, over the positions they share.
pub open spec fn l1_distance(a: Seq<u8>, b: Seq<u8>) -> int {
    sad(a, b, 0, if a.len() <= b.len() { a.len() as int } else { b.len() as int })
}

/// Sums of absolute differences are never negative.
pub proof fn lemma_sad_nonneg(a: Seq<u8>, b: Seq<u8>, lo: int, hi: int)
    ensures
        sad(a, b, lo, hi) >= 0,
    decreases hi - lo,
{
    if hi > lo {
        lemma_sad_nonneg(a, b, lo, hi - 1);
    }
}

/// `sad` over adjacent ranges adds up.
pub proof fn lemma_sad_split(a: Seq<u8>, b: Seq<u8>, lo: int, mid: int, hi: int)
    requires
        lo <= mid <= hi,
    ensures
        sad(a, b, lo, hi) == sad(a, b, lo, mid) + sad(a, b, mid, hi),
    decreases hi - mid,
{
    if hi > mid {
        lemma_sad_split(a, b, lo, mid, hi - 1);
    }
}

/// A sub-range sums to no more than an enclosing range.
pub proof fn lemma_sad_sub_range(a: Seq<u8>, b: Seq<u8>, lo: int, lo2: int, hi2: int, hi: int)
    requires
        lo <= lo2 <= hi2 <= hi,
    ensures
        sad(a, b, lo2, hi2) <= sad(a, b, lo, hi),
{
    lemma_sad_split(a, b, lo, lo2, hi);
    lemma_sad_split(a, b, lo2, hi2, hi);
    lemma_sad_nonneg(a, b, lo, lo2);
    lemma_sad_nonneg(a, b, hi2, hi);
}

/// Each position adds at most 255.
pub proof fn lemma_sad_bound(a: Seq<u8>, b: Seq<u8>, lo: int, hi: int)
    requires
        lo <= hi,
    ensures
        sad(a, b, lo, hi) <= 255 * (hi - lo),
    decreases hi - lo,
{
    if hi > lo {
        lemma_sad_bound(a, b, lo, hi - 1);
    }
}

/// The distance does not depend on the order of its arguments.
pub proof fn lemma_sad_symmetric(a: Seq<u8>, b: Seq<u8>, lo: int, hi: int)
    ensures
        sad(a, b, lo, hi) == sad(b, a, lo, hi),
    decreases hi - lo,
{
    if hi > lo {
        lemma_sad_symmetric(a, b, lo, hi - 1);
    }
}

/// A sequence is at distance zero from itself.
pub proof fn lemma_sad_self(a: Seq<u8>, lo: int, hi: int)
    ensures
        sad(a, a, lo, hi) == 0,
    decreases hi - lo,
{
    if hi > lo {
        lemma_sad_self(a, lo, hi - 1);
    }
}

/// The L1 distance between two byte buffers with the portable kernel: the
/// running sum of `|a - b|` over the positions both buffers share.
pub fn l1_generic(im1: &RgbImage, im2: &RgbImage) -> (r: i32)
    requires
        l1_distance(im1.bytes(), im2.bytes()) <= i32::MAX,
    ensures
        r == l1_distance(im1.bytes(), im2.bytes()),
{
    let a = im1.as_raw();
    let b = im2.as_raw();
    let n: usize = if a.len() <= b.len() {
        a.len()
    } else {
        b.len()
    };
    let mut res: i32 = 0;
    let mut i: usize = 0;
    while i < n
        invariant
            n <= a@.len(),
            n <= b@.len(),
            a@ == im1.bytes(),
            b@ == im2.bytes(),
            l1_distance(a@, b@) == sad(a@, b@, 0, n as int),
            sad(a@, b@, 0, n as int) <= i32::MAX,
            i <= n,
            res == sad(a@, b@, 0, i as int),
        decreases n - i,
    {
        proof {
            lemma_sad_sub_range(a@, b@, 0, 0, i + 1, n as int);
        }
        let d: i32 = (a[i] as i32) - (b[i] as i32);
        let ad: i32 = if d < 0 {
            -d
        } else {
            d
        };
        res = res + ad;
        i = i + 1;
    }
    res
}

/// The block kernel shared by the SIMD variants: sums `|a - b|` block by
/// block over the whole blocks of `stride` bytes, then byte by byte over the
/// last `n % stride` bytes, where `n` is the byte count of `im1`; every byte
/// of `im1` is counted once.
fn l1_blocked(im1: &RgbImage, im2: &RgbImage, stride: usize) -> (r: i32)
    requires
        im1.w() * im1.h() <= u32::MAX,
        0 < stride,
        im1.bytes().len() <= im2.bytes().len(),
        sad(im1.bytes(), im2.bytes(), 0, im1.bytes().len() as int) <= i32::MAX,
    ensures
        r == sad(im1.bytes(), im2.bytes(), 0, im1.bytes().len() as int),
{
    proof {
        use_type_invariant(im1);
    }
    let a = im1.as_raw();
    let b = im2.as_raw();
    let alen: usize = a.len();
    let tile_size: usize = (im1.width() * im1.height()) as usize;
    assert(tile_size * 3 == alen) by (nonlinear_arith)
        requires
            tile_size == im1.w() * im1.h(),
            alen == 3 * im1.w() * im1.h(),
    ;
    let nb_sub_pixel: usize = tile_size * 3;
    let ghost n = nb_sub_pixel as int;
    let mut result: i32 = 0;

    // whole blocks
    let mut i: usize = 0;
    while stride <= nb_sub_pixel - i
        invariant
            a@ == im1.bytes(),
            b@ == im2.bytes(),
            n == a@.len(),
            n == nb_sub_pixel,
            n <= b@.len(),
            0 < stride,
            sad(a@, b@, 0, n) <= i32::MAX,
            i <= n,
            result == sad(a@, b@, 0, i as int),
        decreases n - i,
    {
        let block_end: usize = i + stride;
        let mut j: usize = i;
        while j < block_end
            invariant
                a@ == im1.bytes(),
                b@ == im2.bytes(),
                n == a@.len(),
                n <= b@.len(),
                block_end <= n,
                i <= j <= block_end,
                sad(a@, b@, 0, n) <= i32::MAX,
                result == sad(a@, b@, 0, j as int),
            decreases block_end - j,
        {
            proof {
                lemma_sad_sub_range(a@, b@, 0, 0, j + 1, n);
            }
            let d: i32 = (a[j] as i32) - (b[j] as i32);
            let ad: i32 = if d < 0 {
                -d
            } else {
                d
            };
            result = result + ad;
            j = j + 1;
        }
        i = block_end;
    }

    // the remainder, one byte at a time
    let mut j: usize = i;
    while j < nb_sub_pixel
        invariant
            a@ == im1.bytes(),
            b@ == im2.bytes(),
            n == a@.len(),
            n == nb_sub_pixel,
            n <= b@.len(),
            j <= n,
            sad(a@, b@, 0, n) <= i32::MAX,
            result == sad(a@, b@, 0, j as int),
        decreases n - j,
    {
        proof {
            lemma_sad_sub_range(a@, b@, 0, 0, j + 1, n);
        }
        let d: i32 = (a[j] as i32) - (b[j] as i32);
        let ad: i32 = if d < 0 {
            -d
        } else {
            d
        };
        result = result + ad;
        j = j + 1;
    }
    result
}

} // verus!

verus! {

/// The L1 kernels: the portable one and the block kernels named after the
/// SIMD instruction sets whose register width sets their block size.
#[derive(Clone, Copy, Debug, PartialEq, Eq, Structural)]
pub enum L1Kernel {
    Generic,
    Avx2,
    Sse2,
    Neon,
}

/// What kernel `k` computes for the channel bytes `a` of the first picture
/// and `b` of the second.
pub open spec fn kernel_l1(k: L1Kernel, a: Seq<u8>, b: Seq<u8>) -> int {
    match k {
        L1Kernel::Generic => l1_distance(a, b),
        _ => sad(a, b, 0, a.len() as int),
    }
}

/// The inputs on which kernel `k` runs without fault: the sum fits an
/// `i32`, and a block kernel, which reads as many bytes of the second
/// picture as the first has, needs a second picture no shorter than the
/// first.
pub open spec fn kernel_accepts(k: L1Kernel, a: Seq<u8>, b: Seq<u8>) -> bool {
    match k {
        L1Kernel::Generic => l1_distance(a, b) <= i32::MAX,
        _ => {
            &&& a.len() <= b.len()
            &&& sad(a, b, 0, a.len() as int) <= i32::MAX
        },
    }
}

/// Block kernel with 16-byte blocks (one SSE2 register).
pub fn l1_x86_sse2(im1: &RgbImage, im2: &RgbImage) -> (r: i32)
    requires
        im1.w() * im1.h() <= u32::MAX,
        kernel_accepts(L1Kernel::Sse2, im1.bytes(), im2.bytes()),
    ensures
        r == sad(im1.bytes(), im2.bytes(), 0, im1.bytes().len() as int),
        r == l1_distance(im1.bytes(), im2.bytes()),
{
    proof {
        use_type_invariant(im1);
    }
    l1_blocked(im1, im2, 16)
}

/// Block kernel with 32-byte blocks (one AVX2 register).
pub fn l1_x86_avx2(im1: &RgbImage, im2: &RgbImage) -> (r: i32)
    requires
        im1.w() * im1.h() <= u32::MAX,
        kernel_accepts(L1Kernel::Avx2, im1.bytes(), im2.bytes()),
    ensures
        r == sad(im1.bytes(), im2.bytes(), 0, im1.bytes().len() as int),
        r == l1_distance(im1.bytes(), im2.bytes()),
{
    proof {
        use_type_invariant(im1);
    }
    l1_blocked(im1, im2, 32)
}

/// Block kernel with 16-byte blocks (one NEON register).
pub fn l1_neon(im1: &RgbImage, im2: &RgbImage) -> (r: i32)
    requires
        im1.w() * im1.h() <= u32::MAX,
        kernel_accepts(L1Kernel::Neon, im1.bytes(), im2.bytes()),
    ensures
        r == sad(im1.bytes(), im2.bytes(), 0, im1.bytes().len() as int),
        r == l1_distance(im1.bytes(), im2.bytes()),
{
    proof {
        use_type_invariant(im1);
    }
    l1_blocked(im1, im2, 16)
}

/// L1 distance of `im1` to `im2` with the given kernel.
pub fn l1(im1: &RgbImage, im2: &RgbImage, kernel: L1Kernel) -> (r: i32)
    requires
        kernel != L1Kernel::Generic ==> im1.w() * im1.h() <= u32::MAX,
        kernel_accepts(kernel, im1.bytes(), im2.bytes()),
    ensures
        r == kernel_l1(kernel, im1.bytes(), im2.bytes()),
{
    proof {
        use_type_invariant(im1);
    }
    match kernel {
        L1Kernel::Generic => l1_generic(im1, im2),
        L1Kernel::Avx2 => l1_x86_avx2(im1, im2),
        L1Kernel::Sse2 => l1_x86_sse2(im1, im2),
        L1Kernel::Neon => l1_neon(im1, im2),
    }
}

/// Instruction set family of the running processor.
#[derive(Clone, Copy, Debug, PartialEq, Eq, Structural)]
pub enum CpuArch {
    X86_64,
    Aarch64,
    Other,
}

/// What the running processor offers, as detected at run time.
#[derive(Clone, Copy, Debug)]
pub struct CpuFeatures {
    pub arch: CpuArch,
    pub avx2: bool,
    pub sse2: bool,
    pub neon: bool,
}

/// The kernel to use, and whether the choice is announced on a verbose run.
#[derive(Clone, Copy, Debug)]
pub struct KernelChoice {
    pub kernel: L1Kernel,
    pub announce: bool,
}

/// The kernel that `get_optimal_l1` picks.
pub open spec fn optimal_kernel(simd_flag: bool, cpu: CpuFeatures) -> L1Kernel {
    if !simd_flag {
        L1Kernel::Generic
    } else {
        match cpu.arch {
            CpuArch::X86_64 => if cpu.avx2 {
                L1Kernel::Avx2
            } else if cpu.sse2 {
                L1Kernel::Sse2
            } else {
                L1Kernel::Generic
            },
            CpuArch::Aarch64 => if cpu.neon {
                L1Kernel::Neon
            } else {
                L1Kernel::Generic
            },
            CpuArch::Other => L1Kernel::Generic,
        }
    }
}

/// Whether `get_optimal_l1` announces its pick on a verbose run.
pub open spec fn announces_kernel(simd_flag: bool, cpu: CpuFeatures) -> bool {
    simd_flag && (cpu.arch == CpuArch::X86_64 || (cpu.arch == CpuArch::Aarch64 && cpu.neon))
}

/// The kernel that `get_optimal_l1` gives with selection state `sel`: the
/// one already selected, if any, else the one the flag and processor call
/// for.
pub open spec fn selected_kernel(sel: Option<L1Kernel>, simd_flag: bool, cpu: CpuFeatures) -> L1Kernel {
    match sel {
        Some(k) => k,
        None => optimal_kernel(simd_flag, cpu),
    }
}

/// The processor runs kernel `k`: the portable kernel everywhere, a block
/// kernel where its instruction set is present.
pub open spec fn kernel_supported(k: L1Kernel, cpu: CpuFeatures) -> bool {
    match k {
        L1Kernel::Generic => true,
        L1Kernel::Avx2 => cpu.arch == CpuArch::X86_64 && cpu.avx2,
        L1Kernel::Sse2 => cpu.arch == CpuArch::X86_64 && cpu.sse2,
        L1Kernel::Neon => cpu.arch == CpuArch::Aarch64 && cpu.neon,
    }
}

/// Nothing is selected yet, or the selected kernel runs on `cpu`.
pub open spec fn selection_supported(sel: Option<L1Kernel>, cpu: CpuFeatures) -> bool {
    match sel {
        Some(k) => kernel_supported(k, cpu),
        None => true,
    }
}

/// The kernels that successive calls of `get_optimal_l1` return, starting
/// from selection state `sel`, when the `i`-th call is made with flag
/// `flags[i]`.
pub open spec fn selections(sel: Option<L1Kernel>, flags: Seq<bool>, cpu: CpuFeatures) -> Seq<L1Kernel>
    decreases flags.len(),
{
    if flags.len() == 0 {
        Seq::empty()
    } else {
        let k = selected_kernel(sel, flags[0], cpu);
        seq![k] + selections(Some(k), flags.drop_first(), cpu)
    }
}

/// Over any sequence of calls in one run, every kernel returned is the one
/// the first call picked, and the processor supports it: no call ever
/// hands out a kernel whose instructions the processor lacks.
pub proof fn lemma_selections_supported(sel: Option<L1Kernel>, flags: Seq<bool>, cpu: CpuFeatures)
    requires
        selection_supported(sel, cpu),
    ensures
        selections(sel, flags, cpu).len() == flags.len(),
        forall|i: int|
            0 <= i < flags.len() ==> #[trigger] selections(sel, flags, cpu)[i] == selected_kernel(
                sel,
                flags[0],
                cpu,
            ) && kernel_supported(selections(sel, flags, cpu)[i], cpu),
    decreases flags.len(),
{
    if flags.len() > 0 {
        let k = selected_kernel(sel, flags[0], cpu);
        let rest = flags.drop_first();
        lemma_selections_supported(Some(k), rest, cpu);
        let s = selections(sel, flags, cpu);
        assert forall|i: int| 0 <= i < flags.len() implies #[trigger] s[i] == k && kernel_supported(s[i], cpu) by {
            if i > 0 {
                assert(s[i] == selections(Some(k), rest, cpu)[i - 1]);
            }
        }
    }
}

/// Picks the kernel once for the whole run, keeping it in `sel`. The first
/// call (`sel` empty) picks the fastest kernel that the processor supports
/// when SIMD is asked for: AVX2, else SSE2 on x86-64; NEON on AArch64; the
/// portable kernel otherwise; on x86-64 the pick is announced (also when no
/// SIMD extension is found), on AArch64 only when NEON is used. Every later
/// call returns the kernel already picked, whatever its flag, and announces
/// nothing.
pub fn get_optimal_l1(simd_flag: bool, cpu: &CpuFeatures, sel: &mut Option<L1Kernel>) -> (choice: KernelChoice)
    ensures
        choice.kernel == selected_kernel(*old(sel), simd_flag, *cpu),
        *final(sel) == Some(choice.kernel),
        *old(sel) is Some ==> !choice.announce && *final(sel) == *old(sel),
        *old(sel) is None ==> choice.announce == announces_kernel(simd_flag, *cpu),
        selection_supported(*old(sel), *cpu) ==> kernel_supported(choice.kernel, *cpu),
{
    match *sel {
        Some(k) => {
            return KernelChoice { kernel: k, announce: false };
        },
        None => {},
    }
    let mut choice = KernelChoice { kernel: L1Kernel::Generic, announce: false };
    if simd_flag {
        match cpu.arch {
            CpuArch::X86_64 => {
                choice.announce = true;
                if cpu.avx2 {
                    choice.kernel = L1Kernel::Avx2;
                } else if cpu.sse2 {
                    choice.kernel = L1Kernel::Sse2;
                }
            },
            CpuArch::Aarch64 => {
                if cpu.neon {
                    choice.announce = true;
                    choice.kernel = L1Kernel::Neon;
                }
            },
            CpuArch::Other => {},
        }
    }
    *sel = Some(choice.kernel);
    choice
}

/// Every kernel computes the same distance when the first picture is no
/// longer than the second, as between a tile and a cell of its size.
pub proof fn lemma_block_kernel_matches_generic(k: L1Kernel, a: Seq<u8>, b: Seq<u8>)
    requires
        a.len() <= b.len(),
    ensures
        kernel_l1(k, a, b) == kernel_l1(L1Kernel::Generic, a, b),
{
}

/// Every kernel gives distance zero between a picture and itself, and the
/// portable kernel is symmetric.
pub proof fn lemma_l1_self_and_symmetry(k: L1Kernel, a: Seq<u8>, b: Seq<u8>)
    ensures
        kernel_l1(k, a, a) == 0,
        kernel_l1(L1Kernel::Generic, a, b) == kernel_l1(L1Kernel::Generic, b, a),
{
    lemma_sad_self(a, 0, a.len() as int);
    let n = if a.len() <= b.len() { a.len() as int } else { b.len() as int };
    lemma_sad_symmetric(a, b, 0, n);
}

/// Whether the sum of `|a[i] - b[i]|` over the first `n` positions exceeds
/// `i32::MAX`; the running sum stops as soon as it does.
pub fn sad_exceeds_i32(a: &Vec<u8>, b: &Vec<u8>, n: usize) -> (r: bool)
    requires
        n <= a.len(),
        n <= b.len(),
    ensures
        r == (sad(a@, b@, 0, n as int) > i32::MAX),
{
    let mut sum: u64 = 0;
    let mut i: usize = 0;
    while i < n
        invariant
            n <= a.len(),
            n <= b.len(),
            i <= n,
            sum == sad(a@, b@, 0, i as int),
            sum <= i32::MAX,
        decreases n - i,
    {
        let d: u64 = if a[i] >= b[i] {
            (a[i] - b[i]) as u64
        } else {
            (b[i] - a[i]) as u64
        };
        sum = sum + d;
        i = i + 1;
        if sum > i32::MAX as u64 {
            proof {
                lemma_sad_sub_range(a@, b@, 0, 0, i as int, n as int);
            }
            return true;
        }
    }
    false
}

} // verus!
