use moseiik::l1::{
    get_optimal_l1, l1, l1_generic, l1_neon, l1_x86_avx2, l1_x86_sse2, CpuArch, CpuFeatures,
    L1Kernel,
};
use moseiik::rgb_image::{Rgb, RgbImage};

fn gradient(w: u32, h: u32, dx: u32, dy: u32) -> RgbImage {
    let mut img = RgbImage::new(w, h);
    for y in 0..h {
        for x in 0..w {
            img.put_pixel(x, y, Rgb([(x + dx) as u8, (y + dy) as u8, 0]));
        }
    }
    img
}

fn expected_7x7() -> i32 {
    let mut expected_result: i32 = 0;
    for y in 0..7 {
        for x in 0..7 {
            let pixel1 = [x as u8, y as u8, 0];
            let pixel2 = [(x + 1) as u8, (y + 1) as u8, 0];
            for channel in 0..3 {
                expected_result += (pixel1[channel] as i32 - pixel2[channel] as i32).abs();
            }
        }
    }
    expected_result
}

#[test]
fn unit_test_x86() {
    let img1 = gradient(7, 7, 0, 0);
    let img2 = gradient(7, 7, 1, 1);
    let expected_result = expected_7x7();
    let simd_result = l1_x86_sse2(&img1, &img2);
    assert_eq!(
        simd_result, expected_result,
        "L1 SIMD result ({}) does not match the expected result ({})",
        simd_result, expected_result
    );
}

#[test]
fn unit_test_aarch64() {
    let img1 = gradient(7, 7, 0, 0);
    let img2 = gradient(7, 7, 1, 1);
    let expected_result = expected_7x7();
    let simd_result = l1_neon(&img1, &img2);
    assert_eq!(
        simd_result, expected_result,
        "L1 SIMD result ({}) does not match the expected result ({})",
        simd_result, expected_result
    );
}

#[test]
fn unit_test_generic() {
    let mut img1 = RgbImage::new(2, 2);
    let mut img2 = RgbImage::new(2, 2);

    img1.put_pixel(0, 0, Rgb([10, 20, 30]));
    img1.put_pixel(1, 0, Rgb([40, 50, 60]));
    img1.put_pixel(0, 1, Rgb([70, 80, 90]));
    img1.put_pixel(1, 1, Rgb([100, 110, 120]));

    img2.put_pixel(0, 0, Rgb([5, 15, 25]));
    img2.put_pixel(1, 0, Rgb([35, 45, 55]));
    img2.put_pixel(0, 1, Rgb([65, 75, 85]));
    img2.put_pixel(1, 1, Rgb([95, 105, 115]));

    let expected_result = 5 + 5 + 5 + 5 + 5 + 5 + 5 + 5 + 5 + 5 + 5 + 5;
    let result = l1_generic(&img1, &img2);

    assert_eq!(result, expected_result, "L1 distance (generic) is incorrect");
}

#[test]
fn avx2_kernel_matches_generic_on_7x7() {
    let img1 = gradient(7, 7, 0, 0);
    let img2 = gradient(7, 7, 1, 1);
    assert_eq!(l1_x86_avx2(&img1, &img2), 98);
    assert_eq!(l1_generic(&img1, &img2), 98);
    assert_eq!(l1(&img1, &img2, L1Kernel::Avx2), 98);
    assert_eq!(l1(&img1, &img2, L1Kernel::Generic), 98);
}

#[test]
fn block_kernels_count_every_byte() {
    // 4 x 4 pixels = 48 bytes: a multiple of the 16-byte blocks
    let img1 = RgbImage::new(4, 4);
    let mut img2 = RgbImage::new(4, 4);
    for y in 0..4 {
        for x in 0..4 {
            img2.put_pixel(x, y, Rgb([1, 1, 1]));
        }
    }
    assert_eq!(l1_generic(&img1, &img2), 48);
    assert_eq!(l1_x86_sse2(&img1, &img2), 48);
    assert_eq!(l1_neon(&img1, &img2), 48);
    assert_eq!(l1_x86_avx2(&img1, &img2), 48);
    assert_eq!(l1(&img1, &img2, L1Kernel::Sse2), l1_generic(&img1, &img2));
}

#[test]
fn avx2_counts_every_byte_of_8x8() {
    // 192 bytes: a multiple of the 32-byte blocks
    let img1 = RgbImage::new(8, 8);
    let mut img2 = RgbImage::new(8, 8);
    for y in 0..8 {
        for x in 0..8 {
            img2.put_pixel(x, y, Rgb([1, 1, 1]));
        }
    }
    assert_eq!(l1_x86_avx2(&img1, &img2), 192);
    assert_eq!(l1_generic(&img1, &img2), 192);
}

#[test]
fn block_kernels_on_pictures_smaller_than_a_block() {
    let img1 = gradient(1, 1, 3, 4);
    let img2 = gradient(1, 1, 0, 0);
    assert_eq!(l1_x86_sse2(&img1, &img2), 7);
    assert_eq!(l1_x86_avx2(&img1, &img2), 7);
    assert_eq!(l1_neon(&img1, &img2), 7);
}

#[test]
fn generic_kernel_compares_shared_prefix() {
    let img1 = gradient(1, 1, 9, 9);
    let img2 = gradient(2, 1, 0, 0);
    // only the first pixel is shared: |9-0| + |9-0| + 0
    assert_eq!(l1_generic(&img1, &img2), 18);
    assert_eq!(l1_generic(&img2, &img1), 18);
}

#[test]
fn l1_of_a_picture_with_itself_is_zero() {
    let img = gradient(7, 7, 3, 5);
    assert_eq!(l1_generic(&img, &img), 0);
    assert_eq!(l1_x86_sse2(&img, &img), 0);
    assert_eq!(l1_x86_avx2(&img, &img), 0);
    assert_eq!(l1_neon(&img, &img), 0);
}

#[test]
fn generic_l1_is_symmetric() {
    let img1 = gradient(3, 2, 7, 0);
    let img2 = gradient(3, 2, 0, 4);
    assert_eq!(l1_generic(&img1, &img2), l1_generic(&img2, &img1));
    assert_eq!(l1_generic(&img1, &img2), 7 * 6 + 4 * 6);
}

#[test]
fn optimal_kernel_without_simd_is_generic() {
    for arch in [CpuArch::X86_64, CpuArch::Aarch64, CpuArch::Other] {
        let cpu = CpuFeatures { arch, avx2: true, sse2: true, neon: true };
        let mut sel = None;
        let choice = get_optimal_l1(false, &cpu, &mut sel);
        assert_eq!(choice.kernel, L1Kernel::Generic);
        assert!(!choice.announce);
    }
}

#[test]
fn optimal_kernel_on_x86_64() {
    let cpu = CpuFeatures { arch: CpuArch::X86_64, avx2: true, sse2: true, neon: false };
    let c = get_optimal_l1(true, &cpu, &mut None);
    assert_eq!(c.kernel, L1Kernel::Avx2);
    assert!(c.announce);
    let cpu = CpuFeatures { arch: CpuArch::X86_64, avx2: false, sse2: true, neon: false };
    assert_eq!(get_optimal_l1(true, &cpu, &mut None).kernel, L1Kernel::Sse2);
    let cpu = CpuFeatures { arch: CpuArch::X86_64, avx2: false, sse2: false, neon: false };
    let c = get_optimal_l1(true, &cpu, &mut None);
    assert_eq!(c.kernel, L1Kernel::Generic);
    assert!(c.announce);
}

#[test]
fn optimal_kernel_on_aarch64_and_others() {
    let cpu = CpuFeatures { arch: CpuArch::Aarch64, avx2: false, sse2: false, neon: true };
    let c = get_optimal_l1(true, &cpu, &mut None);
    assert_eq!(c.kernel, L1Kernel::Neon);
    assert!(c.announce);
    let cpu = CpuFeatures { arch: CpuArch::Aarch64, avx2: false, sse2: false, neon: false };
    let c = get_optimal_l1(true, &cpu, &mut None);
    assert_eq!(c.kernel, L1Kernel::Generic);
    assert!(!c.announce);
    let cpu = CpuFeatures { arch: CpuArch::Other, avx2: true, sse2: true, neon: true };
    let c = get_optimal_l1(true, &cpu, &mut None);
    assert_eq!(c.kernel, L1Kernel::Generic);
    assert!(!c.announce);
}

#[test]
fn kernel_is_picked_once_per_run() {
    let cpu = CpuFeatures { arch: CpuArch::X86_64, avx2: true, sse2: true, neon: false };
    let mut sel = None;
    let first = get_optimal_l1(false, &cpu, &mut sel);
    assert_eq!(first.kernel, L1Kernel::Generic);
    assert_eq!(sel, Some(L1Kernel::Generic));
    let later = get_optimal_l1(true, &cpu, &mut sel);
    assert_eq!(later.kernel, L1Kernel::Generic);
    assert!(!later.announce);
    assert_eq!(sel, Some(L1Kernel::Generic));

    let mut sel = None;
    let first = get_optimal_l1(true, &cpu, &mut sel);
    assert_eq!(first.kernel, L1Kernel::Avx2);
    assert!(first.announce);
    let later = get_optimal_l1(false, &cpu, &mut sel);
    assert_eq!(later.kernel, L1Kernel::Avx2);
    assert!(!later.announce);
}

#[test]
fn every_call_returns_a_supported_kernel() {
    // SSE2 without AVX2: each call hands out SSE2, whatever its flag
    let cpu = CpuFeatures { arch: CpuArch::X86_64, avx2: false, sse2: true, neon: false };
    let mut sel = None;
    for flag in [true, false, true, true] {
        assert_eq!(get_optimal_l1(flag, &cpu, &mut sel).kernel, L1Kernel::Sse2);
    }
    // AArch64 without NEON never gets a block kernel
    let cpu = CpuFeatures { arch: CpuArch::Aarch64, avx2: true, sse2: true, neon: false };
    let mut sel = None;
    for flag in [true, true] {
        assert_eq!(get_optimal_l1(flag, &cpu, &mut sel).kernel, L1Kernel::Generic);
    }
}
