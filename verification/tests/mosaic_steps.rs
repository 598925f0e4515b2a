use moseiik::l1::{CpuArch, CpuFeatures, L1Kernel};
use moseiik::mosaic::{
    assemble_mosaic, best_tile, build_mosaic, column_choices, compute_mosaic, prepare_target,
    plan_mosaic, prepare_tiles, MosaicError, Options, Size,
};
use moseiik::rgb_image::{ImageError, Rgb, RgbImage};

fn filled(w: u32, h: u32, v: u8) -> RgbImage {
    let mut img = RgbImage::new(w, h);
    for y in 0..h {
        for x in 0..w {
            img.put_pixel(x, y, Rgb([v, v, v]));
        }
    }
    img
}

/// 4 x 4 target: left half 10, right half 200.
fn halves() -> RgbImage {
    let mut img = RgbImage::new(4, 4);
    for y in 0..4 {
        for x in 0..4 {
            let v = if x < 2 { 10 } else { 200 };
            img.put_pixel(x, y, Rgb([v, v, v]));
        }
    }
    img
}

fn options(tile_size: u32, scaling: u32, remove_used: bool, simd: bool) -> Options {
    Options {
        image: String::from("target.png"),
        output: String::from("out.png"),
        tiles: String::from("tiles"),
        scaling,
        tile_size,
        remove_used,
        verbose: false,
        simd,
        num_thread: 1,
    }
}

fn generic_cpu() -> CpuFeatures {
    CpuFeatures { arch: CpuArch::Other, avx2: false, sse2: false, neon: false }
}

#[test]
fn unit_test_prepare_target() {
    let tile_size = Size { width: 6, height: 6 };
    let scale = 2;
    let mut img = RgbImage::new(10, 10);
    for x in 0..10 {
        for y in 0..10 {
            img.put_pixel(x, y, Rgb([x as u8, y as u8, (x + y) as u8]));
        }
    }
    let prepared_target = prepare_target(img, scale, &tile_size);
    assert_eq!(
        prepared_target.width() % tile_size.width,
        0,
        "Prepared target width is not a multiple of tile size width"
    );
    assert_eq!(
        prepared_target.height() % tile_size.height,
        0,
        "Prepared target height is not a multiple of tile size height"
    );
    assert_eq!(prepared_target.dimensions(), (18, 18));
}

#[test]
fn unit_test_prepare_tiles() {
    let tile_size = Size { width: 5, height: 5 };
    let mut decoded = Vec::new();
    for i in 0..3 {
        let mut img = RgbImage::new(10, 10);
        for x in 0..10 {
            for y in 0..10 {
                img.put_pixel(x, y, Rgb([x as u8, y as u8, i as u8]));
            }
        }
        decoded.push(Some(img));
    }
    let prepared_tiles = prepare_tiles(&decoded, &tile_size);
    assert_eq!(prepared_tiles.len(), 3);
    for tile in prepared_tiles {
        assert_eq!(tile.width(), tile_size.width);
        assert_eq!(tile.height(), tile_size.height);
    }
}

#[test]
fn prepare_target_scales_by_nearest_neighbour() {
    let mut img = RgbImage::new(2, 1);
    img.put_pixel(0, 0, Rgb([1, 2, 3]));
    img.put_pixel(1, 0, Rgb([7, 8, 9]));
    let t = prepare_target(img, 2, &Size { width: 1, height: 1 });
    assert_eq!(t.dimensions(), (4, 2));
    assert_eq!(
        t.as_raw(),
        &vec![1, 2, 3, 1, 2, 3, 7, 8, 9, 7, 8, 9, 1, 2, 3, 1, 2, 3, 7, 8, 9, 7, 8, 9]
    );
}

#[test]
fn prepare_target_crops_to_whole_tiles() {
    let img = halves();
    let t = prepare_target(img, 1, &Size { width: 3, height: 3 });
    assert_eq!(t.dimensions(), (3, 3));
    assert_eq!(t.get_pixel(0, 0).0, [10, 10, 10]);
    assert_eq!(t.get_pixel(2, 2).0, [200, 200, 200]);
}

#[test]
fn unreadable_tile_becomes_empty_picture() {
    let decoded = vec![None, Some(filled(4, 4, 9))];
    let tiles = prepare_tiles(&decoded, &Size { width: 2, height: 2 });
    assert_eq!(tiles[0].dimensions(), (0, 0));
    assert!(tiles[0].as_raw().is_empty());
    assert_eq!(tiles[1].dimensions(), (2, 2));
    assert_eq!(tiles[1].as_raw(), &vec![9u8; 12]);
}

#[test]
fn best_tile_is_first_least_distance() {
    let cell = filled(2, 2, 100);
    let tiles = vec![filled(2, 2, 0), filled(2, 2, 90), filled(2, 2, 110), filled(2, 2, 255)];
    // distances 1200, 120, 120, 1860: the first of the two least wins
    assert_eq!(best_tile(&tiles, &cell, L1Kernel::Generic), 1);
}

#[test]
fn column_choices_read_each_cell() {
    let target = halves();
    let tiles = vec![filled(2, 2, 0), filled(2, 2, 255)];
    let size = Size { width: 2, height: 2 };
    assert_eq!(column_choices(&target, &tiles, &size, 0, L1Kernel::Generic), vec![0, 0]);
    assert_eq!(column_choices(&target, &tiles, &size, 1, L1Kernel::Generic), vec![1, 1]);
}

#[test]
fn assemble_writes_chosen_tiles() {
    let mut target = filled(4, 2, 50);
    let tiles = vec![filled(2, 2, 1), filled(1, 1, 2)];
    let choices = vec![vec![1], vec![0]];
    assemble_mosaic(&mut target, &tiles, &Size { width: 2, height: 2 }, &choices);
    // cell (0, 0): a 1 x 1 tile in its top left corner, the rest unchanged
    assert_eq!(target.get_pixel(0, 0).0, [2, 2, 2]);
    assert_eq!(target.get_pixel(1, 0).0, [50, 50, 50]);
    assert_eq!(target.get_pixel(1, 1).0, [50, 50, 50]);
    // cell (1, 0): the full tile
    assert_eq!(target.get_pixel(2, 0).0, [1, 1, 1]);
    assert_eq!(target.get_pixel(3, 1).0, [1, 1, 1]);
}

#[test]
fn build_mosaic_picks_closest_tiles() {
    let target = halves();
    let tiles = vec![filled(2, 2, 0), filled(2, 2, 255)];
    let m = build_mosaic(target, &tiles, &Size { width: 2, height: 2 }, L1Kernel::Generic);
    for y in 0..4 {
        for x in 0..4 {
            let v = if x < 2 { 0 } else { 255 };
            assert_eq!(m.get_pixel(x, y).0, [v, v, v]);
        }
    }
}

#[test]
fn build_mosaic_leaves_partial_cells() {
    let target = filled(5, 3, 77);
    let tiles = vec![filled(2, 2, 0)];
    let m = build_mosaic(target, &tiles, &Size { width: 2, height: 2 }, L1Kernel::Generic);
    assert_eq!(m.dimensions(), (5, 3));
    assert_eq!(m.get_pixel(3, 1).0, [0, 0, 0]);
    assert_eq!(m.get_pixel(4, 0).0, [77, 77, 77]);
    assert_eq!(m.get_pixel(0, 2).0, [77, 77, 77]);
}

#[test]
fn compute_mosaic_end_to_end() {
    let args = options(2, 1, false, false);
    let decoded = vec![Some(filled(4, 4, 0)), Some(filled(1, 1, 255))];
    let res = compute_mosaic(&args, halves(), &decoded, 2, &generic_cpu(), &mut None);
    let m = match res {
        Ok(m) => m,
        Err(_) => panic!("mosaic failed"),
    };
    assert_eq!(m.dimensions(), (4, 4));
    for y in 0..4 {
        for x in 0..4 {
            let v = if x < 2 { 0 } else { 255 };
            assert_eq!(m.get_pixel(x, y).0, [v, v, v]);
        }
    }
}

#[test]
fn compute_mosaic_with_simd_kernel() {
    // 4 x 4 tiles: 48 bytes, three whole SSE2 blocks
    let args = options(4, 2, false, true);
    let cpu = CpuFeatures { arch: CpuArch::X86_64, avx2: false, sse2: true, neon: false };
    let decoded = vec![Some(filled(1, 1, 30)), Some(filled(1, 1, 200))];
    let res = compute_mosaic(&args, halves(), &decoded, 2, &cpu, &mut None);
    let m = match res {
        Ok(m) => m,
        Err(_) => panic!("mosaic failed"),
    };
    assert_eq!(m.dimensions(), (8, 8));
    assert_eq!(m.get_pixel(0, 0).0, [30, 30, 30]);
    assert_eq!(m.get_pixel(7, 7).0, [200, 200, 200]);
}

#[test]
fn compute_mosaic_refuses_too_few_tiles() {
    let args = options(2, 1, true, false);
    let decoded = vec![Some(filled(2, 2, 0))];
    let res = compute_mosaic(&args, halves(), &decoded, 1, &generic_cpu(), &mut None);
    assert!(matches!(res, Err(MosaicError::NotEnoughTiles { required: 4, available: 1 })));
}

#[test]
fn compute_mosaic_without_tiles() {
    let args = options(2, 1, false, false);
    let decoded: Vec<Option<RgbImage>> = Vec::new();
    let res = compute_mosaic(&args, halves(), &decoded, 0, &generic_cpu(), &mut None);
    assert!(matches!(res, Err(MosaicError::NoTiles)));
}

#[test]
fn compute_mosaic_simd_with_tiles_smaller_than_a_block() {
    // 2 x 2 tiles are 12 bytes, less than one 16-byte SSE2 block
    let args = options(2, 1, false, true);
    let cpu = CpuFeatures { arch: CpuArch::X86_64, avx2: false, sse2: true, neon: false };
    let decoded = vec![Some(filled(2, 2, 0)), Some(filled(2, 2, 255))];
    let mut sel = None;
    let res = compute_mosaic(&args, halves(), &decoded, 2, &cpu, &mut sel);
    assert_eq!(sel, Some(L1Kernel::Sse2));
    let m = match res {
        Ok(m) => m,
        Err(_) => panic!("mosaic failed"),
    };
    assert_eq!(m.get_pixel(0, 0).0, [0, 0, 0]);
    assert_eq!(m.get_pixel(3, 3).0, [255, 255, 255]);
}

#[test]
fn kernel_fault_when_a_distance_exceeds_i32() {
    let n: u32 = 1676;
    let target = RgbImage::from_raw(n, n, vec![255u8; 3 * (n as usize) * (n as usize)]).unwrap();
    let decoded = vec![Some(RgbImage::new(n, n))];
    let args = options(n, 1, false, false);
    let mut sel = None;
    let res = plan_mosaic(&args, target, &decoded, &generic_cpu(), &mut sel);
    assert!(matches!(res, Err(MosaicError::KernelFault)));
    assert_eq!(sel, Some(L1Kernel::Generic));
}

#[test]
fn remove_used_fills_each_cell_with_another_tile() {
    let args = options(2, 1, true, false);
    let decoded = vec![
        Some(filled(2, 2, 0)),
        Some(filled(2, 2, 255)),
        Some(filled(2, 2, 5)),
        Some(filled(2, 2, 250)),
    ];
    let res = compute_mosaic(&args, halves(), &decoded, 4, &generic_cpu(), &mut None);
    let m = match res {
        Ok(m) => m,
        Err(_) => panic!("mosaic failed"),
    };
    // cells in order (0,0), (0,1), (1,0), (1,1)
    assert_eq!(m.get_pixel(0, 0).0, [5, 5, 5]);
    assert_eq!(m.get_pixel(1, 3).0, [0, 0, 0]);
    assert_eq!(m.get_pixel(2, 0).0, [250, 250, 250]);
    assert_eq!(m.get_pixel(3, 3).0, [255, 255, 255]);
}

#[test]
fn without_remove_used_a_tile_fills_many_cells() {
    let args = options(2, 1, false, false);
    let decoded = vec![
        Some(filled(2, 2, 0)),
        Some(filled(2, 2, 255)),
        Some(filled(2, 2, 5)),
        Some(filled(2, 2, 250)),
    ];
    let res = compute_mosaic(&args, halves(), &decoded, 4, &generic_cpu(), &mut None);
    let m = match res {
        Ok(m) => m,
        Err(_) => panic!("mosaic failed"),
    };
    assert_eq!(m.get_pixel(0, 0).0, [5, 5, 5]);
    assert_eq!(m.get_pixel(1, 3).0, [5, 5, 5]);
    assert_eq!(m.get_pixel(2, 0).0, [250, 250, 250]);
    assert_eq!(m.get_pixel(3, 3).0, [250, 250, 250]);
}

#[test]
fn remove_used_needs_a_tile_per_cell() {
    let args = options(2, 1, true, false);
    let decoded = vec![Some(filled(2, 2, 0)), Some(filled(2, 2, 255))];
    let res = compute_mosaic(&args, halves(), &decoded, 10, &generic_cpu(), &mut None);
    assert!(matches!(res, Err(MosaicError::NotEnoughTiles { required: 4, available: 2 })));
}

#[test]
fn no_cell_leaves_the_kernel_unpicked() {
    let args = options(8, 1, false, true);
    let decoded = vec![Some(filled(2, 2, 0))];
    let mut sel = None;
    let res = compute_mosaic(&args, halves(), &decoded, 1, &generic_cpu(), &mut sel);
    assert!(res.is_ok());
    assert_eq!(sel, None);
}

#[test]
fn unreadable_tile_wins_with_generic_kernel() {
    // an unreadable tile has no pixels: distance 0 to every cell, and
    // writing it changes nothing
    let args = options(2, 1, false, false);
    let decoded = vec![Some(filled(2, 2, 10)), None];
    let res = compute_mosaic(&args, halves(), &decoded, 2, &generic_cpu(), &mut None);
    let m = match res {
        Ok(m) => m,
        Err(_) => panic!("mosaic failed"),
    };
    assert_eq!(m.as_raw(), halves().as_raw());
}

#[test]
fn writing_one_cell_keeps_the_others() {
    let mut target = halves();
    let before = target.crop(2, 0, 2, 2);
    assert!(target.copy_from(&filled(2, 2, 1), 0, 0).is_ok());
    let after = target.crop(2, 0, 2, 2);
    assert_eq!(before.as_raw(), after.as_raw());
    assert_eq!(target.crop(0, 0, 2, 2).as_raw(), &vec![1u8; 12]);
}

#[test]
fn copy_from_refuses_what_does_not_fit() {
    let mut target = filled(3, 3, 5);
    let res = target.copy_from(&filled(2, 2, 1), 2, 0);
    assert_eq!(res, Err(ImageError::DimensionMismatch));
    assert_eq!(target.as_raw(), &vec![5u8; 27]);
}

#[test]
fn from_raw_needs_three_bytes_per_pixel() {
    assert!(RgbImage::from_raw(2, 2, vec![0u8; 11]).is_none());
    assert!(RgbImage::from_raw(2, 2, vec![0u8; 13]).is_none());
    let img = RgbImage::from_raw(2, 2, vec![4u8; 12]).unwrap();
    assert_eq!(img.dimensions(), (2, 2));
    assert_eq!(img.into_raw(), vec![4u8; 12]);
}

#[test]
fn crop_copies_a_rectangle() {
    let mut img = RgbImage::new(3, 2);
    img.put_pixel(1, 1, Rgb([1, 2, 3]));
    img.put_pixel(2, 1, Rgb([4, 5, 6]));
    let c = img.crop(1, 1, 2, 1);
    assert_eq!(c.as_raw(), &vec![1, 2, 3, 4, 5, 6]);
}

#[test]
fn tile_already_at_tile_size_is_kept() {
    let mut img = RgbImage::new(2, 2);
    img.put_pixel(0, 0, Rgb([1, 2, 3]));
    img.put_pixel(1, 0, Rgb([4, 5, 6]));
    img.put_pixel(0, 1, Rgb([7, 8, 9]));
    img.put_pixel(1, 1, Rgb([10, 11, 12]));
    let tiles = prepare_tiles(&vec![Some(img)], &Size { width: 2, height: 2 });
    assert_eq!(tiles[0].as_raw(), &vec![1, 2, 3, 4, 5, 6, 7, 8, 9, 10, 11, 12]);
}

#[test]
fn scale_one_only_crops() {
    let mut img = RgbImage::new(3, 2);
    for y in 0..2 {
        for x in 0..3 {
            img.put_pixel(x, y, Rgb([x as u8, y as u8, 7]));
        }
    }
    let t = prepare_target(img, 1, &Size { width: 2, height: 2 });
    assert_eq!(t.dimensions(), (2, 2));
    assert_eq!(t.as_raw(), &vec![0, 0, 7, 1, 0, 7, 0, 1, 7, 1, 1, 7]);
}

/// `v` everywhere but on the bottom row, which is `bottom`.
fn with_bottom_row(w: u32, h: u32, v: u8, bottom: u8) -> RgbImage {
    let mut img = filled(w, h, v);
    for x in 0..w {
        img.put_pixel(x, h - 1, Rgb([bottom, bottom, bottom]));
    }
    img
}

/// 6 x 4 target whose pixels all differ.
fn gradient() -> RgbImage {
    let mut img = RgbImage::new(6, 4);
    for y in 0..4 {
        for x in 0..6 {
            let v = (40 * x + 15 * y) as u8;
            img.put_pixel(x, y, Rgb([v, v / 2, 255 - v]));
        }
    }
    img
}

#[test]
fn mosaic_is_the_same_whatever_the_column_order() {
    let target = gradient();
    let tiles = vec![filled(2, 2, 0), filled(2, 2, 120), filled(2, 2, 240), filled(1, 2, 60)];
    let size = Size { width: 2, height: 2 };
    // columns chosen last to first, as threads may finish them
    let mut choices = vec![Vec::new(), Vec::new(), Vec::new()];
    for w in (0..3).rev() {
        choices[w as usize] = column_choices(&target, &tiles, &size, w, L1Kernel::Generic);
    }
    let mut assembled = gradient();
    assemble_mosaic(&mut assembled, &tiles, &size, &choices);
    let built = build_mosaic(target, &tiles, &size, L1Kernel::Generic);
    assert_eq!(assembled.as_raw(), built.as_raw());
}

#[test]
fn every_kernel_builds_the_same_mosaic() {
    // one 4 x 4 cell (48 bytes: whole blocks of 16 and of 32 plus a rest);
    // the two tiles differ only in the bottom row, inside the last block
    let target = with_bottom_row(4, 4, 100, 0);
    let tiles = vec![filled(4, 4, 100), with_bottom_row(4, 4, 100, 0)];
    let size = Size { width: 4, height: 4 };
    let generic = build_mosaic(target, &tiles, &size, L1Kernel::Generic);
    assert_eq!(generic.get_pixel(0, 3).0, [0, 0, 0]);
    for k in [L1Kernel::Sse2, L1Kernel::Avx2, L1Kernel::Neon] {
        let m = build_mosaic(with_bottom_row(4, 4, 100, 0), &tiles, &size, k);
        assert_eq!(m.as_raw(), generic.as_raw());
    }
}

#[test]
fn runs_differing_in_simd_or_threads_agree() {
    // the 6 x 4 target scaled by 2: six 4 x 4 cells of 48 bytes each
    let decoded = vec![
        Some(filled(4, 4, 100)),
        Some(with_bottom_row(4, 4, 100, 0)),
        Some(filled(2, 2, 30)),
        Some(filled(3, 1, 220)),
        None,
        Some(with_bottom_row(5, 3, 160, 40)),
    ];
    let x86 = CpuFeatures { arch: CpuArch::X86_64, avx2: true, sse2: true, neon: false };
    let arm = CpuFeatures { arch: CpuArch::Aarch64, avx2: false, sse2: false, neon: true };
    for remove_used in [false, true] {
        let base = options(4, 2, remove_used, false);
        let portable = match compute_mosaic(&base, gradient(), &decoded, 6, &generic_cpu(), &mut None) {
            Ok(m) => m,
            Err(_) => panic!("mosaic failed"),
        };
        for cpu in [x86, arm] {
            let mut args = options(4, 2, remove_used, true);
            args.num_thread = 8;
            let m = match compute_mosaic(&args, gradient(), &decoded, 6, &cpu, &mut None) {
                Ok(m) => m,
                Err(_) => panic!("mosaic failed"),
            };
            assert_eq!(m.as_raw(), portable.as_raw());
        }
    }
}
