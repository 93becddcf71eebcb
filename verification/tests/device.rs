//! Runs the kernels' programs thread by thread.

use oxide_forge::cuda::container::Vector;
use oxide_forge::cuda::device::common::random;
use oxide_forge::cuda::device::elementwise::{
    slice_binary_assign_device, slice_binary_device, slice_for_each_device, span_set_device,
};
use oxide_forge::cuda::device::gemm::{
    block_tile, matrix_multiply_batched_strided_device, matrix_multiply_device,
    prefetch_tf32_fragments, swizzled_index, tile_sources, BatchShape, BlockTile, ProductShape,
    ThreadProgram, ThreadStep,
};
use oxide_forge::cuda::device::index::{
    get_block_id, get_global_thread_id, get_global_warp_id, get_grid_stride_1d, get_lane_id,
    get_row_2d, get_col_2d, get_thread_id, get_warp_id, Dim3, ThreadPlace,
};
use oxide_forge::cuda::device::reduction::{
    block_agrees, block_fold, compare_vectors_device, map_reduce_device, sum_rows_device,
    thread_partial, warp_all, warp_reduce, write_result,
};
use oxide_forge::cuda::device::stage::{copy_to, DoubleBuffer};
use oxide_forge::cuda::span::split_spans;

#[test]
fn every_element_is_handled_by_one_thread() {
    let (threads, per_thread) = (7, 3);
    let mut counts: Vec<u32> = vec![0; 20];
    for thread in 0..threads {
        slice_for_each_device(&mut counts, thread, threads, per_thread, |x: u32| x + 1);
    }
    assert_eq!(counts, vec![1; 20]);
}

#[test]
fn a_short_launch_leaves_the_rest_alone() {
    let mut values: Vec<u32> = vec![9; 10];
    for thread in 0..4 {
        span_set_device(&mut values, thread, 4, 2, |i: usize| i as u32);
    }
    assert_eq!(values, vec![0, 1, 2, 3, 4, 5, 6, 7, 9, 9]);
}

#[test]
fn binary_kernels_combine_pairs() {
    let (a, b) = (vec![1u32, 2, 3, 4, 5], vec![10u32, 20, 30, 40, 50]);
    let mut sums = vec![0u32; 5];
    let mut differences = b.clone();
    for thread in 0..3 {
        slice_binary_device(&a, &b, &mut sums, thread, 3, 2, |x: u32, y: u32| x + y);
        slice_binary_assign_device(&mut differences, &a, thread, 3, 2, |x: u32, y: u32| x - y);
    }
    assert_eq!(sums, vec![11, 22, 33, 44, 55]);
    assert_eq!(differences, vec![9, 18, 27, 36, 45]);
}

#[test]
fn a_warp_folds_its_lanes() {
    let lanes: Vec<u32> = (0..32).collect();
    assert_eq!(warp_reduce(&lanes, &|a: u32, b: u32| a + b), 496);
    assert_eq!(warp_reduce(&lanes, &|a: u32, b: u32| a.max(b)), 31);
}

#[test]
fn a_thread_folds_its_range() {
    let values: Vec<u32> = (0..10).collect();
    let double = |x: u32| 2 * x;
    let sum = |a: u32, b: u32| a + b;
    assert_eq!(thread_partial(&values, 1, 4, true, &double, &sum, 0), 2 * (4 + 5 + 6 + 7));
    assert_eq!(thread_partial(&values, 2, 4, false, &double, &sum, 0), 8 + 9);
    assert_eq!(thread_partial(&values, 3, 4, true, &double, &sum, 0), 0);
}

#[test]
fn blocks_fold_everything() {
    let values: Vec<u64> = (0..5000).collect();
    let double = |x: u64| 2 * x;
    let sum = |a: u64, b: u64| a + b;
    let parts: Vec<u64> =
        (0..3).map(|block| block_fold(&values, block, 2, true, &double, &sum, 0)).collect();
    assert_eq!(parts[0], (0..2048u64).map(|x| 2 * x).sum::<u64>());
    assert_eq!(parts.iter().sum::<u64>(), values.iter().map(|x| 2 * x).sum::<u64>());
    assert_eq!(block_fold(&parts, 0, 1, false, &double, &sum, 0), 5000 * 4999);
}

#[test]
fn a_difference_is_found_in_its_block() {
    let a: Vec<u32> = (0..2100).collect();
    let mut b = a.clone();
    b[1500] = 0;
    let same = |x: u32, y: u32| x == y;
    assert!(block_agrees(&a, &b, 1, 0, &same));
    assert!(!block_agrees(&a, &b, 1, 1, &same));
    assert!(block_agrees(&a, &b, 1, 2, &same));
    assert!(warp_all(&vec![true; 32]));
    let mut lanes = vec![true; 32];
    lanes[31] = false;
    assert!(!warp_all(&lanes));
}

#[test]
fn one_block_compares_whole_vectors() {
    let a: Vec<u32> = (0..2100).collect();
    let same = |x: u32, y: u32| x == y;
    assert!(block_agrees(&a, &a, 3, 0, &same));
    for at in [0, 1023, 1024, 1500, 2099] {
        let mut b = a.clone();
        b[at] = 7777;
        assert!(!block_agrees(&a, &b, 3, 0, &same));
    }
    let mut c = a.clone();
    c[2050] = 7777;
    assert!(block_agrees(&a, &c, 2, 0, &same));
    assert!(!block_agrees(&a, &c, 2, 1, &same));
}

#[test]
fn only_the_result_of_the_block_is_written() {
    let mut results = vec![7u32, 8, 9];
    write_result(&mut results, 1, 5);
    assert_eq!(results, vec![7, 5, 9]);
    write_result(&mut results, 3, 5);
    assert_eq!(results, vec![7, 5, 9]);

    let values: Vec<u32> = (0..3000).collect();
    let mut sums = vec![1u32, 2, 3];
    map_reduce_device(&values, &mut sums, 2, 1, false, &|x| x, &|a, b| a + b, 0);
    assert_eq!(sums, vec![1, 2, (2048..3000).sum::<u32>()]);
    map_reduce_device(&values, &mut sums, 0, 1, true, &|x| 2 * x, &|a, b| a + b, 0);
    assert_eq!(sums, vec![1023 * 1024, 2, (2048..3000).sum::<u32>()]);
}

#[test]
fn the_start_is_folded_in_by_every_thread() {
    let sum = |a: u32, b: u32| a + b;
    let none = |x: u32| x;
    let values: Vec<u32> = vec![10, 20, 30];
    assert_eq!(thread_partial(&values, 0, 2, false, &none, &sum, 1), 1 + 10 + 20);
    assert_eq!(thread_partial(&values, 1, 2, false, &none, &sum, 1), 1 + 30 + 1);
    assert_eq!(thread_partial(&values, 9, 2, false, &none, &sum, 1), 1 + 1 + 1);
    let neutral = block_fold(&values, 0, 1, false, &none, &sum, 0);
    assert_eq!(neutral, 60);
    assert_eq!(block_fold(&values, 0, 1, false, &none, &sum, 1), 1024 + 60 + (1024 - 3));
}

#[test]
fn a_block_adds_up_its_row() {
    let (rows, cols) = (3usize, 1500usize);
    let matrix: Vec<u32> = (0..(rows * cols) as u32).collect();
    let mut sums = vec![0u32; rows];
    for row in 0..rows {
        sum_rows_device(&matrix, &mut sums, cols, 2, row, &|x| x, &|a, b| a + b, 0);
    }
    let expected: Vec<u32> =
        (0..rows).map(|r| matrix[r * cols..(r + 1) * cols].iter().sum()).collect();
    assert_eq!(sums, expected);
}

#[test]
fn a_comparison_is_written_as_one_or_zero() {
    let a: Vec<u32> = (0..2100).collect();
    let mut b = a.clone();
    b[1500] = 0;
    let same = |x: u32, y: u32| x == y;
    let mut results = vec![9u32; 4];
    for block in 0..3 {
        compare_vectors_device(&a, &b, 1, &mut results, block, &same);
    }
    assert_eq!(results, vec![1, 0, 1, 9]);
    assert!(Vector::agreed(results[0]));
    assert!(!Vector::agreed(results[1]));
}

#[test]
fn threads_know_their_place() {
    let place = ThreadPlace {
        grid: Dim3 { x: 3, y: 2, z: 1 },
        block: Dim3 { x: 32, y: 8, z: 1 },
        block_at: Dim3 { x: 1, y: 1, z: 0 },
        thread_at: Dim3 { x: 5, y: 2, z: 0 },
    };
    assert_eq!(get_thread_id(place), 69);
    assert_eq!(get_lane_id(place), 5);
    assert_eq!(get_warp_id(place), 2);
    assert_eq!(get_block_id(place), 4);
    assert_eq!(get_global_thread_id(place), 4 * 256 + 69);
    assert_eq!(get_global_warp_id(place), 4 * 8 + 2);
    assert_eq!(get_row_2d(place), 8 + 2);
    assert_eq!(get_col_2d(place), 32 + 5);
    assert_eq!(get_grid_stride_1d(place), 96);
}

#[test]
fn random_numbers_differ() {
    let values: Vec<u32> = (1..100).map(random).collect();
    let mut distinct = values.clone();
    distinct.sort();
    distinct.dedup();
    assert_eq!(distinct.len(), values.len());
}

#[test]
fn stages_alternate() {
    let mut stages = DoubleBuffer::initialize();
    assert_eq!((stages.current(), stages.writable()), (0, 1));
    stages.advance();
    assert_eq!((stages.current(), stages.writable()), (1, 0));
}

#[test]
fn copies_cover_all_bytes_and_read_only_valid_ones() {
    let chunks = copy_to(4, 5, 7);
    let sizes: Vec<(usize, usize, usize)> =
        chunks.iter().map(|chunk| (chunk.offset, chunk.bytes, chunk.readable)).collect();
    assert_eq!(sizes, vec![(0, 16, 16), (16, 8, 4), (24, 4, 0)]);
}

#[test]
fn swizzled_places_are_all_different() {
    let mut seen = vec![false; 256];
    for row in 0..16 {
        for col in 0..16 {
            let place = swizzled_index(row, col);
            assert!(!seen[place]);
            seen[place] = true;
        }
    }
    assert_eq!(swizzled_index(0, 5), 5);
    assert_eq!(swizzled_index(1, 0), 20);
}

#[test]
fn blocks_beyond_the_result_have_no_tile() {
    let shape = ProductShape { inner: 16, rows: 48, cols: 32, a_row_stride: 16, b_row_stride: 32 };
    assert_eq!(
        block_tile(shape, 2, 3),
        Some(BlockTile { batch: 1, block_row: 1, block_col: 0 })
    );
    assert_eq!(block_tile(shape, 2, 4), None);
}

/// One block's shared memory and registers.
struct Block {
    a: Vec<Vec<i64>>,
    b: Vec<Vec<i64>>,
    registers: Vec<[[i64; 4]; 2]>,
}

/// Runs all programs of a launch in lockstep and returns how often each place of
/// the result was written.
fn run(
    programs: &[Option<ThreadProgram>],
    a: &[i64],
    b: &[i64],
    result: &mut [i64],
    writes: &mut [u32],
) {
    for block in programs.chunks(128) {
        if block[0].is_none() {
            assert!(block.iter().all(|program| program.is_none()));
            continue;
        }
        let longest =
            block.iter().map(|program| program.as_ref().unwrap().steps.len()).max().unwrap();
        let mut state = Block {
            a: vec![vec![i64::MIN; 512]; 2],
            b: vec![vec![i64::MIN; 512]; 2],
            registers: vec![[[0; 4]; 2]; 128],
        };
        for step in 0..longest {
            let mut multiplied: Vec<(usize, usize, usize, usize, usize)> = Vec::new();
            for (thread, program) in block.iter().enumerate() {
                let program = program.as_ref().unwrap();
                if step >= program.steps.len() {
                    continue;
                }
                match program.steps[step] {
                    ThreadStep::Load { stage, sources } => {
                        for i in 0..4 {
                            let at = sources.destination + i;
                            state.a[stage][at] = if i < sources.a_valid {
                                a[program.a_base + sources.a + i]
                            } else {
                                0
                            };
                            state.b[stage][at] = if i < sources.b_valid {
                                b[program.b_base + sources.b + i]
                            } else {
                                0
                            };
                        }
                    }
                    ThreadStep::Commit | ThreadStep::Wait => {}
                    ThreadStep::Multiply { stage, a_tile, b_tile, k_offset } => {
                        multiplied.push((thread, stage, a_tile, b_tile, k_offset));
                    }
                    ThreadStep::Write { position, register, right } => {
                        result[position] = state.registers[thread][right as usize][register];
                        writes[position] += 1;
                    }
                }
            }
            for warp in multiplied.chunks(32) {
                multiply(&mut state, warp);
            }
        }
    }
}

/// One warp's product of a 16 by 8 and two 8 by 8 slices.
fn multiply(state: &mut Block, warp: &[(usize, usize, usize, usize, usize)]) {
    let mut left = [[i64::MIN; 8]; 16];
    let mut right = [[i64::MIN; 16]; 8];
    for (lane, (_, stage, a_tile, b_tile, k_offset)) in warp.iter().enumerate() {
        let places = prefetch_tf32_fragments(*k_offset, lane);
        for register in 0..4 {
            left[lane / 4 + 8 * (register % 2)][lane % 4 + 4 * (register / 2)] =
                state.a[*stage][a_tile + places.a[register]];
        }
        for half in 0..2 {
            right[lane % 4 + 4 * half][lane / 4] =
                state.b[*stage][b_tile + places.b_left[half]];
            right[lane % 4 + 4 * half][8 + lane / 4] =
                state.b[*stage][b_tile + places.b_right[half]];
        }
    }
    for (lane, (thread, ..)) in warp.iter().enumerate() {
        for side in 0..2 {
            for register in 0..4 {
                let row = lane / 4 + 8 * (register / 2);
                let col = 2 * (lane % 4) + register % 2 + 8 * side;
                let sum: i64 = (0..8).map(|k| left[row][k] * right[k][col]).sum();
                state.registers[*thread][side][register] += sum;
            }
        }
    }
}

fn naive(a: &[i64], b: &[i64], rows: usize, inner: usize, cols: usize) -> Vec<i64> {
    let mut result = vec![0; rows * cols];
    for row in 0..rows {
        for col in 0..cols {
            result[row * cols + col] =
                (0..inner).map(|k| a[row * inner + k] * b[k * cols + col]).sum();
        }
    }
    result
}

fn sample(len: usize, seed: i64) -> Vec<i64> {
    (0..len as i64).map(|i| (i * 37 + seed * 11) % 23 - 11).collect()
}

#[test]
fn the_product_kernel_multiplies() {
    for (rows, inner, cols) in [(32, 32, 32), (16, 16, 16), (48, 80, 64), (64, 48, 16)] {
        let (a, b) = (sample(rows * inner, 1), sample(inner * cols, 2));
        let blocks = ((rows + 31) / 32) * ((cols + 31) / 32);
        let programs: Vec<Option<ThreadProgram>> = (0..(blocks + 1) * 128)
            .map(|i| matrix_multiply_device(inner, rows, cols, i / 128, i % 128))
            .collect();
        let mut result = vec![0; rows * cols];
        let mut writes = vec![0; rows * cols];
        run(&programs, &a, &b, &mut result, &mut writes);
        assert_eq!(result, naive(&a, &b, rows, inner, cols));
        assert_eq!(writes, vec![1; rows * cols]);
    }
}

#[test]
fn the_batched_kernel_multiplies_at_its_strides() {
    let (rows, inner, cols, batches) = (16, 32, 16, 3);
    let shape = ProductShape { inner, rows, cols, a_row_stride: 40, b_row_stride: 16 };
    let layout = BatchShape {
        batch_count: batches,
        a_offset: 8,
        a_batch_stride: 700,
        b_offset: 4,
        b_batch_stride: 600,
        result_offset: 3,
        result_row_stride: 20,
        result_batch_stride: 330,
    };
    let a = sample(8 + 3 * 700, 3);
    let b = sample(4 + 3 * 600, 4);
    let programs: Vec<Option<ThreadProgram>> = (0..batches * 128)
        .map(|i| matrix_multiply_batched_strided_device(shape, layout, i / 128, i % 128))
        .collect();
    let mut result = vec![0; 3 + 3 * 330];
    let mut writes = vec![0; 3 + 3 * 330];
    run(&programs, &a, &b, &mut result, &mut writes);
    for batch in 0..batches {
        for row in 0..rows {
            for col in 0..cols {
                let expected: i64 = (0..inner)
                    .map(|k| {
                        a[8 + batch * 700 + row * 40 + k] * b[4 + batch * 600 + k * 16 + col]
                    })
                    .sum();
                assert_eq!(result[3 + batch * 330 + row * 20 + col], expected);
            }
        }
    }
    assert_eq!(writes.iter().sum::<u32>() as usize, batches * rows * cols);
}

#[test]
fn loads_outside_the_operands_read_nothing() {
    let shape = ProductShape { inner: 16, rows: 16, cols: 16, a_row_stride: 16, b_row_stride: 16 };
    let mut read = 0;
    for thread in 0..128 {
        let sources = tile_sources(shape, 0, 0, 0, thread);
        read += sources.a_valid;
    }
    assert_eq!(read, 256);
}

#[test]
fn chunks_cover_a_span() {
    assert_eq!(split_spans(3, 10, 4), vec![(3, 4), (7, 4), (11, 2)]);
    assert_eq!(split_spans(3, 8, 4), vec![(3, 4), (7, 4)]);
    assert!(split_spans(3, 0, 4).is_empty());
}
