//! Runs recorded commands on a host machine and checks the numbers.

use oxide_forge::cuda::command::{Command, DeviceSliceDescriptor, Kernel, MatrixBatchDescriptor};
use oxide_forge::cuda::container::{Matrix, Vector};
use oxide_forge::cuda::device::common::random;
use oxide_forge::cuda::device::reduction::{map_reduce_device, sum_rows_device};
use oxide_forge::cuda::ops::{BinaryFn, InitFn, MapFn, RowFn};
use oxide_forge::cuda::runtime::{CudaRuntime, InitType};
use oxide_forge::cuda::scalar::{Scalar, F32};
use oxide_forge::graph::builder::{BranchBuilder, GraphBuilder};
use oxide_forge::graph::compile::{Branch, Graph, InitConfig, Step};
use oxide_forge::graph::config::{LearnConfig, MatrixConfig};
use oxide_forge::graph::graph_node::{GraphNode, TrainingNode};
use oxide_forge::graph::node::Node;
use oxide_forge::graph::schedule::{LearningRateScheduler, Rate};
use oxide_forge::net::linear::{Activation, Linear, LinearConfig, LinearTrainingNode};
use oxide_forge::net::loss::Loss;
use oxide_forge::net::metadata::{HostData, HostDataCursor, HostRead, MetadataCursor};
use oxide_forge::net::mlp::training::TrainingMlp;
use oxide_forge::net::mlp::InferenceMLP;
use oxide_forge::net::node::{
    BinaryNode, BinaryOp, ConcatNode, FanOutMode, FanOutNode, MatrixAxis, RowReduceNode,
    RowReduction, SingleNode, SingleType, SplitNode, TrainingBinaryNode, TrainingConcatNode,
    TrainingFanOutNode, TrainingRowReduceNode, TrainingSingleNode, TrainingSplitNode,
};
use oxide_forge::net::swiglu::Swiglu;
use oxide_forge::net::transformer::inference::{
    InferenceDecoder, InferenceEncoder, InferenceTransformer,
};
use oxide_forge::net::transformer::position::PositionEncoding;
use oxide_forge::net::transformer::training::TrainingTransformer;
use oxide_forge::net::transformer::NormType;

fn f(value: f32) -> F32 {
    F32 { bits: value.to_bits() }
}

fn number(value: F32) -> f32 {
    f32::from_bits(value.bits)
}

fn bits(values: &[f32]) -> Vec<F32> {
    values.iter().map(|value| f(*value)).collect()
}

fn sigmoid(x: f32) -> f32 {
    if x >= 0.0 {
        1.0 / (1.0 + (-x).exp())
    } else {
        let e = x.exp();
        e / (1.0 + e)
    }
}

fn softplus(x: f32) -> f32 {
    x.max(0.0) + (1.0 + (-x.abs()).exp()).ln()
}

fn activate(activation: Activation, x: f32) -> f32 {
    match activation {
        Activation::Identity => x,
        Activation::Gelu => {
            let inner = 0.797_884_6 * (x + 0.044_715 * x * x * x);
            0.5 * x * (1.0 + inner.tanh())
        }
        Activation::Relu => x.max(0.0),
        Activation::Silu => x * sigmoid(x),
        Activation::Sigmoid => sigmoid(x),
    }
}

fn slope(activation: Activation, x: f32) -> f32 {
    match activation {
        Activation::Identity => 1.0,
        Activation::Gelu => {
            let inner = 0.797_884_6 * (x + 0.044_715 * x * x * x);
            let t = inner.tanh();
            0.5 * (1.0 + t)
                + 0.5 * x * (1.0 - t * t) * (0.797_884_6 + 0.797_884_6 * 3.0 * 0.044_715 * x * x)
        }
        Activation::Relu => {
            if x > 0.0 {
                1.0
            } else {
                0.0
            }
        }
        Activation::Silu => sigmoid(x) + x * sigmoid(x) * (1.0 - sigmoid(x)),
        Activation::Sigmoid => sigmoid(x) * (1.0 - sigmoid(x)),
    }
}

fn apply_row(f: RowFn, row: &[f32], at: usize) -> Vec<f32> {
    let n = row.len() as f32;
    match f {
        RowFn::Softmax => {
            let top = row.iter().cloned().fold(f32::NEG_INFINITY, f32::max);
            let powers: Vec<f32> = row.iter().map(|x| (x - top).exp()).collect();
            let sum: f32 = powers.iter().sum();
            powers.iter().map(|x| x / sum).collect()
        }
        RowFn::LayerNorm(epsilon) => {
            let mean = row.iter().sum::<f32>() / n;
            let variance = row.iter().map(|x| (x - mean) * (x - mean)).sum::<f32>() / n;
            let scale = 1.0 / (variance + number(epsilon)).sqrt();
            row.iter().map(|x| (x - mean) * scale).collect()
        }
        RowFn::RmsNorm(epsilon) => {
            let mean = row.iter().map(|x| x * x).sum::<f32>() / n;
            let scale = 1.0 / (mean + number(epsilon)).sqrt();
            row.iter().map(|x| x * scale).collect()
        }
        RowFn::CausalMask(period) => row
            .iter()
            .enumerate()
            .map(|(col, x)| if col > at % period { f32::NEG_INFINITY } else { *x })
            .collect(),
        RowFn::Rope => {
            let mut result = row.to_vec();
            for pair in 0..row.len() / 2 {
                let angle = at as f32 / 10000f32.powf(2.0 * pair as f32 / n);
                let (x, y) = (row[2 * pair], row[2 * pair + 1]);
                result[2 * pair] = x * angle.cos() - y * angle.sin();
                result[2 * pair + 1] = x * angle.sin() + y * angle.cos();
            }
            result
        }
    }
}

/// The gradient by differences, which is enough for checking.
fn row_gradient(f: RowFn, input: &[f32], gradient: &[f32]) -> Vec<f32> {
    match f {
        // The retained row is the output here.
        RowFn::Softmax => {
            let dot: f32 = input.iter().zip(gradient).map(|(p, g)| p * g).sum();
            input.iter().zip(gradient).map(|(p, g)| p * (g - dot)).collect()
        }
        _ => (0..input.len())
            .map(|i| {
                let h = 1e-2;
                let (mut up, mut down) = (input.to_vec(), input.to_vec());
                up[i] += h;
                down[i] -= h;
                let (up, down) = (apply_row(f, &up, 0), apply_row(f, &down, 0));
                (0..input.len()).map(|k| gradient[k] * (up[k] - down[k]) / (2.0 * h)).sum()
            })
            .collect(),
    }
}

/// A machine that runs commands in order.
struct Machine {
    memory: Vec<Vec<f32>>,
    downloads: Vec<Vec<f32>>,
    launches: usize,
}

impl Machine {
    fn new() -> Machine {
        Machine { memory: Vec::new(), downloads: Vec::new(), launches: 0 }
    }

    fn read(&self, d: DeviceSliceDescriptor) -> Vec<f32> {
        self.memory[d.buffer][d.offset..d.offset + d.len].to_vec()
    }

    fn write(&mut self, d: DeviceSliceDescriptor, values: &[f32]) {
        self.memory[d.buffer][d.offset..d.offset + d.len].copy_from_slice(values);
    }

    fn scalar(&self, value: &Scalar) -> f32 {
        match value {
            Scalar::Literal(value) => number(*value),
            Scalar::Count(n) => *n as f32,
            Scalar::Reciprocal(n) => 1.0 / *n as f32,
            Scalar::InverseRoot(n) => 1.0 / (*n as f32).sqrt(),
            Scalar::Downloaded(n) => self.downloads[*n][0],
            Scalar::Sum(a, b) => self.scalar(a) + self.scalar(b),
            Scalar::Difference(a, b) => self.scalar(a) - self.scalar(b),
            Scalar::Product(a, b) => self.scalar(a) * self.scalar(b),
            Scalar::Quotient(a, b) => self.scalar(a) / self.scalar(b),
            Scalar::Power(a, b) => self.scalar(a).powf(self.scalar(b)),
        }
    }

    fn map(&self, f: &MapFn, x: f32) -> f32 {
        match f {
            MapFn::Identity => x,
            MapFn::Scale(value) => x * self.scalar(value),
            MapFn::Shift(value) => x + self.scalar(value),
            MapFn::ExpShifted(value) => (x - self.scalar(value)).exp(),
            MapFn::Threshold(value) => {
                if x >= number(*value) {
                    1.0
                } else {
                    0.0
                }
            }
            MapFn::Sigmoid => sigmoid(x),
            MapFn::Activate(activation) => activate(*activation, x),
            MapFn::Slope(activation) => slope(*activation, x),
            MapFn::HalfSquare => 0.5 * x * x,
            MapFn::Softplus => softplus(x),
            MapFn::WeightedSoftplusOfNegative(value) => self.scalar(value) * softplus(-x),
            MapFn::Custom(_) => unreachable!(),
        }
    }

    fn batch_at(d: MatrixBatchDescriptor, batch: usize, row: usize, col: usize) -> usize {
        d.offset + batch * d.batch_stride + row * d.row_stride + col
    }

    fn launch(&mut self, kernel: Kernel) {
        self.launches += 1;
        match kernel {
            Kernel::SpanSet { target, f, .. } => {
                let values: Vec<f32> = (0..target.len)
                    .map(|i| match f {
                        InitFn::Sequence => i as f32,
                        InitFn::Reverse(len) => (len - i) as f32,
                        InitFn::Zero => 0.0,
                        InitFn::Random(draw) => {
                            let word = (i as u32 + 1).wrapping_mul(draw as u32 + 2_654_435_761);
                            random(word) as f32 / u32::MAX as f32
                        }
                    })
                    .collect();
                self.write(target, &values);
            }
            Kernel::SliceForEach { target, f, .. } => {
                let values: Vec<f32> =
                    self.read(target).into_iter().map(|x| self.map(&f, x)).collect();
                self.write(target, &values);
            }
            Kernel::SliceBinary { lhs, rhs, output, f, .. } => {
                let (a, b) = (self.read(lhs), self.read(rhs));
                let values: Vec<f32> = (0..output.len).map(|i| combine(f, a[i], b[i])).collect();
                self.write(output, &values);
            }
            Kernel::SliceBinaryAssign { target, rhs, f, .. } => {
                let (a, b) = (self.read(target), self.read(rhs));
                let values: Vec<f32> = (0..target.len).map(|i| combine(f, a[i], b[i])).collect();
                self.write(target, &values);
            }
            Kernel::BinaryAssignByRows { matrix, row, cols, f } => {
                let (a, b) = (self.read(matrix), self.read(row));
                let values: Vec<f32> =
                    (0..matrix.len).map(|i| combine(f, a[i], b[i % cols])).collect();
                self.write(matrix, &values);
            }
            Kernel::MapReduce { source, result, elements_per_thread, map, reduce, identity } => {
                let mut folded = self.read(result);
                map_reduce_device(
                    &self.read(source),
                    &mut folded,
                    0,
                    elements_per_thread,
                    true,
                    &|x| self.map(&map, x),
                    &|x, y| combine(reduce, x, y),
                    number(identity),
                );
                self.write(result, &folded);
            }
            Kernel::ZipMapReduce {
                lhs,
                rhs,
                result,
                elements_per_thread,
                map,
                reduce,
                identity,
            } => {
                let (a, b) = (self.read(lhs), self.read(rhs));
                let pairs: Vec<f32> = (0..a.len()).map(|i| combine(map, a[i], b[i])).collect();
                let mut folded = self.read(result);
                map_reduce_device(
                    &pairs,
                    &mut folded,
                    0,
                    elements_per_thread,
                    false,
                    &|x| x,
                    &|x, y| combine(reduce, x, y),
                    number(identity),
                );
                self.write(result, &folded);
            }
            Kernel::SumRows { matrix, result, cols, elements_per_thread } => {
                let a = self.read(matrix);
                let mut sums = self.read(result);
                for row in 0..result.len {
                    sum_rows_device(
                        &a,
                        &mut sums,
                        cols,
                        elements_per_thread,
                        row,
                        &|x| x,
                        &|x, y| x + y,
                        0.0,
                    );
                }
                self.write(result, &sums);
            }
            Kernel::RowAssign { matrix, cols, f } => {
                let a = self.read(matrix);
                let values: Vec<f32> =
                    a.chunks(cols).enumerate().flat_map(|(r, row)| apply_row(f, row, r)).collect();
                self.write(matrix, &values);
            }
            Kernel::RowGradient { input, gradient, result, cols, f } => {
                let (a, g) = (self.read(input), self.read(gradient));
                let values: Vec<f32> = a
                    .chunks(cols)
                    .zip(g.chunks(cols))
                    .flat_map(|(row, gradient)| row_gradient(f, row, gradient))
                    .collect();
                self.write(result, &values);
            }
            Kernel::Multiply { lhs, rhs, result, inner, rows, cols } => {
                let values = product(&self.read(lhs), &self.read(rhs), rows, inner, cols);
                self.write(result, &values);
            }
            Kernel::MultiplyBatched { lhs, rhs, result } => {
                for batch in 0..result.batches {
                    for row in 0..result.rows {
                        for col in 0..result.cols {
                            let value: f32 = (0..lhs.cols)
                                .map(|k| {
                                    self.memory[lhs.buffer][Self::batch_at(lhs, batch, row, k)]
                                        * self.memory[rhs.buffer]
                                            [Self::batch_at(rhs, batch, k, col)]
                                })
                                .sum();
                            self.memory[result.buffer][Self::batch_at(result, batch, row, col)] =
                                value;
                        }
                    }
                }
            }
            Kernel::Transpose { input, output, rows, cols } => {
                let a = self.read(input);
                let values: Vec<f32> =
                    (0..rows * cols).map(|i| a[(i % rows) * cols + i / rows]).collect();
                self.write(output, &values);
            }
            Kernel::TransposeBatches { input, output, rows, cols, batches } => {
                let a = self.read(input);
                let size = rows * cols;
                let values: Vec<f32> = (0..batches * size)
                    .map(|i| {
                        let inner = i % size;
                        a[(i / size) * size + (inner % rows) * cols + inner / rows]
                    })
                    .collect();
                self.write(output, &values);
            }
            Kernel::CompareVectors { lhs, rhs, result, .. } => {
                let same = self.read(lhs) == self.read(rhs);
                self.write(result, &[if same { 1.0 } else { 0.0 }]);
            }
        }
    }

    fn run(&mut self, runtime: &mut CudaRuntime) {
        for command in runtime.take_pending() {
            match command {
                Command::Allocate { buffer, len } => {
                    assert_eq!(buffer, self.memory.len());
                    self.memory.push(vec![f32::NAN; len]);
                }
                Command::Free { buffer } => self.memory[buffer] = Vec::new(),
                Command::Zero { buffer, .. } => {
                    self.memory[buffer].iter_mut().for_each(|x| *x = 0.0)
                }
                Command::Upload { buffer, values, .. } => {
                    self.memory[buffer] = values.iter().map(|x| number(*x)).collect()
                }
                Command::Copy { source, target, .. } => {
                    let values = self.read(source);
                    self.write(target, &values);
                }
                Command::Download { buffer, .. } => {
                    self.downloads.push(self.memory[buffer].clone())
                }
                Command::Launch { kernel, .. } => self.launch(kernel),
                Command::Wait { .. } | Command::Fork { .. } | Command::Synchronize { .. } => {}
            }
        }
    }

    fn matrix(&mut self, matrix: &Matrix, runtime: &mut CudaRuntime) -> Vec<f32> {
        self.run(runtime);
        let values = self.memory[matrix.buffer.id].clone();
        assert_eq!(values.len(), matrix.rows * matrix.cols);
        values
    }

    fn vector(&mut self, vector: &Vector, runtime: &mut CudaRuntime) -> Vec<f32> {
        let download = vector.to_host(runtime, None);
        self.run(runtime);
        self.downloads[download].clone()
    }
}

fn combine(f: BinaryFn, a: f32, b: f32) -> f32 {
    match f {
        BinaryFn::Add => a + b,
        BinaryFn::Sub => a - b,
        BinaryFn::Mul => a * b,
        BinaryFn::Div => a / b,
        BinaryFn::Max => a.max(b),
        BinaryFn::Custom(_) => unreachable!(),
    }
}

fn product(a: &[f32], b: &[f32], rows: usize, inner: usize, cols: usize) -> Vec<f32> {
    let mut result = vec![0.0; rows * cols];
    for row in 0..rows {
        for col in 0..cols {
            result[row * cols + col] =
                (0..inner).map(|k| a[row * inner + k] * b[k * cols + col]).sum();
        }
    }
    result
}

fn transposed(a: &[f32], rows: usize, cols: usize) -> Vec<f32> {
    (0..rows * cols).map(|i| a[(i % rows) * cols + i / rows]).collect()
}

/// Small numbers of both signs that differ from one another.
fn sample(len: usize, seed: usize) -> Vec<f32> {
    (0..len).map(|i| (((i * 37 + seed * 101) % 83) as f32 - 41.0) / 60.0).collect()
}

fn upload(values: &[f32], rows: usize, cols: usize, runtime: &mut CudaRuntime) -> Matrix {
    runtime.matrix_from_host(&bits(values), rows, cols, None)
}

fn close(a: &[f32], b: &[f32]) {
    close_within(a, b, 1e-4);
}

fn close_within(a: &[f32], b: &[f32], tolerance: f32) {
    assert_eq!(a.len(), b.len());
    for i in 0..a.len() {
        assert!(
            (a[i] - b[i]).abs() <= tolerance * (1.0 + b[i].abs()),
            "at {}: {} and {}",
            i,
            a[i],
            b[i]
        );
    }
}

#[test]
fn span_set_initializers_preserve_values() {
    let mut runtime = CudaRuntime::new();
    let mut machine = Machine::new();

    let sequence = runtime.new_vector(InitType::Sequence, 5, None);
    assert_eq!(machine.vector(&sequence, &mut runtime), vec![0.0, 1.0, 2.0, 3.0, 4.0]);

    let reverse = runtime.new_vector(InitType::Reverse, 5, None);
    assert_eq!(machine.vector(&reverse, &mut runtime), vec![5.0, 4.0, 3.0, 2.0, 1.0]);

    let zero = runtime.new_vector(InitType::Zero, 5, None);
    assert_eq!(machine.vector(&zero, &mut runtime), vec![0.0; 5]);

    let random = runtime.new_vector(InitType::Random, 64, None);
    assert!(machine
        .vector(&random, &mut runtime)
        .into_iter()
        .all(|value| (0.0..=1.0).contains(&value)));
}

#[test]
fn elementwise_operations_give_the_numbers() {
    let mut runtime = CudaRuntime::new();
    let mut machine = Machine::new();
    let a = upload(&[1.0, 2.0, 3.0, 4.0, 5.0, 6.0], 2, 3, &mut runtime);
    let b = upload(&[6.0, 5.0, 4.0, 3.0, 2.0, 1.0], 2, 3, &mut runtime);
    let sum = runtime.matrix_add(&a, &b, None);
    assert_eq!(machine.matrix(&sum, &mut runtime), vec![7.0; 6]);
    let difference = runtime.matrix_sub(&a, &b, None);
    assert_eq!(machine.matrix(&difference, &mut runtime), vec![-5.0, -3.0, -1.0, 1.0, 3.0, 5.0]);
    let product = runtime.matrix_mul(&a, &b, None);
    assert_eq!(machine.matrix(&product, &mut runtime), vec![6.0, 10.0, 12.0, 12.0, 10.0, 6.0]);
    let quotient = runtime.matrix_div(&a, &b, None);
    close(&machine.matrix(&quotient, &mut runtime), &[1.0 / 6.0, 0.4, 0.75, 4.0 / 3.0, 2.5, 6.0]);
    let mut scaled = runtime.clone_matrix(&a, None);
    scaled.scale(Scalar::Literal(f(2.0)), &mut runtime, None);
    scaled.add_scalar(Scalar::Literal(f(-1.0)), &mut runtime, None);
    assert_eq!(machine.matrix(&scaled, &mut runtime), vec![1.0, 3.0, 5.0, 7.0, 9.0, 11.0]);
    scaled.scale(Scalar::Literal(f(0.125)), &mut runtime, None);
    scaled.threshold(f(0.625), &mut runtime, None);
    assert_eq!(machine.matrix(&scaled, &mut runtime), vec![0.0, 0.0, 1.0, 1.0, 1.0, 1.0]);
    assert_eq!(machine.matrix(&a, &mut runtime), vec![1.0, 2.0, 3.0, 4.0, 5.0, 6.0]);
}

#[test]
fn reductions_give_the_numbers() {
    let mut runtime = CudaRuntime::new();
    let mut machine = Machine::new();
    let a = upload(&[1.0, -2.0, 3.0, 4.0, -5.0, 6.0], 2, 3, &mut runtime);
    let sum = a.sum(&mut runtime, None);
    let max = a.max(&mut runtime, None);
    machine.run(&mut runtime);
    assert_eq!(machine.scalar(&sum), 7.0);
    assert_eq!(machine.scalar(&max), 6.0);
    let rows = runtime.matrix_sum_rows(&a, None);
    assert_eq!(machine.vector(&rows, &mut runtime), vec![2.0, 5.0]);
    let x = runtime.vector_from_host(&bits(&[1.0, 2.0, 3.0]), None);
    let y = runtime.vector_from_host(&bits(&[4.0, -5.0, 6.0]), None);
    let dot = x.dot(&y, &mut runtime, None);
    machine.run(&mut runtime);
    assert_eq!(machine.scalar(&dot), 12.0);
    let same = x.equals(&x, &mut runtime, None);
    let other = x.equals(&y, &mut runtime, None);
    machine.run(&mut runtime);
    assert_eq!(machine.downloads[same], vec![1.0]);
    assert_eq!(machine.downloads[other], vec![0.0]);
}

#[test]
fn softmax_of_a_vector_sums_to_one() {
    let mut runtime = CudaRuntime::new();
    let mut machine = Machine::new();
    let mut x = runtime.vector_from_host(&bits(&[1.0, 2.0, 3.0]), None);
    x.softmax(&mut runtime, None);
    let values = machine.vector(&x, &mut runtime);
    close(&values, &[0.09003057, 0.24472847, 0.66524096]);
}

#[test]
fn transposes_slices_and_joins_give_the_numbers() {
    let mut runtime = CudaRuntime::new();
    let mut machine = Machine::new();
    let a = upload(&[1.0, 2.0, 3.0, 4.0, 5.0, 6.0], 2, 3, &mut runtime);
    let t = runtime.matrix_transpose(&a, None);
    assert_eq!((t.rows, t.cols), (3, 2));
    assert_eq!(machine.matrix(&t, &mut runtime), vec![1.0, 4.0, 2.0, 5.0, 3.0, 6.0]);
    let batches = runtime.matrix_transpose_batches(&t, 1, 3, 2, None);
    assert_eq!(machine.matrix(&batches, &mut runtime), vec![1.0, 2.0, 3.0, 4.0, 5.0, 6.0]);
    let tiles = runtime.matrix_slice(&t, 1, 3, None);
    assert_eq!(tiles.len(), 2);
    assert_eq!(machine.matrix(&tiles[0], &mut runtime), vec![1.0, 2.0, 3.0]);
    assert_eq!(machine.matrix(&tiles[1], &mut runtime), vec![4.0, 5.0, 6.0]);
    let b = upload(&[7.0, 8.0, 9.0], 1, 3, &mut runtime);
    let rows = runtime.matrix_concat_rows(&vec![&a, &b], None);
    assert_eq!(
        machine.matrix(&rows, &mut runtime),
        vec![1.0, 2.0, 3.0, 4.0, 5.0, 6.0, 7.0, 8.0, 9.0]
    );
    let c = upload(&[0.5, 1.5], 2, 1, &mut runtime);
    let cols = runtime.matrix_concat_cols(&vec![&a, &c], None);
    assert_eq!(
        machine.matrix(&cols, &mut runtime),
        vec![1.0, 2.0, 3.0, 0.5, 4.0, 5.0, 6.0, 1.5]
    );
    let parts = runtime.matrix_split_cols(&cols, &vec![1, 3], None);
    assert_eq!(machine.matrix(&parts[0], &mut runtime), vec![1.0, 4.0]);
    assert_eq!(machine.matrix(&parts[1], &mut runtime), vec![2.0, 3.0, 0.5, 5.0, 6.0, 1.5]);
    let row = runtime.vector_from_host(&bits(&[10.0, 20.0]), None);
    let copies = runtime.broadcast(&row, 3, None);
    assert_eq!(machine.matrix(&copies, &mut runtime), vec![10.0, 20.0, 10.0, 20.0, 10.0, 20.0]);
}

#[test]
fn products_give_the_numbers() {
    let mut runtime = CudaRuntime::new();
    let mut machine = Machine::new();
    let (a, b) = (sample(32 * 16, 1), sample(16 * 48, 2));
    let x = upload(&a, 32, 16, &mut runtime);
    let y = upload(&b, 16, 48, &mut runtime);
    let z = runtime.matrix_multiply(&x, &y, None);
    assert_eq!((z.rows, z.cols), (32, 48));
    close(&machine.matrix(&z, &mut runtime), &product(&a, &b, 32, 16, 48));
}

#[test]
fn recycled_buffers_are_used_again() {
    let mut runtime = CudaRuntime::new();
    let first = runtime.get_uninit_buffer(12);
    let id = first.id;
    runtime.recycle_buffer(first);
    let other = runtime.get_uninit_buffer(13);
    assert_ne!(other.id, id);
    let again = runtime.get_uninit_buffer(12);
    assert_eq!(again.id, id);
    assert_eq!(again.len(), 12);
    runtime.recycle_buffer(again);
    runtime.clear_buffers_by_size(12);
    let fresh = runtime.get_uninit_buffer(12);
    assert_ne!(fresh.id, id);
    assert!(runtime.take_pending().contains(&Command::Free { buffer: id }));
}

#[test]
fn a_recycled_buffer_that_should_be_zero_is_cleared() {
    let mut runtime = CudaRuntime::new();
    let mut machine = Machine::new();
    let mut x = runtime.vector_from_host(&bits(&[1.0, 2.0]), None);
    x.scale(Scalar::Literal(f(3.0)), &mut runtime, None);
    let id = x.buffer.id;
    runtime.recycle_vector(x);
    let zeros = runtime.get_zerod_buffer(2);
    assert_eq!(zeros.id, id);
    let zeros = runtime.create_vector(zeros);
    assert_eq!(machine.vector(&zeros, &mut runtime), vec![0.0, 0.0]);
}

#[test]
fn extra_streams_are_numbered_and_joined() {
    let mut runtime = CudaRuntime::new();
    let streams = runtime.create_extra_streams(2);
    assert_eq!(streams.iter().map(|stream| stream.id).collect::<Vec<usize>>(), vec![1, 2]);
    runtime.take_pending();
    runtime.join_streams(&streams);
    let primary = runtime.stream();
    assert_eq!(
        runtime.take_pending(),
        vec![
            Command::Wait { stream: primary, on: streams[0] },
            Command::Wait { stream: primary, on: streams[1] },
        ]
    );
}

#[test]
fn forked_streams_wait_for_the_primary_one() {
    let mut runtime = CudaRuntime::new();
    let streams = runtime.create_extra_streams(2);
    assert_eq!(
        runtime.take_pending(),
        vec![Command::Fork { stream: streams[0] }, Command::Fork { stream: streams[1] }]
    );
    runtime.fork_streams(&streams);
    let primary = runtime.stream();
    assert_eq!(
        runtime.take_pending(),
        vec![
            Command::Wait { stream: streams[0], on: primary },
            Command::Wait { stream: streams[1], on: primary },
        ]
    );
}

fn layer(
    inputs: usize,
    outputs: usize,
    bias: bool,
    activation: Activation,
    seed: usize,
    runtime: &mut CudaRuntime,
) -> Linear {
    let weights = upload(&sample(inputs * outputs, seed), inputs, outputs, runtime);
    let bias = if bias {
        Some(runtime.vector_from_host(&bits(&sample(outputs, seed + 7)), None))
    } else {
        None
    };
    Linear::new(weights, bias, activation)
}

/// What the layer of the same seed should make of an input.
fn layer_numbers(
    input: &[f32],
    rows: usize,
    inputs: usize,
    outputs: usize,
    bias: bool,
    activation: Activation,
    seed: usize,
) -> Vec<f32> {
    let mut values = product(input, &sample(inputs * outputs, seed), rows, inputs, outputs);
    for (i, value) in values.iter_mut().enumerate() {
        if bias {
            *value += sample(outputs, seed + 7)[i % outputs];
        }
        *value = activate(activation, *value);
    }
    values
}

#[test]
fn a_layer_is_affine_and_activated() {
    let mut runtime = CudaRuntime::new();
    let mut machine = Machine::new();
    let input = sample(16 * 32, 3);
    for (bias, activation) in [
        (true, Activation::Relu),
        (false, Activation::Identity),
        (true, Activation::Gelu),
        (true, Activation::Silu),
        (false, Activation::Sigmoid),
    ] {
        let linear = layer(32, 16, bias, activation, 4, &mut runtime);
        let x = upload(&input, 16, 32, &mut runtime);
        let y = linear.forward(&x, None, &mut runtime, None);
        close(
            &machine.matrix(&y, &mut runtime),
            &layer_numbers(&input, 16, 32, 16, bias, activation, 4),
        );
        assert_eq!(linear.input_neurons(), 32);
        assert_eq!(linear.output_neurons(), 16);
    }
}

#[test]
fn a_residual_is_added_before_the_activation() {
    let mut runtime = CudaRuntime::new();
    let mut machine = Machine::new();
    let (input, residual) = (sample(256, 3), sample(256, 5));
    let linear = layer(16, 16, true, Activation::Relu, 4, &mut runtime);
    let x = upload(&input, 16, 16, &mut runtime);
    let r = upload(&residual, 16, 16, &mut runtime);
    let y = linear.forward(&x, Some(&r), &mut runtime, None);
    let plain = layer_numbers(&input, 16, 16, 16, true, Activation::Identity, 4);
    let expected: Vec<f32> = (0..256).map(|i| (plain[i] + residual[i]).max(0.0)).collect();
    close(&machine.matrix(&y, &mut runtime), &expected);
}

#[test]
fn parameters_come_back_as_they_were_set() {
    let mut runtime = CudaRuntime::new();
    let mut machine = Machine::new();
    let mut linear = layer(16, 32, true, Activation::Relu, 1, &mut runtime);
    let (weights, bias) = (sample(512, 8), sample(32, 9));
    let mut cursor = HostDataCursor::new(vec![
        HostData::new(bits(&weights)),
        HostData::new(bits(&bias)),
    ]);
    linear.set_data(&mut cursor, &mut runtime);
    assert_eq!(cursor.consumed(), 2);
    cursor.finish();
    let reads = linear.get_data(&mut runtime);
    machine.run(&mut runtime);
    assert_eq!(
        reads,
        vec![HostRead { download: 0, len: 512 }, HostRead { download: 1, len: 32 }]
    );
    assert_eq!(machine.downloads[reads[0].download], weights);
    assert_eq!(machine.downloads[reads[1].download], bias);
}

#[test]
fn a_layer_is_described_by_consecutive_bytes() {
    let mut runtime = CudaRuntime::new();
    let linear = layer(16, 32, true, Activation::Gelu, 1, &mut runtime);
    let mut cursor = MetadataCursor::new();
    let metadata = linear.get_meta_data(&mut cursor);
    assert_eq!(metadata.weights.byte_end, 2048);
    assert_eq!(metadata.activation, Activation::Gelu);
    let bias = metadata.bias.unwrap();
    assert_eq!((bias.len, bias.byte_start, bias.byte_end), (32, 2048, 2176));
    assert_eq!(cursor.data_bytes(), 2176);
}

#[test]
fn training_a_layer_follows_its_gradient() {
    let mut runtime = CudaRuntime::new();
    let mut machine = Machine::new();
    let (input, gradient) = (sample(256, 3), sample(256, 6));
    let (weights, bias) = (sample(256, 4), sample(16, 11));
    let linear = layer(16, 16, true, Activation::Identity, 4, &mut runtime);
    let mut node = LinearTrainingNode::new(linear);
    let x = upload(&input, 16, 16, &mut runtime);
    let y = node.forward(vec![x], &mut runtime);
    close(
        &machine.matrix(&y[0], &mut runtime),
        &layer_numbers(&input, 16, 16, 16, true, Activation::Identity, 4),
    );
    let g = upload(&gradient, 16, 16, &mut runtime);
    let back = node.backward(vec![g], &mut runtime);
    close(
        &machine.matrix(&back[0], &mut runtime),
        &product(&gradient, &transposed(&weights, 16, 16), 16, 16, 16),
    );
    node.learn(
        LearnConfig { learning_rate: Rate::Held(f(0.5)), momentum: f(0.0), batch_len: 2 },
        &mut runtime,
    );
    let weight_gradient = product(&transposed(&input, 16, 16), &gradient, 16, 16, 16);
    let expected: Vec<f32> = (0..256).map(|i| weights[i] - 0.25 * weight_gradient[i]).collect();
    let reads = node.get_data(&mut runtime);
    machine.run(&mut runtime);
    close(&machine.downloads[reads[0].download], &expected);
    let expected: Vec<f32> = (0..16)
        .map(|c| bias[c] - 0.25 * (0..16).map(|r| gradient[r * 16 + c]).sum::<f32>())
        .collect();
    close(&machine.downloads[reads[1].download], &expected);
}

#[test]
fn momentum_carries_over_to_the_next_step() {
    let mut runtime = CudaRuntime::new();
    let mut machine = Machine::new();
    let linear = layer(16, 16, false, Activation::Identity, 4, &mut runtime);
    let mut node = LinearTrainingNode::new(linear);
    let (input, gradient) = (sample(256, 3), sample(256, 6));
    let config = LearnConfig { learning_rate: Rate::Held(f(0.1)), momentum: f(0.5), batch_len: 1 };
    for _ in 0..2 {
        let x = upload(&input, 16, 16, &mut runtime);
        let y = node.forward(vec![x], &mut runtime);
        for matrix in y {
            runtime.recycle_matrix(matrix);
        }
        let g = upload(&gradient, 16, 16, &mut runtime);
        let back = node.backward(vec![g], &mut runtime);
        for matrix in back {
            runtime.recycle_matrix(matrix);
        }
        node.learn(config, &mut runtime);
    }
    let step = product(&transposed(&input, 16, 16), &gradient, 16, 16, 16);
    let weights = sample(256, 4);
    let expected: Vec<f32> =
        (0..256).map(|i| weights[i] - 0.1 * step[i] - 0.1 * (1.5 * step[i])).collect();
    let reads = node.get_data(&mut runtime);
    machine.run(&mut runtime);
    close(&machine.downloads[reads[0].download], &expected);
}

fn half_squares(output: &[f32], target: &[f32]) -> f32 {
    output.iter().zip(target).map(|(o, t)| 0.5 * (o - t) * (o - t)).sum()
}

fn mlp_layers(runtime: &mut CudaRuntime) -> Vec<Linear> {
    vec![
        layer(16, 16, true, Activation::Gelu, 21, runtime),
        layer(16, 16, false, Activation::Silu, 22, runtime),
        layer(16, 16, true, Activation::Identity, 23, runtime),
    ]
}

fn mlp_output(input: &[f32]) -> Vec<f32> {
    let mut runtime = CudaRuntime::new();
    let mut machine = Machine::new();
    let mlp = InferenceMLP::new(mlp_layers(&mut runtime), Some((0, 2)));
    let x = upload(input, 16, 16, &mut runtime);
    let y = mlp.forward(&x, &mut runtime);
    machine.matrix(&y, &mut runtime)
}

#[test]
fn a_residual_network_has_the_gradient_of_its_loss() {
    let mut runtime = CudaRuntime::new();
    let mut machine = Machine::new();
    let (input, target) = (sample(256, 31), sample(256, 32));
    let mut mlp = TrainingMlp::new(mlp_layers(&mut runtime), Some((0, 2)));
    let x = upload(&input, 16, 16, &mut runtime);
    let t = upload(&target, 16, 16, &mut runtime);
    let y = mlp.forward(x, &mut runtime);
    let output = machine.matrix(&y, &mut runtime);
    close(&output, &mlp_output(&input));
    let losses = mlp.loss_rows(&y, &t, f(1.0), &mut runtime);
    let losses = machine.vector(&losses, &mut runtime);
    close(&[losses.iter().sum::<f32>() * 16.0], &[half_squares(&output, &target)]);
    let gradient = mlp.output_gradient(&y, &t, f(1.0), &mut runtime);
    let back = mlp.backward(&gradient, &mut runtime);
    let back = machine.matrix(&back, &mut runtime);
    for at in [0, 17, 100, 255] {
        let (mut up, mut down) = (input.clone(), input.clone());
        up[at] += 5e-2;
        down[at] -= 5e-2;
        let numeric = (half_squares(&mlp_output(&up), &target)
            - half_squares(&mlp_output(&down), &target))
            / 0.1
            / 256.0;
        assert!((numeric - back[at]).abs() < 1e-4 + 2e-2 * numeric.abs(), "{numeric} {}", back[at]);
    }
}

#[test]
fn learning_makes_the_loss_smaller() {
    let mut runtime = CudaRuntime::new();
    let mut machine = Machine::new();
    let (input, target) = (sample(256, 31), sample(256, 32));
    let mut mlp = TrainingMlp::new(mlp_layers(&mut runtime), Some((0, 2)));
    let t = upload(&target, 16, 16, &mut runtime);
    let mut history: Vec<f32> = Vec::new();
    for _ in 0..5 {
        let x = upload(&input, 16, 16, &mut runtime);
        let y = mlp.forward(x, &mut runtime);
        let losses = mlp.loss_rows(&y, &t, f(1.0), &mut runtime);
        history.push(machine.vector(&losses, &mut runtime).iter().sum());
        runtime.recycle_vector(losses);
        let gradient = mlp.output_gradient(&y, &t, f(1.0), &mut runtime);
        runtime.recycle_matrix(y);
        let back = mlp.backward(&gradient, &mut runtime);
        runtime.recycle_matrix(gradient);
        runtime.recycle_matrix(back);
        mlp.learn(Rate::Held(f(0.02)), f(0.0), 16, &mut runtime);
    }
    for i in 1..history.len() {
        assert!(history[i] < history[i - 1], "{:?}", history);
    }
}

#[test]
fn cross_entropy_gives_the_numbers() {
    let mut runtime = CudaRuntime::new();
    let mut machine = Machine::new();
    let logits = [0.5, -1.0, 2.0, 0.0];
    let targets = [1.0, 0.0, 1.0, 0.0];
    let output = upload(&logits, 2, 2, &mut runtime);
    let target = upload(&targets, 2, 2, &mut runtime);
    for weight in [1.0f32, 3.0] {
        let rows = Loss::BinaryCrossEntropyWithLogits.loss_rows(
            &output,
            &target,
            f(weight),
            &mut runtime,
        );
        let loss: Vec<f32> = (0..4)
            .map(|i| {
                weight * targets[i] * softplus(-logits[i]) + (1.0 - targets[i]) * softplus(logits[i])
            })
            .collect();
        close(
            &machine.vector(&rows, &mut runtime),
            &[(loss[0] + loss[1]) / 2.0, (loss[2] + loss[3]) / 2.0],
        );
        let gradient = Loss::BinaryCrossEntropyWithLogits.output_gradient(
            &output,
            &target,
            f(weight),
            &mut runtime,
        );
        let expected: Vec<f32> = (0..4)
            .map(|i| {
                (sigmoid(logits[i]) * (1.0 - targets[i] + weight * targets[i])
                    - weight * targets[i])
                    / 4.0
            })
            .collect();
        close(&machine.matrix(&gradient, &mut runtime), &expected);
    }
}

#[test]
fn gradients_are_derivatives_of_the_mean_loss() {
    let outputs = [0.5f32, -1.0, 2.0, 0.0, 0.75, -0.5];
    let targets = [1.0f32, 0.0, 0.3, 0.6, 1.0, 0.9];
    for loss in [Loss::MeanSquaredError, Loss::BinaryCrossEntropyWithLogits] {
        for weight in [1.0f32, 2.5] {
            let mean = |outputs: &[f32]| -> f32 {
                let mut runtime = CudaRuntime::new();
                let mut machine = Machine::new();
                let output = upload(outputs, 3, 2, &mut runtime);
                let target = upload(&targets, 3, 2, &mut runtime);
                let rows = loss.loss_rows(&output, &target, f(weight), &mut runtime);
                machine.vector(&rows, &mut runtime).iter().sum::<f32>() / 3.0
            };
            let mut runtime = CudaRuntime::new();
            let mut machine = Machine::new();
            let output = upload(&outputs, 3, 2, &mut runtime);
            let target = upload(&targets, 3, 2, &mut runtime);
            let gradient = loss.output_gradient(&output, &target, f(weight), &mut runtime);
            let gradient = machine.matrix(&gradient, &mut runtime);
            for i in 0..6 {
                let (mut up, mut down) = (outputs, outputs);
                up[i] += 1e-2;
                down[i] -= 1e-2;
                let numeric = (mean(&up) - mean(&down)) / 2e-2;
                assert!((numeric - gradient[i]).abs() < 1e-3, "{numeric} {}", gradient[i]);
            }
        }
    }
}

#[test]
fn the_dice_term_has_the_gradient_of_its_penalty() {
    let targets = [1.0, 0.0, 1.0, 0.0];
    let penalty = |logits: &[f32]| -> f32 {
        let p: Vec<f32> = logits.iter().map(|x| sigmoid(*x)).collect();
        let overlap: f32 = (0..4).map(|i| p[i] * targets[i]).sum();
        let numerator = 2.0 * overlap + 1.0;
        let denominator = p.iter().sum::<f32>() + targets.iter().sum::<f32>() + 1.0;
        0.5 * (1.0 - numerator / denominator)
    };
    let entropy = |logits: &[f32]| -> f32 {
        (0..4).map(|i| softplus(logits[i]) - logits[i] * targets[i]).sum::<f32>() / 4.0
    };
    let logits = [0.5f32, -1.0, 2.0, 0.0];
    let mut runtime = CudaRuntime::new();
    let mut machine = Machine::new();
    let output = upload(&logits, 2, 2, &mut runtime);
    let target = upload(&targets, 2, 2, &mut runtime);
    let (loss, gradient) = Loss::BinaryCrossEntropyWithLogits.loss_and_output_gradient(
        &output,
        &target,
        f(1.0),
        f(0.5),
        &mut runtime,
    );
    let gradient = machine.matrix(&gradient, &mut runtime);
    let losses = machine.vector(&loss, &mut runtime);
    for i in 0..4 {
        let (mut up, mut down) = (logits, logits);
        up[i] += 1e-2;
        down[i] -= 1e-2;
        let numeric =
            (penalty(&up) + entropy(&up) - penalty(&down) - entropy(&down)) / 2e-2;
        assert!((numeric - gradient[i]).abs() < 1e-3, "{numeric} {}", gradient[i]);
    }
    close(&[(losses[0] + losses[1]) / 2.0], &[penalty(&logits) + entropy(&logits)]);
}

#[test]
fn probabilities_are_sigmoids_of_logits() {
    let mut runtime = CudaRuntime::new();
    let mut machine = Machine::new();
    let mut output = upload(&[0.0, 1.0], 1, 2, &mut runtime);
    Loss::MeanSquaredError.activate_output(&mut output, &mut runtime);
    assert_eq!(machine.matrix(&output, &mut runtime), vec![0.0, 1.0]);
    Loss::BinaryCrossEntropyWithLogits.activate_output(&mut output, &mut runtime);
    close(&machine.matrix(&output, &mut runtime), &[0.5, 0.7310586]);
}

#[test]
fn split_and_concat_undo_each_other() {
    let mut runtime = CudaRuntime::new();
    let mut machine = Machine::new();
    let values = sample(6 * 5, 1);
    for (axis, sizes) in [(MatrixAxis::Rows, vec![1, 3, 2]), (MatrixAxis::Columns, vec![2, 3])] {
        let x = upload(&values, 6, 5, &mut runtime);
        let parts = SplitNode::new(axis, sizes.clone()).forward(x, &mut runtime);
        assert_eq!(parts.len(), sizes.len());
        let whole = ConcatNode::new(axis).forward_owned(parts, &mut runtime);
        assert_eq!((whole.rows, whole.cols), (6, 5));
        assert_eq!(machine.matrix(&whole, &mut runtime), values);
    }
}

#[test]
fn gradients_of_structural_nodes_undo_the_forward_step() {
    let mut runtime = CudaRuntime::new();
    let mut machine = Machine::new();
    let values = sample(12, 1);
    let mut split = TrainingSplitNode::new(MatrixAxis::Columns, vec![1, 3]);
    let x = upload(&values, 3, 4, &mut runtime);
    let parts = split.forward(x, &mut runtime);
    let back = split.backward(parts, &mut runtime);
    assert_eq!(machine.matrix(&back, &mut runtime), values);
    let mut concat = TrainingConcatNode::new(MatrixAxis::Rows);
    let a = upload(&values[..4], 1, 4, &mut runtime);
    let b = upload(&values[4..], 2, 4, &mut runtime);
    let joined = concat.forward(vec![a, b], &mut runtime);
    let parts = concat.backward(joined, &mut runtime);
    assert_eq!(machine.matrix(&parts[0], &mut runtime), values[..4]);
    assert_eq!(machine.matrix(&parts[1], &mut runtime), values[4..]);
}

#[test]
fn fan_out_copies_and_its_gradient_sums() {
    let mut runtime = CudaRuntime::new();
    let mut machine = Machine::new();
    let x = upload(&[1.0, 2.0], 1, 2, &mut runtime);
    let copies = FanOutNode::new(FanOutMode::Copy, 3).forward(x, &mut runtime);
    assert_eq!(copies.len(), 3);
    for copy in &copies {
        assert_eq!(machine.matrix(copy, &mut runtime), vec![1.0, 2.0]);
    }
    let mut node = TrainingFanOutNode::new(FanOutMode::Average, 2);
    let x = upload(&[4.0, 6.0], 1, 2, &mut runtime);
    node.forward(x, &mut runtime);
    let a = upload(&[1.0, 2.0], 1, 2, &mut runtime);
    let b = upload(&[3.0, 6.0], 1, 2, &mut runtime);
    let back = node.backward(vec![a, b], &mut runtime);
    assert_eq!(machine.matrix(&back, &mut runtime), vec![2.0, 4.0]);
}

#[test]
fn row_reductions_and_their_gradients() {
    let mut runtime = CudaRuntime::new();
    let mut machine = Machine::new();
    let x = upload(&[1.0, 2.0, 3.0, 4.0, 5.0, 6.0], 2, 3, &mut runtime);
    let sums = RowReduceNode::new(RowReduction::Sum).forward(x, &mut runtime);
    assert_eq!(machine.matrix(&sums, &mut runtime), vec![6.0, 15.0]);
    let mut mean = TrainingRowReduceNode::new(RowReduction::Mean);
    let x = upload(&[1.0, 2.0, 3.0, 4.0, 5.0, 6.0], 2, 3, &mut runtime);
    let means = mean.forward(x, &mut runtime);
    close(&machine.matrix(&means, &mut runtime), &[2.0, 5.0]);
    let g = upload(&[3.0, 6.0], 2, 1, &mut runtime);
    let back = mean.backward(g, &mut runtime);
    assert_eq!((back.rows, back.cols), (2, 3));
    close(&machine.matrix(&back, &mut runtime), &[1.0, 1.0, 1.0, 2.0, 2.0, 2.0]);
}

#[test]
fn binary_nodes_and_their_gradients() {
    let mut runtime = CudaRuntime::new();
    let mut machine = Machine::new();
    let (a, b, g) = ([1.0, 2.0, 3.0], [4.0, 5.0, 8.0], [1.0, -1.0, 2.0]);
    for (op, value, left, right) in [
        (BinaryOp::Add, [5.0, 7.0, 11.0], g, g),
        (BinaryOp::Sub, [-3.0, -3.0, -5.0], g, [-1.0, 1.0, -2.0]),
        (BinaryOp::Mul, [4.0, 10.0, 24.0], [4.0, -5.0, 16.0], [1.0, -2.0, 6.0]),
        (BinaryOp::Div, [0.25, 0.4, 0.375], [0.25, -0.2, 0.25], [-0.0625, 0.08, -0.09375]),
    ] {
        let mut node = TrainingBinaryNode::new(op);
        let x = upload(&a, 1, 3, &mut runtime);
        let y = upload(&b, 1, 3, &mut runtime);
        let z = node.forward(vec![x, y], &mut runtime);
        close(&machine.matrix(&z, &mut runtime), &value);
        let gradient = upload(&g, 1, 3, &mut runtime);
        let back = node.backward(gradient, &mut runtime);
        close(&machine.matrix(&back[0], &mut runtime), &left);
        close(&machine.matrix(&back[1], &mut runtime), &right);
    }
}

#[test]
fn a_product_node_has_the_gradients_of_a_product() {
    let mut runtime = CudaRuntime::new();
    let mut machine = Machine::new();
    let (a, b, g) = (sample(256, 1), sample(256, 2), sample(256, 3));
    let mut node = TrainingBinaryNode::new(BinaryOp::MatMul);
    let x = upload(&a, 16, 16, &mut runtime);
    let y = upload(&b, 16, 16, &mut runtime);
    let z = node.forward(vec![x, y], &mut runtime);
    close(&machine.matrix(&z, &mut runtime), &product(&a, &b, 16, 16, 16));
    let gradient = upload(&g, 16, 16, &mut runtime);
    let back = node.backward(gradient, &mut runtime);
    close(
        &machine.matrix(&back[0], &mut runtime),
        &product(&g, &transposed(&b, 16, 16), 16, 16, 16),
    );
    close(
        &machine.matrix(&back[1], &mut runtime),
        &product(&transposed(&a, 16, 16), &g, 16, 16, 16),
    );
}

#[test]
fn three_inputs_can_be_added() {
    let mut runtime = CudaRuntime::new();
    let mut machine = Machine::new();
    let inputs: Vec<Matrix> = (1..4).map(|seed| upload(&sample(4, seed), 2, 2, &mut runtime)).collect();
    let sum = BinaryNode::new(BinaryOp::Add).forward_owned(inputs, &mut runtime);
    let expected: Vec<f32> =
        (0..4).map(|i| sample(4, 1)[i] + sample(4, 2)[i] + sample(4, 3)[i]).collect();
    close(&machine.matrix(&sum, &mut runtime), &expected);
}

#[test]
fn single_nodes_and_their_gradients() {
    let mut runtime = CudaRuntime::new();
    let mut machine = Machine::new();
    let values = sample(8, 5);
    for op in [
        SingleType::Activation(Activation::Gelu),
        SingleType::Softmax,
        SingleType::LayerNorm,
        SingleType::RmsNorm,
        SingleType::Scale(f(3.0)),
    ] {
        let run = |values: &[f32]| -> Vec<f32> {
            let mut runtime = CudaRuntime::new();
            let mut machine = Machine::new();
            let x = upload(values, 2, 4, &mut runtime);
            let y = SingleNode::new(op).forward(x, &mut runtime);
            machine.matrix(&y, &mut runtime)
        };
        let mut node = TrainingSingleNode::new(op);
        let x = upload(&values, 2, 4, &mut runtime);
        let y = node.forward(x, &mut runtime);
        close(&machine.matrix(&y, &mut runtime), &run(&values));
        let weights = sample(8, 9);
        let g = upload(&weights, 2, 4, &mut runtime);
        let back = node.backward(g, &mut runtime);
        let back = machine.matrix(&back, &mut runtime);
        for i in 0..8 {
            let (mut up, mut down) = (values.clone(), values.clone());
            up[i] += 1e-2;
            down[i] -= 1e-2;
            let (up, down) = (run(&up), run(&down));
            let numeric: f32 =
                (0..8).map(|k| weights[k] * (up[k] - down[k]) / 2e-2).sum();
            assert!((numeric - back[i]).abs() < 1e-2, "{numeric} {}", back[i]);
        }
    }
}

#[test]
fn a_transpose_node_turns_the_gradient_back() {
    let mut runtime = CudaRuntime::new();
    let mut machine = Machine::new();
    let mut node = TrainingSingleNode::new(SingleType::Transpose);
    let x = upload(&sample(6, 1), 2, 3, &mut runtime);
    let y = node.forward(x, &mut runtime);
    assert_eq!((y.rows, y.cols), (3, 2));
    let back = node.backward(y, &mut runtime);
    assert_eq!((back.rows, back.cols), (2, 3));
    assert_eq!(machine.matrix(&back, &mut runtime), sample(6, 1));
}

#[test]
fn a_gated_block_gives_the_numbers() {
    let mut runtime = CudaRuntime::new();
    let mut machine = Machine::new();
    let (gate, up, down) = (sample(16 * 32, 1), sample(16 * 32, 2), sample(32 * 16, 3));
    let g = upload(&gate, 16, 32, &mut runtime);
    let u = upload(&up, 16, 32, &mut runtime);
    let d = upload(&down, 32, 16, &mut runtime);
    let block = Swiglu::new(g, u, d);
    let input = sample(256, 4);
    let x = upload(&input, 16, 16, &mut runtime);
    let y = block.forward(&x, &mut runtime);
    let (a, b) = (product(&input, &gate, 16, 16, 32), product(&input, &up, 16, 16, 32));
    let hidden: Vec<f32> =
        (0..a.len()).map(|i| activate(Activation::Silu, a[i]) * b[i]).collect();
    close(&machine.matrix(&y, &mut runtime), &product(&hidden, &down, 16, 32, 16));
    let state = block.create_train_state();
    assert_eq!(state.children().len(), 3);
}

/// The block of the same seeds, written down directly.
fn transformer_numbers(input: &[f32], heads: usize, masked: bool) -> Vec<f32> {
    let rows = 16;
    let width = 32;
    let head = width / heads;
    let project = |seed: usize| layer_numbers(input, rows, width, width, true, Activation::Identity, seed);
    let (q, k, v) = (project(41), project(42), project(43));
    let mut attention = vec![0.0; rows * width];
    for h in 0..heads {
        for r in 0..rows {
            let scores: Vec<f32> = (0..rows)
                .map(|s| {
                    if masked && s > r {
                        f32::NEG_INFINITY
                    } else {
                        (0..head)
                            .map(|c| q[r * width + h * head + c] * k[s * width + h * head + c])
                            .sum::<f32>()
                            / (head as f32).sqrt()
                    }
                })
                .collect();
            let weights = apply_row(RowFn::Softmax, &scores, 0);
            for c in 0..head {
                attention[r * width + h * head + c] =
                    (0..rows).map(|s| weights[s] * v[s * width + h * head + c]).sum();
            }
        }
    }
    let norm = |values: &[f32]| -> Vec<f32> {
        values.chunks(width).flat_map(|row| apply_row(RowFn::RmsNorm(f(1e-5)), row, 0)).collect()
    };
    let first: Vec<f32> = norm(&(0..rows * width).map(|i| input[i] + attention[i]).collect::<Vec<f32>>());
    let hidden = layer_numbers(&first, rows, width, width, true, Activation::Relu, 44);
    let second: Vec<f32> = norm(&(0..rows * width).map(|i| first[i] + hidden[i]).collect::<Vec<f32>>());
    layer_numbers(&second, rows, width, 16, false, Activation::Identity, 45)
}

fn transformer<const HEADS: usize, const MASKED: bool>(
    runtime: &mut CudaRuntime,
    streams: bool,
) -> InferenceTransformer<HEADS, MASKED> {
    let streams = if streams { Some(runtime.create_extra_streams(3)) } else { None };
    let fcs = InferenceMLP::new(vec![layer(32, 32, true, Activation::Relu, 44, runtime)], None);
    InferenceTransformer::<HEADS, MASKED>::new(
        layer(32, 32, true, Activation::Identity, 41, runtime),
        layer(32, 32, true, Activation::Identity, 42, runtime),
        layer(32, 32, true, Activation::Identity, 43, runtime),
        PositionEncoding::Identity,
        fcs,
        layer(32, 16, false, Activation::Identity, 45, runtime),
        streams,
        NormType::Rms,
    )
}

#[test]
fn an_encoder_gives_the_numbers() {
    let mut runtime = CudaRuntime::new();
    let mut machine = Machine::new();
    let input = sample(16 * 32, 46);
    let mut encoder = transformer::<2, false>(&mut runtime, false);
    let x = upload(&input, 16, 32, &mut runtime);
    let y = encoder.forward(&x, &mut runtime);
    close_within(
        &machine.matrix(&y, &mut runtime),
        &transformer_numbers(&input, 2, false),
        1e-3,
    );
}

#[test]
fn a_decoder_hides_later_rows() {
    let mut runtime = CudaRuntime::new();
    let mut machine = Machine::new();
    let input = sample(16 * 32, 47);
    let mut decoder = transformer::<1, true>(&mut runtime, true);
    let x = upload(&input, 16, 32, &mut runtime);
    let y = decoder.forward(&x, &mut runtime);
    let first = machine.matrix(&y, &mut runtime);
    close_within(&first, &transformer_numbers(&input, 1, true), 1e-3);
    let mut later = input.clone();
    later[15 * 32] += 1.0;
    let x = upload(&later, 16, 32, &mut runtime);
    let y = decoder.forward(&x, &mut runtime);
    let second = machine.matrix(&y, &mut runtime);
    assert_eq!(first[..15 * 16], second[..15 * 16]);
    assert_ne!(first[15 * 16..], second[15 * 16..]);
}

#[test]
fn streams_that_were_given_are_kept() {
    let mut runtime = CudaRuntime::new();
    let mut machine = Machine::new();
    let ids = |block: &InferenceTransformer<2, false>| -> Option<Vec<usize>> {
        let streams = block.attention.qkv.streams.as_ref()?;
        Some(streams.iter().map(|stream| stream.id).collect())
    };
    let mut given = transformer::<2, false>(&mut runtime, true);
    let mut without = transformer::<2, false>(&mut runtime, false);
    assert_eq!(ids(&given), Some(vec![1, 2, 3]));
    assert_eq!(ids(&without), None);
    let input = sample(16 * 32, 46);
    for _ in 0..2 {
        let x = upload(&input, 16, 32, &mut runtime);
        for block in [&mut given, &mut without] {
            let y = block.forward(&x, &mut runtime);
            runtime.recycle_matrix(y);
        }
        runtime.recycle_matrix(x);
        assert_eq!(ids(&given), Some(vec![1, 2, 3]));
        assert_eq!(ids(&without), Some(vec![4, 5, 6]));
    }
    machine.run(&mut runtime);
}

#[test]
fn a_transformer_is_described_in_the_order_of_its_data() {
    let mut runtime = CudaRuntime::new();
    let mut machine = Machine::new();
    let encoder = transformer::<2, false>(&mut runtime, false);
    let mut cursor = MetadataCursor::new();
    let metadata = encoder.get_meta_data(&mut cursor);
    assert_eq!(metadata.attention_heads, 2);
    assert_eq!(metadata.query.weights.byte_start, 0);
    assert_eq!(metadata.output.weights.byte_end, cursor.data_bytes());
    let reads = encoder.get_data(&mut runtime);
    machine.run(&mut runtime);
    let bytes: usize = reads.iter().map(|read| 4 * machine.downloads[read.download].len()).sum();
    assert_eq!(bytes as u64, cursor.data_bytes());
    assert_eq!(machine.downloads[reads[0].download], sample(32 * 32, 41));
}

fn trained_transformer<const HEADS: usize, const MASKED: bool>(
    runtime: &mut CudaRuntime,
) -> TrainingTransformer<HEADS, MASKED> {
    let fcs = TrainingMlp::new(vec![layer(32, 32, true, Activation::Relu, 44, runtime)], None);
    TrainingTransformer::<HEADS, MASKED>::new(
        layer(32, 32, true, Activation::Identity, 41, runtime),
        layer(32, 32, true, Activation::Identity, 42, runtime),
        layer(32, 32, true, Activation::Identity, 43, runtime),
        PositionEncoding::Identity,
        fcs,
        layer(32, 16, false, Activation::Identity, 45, runtime),
        NormType::Rms,
    )
}

/// Compares the gradient of a weighed sum of the output with derivatives that were
/// taken in double precision.
fn transformer_has_its_gradient<const HEADS: usize, const MASKED: bool>(
    derivatives: [(usize, f32); 4],
) {
    let mut runtime = CudaRuntime::new();
    let mut machine = Machine::new();
    let (input, weights) = (sample(16 * 32, 46), sample(16 * 16, 48));
    let mut block = trained_transformer::<HEADS, MASKED>(&mut runtime);
    let x = upload(&input, 16, 32, &mut runtime);
    let y = block.forward(&x, &mut runtime);
    close_within(
        &machine.matrix(&y, &mut runtime),
        &transformer_numbers(&input, HEADS, MASKED),
        1e-3,
    );
    let gradient = upload(&weights, 16, 16, &mut runtime);
    let back = block.backward(&gradient, &mut runtime);
    assert_eq!((back.rows, back.cols), (16, 32));
    let back = machine.matrix(&back, &mut runtime);
    for (at, derivative) in derivatives {
        close_within(&[back[at]], &[derivative], 2e-3);
    }
}

#[test]
fn an_encoder_has_the_gradient_of_its_output() {
    transformer_has_its_gradient::<2, false>([
        (0, 1.245_242),
        (33, 0.694_032),
        (200, -2.117_624),
        (511, 0.928_125),
    ]);
}

#[test]
fn a_decoder_has_the_gradient_of_its_output() {
    transformer_has_its_gradient::<1, true>([
        (0, -3.426_262),
        (33, -0.870_953),
        (200, -1.759_068),
        (511, -2.312_432),
    ]);
}

#[test]
fn learning_moves_a_transformer_towards_its_target() {
    let mut runtime = CudaRuntime::new();
    let mut machine = Machine::new();
    let (input, target) = (sample(16 * 32, 46), sample(16 * 16, 49));
    let mut block = trained_transformer::<2, false>(&mut runtime);
    let t = upload(&target, 16, 16, &mut runtime);
    let mut history: Vec<f32> = Vec::new();
    for _ in 0..4 {
        let x = upload(&input, 16, 32, &mut runtime);
        let y = block.forward(&x, &mut runtime);
        runtime.recycle_matrix(x);
        history.push(half_squares(&machine.matrix(&y, &mut runtime), &target));
        let gradient = Loss::MeanSquaredError.output_gradient(&y, &t, f(1.0), &mut runtime);
        runtime.recycle_matrix(y);
        let back = block.backward_accumulate(&gradient, &mut runtime);
        runtime.recycle_matrix(gradient);
        runtime.recycle_matrix(back);
        block.learn(Rate::Held(f(0.05)), f(0.5), 1, &mut runtime);
        block.clear_cache(&mut runtime);
    }
    for i in 1..history.len() {
        assert!(history[i] < history[i - 1], "{:?}", history);
    }
}

#[test]
fn a_trained_transformer_keeps_its_data_in_checkpoint_order() {
    let mut runtime = CudaRuntime::new();
    let mut machine = Machine::new();
    let mut block = trained_transformer::<2, false>(&mut runtime);
    let mut cursor = MetadataCursor::new();
    let metadata = block.get_meta_data(&mut cursor);
    assert_eq!(metadata.block_count, 1);
    assert_eq!(metadata.output.weights.byte_end, cursor.data_bytes());
    let reads = block.get_data(&mut runtime);
    machine.run(&mut runtime);
    let stored: Vec<Vec<f32>> =
        reads.iter().map(|read| machine.downloads[read.download].clone()).collect();
    assert_eq!(stored[0], sample(32 * 32, 41));
    let doubled: Vec<HostData> = stored
        .iter()
        .map(|values| HostData {
            values: bits(&values.iter().map(|value| 2.0 * value).collect::<Vec<f32>>()),
        })
        .collect();
    let mut source = HostDataCursor::new(doubled);
    block.set_data(&mut source, &mut runtime);
    assert_eq!(source.remaining(), 0);
    source.finish();
    let reads = block.get_data(&mut runtime);
    machine.run(&mut runtime);
    for (before, read) in stored.iter().zip(&reads) {
        let expected: Vec<f32> = before.iter().map(|value| 2.0 * value).collect();
        assert_eq!(machine.downloads[read.download], expected);
    }
}

#[test]
fn a_graph_gets_its_parameters() {
    let mut runtime = CudaRuntime::new();
    let mut machine = Machine::new();
    let draft = GraphBuilder::start(MatrixConfig::new(16, 16))
        .then(LinearConfig::new(MatrixConfig::new(16, 32), true, Activation::Relu))
        .then(LinearConfig::new(MatrixConfig::new(32, 16), false, Activation::Identity))
        .end();
    assert_eq!(draft.get_input_config(), MatrixConfig::new(16, 16));
    assert_eq!(draft.get_output_config(), MatrixConfig::new(16, 16));
    let graph: Graph<true> = match draft.init(
        &mut runtime,
        InitConfig::Random {
            loss: Loss::MeanSquaredError,
            learning_rate: LearningRateScheduler::new(f(0.01)),
        },
    ) {
        Ok(graph) => graph,
        Err(error) => panic!("{error:?}"),
    };
    machine.run(&mut runtime);
    assert_eq!(graph.steps.len(), 2);
    assert_eq!(graph.training.as_ref().unwrap().nodes().len(), 2);
    assert_eq!(graph.learning_rate().current_step(), 0);
    match &graph.steps[0] {
        Step::Node(Node::TrainingLinear(node)) => {
            let weights = &machine.memory[node.linear.weights.buffer.id];
            assert!(weights.iter().all(|x| (0.0..=1.0).contains(x)));
            let bias = node.linear.bias.as_ref().unwrap();
            assert_eq!(machine.memory[bias.buffer.id], vec![0.0; 32]);
        }
        _ => unreachable!(),
    }
    match &graph.steps[1] {
        Step::Node(Node::TrainingLinear(node)) => assert!(node.linear.bias.is_none()),
        _ => unreachable!(),
    }
}

fn is_graph_node<T: GraphNode>() {}

fn is_training_node<T: TrainingNode>() {}

#[test]
fn every_block_is_a_graph_node() {
    is_graph_node::<Linear>();
    is_graph_node::<InferenceTransformer<1, false>>();
    is_graph_node::<InferenceTransformer<1, true>>();
    is_graph_node::<InferenceMLP>();
    is_graph_node::<Swiglu>();
    is_graph_node::<BinaryNode>();
    is_graph_node::<SingleNode>();
    is_graph_node::<ConcatNode>();
    is_graph_node::<SplitNode>();
    is_graph_node::<FanOutNode>();
    is_graph_node::<RowReduceNode>();
    is_training_node::<LinearTrainingNode>();
    is_training_node::<TrainingTransformer<1, false>>();
    is_training_node::<TrainingTransformer<1, true>>();
    is_training_node::<TrainingMlp>();
    is_training_node::<TrainingBinaryNode>();
    is_training_node::<TrainingSingleNode>();
    is_training_node::<TrainingConcatNode>();
    is_training_node::<TrainingSplitNode>();
    is_training_node::<TrainingFanOutNode>();
    is_training_node::<TrainingRowReduceNode>();
}

fn run_block<T: GraphNode>(
    block: &mut T,
    inputs: &[(&[f32], usize, usize)],
    machine: &mut Machine,
    runtime: &mut CudaRuntime,
) -> Vec<Matrix> {
    let inputs: Vec<Matrix> = inputs
        .iter()
        .map(|(values, rows, cols)| upload(values, *rows, *cols, runtime))
        .collect();
    let taken: Vec<usize> = inputs.iter().map(|input| input.buffer.id).collect();
    let outputs = GraphNode::forward(block, inputs, runtime);
    machine.run(runtime);
    for output in &outputs {
        assert!(taken.iter().filter(|id| **id == output.buffer.id).count() <= 1);
    }
    outputs
}

#[test]
fn blocks_take_their_inputs_over() {
    let mut runtime = CudaRuntime::new();
    let mut machine = Machine::new();
    let (a, b) = (sample(256, 51), sample(256, 52));
    let mut dense = layer(16, 16, true, Activation::Relu, 53, &mut runtime);
    let outputs = run_block(&mut dense, &[(&a, 16, 16)], &mut machine, &mut runtime);
    close(
        &machine.matrix(&outputs[0], &mut runtime),
        &layer_numbers(&a, 16, 16, 16, true, Activation::Relu, 53),
    );
    let mut sum = BinaryNode::new(BinaryOp::Add);
    let outputs = run_block(&mut sum, &[(&a, 16, 16), (&b, 16, 16)], &mut machine, &mut runtime);
    let expected: Vec<f32> = a.iter().zip(&b).map(|(x, y)| x + y).collect();
    close(&machine.matrix(&outputs[0], &mut runtime), &expected);
    let mut copies = FanOutNode::new(FanOutMode::Copy, 3);
    let outputs = run_block(&mut copies, &[(&a, 16, 16)], &mut machine, &mut runtime);
    assert_eq!(outputs.len(), 3);
    for output in &outputs {
        close(&machine.matrix(output, &mut runtime), &a);
    }
}

fn train_block<T: TrainingNode>(block: &mut T, rows: usize, cols: usize, outputs: usize) -> Vec<f32> {
    let mut runtime = CudaRuntime::new();
    let mut machine = Machine::new();
    train_block_on(block, rows, cols, outputs, &mut machine, &mut runtime)
}

fn train_block_on<T: TrainingNode>(
    block: &mut T,
    rows: usize,
    cols: usize,
    outputs: usize,
    machine: &mut Machine,
    runtime: &mut CudaRuntime,
) -> Vec<f32> {
    let target = upload(&sample(rows * outputs, 61), rows, outputs, runtime);
    let mut history: Vec<f32> = Vec::new();
    for _ in 0..3 {
        let x = upload(&sample(rows * cols, 62), rows, cols, runtime);
        let mut given = GraphNode::forward(block, vec![x], runtime);
        let y = given.pop().unwrap();
        assert!(given.is_empty());
        history.push(half_squares(
            &machine.matrix(&y, runtime),
            &sample(rows * outputs, 61),
        ));
        let gradient = Loss::MeanSquaredError.output_gradient(&y, &target, f(1.0), runtime);
        runtime.recycle_matrix(y);
        for back in block.backward(vec![gradient], runtime) {
            assert_eq!((back.rows, back.cols), (rows, cols));
            runtime.recycle_matrix(back);
        }
        block.learn(LearnConfig::single(Rate::Held(f(0.05))), runtime);
        GraphNode::clear_cache(block, runtime);
    }
    history
}

#[test]
fn blocks_learn_through_their_common_interface() {
    let mut runtime = CudaRuntime::new();
    let mut machine = Machine::new();
    let mut dense =
        LinearTrainingNode::new(layer(32, 16, true, Activation::Gelu, 63, &mut runtime));
    let mut stack = TrainingMlp::new(mlp_layers(&mut runtime), None);
    let mut block = trained_transformer::<2, false>(&mut runtime);
    let histories = [
        train_block_on(&mut dense, 16, 32, 16, &mut machine, &mut runtime),
        train_block_on(&mut stack, 16, 16, 16, &mut machine, &mut runtime),
        train_block_on(&mut block, 16, 32, 16, &mut machine, &mut runtime),
    ];
    for history in &histories {
        for i in 1..history.len() {
            assert!(history[i] < history[i - 1], "{:?}", history);
        }
    }
}

#[test]
fn a_block_without_parameters_learns_nothing() {
    let mut scale = TrainingSingleNode::new(SingleType::Scale(f(2.0)));
    let history = train_block(&mut scale, 16, 16, 16);
    assert_eq!(history[0], history[2]);
}

#[test]
fn a_block_hands_its_data_out_and_takes_it_back() {
    let mut runtime = CudaRuntime::new();
    let mut machine = Machine::new();
    let mut block = Swiglu::new(
        upload(&sample(256, 71), 16, 16, &mut runtime),
        upload(&sample(256, 72), 16, 16, &mut runtime),
        upload(&sample(256, 73), 16, 16, &mut runtime),
    );
    let mut source = HostDataCursor::new(
        (74..77).map(|seed| HostData { values: bits(&sample(256, seed)) }).collect(),
    );
    GraphNode::set_data(&mut block, &mut source, &mut runtime);
    assert_eq!(source.remaining(), 0);
    let reads = GraphNode::get_data(&block, &mut runtime);
    machine.run(&mut runtime);
    for (i, read) in reads.iter().enumerate() {
        assert_eq!(machine.downloads[read.download], sample(256, 74 + i));
    }
    let mut plain = ConcatNode::new(MatrixAxis::Rows);
    GraphNode::set_data(&mut plain, &mut source, &mut runtime);
    assert!(GraphNode::get_data(&plain, &mut runtime).is_empty());
}

#[test]
fn linear_and_transformers_are_graph_nodes() {
    is_graph_node::<Graph<false>>();
    is_graph_node::<Graph<true>>();
    is_graph_node::<Branch<false>>();
    is_graph_node::<Branch<true>>();
    is_graph_node::<Linear>();
    is_graph_node::<InferenceEncoder<1>>();
    is_graph_node::<InferenceDecoder<1>>();
    is_graph_node::<InferenceMLP>();
    is_graph_node::<Swiglu>();
    is_graph_node::<BinaryNode>();
    is_graph_node::<SingleNode>();
    is_graph_node::<ConcatNode>();
    is_graph_node::<SplitNode>();
    is_graph_node::<FanOutNode>();
    is_graph_node::<RowReduceNode>();
}

#[test]
fn graph_runs_two_complete_training_steps() {
    let mut runtime = CudaRuntime::new();
    let mut machine = Machine::new();
    let draft = GraphBuilder::start(MatrixConfig::new(16, 16))
        .then(LinearConfig::new(MatrixConfig::new(16, 16), true, Activation::Identity))
        .then(LinearConfig::new(MatrixConfig::new(16, 16), true, Activation::Identity))
        .end();
    let mut graph: Graph<true> = draft
        .init(
            &mut runtime,
            InitConfig::Random {
                loss: Loss::MeanSquaredError,
                learning_rate: LearningRateScheduler::new(f(0.01)),
            },
        )
        .unwrap();
    let target = runtime.new_matrix(InitType::Zero, 16, 16, None);

    for _ in 0..2 {
        let input = runtime.new_matrix(InitType::Random, 16, 16, None);
        let loss = graph.train_step(
            input,
            &target,
            f(1.0),
            f(0.0),
            f(0.0),
            &mut runtime,
        );
        assert_eq!(loss.buffer.len, 16);
        runtime.recycle_vector(loss);
    }

    assert_eq!(graph.learning_rate().current_step(), 2);
    runtime.recycle_matrix(target);
    runtime.sync();
    machine.run(&mut runtime);
}

/// A graph with two branches, with parameters of known values.
fn forked_graph<const TRAINING: bool>(runtime: &mut CudaRuntime) -> Graph<TRAINING> {
    let wide = |inputs: usize, bias: bool| {
        LinearConfig::new(MatrixConfig::new(inputs, 16), bias, Activation::Gelu)
    };
    let draft = GraphBuilder::start(MatrixConfig::new(16, 16))
        .copy(2)
        .map(vec![
            BranchBuilder::start().then(wide(16, true)).end(),
            BranchBuilder::start().then(wide(16, false)).then(wide(16, true)).end(),
        ])
        .concat(MatrixAxis::Columns)
        .then(wide(32, true))
        .end();
    let mut graph: Graph<TRAINING> = draft
        .init(
            runtime,
            InitConfig::Random {
                loss: Loss::MeanSquaredError,
                learning_rate: LearningRateScheduler::new(f(0.05)),
            },
        )
        .unwrap();
    let mut source = HostDataCursor::new(forked_data());
    GraphNode::set_data(&mut graph, &mut source, runtime);
    assert_eq!(source.remaining(), 0);
    graph
}

/// Its parameters in checkpoint order.
fn forked_data() -> Vec<HostData> {
    [(256, 81), (16, 88), (256, 82), (256, 83), (16, 90), (512, 84), (16, 91)]
        .iter()
        .map(|(len, seed)| HostData { values: bits(&sample(*len, *seed)) })
        .collect()
}

/// The layers of the same parameters.
fn forked_layers(runtime: &mut CudaRuntime) -> Vec<LinearTrainingNode> {
    vec![
        LinearTrainingNode::new(layer(16, 16, true, Activation::Gelu, 81, runtime)),
        LinearTrainingNode::new(layer(16, 16, false, Activation::Gelu, 82, runtime)),
        LinearTrainingNode::new(layer(16, 16, true, Activation::Gelu, 83, runtime)),
        LinearTrainingNode::new(layer(32, 16, true, Activation::Gelu, 84, runtime)),
    ]
}

fn forked_numbers(input: &[f32]) -> Vec<f32> {
    let left = layer_numbers(input, 16, 16, 16, true, Activation::Gelu, 81);
    let middle = layer_numbers(input, 16, 16, 16, false, Activation::Gelu, 82);
    let right = layer_numbers(&middle, 16, 16, 16, true, Activation::Gelu, 83);
    let joined: Vec<f32> = (0..16)
        .flat_map(|r| [&left[r * 16..(r + 1) * 16], &right[r * 16..(r + 1) * 16]].concat())
        .collect();
    layer_numbers(&joined, 16, 32, 16, true, Activation::Gelu, 84)
}

#[test]
fn a_graph_gives_the_numbers_of_its_steps() {
    let mut runtime = CudaRuntime::new();
    let mut machine = Machine::new();
    let mut graph = forked_graph::<false>(&mut runtime);
    let input = sample(256, 85);
    let outputs = run_block(&mut graph, &[(&input, 16, 16)], &mut machine, &mut runtime);
    assert_eq!(outputs.len(), 1);
    close(&machine.matrix(&outputs[0], &mut runtime), &forked_numbers(&input));
}

#[test]
fn a_graph_hands_its_data_out_in_order() {
    let mut runtime = CudaRuntime::new();
    let mut machine = Machine::new();
    let graph = forked_graph::<true>(&mut runtime);
    let reads = GraphNode::get_data(&graph, &mut runtime);
    machine.run(&mut runtime);
    let data = forked_data();
    assert_eq!(reads.len(), data.len());
    for (read, data) in reads.iter().zip(&data) {
        assert_eq!(bits(&machine.downloads[read.download]), data.values);
    }
}

#[test]
fn a_graph_trains_as_its_blocks_do() {
    let mut runtime = CudaRuntime::new();
    let mut machine = Machine::new();
    let mut graph = forked_graph::<true>(&mut runtime);
    let mut layers = forked_layers(&mut runtime);
    let mut fork = TrainingFanOutNode::new(FanOutMode::Copy, 2);
    let mut join = TrainingConcatNode::new(MatrixAxis::Columns);
    let target = upload(&sample(256, 86), 16, 16, &mut runtime);
    let config = LearnConfig { learning_rate: Rate::Held(f(0.05)), momentum: f(0.5), batch_len: 1 };

    for step in 0..2 {
        let x = upload(&sample(256, 85), 16, 16, &mut runtime);
        let loss = graph.train_step(
            x,
            &target,
            f(1.0),
            f(0.0),
            config.momentum,
            &mut runtime,
        );
        let losses = machine.vector(&loss, &mut runtime);
        runtime.recycle_vector(loss);

        let x = upload(&sample(256, 85), 16, 16, &mut runtime);
        let mut copies = GraphNode::forward(&mut fork, vec![x], &mut runtime);
        let right = vec![copies.pop().unwrap()];
        let mut left = layers[0].forward(copies, &mut runtime);
        let right = layers[1].forward(right, &mut runtime);
        let mut right = layers[2].forward(right, &mut runtime);
        left.append(&mut right);
        let joined = GraphNode::forward(&mut join, left, &mut runtime);
        let output = layers[3].forward(joined, &mut runtime).pop().unwrap();
        let rows = Loss::MeanSquaredError.loss_rows(&output, &target, f(1.0), &mut runtime);
        close(&losses, &machine.vector(&rows, &mut runtime));
        let gradient =
            Loss::MeanSquaredError.output_gradient(&output, &target, f(1.0), &mut runtime);
        let back = layers[3].backward(vec![gradient], &mut runtime);
        let mut back = TrainingNode::backward(&mut join, back, &mut runtime);
        let right = layers[2].backward(vec![back.pop().unwrap()], &mut runtime);
        let mut right = layers[1].backward(right, &mut runtime);
        let mut left = layers[0].backward(back, &mut runtime);
        left.append(&mut right);
        TrainingNode::backward(&mut fork, left, &mut runtime);
        for layer in &mut layers {
            layer.learn(config, &mut runtime);
        }

        let reads = GraphNode::get_data(&graph, &mut runtime);
        let mut expected: Vec<HostRead> = Vec::new();
        for layer in &layers {
            expected.append(&mut GraphNode::get_data(layer, &mut runtime));
        }
        machine.run(&mut runtime);
        assert_eq!(reads.len(), expected.len());
        for (read, expected) in reads.iter().zip(&expected) {
            close(&machine.downloads[read.download], &machine.downloads[expected.download]);
        }
        assert_ne!(bits(&machine.downloads[reads[0].download]), forked_data()[0].values);
        assert_eq!(graph.learning_rate().current_step(), step + 1);
    }
}

#[test]
fn training_a_graph_makes_its_loss_smaller() {
    let mut runtime = CudaRuntime::new();
    let mut machine = Machine::new();
    let mut graph = forked_graph::<true>(&mut runtime);
    let history =
        train_block_on(&mut graph, 16, 16, 16, &mut machine, &mut runtime);
    assert!(history[1] < history[0] && history[2] < history[1], "{:?}", history);
}

#[test]
fn a_graph_that_forgets_takes_an_input_again() {
    let mut runtime = CudaRuntime::new();
    let mut machine = Machine::new();
    let mut graph = forked_graph::<true>(&mut runtime);
    let input = sample(256, 87);
    let outputs = run_block(&mut graph, &[(&input, 16, 16)], &mut machine, &mut runtime);
    assert!(matches!(
        &graph.steps[0],
        Step::Node(Node::TrainingCopy(node)) if node.forward_pending
    ));
    GraphNode::clear_cache(&mut graph, &mut runtime);
    assert!(matches!(
        &graph.steps[0],
        Step::Node(Node::TrainingCopy(node)) if !node.forward_pending
    ));
    let again = run_block(&mut graph, &[(&input, 16, 16)], &mut machine, &mut runtime);
    let first = machine.matrix(&outputs[0], &mut runtime);
    assert_eq!(first, machine.matrix(&again[0], &mut runtime));
}

#[test]
fn a_branch_runs_on_its_own() {
    let mut runtime = CudaRuntime::new();
    let mut machine = Machine::new();
    let mut graph = forked_graph::<true>(&mut runtime);
    let branch = match &mut graph.steps[1] {
        Step::Branches(branches) => &mut branches[1],
        _ => unreachable!(),
    };
    let input = sample(256, 89);
    let outputs = run_block(branch, &[(&input, 16, 16)], &mut machine, &mut runtime);
    let middle = layer_numbers(&input, 16, 16, 16, false, Activation::Gelu, 82);
    close(
        &machine.matrix(&outputs[0], &mut runtime),
        &layer_numbers(&middle, 16, 16, 16, true, Activation::Gelu, 83),
    );
}

#[test]
fn a_graph_for_training_computes_as_one_for_inference() {
    let mut runtime = CudaRuntime::new();
    let mut machine = Machine::new();
    let mut trained = forked_graph::<true>(&mut runtime);
    let mut plain = forked_graph::<false>(&mut runtime);
    let input = sample(256, 92);
    let a = run_block(&mut trained, &[(&input, 16, 16)], &mut machine, &mut runtime);
    let b = run_block(&mut plain, &[(&input, 16, 16)], &mut machine, &mut runtime);
    let first = machine.matrix(&a[0], &mut runtime);
    assert_eq!(first, machine.matrix(&b[0], &mut runtime));
}

#[test]
fn transposing_twice_gives_the_matrix_back() {
    let mut runtime = CudaRuntime::new();
    let mut machine = Machine::new();
    let matrix = upload(&sample(15, 93), 3, 5, &mut runtime);
    let once = runtime.matrix_transpose(&matrix, None);
    assert_eq!((once.rows, once.cols), (5, 3));
    assert_eq!(machine.matrix(&once, &mut runtime), transposed(&sample(15, 93), 3, 5));
    let twice = runtime.matrix_transpose(&once, None);
    assert_eq!(machine.matrix(&twice, &mut runtime), sample(15, 93));
}

#[test]
fn a_training_step_is_as_long_as_the_schedule_says() {
    let mut runtime = CudaRuntime::new();
    let mut machine = Machine::new();
    let linear = layer(16, 16, false, Activation::Identity, 4, &mut runtime);
    let draft = GraphBuilder::start(MatrixConfig::new(16, 16))
        .then_node(Node::TrainingLinear(LinearTrainingNode::new(linear)))
        .end();
    let schedule = LearningRateScheduler::new(f(0.5)).linear(2, f(0.25)).exponential(2, f(0.0625));
    let mut graph: Graph<true> = draft
        .init(
            &mut runtime,
            InitConfig::Random { loss: Loss::MeanSquaredError, learning_rate: schedule },
        )
        .unwrap();
    let (input, aim) = (sample(256, 3), sample(256, 6));
    let target = upload(&aim, 16, 16, &mut runtime);
    let mut weights = sample(256, 4);
    for rate in [0.5, 0.375, 0.25, 0.125, 0.0625, 0.0625] {
        let x = upload(&input, 16, 16, &mut runtime);
        let loss = graph.train_step(x, &target, f(1.0), f(0.0), f(0.0), &mut runtime);
        runtime.recycle_vector(loss);
        let output = product(&input, &weights, 16, 16, 16);
        let gradient: Vec<f32> = (0..256).map(|i| (output[i] - aim[i]) / 256.0).collect();
        let step = product(&transposed(&input, 16, 16), &gradient, 16, 16, 16);
        for i in 0..256 {
            weights[i] -= rate * step[i];
        }
        let reads = GraphNode::get_data(&graph, &mut runtime);
        machine.run(&mut runtime);
        close(&machine.downloads[reads[0].download], &weights);
    }
}

#[test]
fn a_matrix_may_have_more_rows_than_a_grid_has_blocks() {
    let mut runtime = CudaRuntime::new();
    let mut machine = Machine::new();
    let rows = u32::MAX as usize + 2;
    let mut tall = runtime.new_matrix(InitType::Zero, rows, 0, None);
    assert_eq!((tall.rows, tall.cols, tall.buffer.len), (rows, 0, 0));
    tall.scale(Scalar::Literal(f(2.0)), &mut runtime, None);
    assert!(machine.matrix(&tall, &mut runtime).is_empty());
}
