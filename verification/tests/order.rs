//! Commands on several streams: which wait for which.

use oxide_forge::cuda::command::{Command, Kernel, Stream};
use oxide_forge::cuda::container::Matrix;
use oxide_forge::cuda::runtime::{CudaRuntime, InitType};
use oxide_forge::cuda::scalar::F32;
use oxide_forge::net::activation::Activation;
use oxide_forge::net::linear::Linear;
use oxide_forge::net::transformer::attention::{Attention, QkvProjector};

fn numbers(len: usize) -> Vec<F32> {
    (0..len).map(|i| F32 { bits: ((i % 7) as f32 - 3.0).to_bits() }).collect()
}

fn matrix(rows: usize, cols: usize, runtime: &mut CudaRuntime) -> Matrix {
    runtime.matrix_from_host(&numbers(rows * cols), rows, cols, None)
}

fn layer(runtime: &mut CudaRuntime) -> Linear {
    let weights = matrix(16, 16, runtime);
    let bias = runtime.vector_from_host(&numbers(16), None);
    Linear::new(weights, Some(bias), Activation::Silu)
}

/// The stream of a command; none where the host waits for the device.
fn carrier(command: &Command) -> Option<usize> {
    match command {
        Command::Allocate { .. } | Command::Fork { .. } => Some(0),
        Command::Free { .. } => None,
        Command::Zero { stream, .. }
        | Command::Upload { stream, .. }
        | Command::Copy { stream, .. }
        | Command::Wait { stream, .. }
        | Command::Synchronize { stream }
        | Command::Download { stream, .. }
        | Command::Launch { stream, .. } => Some(stream.id),
    }
}

/// What a command reads and what it writes.
fn touched(command: &Command) -> (Vec<usize>, Vec<usize>) {
    match command {
        Command::Allocate { buffer, .. }
        | Command::Free { buffer }
        | Command::Zero { buffer, .. }
        | Command::Upload { buffer, .. } => (vec![], vec![*buffer]),
        Command::Copy { source, target, .. } => (vec![source.buffer], vec![target.buffer]),
        Command::Download { buffer, .. } => (vec![*buffer], vec![]),
        Command::Launch { kernel, .. } => match kernel {
            Kernel::SpanSet { target, .. } | Kernel::SliceForEach { target, .. } => {
                (vec![], vec![target.buffer])
            }
            Kernel::SliceBinary { lhs, rhs, output, .. } => {
                (vec![lhs.buffer, rhs.buffer], vec![output.buffer])
            }
            Kernel::SliceBinaryAssign { target, rhs, .. } => {
                (vec![rhs.buffer], vec![target.buffer])
            }
            Kernel::BinaryAssignByRows { matrix, row, .. } => {
                (vec![row.buffer], vec![matrix.buffer])
            }
            Kernel::MapReduce { source, result, .. } => (vec![source.buffer], vec![result.buffer]),
            Kernel::ZipMapReduce { lhs, rhs, result, .. } => {
                (vec![lhs.buffer, rhs.buffer], vec![result.buffer])
            }
            Kernel::SumRows { matrix, result, .. } => (vec![matrix.buffer], vec![result.buffer]),
            Kernel::RowAssign { matrix, .. } => (vec![], vec![matrix.buffer]),
            Kernel::RowGradient { input, gradient, result, .. } => {
                (vec![input.buffer, gradient.buffer], vec![result.buffer])
            }
            Kernel::Multiply { lhs, rhs, result, .. } => {
                (vec![lhs.buffer, rhs.buffer], vec![result.buffer])
            }
            Kernel::MultiplyBatched { lhs, rhs, result } => {
                (vec![lhs.buffer, rhs.buffer], vec![result.buffer])
            }
            Kernel::Transpose { input, output, .. }
            | Kernel::TransposeBatches { input, output, .. } => {
                (vec![input.buffer], vec![output.buffer])
            }
            Kernel::CompareVectors { lhs, rhs, result, .. } => {
                (vec![lhs.buffer, rhs.buffer], vec![result.buffer])
            }
        },
        Command::Wait { .. } | Command::Fork { .. } | Command::Synchronize { .. } => {
            (vec![], vec![])
        }
    }
}

fn meet(earlier: &Command, later: &Command) -> bool {
    let ((r1, w1), (r2, w2)) = (touched(earlier), touched(later));
    !matches!(later, Command::Allocate { .. })
        && (w1.iter().any(|id| r2.contains(id) || w2.contains(id))
            || w2.iter().any(|id| r1.contains(id)))
}

/// Whether any two commands that meet follow one another.
fn ordered(commands: &[Command]) -> bool {
    let streams = 16;
    let mut done: Vec<Vec<usize>> = vec![Vec::new(); streams];
    for (j, later) in commands.iter().enumerate() {
        if let Some(s) = carrier(later) {
            if (0..j).any(|i| meet(&commands[i], later) && !done[s].contains(&i)) {
                return false;
            }
        }
        match later {
            Command::Free { .. } => done.iter_mut().for_each(|all| *all = (0..j + 1).collect()),
            Command::Wait { stream, on } => {
                let mut more = done[on.id].clone();
                more.append(&mut done[stream.id]);
                more.push(j);
                done[stream.id] = more;
            }
            Command::Fork { stream } => {
                done[0].push(j);
                done[stream.id] = done[0].clone();
            }
            _ => done[carrier(later).unwrap()].push(j),
        }
    }
    true
}

fn attend(masked: bool, streams: bool) -> Vec<Command> {
    let mut runtime = CudaRuntime::new();
    let (query, key, value) = (layer(&mut runtime), layer(&mut runtime), layer(&mut runtime));
    let streams = if streams { Some(runtime.create_extra_streams(3)) } else { None };
    let mut attention = Attention::<2>::new(query, key, value, streams);
    let input = matrix(8, 16, &mut runtime);
    let again = matrix(8, 16, &mut runtime);
    for source in [&input, &again] {
        let output = if masked {
            attention.forward_mask(source, source, &mut runtime)
        } else {
            attention.forward(source, &input, &mut runtime)
        };
        runtime.recycle_matrix(output);
    }
    runtime.take_pending()
}

#[test]
fn attention_keeps_its_work_in_order() {
    for masked in [false, true] {
        for streams in [false, true] {
            assert!(ordered(&attend(masked, streams)));
        }
    }
}

#[test]
fn without_its_joins_attention_is_out_of_order() {
    let mut commands = attend(false, true);
    let joins: Vec<usize> = (0..commands.len())
        .filter(|i| matches!(commands[*i], Command::Wait { stream: Stream { id: 0 }, .. }))
        .collect();
    assert_eq!(joins.len(), 6);
    for join in joins {
        let removed = std::mem::replace(&mut commands[join], Command::Synchronize { stream: Stream { id: 9 } });
        assert!(!ordered(&commands));
        commands[join] = removed;
    }
    assert!(ordered(&commands));
}

#[test]
fn projections_go_to_their_streams() {
    let mut runtime = CudaRuntime::new();
    let (query, key, value) = (layer(&mut runtime), layer(&mut runtime), layer(&mut runtime));
    let streams = runtime.create_extra_streams(3);
    let mut projector = QkvProjector::new(query, key, value, Some(streams));
    let input = matrix(4, 16, &mut runtime);
    runtime.take_pending();
    let made = projector.project(&input, &input, &mut runtime);
    let commands = runtime.take_pending();
    let places = [(made.query.buffer.id, 1), (made.key.buffer.id, 2), (made.value.buffer.id, 3)];
    for (buffer, stream) in places {
        let work: Vec<&Command> = commands
            .iter()
            .filter(|c| matches!(c, Command::Launch { .. }) && touched(c).1.contains(&buffer))
            .collect();
        assert_eq!(work.len(), 3);
        assert!(work.iter().all(|c| carrier(c) == Some(stream)));
    }
}

#[test]
fn work_on_another_stream_waits_for_the_primary_one() {
    let mut runtime = CudaRuntime::new();
    let streams = runtime.create_extra_streams(1);
    runtime.take_pending();
    let made = runtime.vector_from_host(&numbers(3), Some(streams[0]));
    let commands = runtime.take_pending();
    assert_eq!(
        commands,
        vec![
            Command::Allocate { buffer: made.buffer.id, len: 3 },
            Command::Wait { stream: streams[0], on: Stream { id: 0 } },
            Command::Upload {
                buffer: made.buffer.id,
                values: numbers(3),
                stream: streams[0]
            },
        ]
    );
}

#[test]
fn clearing_frees_every_idle_buffer_and_nothing_else() {
    let mut runtime = CudaRuntime::new();
    let (a, b, c) =
        (runtime.get_uninit_buffer(3), runtime.get_uninit_buffer(5), runtime.get_uninit_buffer(3));
    let (first, second, kept) = (a.id, b.id, c.id);
    runtime.recycle_buffer(a);
    runtime.recycle_buffer(b);
    runtime.take_pending();
    runtime.clear_buffers();
    let commands = runtime.take_pending();
    assert_eq!(commands.len(), 2);
    assert!(commands.contains(&Command::Free { buffer: first }));
    assert!(commands.contains(&Command::Free { buffer: second }));
    assert!(!commands.contains(&Command::Free { buffer: kept }));
    runtime.clear_buffers();
    assert!(runtime.take_pending().is_empty());
}

#[test]
fn reserving_allocates_what_is_missing() {
    let mut runtime = CudaRuntime::new();
    let a = runtime.get_uninit_buffer(4);
    runtime.recycle_buffer(a);
    runtime.take_pending();
    runtime.reserve_buffers(4, 3);
    assert_eq!(
        runtime.take_pending(),
        vec![Command::Allocate { buffer: 1, len: 4 }, Command::Allocate { buffer: 2, len: 4 }]
    );
    runtime.reserve_buffers(4, 2);
    runtime.reserve_buffers(0, 2);
    assert!(runtime.take_pending().is_empty());
}

#[test]
fn draws_are_told_apart() {
    let mut runtime = CudaRuntime::new();
    let _ = runtime.new_vector(InitType::Random, 4, None);
    let _ = runtime.new_vector(InitType::Zero, 4, None);
    let _ = runtime.new_matrix(InitType::Random, 2, 2, None);
    let fills: Vec<String> = runtime
        .take_pending()
        .iter()
        .filter_map(|c| match c {
            Command::Launch { kernel: Kernel::SpanSet { f, .. }, .. } => Some(format!("{f:?}")),
            _ => None,
        })
        .filter(|f| f.starts_with("Random"))
        .collect();
    assert_eq!(fills.len(), 2);
    assert_ne!(fills[0], fills[1]);
}
