//! The meaning of commands: what each does to the memory of a device.
//!
//! Commands take effect in the order in which they are issued. On a device
//! with several streams that holds of work that is in order: where no two
//! commands that meet in a buffer run against one another.

use vstd::prelude::*;

use super::algebra::{
    apply, initial, literals, product, row_apply, row_gradient, row_totals, transpose,
    transpose_batches, undefined, zeros, zip, zip_by_rows, Term,
};
use super::arith::ceil_div;
use super::command::{Command, DeviceSliceDescriptor, Kernel, LaunchConfig, MatrixBatchDescriptor};

verus! {

/// Memory by buffer, and what was brought to the host so far.
pub struct Device {
    pub mem: Map<usize, Seq<Term>>,
    pub downloads: Seq<Seq<Term>>,
}

/// The elements that a launch reaches when every thread handles
/// `per_thread` elements at the distance of the whole grid.
pub open spec fn reach(config: LaunchConfig, per_thread: int) -> int {
    config.grid_x * config.block_x * per_thread
}

/// The first `reach` elements of `new`, then those of `old`.
pub open spec fn partly(old: Seq<Term>, new: Seq<Term>, reach: int) -> Seq<Term> {
    Seq::new(
        old.len(),
        |i: int|
            if i < reach {
                new[i]
            } else {
                old[i]
            },
    )
}

/// `new` if the launch covers its work, nothing that can be relied on otherwise.
pub open spec fn covered(covers: bool, new: Seq<Term>) -> Seq<Term> {
    if covers {
        new
    } else {
        undefined(new.len())
    }
}

impl Device {
    /// The contents of a range.
    pub open spec fn read(self, d: DeviceSliceDescriptor) -> Seq<Term> {
        self.mem[d.buffer].subrange(d.offset as int, d.offset + d.len)
    }

    /// Replaces the contents of a range.
    pub open spec fn write(self, d: DeviceSliceDescriptor, values: Seq<Term>) -> Device {
        Device {
            mem: self.mem.insert(
                d.buffer,
                Seq::new(
                    self.mem[d.buffer].len(),
                    |i: int|
                        if d.offset <= i < d.offset + d.len {
                            values[i - d.offset]
                        } else {
                            self.mem[d.buffer][i]
                        },
                ),
            ),
            downloads: self.downloads,
        }
    }

    /// Replaces a whole buffer by contents of the same length.
    pub open spec fn replace(self, buffer: usize, values: Seq<Term>) -> Device {
        Device {
            mem: self.mem.insert(
                buffer,
                Seq::new(self.mem[buffer].len(), |i: int| values[i]),
            ),
            downloads: self.downloads,
        }
    }

    /// An element of a batch of matrices.
    pub open spec fn element(self, d: MatrixBatchDescriptor, batch: int, row: int, col: int) -> Term {
        self.mem[d.buffer][d.at(batch, row, col)]
    }

    /// An element of the product of two batches of matrices.
    pub open spec fn batch_dot(
        self,
        lhs: MatrixBatchDescriptor,
        rhs: MatrixBatchDescriptor,
        batch: int,
        row: int,
        col: int,
    ) -> Term {
        Term::Dot(
            Seq::new(lhs.cols as nat, |k: int| self.element(lhs, batch, row, k)),
            Seq::new(lhs.cols as nat, |k: int| self.element(rhs, batch, k, col)),
        )
    }

    /// The result buffer of a batched product.
    pub open spec fn batch_product(
        self,
        lhs: MatrixBatchDescriptor,
        rhs: MatrixBatchDescriptor,
        result: MatrixBatchDescriptor,
    ) -> Seq<Term> {
        Seq::new(
            self.mem[result.buffer].len(),
            |i: int|
                if exists|b: int, r: int, c: int| #[trigger]
                    result.at(b, r, c) == i && result.contains(b, r, c) {
                    let (b, r, c) = choose|b: int, r: int, c: int| #[trigger]
                        result.at(b, r, c) == i && result.contains(b, r, c);
                    self.batch_dot(lhs, rhs, b, r, c)
                } else {
                    self.mem[result.buffer][i]
                },
        )
    }

    /// The effect of a kernel.
    pub open spec fn launch(self, kernel: Kernel, config: LaunchConfig) -> Device {
        match kernel {
            Kernel::SpanSet { target, elements_per_thread, f } => self.write(
                target,
                partly(
                    self.read(target),
                    initial(f, target.len as nat),
                    reach(config, elements_per_thread as int),
                ),
            ),
            Kernel::SliceForEach { target, elements_per_thread, f } => self.write(
                target,
                partly(
                    self.read(target),
                    apply(f, self.read(target)),
                    reach(config, elements_per_thread as int),
                ),
            ),
            Kernel::SliceBinary { lhs, rhs, output, elements_per_thread, f } => self.write(
                output,
                partly(
                    self.read(output),
                    zip(f, self.read(lhs), self.read(rhs)),
                    reach(config, elements_per_thread as int),
                ),
            ),
            Kernel::SliceBinaryAssign { target, rhs, elements_per_thread, f } => self.write(
                target,
                partly(
                    self.read(target),
                    zip(f, self.read(target), self.read(rhs)),
                    reach(config, elements_per_thread as int),
                ),
            ),
            Kernel::BinaryAssignByRows { matrix, row, cols, f } => self.write(
                matrix,
                partly(
                    self.read(matrix),
                    zip_by_rows(f, self.read(matrix), self.read(row), cols as nat),
                    reach(config, 1),
                ),
            ),
            Kernel::MapReduce { source, result, elements_per_thread, map, reduce, identity } => {
                self.write(
                    result,
                    covered(
                        config.block_x == 1024 && elements_per_thread == ceil_div(
                            source.len as int,
                            1024,
                        ) && config.shared_bytes >= 128,
                        seq![Term::Reduce(map, reduce, identity, self.read(source))],
                    ),
                )
            },
            Kernel::ZipMapReduce { lhs, rhs, result, elements_per_thread, map, reduce, identity } => {
                self.write(
                    result,
                    covered(
                        config.block_x == 1024 && elements_per_thread == ceil_div(
                            lhs.len as int,
                            1024,
                        ) && config.shared_bytes >= 128,
                        seq![Term::ZipReduce(map, reduce, identity, self.read(lhs), self.read(rhs))],
                    ),
                )
            },
            Kernel::SumRows { matrix, result, cols, elements_per_thread } => self.write(
                result,
                covered(
                    config.grid_x >= result.len && config.block_x == 1024 && elements_per_thread
                        == ceil_div(cols as int, 1024) && config.shared_bytes >= 128,
                    row_totals(self.read(matrix), result.len as nat, cols as nat),
                ),
            ),
            Kernel::RowAssign { matrix, cols, f } => self.write(
                matrix,
                covered(
                    config.grid_x * cols >= matrix.len,
                    row_apply(f, self.read(matrix), cols as nat),
                ),
            ),
            Kernel::RowGradient { input, gradient, result, cols, f } => self.write(
                result,
                covered(
                    config.grid_x * cols >= result.len,
                    row_gradient(f, self.read(input), self.read(gradient), cols as nat),
                ),
            ),
            Kernel::Multiply { lhs, rhs, result, inner, rows, cols } => self.write(
                result,
                covered(
                    config.block_x == 128 && config.grid_x >= ceil_div(rows as int, 32) * ceil_div(
                        cols as int,
                        32,
                    ),
                    product(self.read(lhs), self.read(rhs), rows as nat, inner as nat, cols as nat),
                ),
            ),
            Kernel::MultiplyBatched { lhs, rhs, result } => self.replace(
                result.buffer,
                covered(
                    config.block_x == 128 && config.grid_x >= result.batches * (ceil_div(
                        result.rows as int,
                        32,
                    ) * ceil_div(result.cols as int, 32)),
                    self.batch_product(lhs, rhs, result),
                ),
            ),
            Kernel::Transpose { input, output, rows, cols } => self.write(
                output,
                covered(
                    config.block_x == 32 && config.block_y == 8 && config.grid_x * 32 >= cols
                        && config.grid_y * 32 >= rows,
                    transpose(self.read(input), rows as nat, cols as nat),
                ),
            ),
            Kernel::TransposeBatches { input, output, rows, cols, batches } => self.write(
                output,
                covered(
                    config.block_x == 32 && config.block_y == 8 && config.grid_x * 32 >= cols
                        && config.grid_y >= batches * ceil_div(rows as int, 32),
                    transpose_batches(self.read(input), batches as nat, rows as nat, cols as nat),
                ),
            ),
            Kernel::CompareVectors { lhs, rhs, elements_per_thread, result } => self.write(
                result,
                covered(
                    config.block_x == 1024 && elements_per_thread == ceil_div(
                        lhs.len as int,
                        1024,
                    ),
                    seq![Term::Same(self.read(lhs), self.read(rhs))],
                ),
            ),
        }
    }

    /// The effect of a command.
    pub open spec fn step(self, command: Command) -> Device {
        match command {
            Command::Allocate { buffer, len } => Device {
                mem: self.mem.insert(buffer, undefined(len as nat)),
                downloads: self.downloads,
            },
            Command::Zero { buffer, stream } => self.replace(buffer, zeros(self.mem[buffer].len())),
            Command::Upload { buffer, values, stream } => self.replace(buffer, literals(values@)),
            Command::Copy { source, target, stream } => self.write(target, self.read(source)),
            Command::Download { buffer, stream } => Device {
                mem: self.mem,
                downloads: self.downloads.push(self.mem[buffer]),
            },
            Command::Launch { kernel, config, stream } => self.launch(kernel, config),
            _ => self,
        }
    }

    /// The state of a device without buffers.
    pub open spec fn blank() -> Device {
        Device { mem: Map::empty(), downloads: Seq::empty() }
    }
}

/// The state that a sequence of commands leads to.
pub open spec fn run(commands: Seq<Command>) -> Device
    decreases commands.len(),
{
    if commands.len() == 0 {
        Device::blank()
    } else {
        run(commands.drop_last()).step(commands.last())
    }
}

/// Issuing one more command is one more step.
pub proof fn lemma_run_push(commands: Seq<Command>, command: Command)
    ensures
        run(commands.push(command)) == run(commands).step(command),
{
    assert(commands.push(command).drop_last() =~= commands);
}

/// No command but an allocation changes the length of a buffer.
pub proof fn lemma_step_keeps_lengths(device: Device, command: Command, buffer: usize)
    requires
        !(command is Allocate),
    ensures
        device.step(command).mem[buffer].len() == device.mem[buffer].len(),
        device.mem.contains_key(buffer) ==> device.step(command).mem.contains_key(buffer),
{
}

} // verus!
