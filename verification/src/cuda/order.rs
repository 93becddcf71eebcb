//! Which commands wait for which.
//!
//! Commands on one stream are carried out one after the other. Commands on two streams
//! are so only where a wait or a fork makes one stream go on behind the other. Work is in
//! order if any two commands that meet in a buffer are carried out in the order in which
//! they were issued.

use vstd::prelude::*;

use super::command::{Command, Kernel, Stream};
use super::model::Device;

verus! {

/// The primary stream.
pub open spec fn primary() -> Stream {
    Stream { id: 0 }
}

/// The stream that carries a command out. Giving memory back is the host's work: it waits
/// until the whole device is idle.
pub open spec fn carrier(command: Command) -> Option<Stream> {
    match command {
        Command::Allocate { .. } => Some(primary()),
        Command::Free { .. } => None,
        Command::Zero { stream, .. } => Some(stream),
        Command::Upload { stream, .. } => Some(stream),
        Command::Copy { stream, .. } => Some(stream),
        Command::Wait { stream, .. } => Some(stream),
        Command::Fork { .. } => Some(primary()),
        Command::Synchronize { stream } => Some(stream),
        Command::Download { stream, .. } => Some(stream),
        Command::Launch { stream, .. } => Some(stream),
    }
}

/// The buffers that a kernel reads without writing them.
pub open spec fn kernel_reads(kernel: Kernel) -> Set<usize> {
    match kernel {
        Kernel::SpanSet { .. } => Set::empty(),
        Kernel::SliceForEach { .. } => Set::empty(),
        Kernel::SliceBinary { lhs, rhs, .. } => set![lhs.buffer, rhs.buffer],
        Kernel::SliceBinaryAssign { rhs, .. } => set![rhs.buffer],
        Kernel::BinaryAssignByRows { row, .. } => set![row.buffer],
        Kernel::MapReduce { source, .. } => set![source.buffer],
        Kernel::ZipMapReduce { lhs, rhs, .. } => set![lhs.buffer, rhs.buffer],
        Kernel::SumRows { matrix, .. } => set![matrix.buffer],
        Kernel::RowAssign { .. } => Set::empty(),
        Kernel::RowGradient { input, gradient, .. } => set![input.buffer, gradient.buffer],
        Kernel::Multiply { lhs, rhs, .. } => set![lhs.buffer, rhs.buffer],
        Kernel::MultiplyBatched { lhs, rhs, .. } => set![lhs.buffer, rhs.buffer],
        Kernel::Transpose { input, .. } => set![input.buffer],
        Kernel::TransposeBatches { input, .. } => set![input.buffer],
        Kernel::CompareVectors { lhs, rhs, .. } => set![lhs.buffer, rhs.buffer],
    }
}

/// The buffer that a kernel writes.
pub open spec fn kernel_writes(kernel: Kernel) -> usize {
    match kernel {
        Kernel::SpanSet { target, .. } => target.buffer,
        Kernel::SliceForEach { target, .. } => target.buffer,
        Kernel::SliceBinary { output, .. } => output.buffer,
        Kernel::SliceBinaryAssign { target, .. } => target.buffer,
        Kernel::BinaryAssignByRows { matrix, .. } => matrix.buffer,
        Kernel::MapReduce { result, .. } => result.buffer,
        Kernel::ZipMapReduce { result, .. } => result.buffer,
        Kernel::SumRows { result, .. } => result.buffer,
        Kernel::RowAssign { matrix, .. } => matrix.buffer,
        Kernel::RowGradient { result, .. } => result.buffer,
        Kernel::Multiply { result, .. } => result.buffer,
        Kernel::MultiplyBatched { result, .. } => result.buffer,
        Kernel::Transpose { output, .. } => output.buffer,
        Kernel::TransposeBatches { output, .. } => output.buffer,
        Kernel::CompareVectors { result, .. } => result.buffer,
    }
}

/// The buffers that a command reads without writing them.
pub open spec fn reads(command: Command) -> Set<usize> {
    match command {
        Command::Copy { source, .. } => set![source.buffer],
        Command::Download { buffer, .. } => set![buffer],
        Command::Launch { kernel, .. } => kernel_reads(kernel),
        _ => Set::empty(),
    }
}

/// The buffers that a command writes, makes or gives back.
pub open spec fn writes(command: Command) -> Set<usize> {
    match command {
        Command::Allocate { buffer, .. } => set![buffer],
        Command::Free { buffer } => set![buffer],
        Command::Zero { buffer, .. } => set![buffer],
        Command::Upload { buffer, .. } => set![buffer],
        Command::Copy { target, .. } => set![target.buffer],
        Command::Launch { kernel, .. } => set![kernel_writes(kernel)],
        _ => Set::empty(),
    }
}

/// A command changes no buffer but those that it writes.
pub proof fn law_commands_change_what_they_write(device: Device, command: Command, id: usize)
    requires
        !writes(command).contains(id),
    ensures
        device.step(command).mem[id] == device.mem[id],
{
    if let Command::Launch { kernel, .. } = command {
        assert(id != kernel_writes(kernel));
    }
}

/// What a command leaves in the buffers that it writes depends on the buffers that it reads or
/// writes alone.
#[verifier::spinoff_prover]
pub proof fn law_commands_depend_on_what_they_read(
    device: Device,
    other: Device,
    command: Command,
    id: usize,
)
    requires
        writes(command).contains(id),
        forall|buffer: usize| #[trigger]
            reads(command).union(writes(command)).contains(buffer) ==> device.mem[buffer]
                == other.mem[buffer],
    ensures
        device.step(command).mem[id] == other.step(command).mem[id],
{
    let touched = reads(command).union(writes(command));
    assert(touched.contains(id));
    match command {
        Command::Copy { source, target, .. } => {
            assert(touched.contains(source.buffer));
            assert(device.read(source) == other.read(source));
        },
        Command::Launch { kernel, config, .. } => {
            assert(id == kernel_writes(kernel));
            match kernel {
                Kernel::SliceBinary { lhs, rhs, .. } => {
                    assert(touched.contains(lhs.buffer) && touched.contains(rhs.buffer));
                },
                Kernel::SliceBinaryAssign { rhs, .. } => {
                    assert(touched.contains(rhs.buffer));
                },
                Kernel::BinaryAssignByRows { row, .. } => {
                    assert(touched.contains(row.buffer));
                },
                Kernel::MapReduce { source, .. } => {
                    assert(touched.contains(source.buffer));
                },
                Kernel::ZipMapReduce { lhs, rhs, .. } => {
                    assert(touched.contains(lhs.buffer) && touched.contains(rhs.buffer));
                },
                Kernel::SumRows { matrix, .. } => {
                    assert(touched.contains(matrix.buffer));
                },
                Kernel::RowGradient { input, gradient, .. } => {
                    assert(touched.contains(input.buffer) && touched.contains(gradient.buffer));
                },
                Kernel::Multiply { lhs, rhs, .. } => {
                    assert(touched.contains(lhs.buffer) && touched.contains(rhs.buffer));
                },
                Kernel::MultiplyBatched { lhs, rhs, result } => {
                    assert(touched.contains(lhs.buffer) && touched.contains(rhs.buffer));
                    assert forall|b: int, r: int, c: int| #[trigger]
                        device.batch_dot(lhs, rhs, b, r, c) == other.batch_dot(lhs, rhs, b, r, c) by {
                        assert(Seq::new(lhs.cols as nat, |k: int| device.element(lhs, b, r, k))
                            =~= Seq::new(lhs.cols as nat, |k: int| other.element(lhs, b, r, k)));
                        assert(Seq::new(lhs.cols as nat, |k: int| device.element(rhs, b, k, c))
                            =~= Seq::new(lhs.cols as nat, |k: int| other.element(rhs, b, k, c)));
                    }
                    assert(device.batch_product(lhs, rhs, result) =~= other.batch_product(
                        lhs,
                        rhs,
                        result,
                    ));
                },
                Kernel::Transpose { input, .. } => {
                    assert(touched.contains(input.buffer));
                },
                Kernel::TransposeBatches { input, .. } => {
                    assert(touched.contains(input.buffer));
                },
                Kernel::CompareVectors { lhs, rhs, .. } => {
                    assert(touched.contains(lhs.buffer) && touched.contains(rhs.buffer));
                },
                _ => {},
            }
        },
        _ => {},
    }
    assert(device.step(command).mem[id] =~= other.step(command).mem[id]);
}

/// A buffer that one command writes ends up the same, whether another command that writes
/// nothing the first one touches comes before or after it.
proof fn lemma_changes_places(device: Device, one: Command, other: Command, id: usize)
    requires
        writes(one).contains(id),
        forall|buffer: usize| #[trigger]
            writes(other).contains(buffer) ==> !reads(one).contains(buffer) && !writes(
                one,
            ).contains(buffer),
    ensures
        device.step(one).step(other).mem[id] == device.step(other).step(one).mem[id],
{
    assert(!writes(other).contains(id));
    law_commands_change_what_they_write(device.step(one), other, id);
    assert forall|buffer: usize| #[trigger]
        reads(one).union(writes(one)).contains(buffer) implies device.mem[buffer] == device.step(
        other,
    ).mem[buffer] by {
        assert(!writes(other).contains(buffer));
        law_commands_change_what_they_write(device, other, buffer);
    }
    law_commands_depend_on_what_they_read(device, device.step(other), one, id);
}

/// Commands that do not meet can change places: whichever comes first, every buffer ends up
/// with the same contents.
pub proof fn law_commands_that_do_not_meet_change_places(
    device: Device,
    first: Command,
    second: Command,
    id: usize,
)
    requires
        !(second is Allocate),
        !meet(first, second),
    ensures
        device.step(first).step(second).mem[id] == device.step(second).step(first).mem[id],
{
    if writes(first).contains(id) {
        lemma_changes_places(device, first, second, id);
    } else if writes(second).contains(id) {
        assert forall|buffer: usize| #[trigger] writes(first).contains(buffer) implies !reads(
            second,
        ).contains(buffer) && !writes(second).contains(buffer) by {}
        lemma_changes_places(device, second, first, id);
    } else {
        law_commands_change_what_they_write(device, first, id);
        law_commands_change_what_they_write(device, second, id);
        law_commands_change_what_they_write(device.step(first), second, id);
        law_commands_change_what_they_write(device.step(second), first, id);
    }
}

/// Whether a command only directs streams and touches no buffer.
pub open spec fn directs(command: Command) -> bool {
    command is Wait || command is Fork || command is Synchronize
}

/// Whether two commands meet in a buffer that one of them writes. What an allocation makes
/// is new, so nothing issued earlier meets it.
pub open spec fn meet(earlier: Command, later: Command) -> bool {
    &&& !(later is Allocate)
    &&& exists|id: usize|
        #![trigger writes(earlier).contains(id)]
        #![trigger writes(later).contains(id)]
        {
            ||| writes(earlier).contains(id) && (reads(later).contains(id) || writes(
                later,
            ).contains(id))
            ||| writes(later).contains(id) && reads(earlier).contains(id)
        }
}

/// Whether a command is done before a stream starts anything that is issued from position
/// `n` on: the command is on that stream, or the stream was made to wait for a stream for
/// which it is done, or memory was given back meanwhile.
pub open spec fn done_for(issued: Seq<Command>, n: int, i: int, s: Stream) -> bool
    decreases n,
{
    if !(0 <= i < n <= issued.len()) {
        false
    } else if i == n - 1 {
        carrier(issued[i]) is None || carrier(issued[i]) == Some(s)
    } else {
        ||| done_for(issued, n - 1, i, s)
        ||| match issued[n - 1] {
            Command::Free { .. } => true,
            Command::Wait { stream, on } => stream == s && done_for(issued, n - 1, i, on),
            Command::Fork { stream } => stream == s && done_for(issued, n - 1, i, primary()),
            _ => false,
        }
    }
}

/// A later command starts only once an earlier one is done.
pub open spec fn follows(issued: Seq<Command>, earlier: int, later: int) -> bool {
    &&& 0 <= earlier < later < issued.len()
    &&& match carrier(issued[later]) {
        None => true,
        Some(s) => done_for(issued, later, earlier, s),
    }
}

/// Any two commands that meet in a buffer follow one another.
pub open spec fn ordered(issued: Seq<Command>) -> bool {
    forall|i: int, j: int|
        #![trigger meet(issued[i], issued[j])]
        0 <= i < j < issued.len() && meet(issued[i], issued[j]) ==> follows(issued, i, j)
}

/// Work on a stream that the primary one does not wait for yet, and the buffers to which it
/// keeps.
pub ghost struct Lane {
    pub stream: Stream,
    pub read: Set<usize>,
    pub written: Set<usize>,
}

/// Whether a command touches no other buffers than a lane's.
pub open spec fn within(command: Command, read: Set<usize>, written: Set<usize>) -> bool {
    &&& reads(command).subset_of(read.union(written))
    &&& writes(command).subset_of(written)
}

/// Whether work on some buffers can go on beside a lane.
pub open spec fn beside(read: Set<usize>, written: Set<usize>, lane: Lane) -> bool {
    &&& written.disjoint(lane.read)
    &&& written.disjoint(lane.written)
    &&& read.disjoint(lane.written)
}

/// The work is in order, and whatever the primary stream does not wait for yet belongs to
/// one of these lanes.
pub open spec fn calm(issued: Seq<Command>, lanes: Seq<Lane>) -> bool {
    &&& ordered(issued)
    &&& forall|i: int|
        #![trigger issued[i]]
        0 <= i < issued.len() ==> {
            ||| directs(issued[i])
            ||| done_for(issued, issued.len() as int, i, primary())
            ||| exists|k: int|
                0 <= k < lanes.len() && #[trigger] belongs_to(issued, i, lanes[k])
        }
}

/// Whether a command belongs to a lane.
pub open spec fn belongs_to(issued: Seq<Command>, i: int, lane: Lane) -> bool {
    &&& within(issued[i], lane.read, lane.written)
    &&& done_for(issued, issued.len() as int, i, lane.stream)
}

/// The work is in order, and the primary stream waits for all of it.
#[verifier::opaque]
pub open spec fn orderly(issued: Seq<Command>) -> bool {
    calm(issued, Seq::empty())
}

/// What is done for a stream stays so.
pub proof fn lemma_done_stays(issued: Seq<Command>, more: Seq<Command>, n: int, m: int, i: int, s: Stream)
    requires
        n <= m <= more.len(),
        n <= issued.len() <= more.len(),
        more.take(issued.len() as int) == issued,
        done_for(issued, n, i, s),
    ensures
        done_for(more, m, i, s),
    decreases m - n, n,
{
    if m > n {
        lemma_done_stays(issued, more, n, m - 1, i, s);
    } else {
        assert(more[n - 1] == more.take(issued.len() as int)[n - 1]);
        assert(more[i] == more.take(issued.len() as int)[i]);
        if i < n - 1 {
            if done_for(issued, n - 1, i, s) {
                lemma_done_stays(issued, more, n - 1, n - 1, i, s);
            }
            match issued[n - 1] {
                Command::Wait { stream, on } => {
                    if stream == s && done_for(issued, n - 1, i, on) {
                        lemma_done_stays(issued, more, n - 1, n - 1, i, on);
                    }
                },
                Command::Fork { stream } => {
                    if stream == s && done_for(issued, n - 1, i, primary()) {
                        lemma_done_stays(issued, more, n - 1, n - 1, i, primary());
                    }
                },
                _ => {},
            }
        }
    }
}

/// What was so of the first commands is so of them among more.
pub proof fn lemma_done_back(issued: Seq<Command>, more: Seq<Command>, n: int, i: int, s: Stream)
    requires
        n <= issued.len() <= more.len(),
        more.take(issued.len() as int) == issued,
        done_for(more, n, i, s),
    ensures
        done_for(issued, n, i, s),
    decreases n,
{
    assert(more[n - 1] == more.take(issued.len() as int)[n - 1]);
    assert(more[i] == more.take(issued.len() as int)[i]);
    if i < n - 1 {
        if done_for(more, n - 1, i, s) {
            lemma_done_back(issued, more, n - 1, i, s);
        }
        match more[n - 1] {
            Command::Wait { stream, on } => {
                if stream == s && done_for(more, n - 1, i, on) {
                    lemma_done_back(issued, more, n - 1, i, on);
                }
            },
            Command::Fork { stream } => {
                if stream == s && done_for(more, n - 1, i, primary()) {
                    lemma_done_back(issued, more, n - 1, i, primary());
                }
            },
            _ => {},
        }
    }
}

/// What is done for a command's stream before it starts is done for whatever the command
/// itself is done for.
proof fn lemma_done_through(issued: Seq<Command>, n: int, i: int, j: int, s: Stream)
    requires
        follows(issued, i, j),
        done_for(issued, n, j, s),
    ensures
        done_for(issued, n, i, s),
    decreases n,
{
    if j == n - 1 {
        match carrier(issued[j]) {
            Some(t) => {
                assert(t == s);
                assert(issued.take(issued.len() as int) =~= issued);
                lemma_done_stays(issued, issued, j, n, i, s);
            },
            None => {
                assert(issued[n - 1] is Free);
            },
        }
    } else {
        if done_for(issued, n - 1, j, s) {
            lemma_done_through(issued, n - 1, i, j, s);
        }
        match issued[n - 1] {
            Command::Wait { stream, on } => {
                if stream == s && done_for(issued, n - 1, j, on) {
                    lemma_done_through(issued, n - 1, i, j, on);
                }
            },
            Command::Fork { stream } => {
                if stream == s && done_for(issued, n - 1, j, primary()) {
                    lemma_done_through(issued, n - 1, i, j, primary());
                }
            },
            _ => {},
        }
    }
}

/// A command that follows another follows whatever that one follows.
pub proof fn law_following_is_transitive(issued: Seq<Command>, i: int, j: int, k: int)
    requires
        follows(issued, i, j),
        follows(issued, j, k),
    ensures
        follows(issued, i, k),
{
    if let Some(s) = carrier(issued[k]) {
        assert(issued.take(issued.len() as int) =~= issued);
        lemma_done_through(issued, k, i, j, s);
    }
}

/// Work that is in order has no two commands that meet in a buffer and do not follow one
/// another.
pub proof fn law_commands_that_meet_follow(issued: Seq<Command>, i: int, j: int)
    requires
        orderly(issued),
        0 <= i < j < issued.len(),
        meet(issued[i], issued[j]),
    ensures
        follows(issued, i, j),
{
    reveal(orderly);
}

/// A command waits for what was queued on a stream that its own stream was made to wait for.
proof fn lemma_linked(issued: Seq<Command>, i: int, w: int, j: int, s: Stream, t: Stream)
    requires
        0 <= i < w < j < issued.len(),
        carrier(issued[i]) == Some(s),
        carrier(issued[j]) == Some(t),
        issued[w] == (Command::Wait { stream: t, on: s }) || (s == primary() && issued[w]
            == (Command::Fork { stream: t })),
    ensures
        follows(issued, i, j),
{
    assert(issued.take(issued.len() as int) =~= issued);
    assert(done_for(issued, i + 1, i, s));
    lemma_done_stays(issued, issued, i + 1, w, i, s);
    assert(done_for(issued, w + 1, i, t));
    lemma_done_stays(issued, issued, w + 1, j, i, t);
}

/// What is queued on a stream after it was forked waits for everything that was queued on
/// the primary one before.
pub proof fn law_forked_streams_wait_for_the_primary(
    before: Seq<Command>,
    streams: Seq<Stream>,
    after: Seq<Command>,
    earlier: int,
    later: int,
    k: int,
)
    requires
        0 <= k < streams.len(),
        0 <= earlier < before.len(),
        carrier(before[earlier]) == Some(primary()),
        0 <= later < after.len(),
        carrier(after[later]) == Some(streams[k]),
    ensures
        follows(
            before + Seq::new(
                streams.len(),
                |i: int| Command::Wait { stream: streams[i], on: primary() },
            ) + after,
            earlier,
            before.len() + streams.len() + later,
        ),
{
    let links = Seq::new(
        streams.len(),
        |i: int| Command::Wait { stream: streams[i], on: primary() },
    );
    let issued = before + links + after;
    assert(issued[earlier] == before[earlier]);
    assert(issued[before.len() + k] == links[k]);
    assert(issued[before.len() + streams.len() + later] == after[later]);
    lemma_linked(
        issued,
        earlier,
        before.len() + k,
        before.len() + streams.len() + later,
        primary(),
        streams[k],
    );
}

/// What is queued on a new stream waits for everything that was queued on the primary one
/// before.
pub proof fn law_new_streams_start_after_the_primary(
    before: Seq<Command>,
    streams: Seq<Stream>,
    after: Seq<Command>,
    earlier: int,
    later: int,
    k: int,
)
    requires
        0 <= k < streams.len(),
        0 <= earlier < before.len(),
        carrier(before[earlier]) == Some(primary()),
        0 <= later < after.len(),
        carrier(after[later]) == Some(streams[k]),
    ensures
        follows(
            before + Seq::new(
                streams.len(),
                |i: int| Command::Fork { stream: streams[i] },
            ) + after,
            earlier,
            before.len() + streams.len() + later,
        ),
{
    let links = Seq::new(
        streams.len(),
        |i: int| Command::Fork { stream: streams[i] },
    );
    let issued = before + links + after;
    assert(issued[earlier] == before[earlier]);
    assert(issued[before.len() + k] == links[k]);
    assert(issued[before.len() + streams.len() + later] == after[later]);
    lemma_linked(
        issued,
        earlier,
        before.len() + k,
        before.len() + streams.len() + later,
        primary(),
        streams[k],
    );
}

/// What is queued on the primary stream waits for everything that was queued on the streams
/// that were joined before.
pub proof fn law_the_primary_waits_for_joined_streams(
    before: Seq<Command>,
    streams: Seq<Stream>,
    after: Seq<Command>,
    earlier: int,
    later: int,
    k: int,
)
    requires
        0 <= k < streams.len(),
        0 <= earlier < before.len(),
        carrier(before[earlier]) == Some(streams[k]),
        0 <= later < after.len(),
        carrier(after[later]) == Some(primary()),
    ensures
        follows(
            before + Seq::new(
                streams.len(),
                |i: int| Command::Wait { stream: primary(), on: streams[i] },
            ) + after,
            earlier,
            before.len() + streams.len() + later,
        ),
{
    let links = Seq::new(
        streams.len(),
        |i: int| Command::Wait { stream: primary(), on: streams[i] },
    );
    let issued = before + links + after;
    assert(issued[earlier] == before[earlier]);
    assert(issued[before.len() + k] == links[k]);
    assert(issued[before.len() + streams.len() + later] == after[later]);
    lemma_linked(
        issued,
        earlier,
        before.len() + k,
        before.len() + streams.len() + later,
        streams[k],
        primary(),
    );
}

/// Whether a stream goes on behind everything that is done for the primary one.
pub open spec fn entered(issued: Seq<Command>, s: Stream) -> bool {
    forall|i: int|
        #![trigger issued[i]]
        0 <= i < issued.len() && done_for(issued, issued.len() as int, i, primary()) ==> done_for(
            issued,
            issued.len() as int,
            i,
            s,
        )
}

/// Whether a command comes behind a wait for the primary stream, with nothing but its own
/// stream's commands in between.
pub open spec fn waited(issued: Seq<Command>, n: int, i: int, s: Stream) -> bool {
    exists|w: int|
        n <= w < i && #[trigger] issued[w] == (Command::Wait { stream: s, on: primary() })
            && forall|k: int| w < k < i ==> carrier(#[trigger] issued[k]) == Some(s)
}

/// Behind such a wait a stream has caught up with the primary one.
proof fn lemma_waited(issued: Seq<Command>, w: int, n: int, s: Stream)
    requires
        0 <= w < n <= issued.len(),
        issued[w] == (Command::Wait { stream: s, on: primary() }),
        forall|k: int| w < k < n ==> carrier(#[trigger] issued[k]) == Some(s),
    ensures
        entered(issued.take(n), s),
    decreases n - w,
{
    let first = issued.take(n);
    let fewer = issued.take(n - 1);
    assert(first.take(n - 1) =~= fewer);
    if n > w + 1 {
        lemma_waited(issued, w, n - 1, s);
    }
    assert forall|i: int|
        #![trigger first[i]]
        0 <= i < first.len() && done_for(first, n, i, primary()) implies done_for(first, n, i, s) by {
        assert(first[n - 1] == issued[n - 1]);
        if i < n - 1 {
            assert(carrier(issued[n - 1]) == Some(s));
            if s != primary() {
                assert(done_for(first, n - 1, i, primary()));
                lemma_done_back(fewer, first, n - 1, i, primary());
                if n > w + 1 {
                    assert(fewer[i] == first[i]);
                    lemma_done_stays(fewer, first, n - 1, n, i, s);
                }
            }
        }
    }
}

/// One more command that follows whatever it meets.
proof fn lemma_push(issued: Seq<Command>, c: Command, lanes: Seq<Lane>)
    requires
        calm(issued, lanes),
        forall|i: int|
            #![trigger issued[i]]
            0 <= i < issued.len() && meet(issued[i], c) ==> follows(
                issued.push(c),
                i,
                issued.len() as int,
            ),
        ({
            let more = issued.push(c);
            ||| directs(c)
            ||| done_for(more, more.len() as int, issued.len() as int, primary())
            ||| exists|k: int|
                0 <= k < lanes.len() && #[trigger] belongs_to(more, issued.len() as int, lanes[k])
        }),
    ensures
        calm(issued.push(c), lanes),
{
    let more = issued.push(c);
    let n = issued.len() as int;
    assert(more.take(n) =~= issued);
    assert forall|i: int, j: int|
        #![trigger meet(more[i], more[j])]
        0 <= i < j < more.len() && meet(more[i], more[j]) implies follows(more, i, j) by {
        assert(more[i] == issued[i]);
        if j < n {
            assert(more[j] == issued[j]);
            assert(meet(issued[i], issued[j]));
            if let Some(s) = carrier(issued[j]) {
                lemma_done_stays(issued, more, j, j, i, s);
            }
        }
    }
    assert forall|i: int|
        #![trigger more[i]]
        0 <= i < more.len() implies {
        ||| directs(more[i])
        ||| done_for(more, more.len() as int, i, primary())
        ||| exists|k: int| 0 <= k < lanes.len() && #[trigger] belongs_to(more, i, lanes[k])
    } by {
        if i < n {
            assert(more[i] == issued[i]);
            if done_for(issued, n, i, primary()) {
                lemma_done_stays(issued, more, n, n + 1, i, primary());
            } else if !directs(issued[i]) {
                let k = choose|k: int|
                    0 <= k < lanes.len() && #[trigger] belongs_to(issued, i, lanes[k]);
                lemma_done_stays(issued, more, n, n + 1, i, lanes[k].stream);
                assert(belongs_to(more, i, lanes[k]));
            }
        }
    }
}

/// Commands that keep beside a lane meet none of its commands.
proof fn lemma_beside(a: Command, b: Command, read: Set<usize>, written: Set<usize>, lane: Lane)
    requires
        within(a, lane.read, lane.written),
        within(b, read, written),
        beside(read, written, lane),
    ensures
        !meet(a, b),
{
    if meet(a, b) {
        let id = choose|id: usize|
            #![trigger writes(a).contains(id)]
            #![trigger writes(b).contains(id)]
            {
                ||| writes(a).contains(id) && (reads(b).contains(id) || writes(b).contains(id))
                ||| writes(b).contains(id) && reads(a).contains(id)
            };
        assert(reads(a).contains(id) ==> lane.read.union(lane.written).contains(id));
        assert(reads(b).contains(id) ==> read.union(written).contains(id));
        assert(writes(a).contains(id) ==> lane.written.contains(id));
        assert(writes(b).contains(id) ==> written.contains(id));
    }
}

/// One more command that a stream carries out behind everything that the primary one waits
/// for, beside all lanes but its own.
proof fn lemma_push_work(
    issued: Seq<Command>,
    c: Command,
    lanes: Seq<Lane>,
    s: Stream,
    read: Set<usize>,
    written: Set<usize>,
    own: int,
)
    requires
        calm(issued, lanes),
        carrier(c) == Some(s),
        entered(issued, s),
        c is Allocate || directs(c) || within(c, read, written),
        forall|k: int|
            #![trigger lanes[k]]
            0 <= k < lanes.len() && k != own ==> beside(read, written, lanes[k]),
        0 <= own < lanes.len() ==> lanes[own] == (Lane { stream: s, read, written }),
        directs(c) || s == primary() || 0 <= own < lanes.len() && within(c, read, written),
    ensures
        calm(issued.push(c), lanes),
{
    let more = issued.push(c);
    let n = issued.len() as int;
    assert(more.take(n) =~= issued);
    assert forall|i: int| #![trigger issued[i]] 0 <= i < n && meet(issued[i], c) implies follows(
        more,
        i,
        n,
    ) by {
        assert(!directs(issued[i]) && !directs(c)) by {
            let id = choose|id: usize|
                #![trigger writes(issued[i]).contains(id)]
                #![trigger writes(c).contains(id)]
                {
                    ||| writes(issued[i]).contains(id) && (reads(c).contains(id) || writes(
                        c,
                    ).contains(id))
                    ||| writes(c).contains(id) && reads(issued[i]).contains(id)
                };
        }
        if !done_for(issued, n, i, primary()) {
            let k = choose|k: int|
                0 <= k < lanes.len() && #[trigger] belongs_to(issued, i, lanes[k]);
            if k != own {
                lemma_beside(issued[i], c, read, written, lanes[k]);
            }
        }
        assert(done_for(issued, n, i, s));
        lemma_done_stays(issued, more, n, n, i, s);
    }
    if !directs(c) && s != primary() {
        assert(done_for(more, n + 1, n, s));
        assert(belongs_to(more, n, lanes[own]));
    }
    lemma_push(issued, c, lanes);
}

/// New memory has no earlier use, and memory is given back once the whole device is idle.
proof fn lemma_push_memory(issued: Seq<Command>, c: Command, lanes: Seq<Lane>)
    requires
        calm(issued, lanes),
        c is Free || c is Allocate,
    ensures
        calm(issued.push(c), lanes),
{
    lemma_push(issued, c, lanes);
}

/// A stream that is made to wait touches nothing.
pub proof fn lemma_push_wait(issued: Seq<Command>, c: Command, lanes: Seq<Lane>)
    requires
        calm(issued, lanes),
        directs(c),
    ensures
        calm(issued.push(c), lanes),
{
    assert forall|i: int| #![trigger issued[i]] 0 <= i < issued.len() implies !meet(issued[i], c) by {}
    lemma_push(issued, c, lanes);
}

/// Once the primary stream waits for a stream, its lanes are closed.
pub proof fn lemma_join(issued: Seq<Command>, s: Stream, lanes: Seq<Lane>, left: Seq<Lane>)
    requires
        calm(issued, lanes),
        forall|k: int|
            #![trigger lanes[k]]
            0 <= k < lanes.len() ==> lanes[k].stream == s || left.contains(lanes[k]),
    ensures
        calm(issued.push(Command::Wait { stream: primary(), on: s }), left),
{
    let c = Command::Wait { stream: primary(), on: s };
    let more = issued.push(c);
    let n = issued.len() as int;
    lemma_push_wait(issued, c, lanes);
    assert(more.take(n) =~= issued);
    assert forall|i: int|
        #![trigger more[i]]
        0 <= i < more.len() implies {
        ||| directs(more[i])
        ||| done_for(more, more.len() as int, i, primary())
        ||| exists|k: int| 0 <= k < left.len() && #[trigger] belongs_to(more, i, left[k])
    } by {
        if i < n && !directs(more[i]) && !done_for(more, more.len() as int, i, primary()) {
            let k = choose|k: int|
                0 <= k < lanes.len() && #[trigger] belongs_to(more, i, lanes[k]);
            if lanes[k].stream == s {
                if s != primary() {
                    assert(more[n] == c);
                    assert(done_for(more, n, i, s));
                }
                assert(done_for(more, n + 1, i, primary()));
            } else {
                let l = choose|l: int| 0 <= l < left.len() && left[l] == lanes[k];
                assert(belongs_to(more, i, left[l]));
            }
        }
    }
}

/// Lanes may be listed in any order, and unused ones among them.
pub proof fn lemma_lanes(issued: Seq<Command>, lanes: Seq<Lane>, others: Seq<Lane>)
    requires
        calm(issued, lanes),
        forall|k: int| #![trigger lanes[k]] 0 <= k < lanes.len() ==> others.contains(lanes[k]),
    ensures
        calm(issued, others),
{
    assert forall|i: int|
        #![trigger issued[i]]
        0 <= i < issued.len() implies {
        ||| directs(issued[i])
        ||| done_for(issued, issued.len() as int, i, primary())
        ||| exists|k: int| 0 <= k < others.len() && #[trigger] belongs_to(issued, i, others[k])
    } by {
        if !directs(issued[i]) && !done_for(issued, issued.len() as int, i, primary()) {
            let k = choose|k: int|
                0 <= k < lanes.len() && #[trigger] belongs_to(issued, i, lanes[k]);
            let l = choose|l: int| 0 <= l < others.len() && others[l] == lanes[k];
            assert(belongs_to(issued, i, others[l]));
        }
    }
}

/// Whether a command is one that a stream carries out, or memory management.
pub open spec fn belongs(command: Command, s: Stream) -> bool {
    ||| command is Allocate
    ||| command is Free
    ||| command == (Command::Wait { stream: s, on: primary() })
    ||| !(command is Wait) && !(command is Fork) && carrier(command) == Some(s)
}

/// Work that enters a stream behind the primary one and keeps to some buffers: it becomes
/// one more lane, or on the primary stream none.
pub proof fn lemma_phase(
    before: Seq<Command>,
    after: Seq<Command>,
    s: Stream,
    lanes: Seq<Lane>,
    read: Set<usize>,
    written: Set<usize>,
)
    requires
        calm(before, lanes),
        before.len() <= after.len(),
        after.take(before.len() as int) == before,
        forall|i: int|
            #![trigger after[i]]
            before.len() <= i < after.len() ==> {
                &&& belongs(after[i], s)
                &&& within(after[i], read, written)
                &&& s == primary() || carrier(after[i]) != Some(s) || directs(after[i]) || waited(
                    after,
                    before.len() as int,
                    i,
                    s,
                )
            },
        forall|k: int|
            #![trigger lanes[k]]
            0 <= k < lanes.len() ==> beside(read, written, lanes[k]),
    ensures
        s == primary() ==> calm(after, lanes),
        calm(after, lanes.push(Lane { stream: s, read, written })),
{
    let lane = Lane { stream: s, read, written };
    let open = lanes.push(lane);
    assert forall|k: int| #![trigger lanes[k]] 0 <= k < lanes.len() implies open.contains(lanes[k]) by {
        assert(open[k] == lanes[k]);
    }
    lemma_lanes(before, lanes, open);
    if s == primary() {
        lemma_phase_steps(before, after, after.len() as int, s, lanes, read, written, -1);
        assert(after.take(after.len() as int) =~= after);
    }
    assert(open[lanes.len() as int] == lane);
    lemma_phase_steps(
        before,
        after,
        after.len() as int,
        s,
        open,
        read,
        written,
        lanes.len() as int,
    );
    assert(after.take(after.len() as int) =~= after);
}

/// The same for the first commands of it.
proof fn lemma_phase_steps(
    before: Seq<Command>,
    after: Seq<Command>,
    m: int,
    s: Stream,
    lanes: Seq<Lane>,
    read: Set<usize>,
    written: Set<usize>,
    own: int,
)
    requires
        calm(before, lanes),
        before.len() <= m <= after.len(),
        after.take(before.len() as int) == before,
        forall|i: int|
            #![trigger after[i]]
            before.len() <= i < after.len() ==> {
                &&& belongs(after[i], s)
                &&& within(after[i], read, written)
                &&& s == primary() || carrier(after[i]) != Some(s) || directs(after[i]) || waited(
                    after,
                    before.len() as int,
                    i,
                    s,
                )
            },
        forall|k: int|
            #![trigger lanes[k]]
            0 <= k < lanes.len() && k != own ==> beside(read, written, lanes[k]),
        0 <= own < lanes.len() ==> lanes[own] == (Lane { stream: s, read, written }),
        s == primary() || 0 <= own < lanes.len(),
    ensures
        calm(after.take(m), lanes),
    decreases m,
{
    if m > before.len() {
        let fewer = after.take(m - 1);
        let c = after[m - 1];
        lemma_phase_steps(before, after, m - 1, s, lanes, read, written, own);
        assert(after.take(m) =~= fewer.push(c));
        if c is Free || c is Allocate {
            lemma_push_memory(fewer, c, lanes);
        } else if directs(c) {
            lemma_push_wait(fewer, c, lanes);
        } else if s == primary() {
            lemma_push_work(fewer, c, lanes, s, read, written, own);
        } else {
            let w = choose|w: int|
                before.len() <= w < m - 1 && #[trigger] after[w] == (Command::Wait {
                    stream: s,
                    on: primary(),
                }) && forall|k: int| w < k < m - 1 ==> carrier(#[trigger] after[k]) == Some(s);
            lemma_waited(after, w, m - 1, s);
            lemma_push_work(fewer, c, lanes, s, read, written, own);
        }
    }
}

} // verus!
