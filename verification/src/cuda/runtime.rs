//! The runtime: which buffers exist, which are pooled, and what was issued.

use std::collections::HashMap;
use vstd::prelude::*;

use super::algebra::Term;
use super::arith::ceil_div;
use super::command::{Command, DeviceSliceDescriptor, Stream};
use super::order::{
    belongs, beside, calm, carrier, directs, lemma_phase, orderly, primary, waited, within, Lane,
};
use super::model::{lemma_run_push, lemma_step_keeps_lengths, run, Device};

verus! {

broadcast use vstd::std_specs::hash::group_hash_axioms;

/// Threads per block of the general kernels.
pub const DEFAULT_BLOCK_SIZE: usize = 1024;

/// Bytes of one element.
pub const ELEMENT_BYTES: usize = 4;

/// How a new container is filled.
#[derive(Clone, Copy, Debug, PartialEq, Eq, Structural)]
pub enum InitType {
    /// Zero, one, two and so on.
    Sequence,
    /// The length and so on down to one.
    Reverse,
    Random,
    Zero,
}

impl InitType {
    /// Whether the container starts out as zeros.
    pub fn is_zero(&self) -> (r: bool)
        ensures
            r == (*self is Zero),
    {
        match self {
            InitType::Sequence => false,
            InitType::Reverse => false,
            InitType::Random => false,
            InitType::Zero => true,
        }
    }

    /// The number at an index of a new container, unless it is drawn.
    pub open spec fn number(self, len: int, index: int) -> Option<int> {
        match self {
            InitType::Sequence => Some(index),
            InitType::Reverse => Some(len - index),
            InitType::Random => None,
            InitType::Zero => Some(0),
        }
    }
}

/// An owned allocation of 32-bit elements. It is neither copied nor cloned.
#[derive(Debug, PartialEq, Eq)]
pub struct DeviceBuffer {
    pub id: usize,
    pub len: usize,
}

impl DeviceBuffer {
    pub fn len(&self) -> (r: usize)
        ensures
            r == self.len,
    {
        self.len
    }

    pub fn is_empty(&self) -> (r: bool)
        ensures
            r == (self.len == 0),
    {
        self.len == 0
    }
}

/// Whether a buffer of this length can be addressed in bytes and covered by a
/// launch of one thread per element.
pub open spec fn addressable(len: int) -> bool {
    len * ELEMENT_BYTES <= usize::MAX && len <= u32::MAX * DEFAULT_BLOCK_SIZE
}

/// The stream that an optional choice stands for.
pub open spec fn chosen(stream: Option<Stream>) -> Stream {
    match stream {
        Some(s) => s,
        None => Stream { id: 0 },
    }
}

/// The commands by which work enters a chosen stream.
pub open spec fn entry(stream: Option<Stream>) -> Seq<Command> {
    match stream {
        Some(s) => seq![Command::Wait { stream: s, on: Stream { id: 0 } }],
        None => Seq::empty(),
    }
}

/// Elements that one thread of an element-wise kernel handles.
pub open spec fn elements_per_thread(size: int, block: int) -> int {
    let wanted = ceil_div(size, block);
    if wanted < 1 {
        1
    } else if wanted > 4 {
        4
    } else {
        wanted
    }
}

/// Blocks of an element-wise launch.
pub open spec fn elementwise_grid(size: int, block: int) -> int {
    let grid = ceil_div(ceil_div(size, elements_per_thread(size, block)), block);
    if grid < 1 {
        1
    } else {
        grid
    }
}

/// Whether a buffer was freed by a command from some position on.
pub open spec fn freed_since(issued: Seq<Command>, from: int, id: usize) -> bool {
    exists|k: int|
        from <= k < issued.len() && #[trigger] issued[k] == (Command::Free { buffer: id })
}

/// What a pool files under a length.
pub open spec fn idle(pool: Map<usize, Vec<DeviceBuffer>>, size: usize) -> Seq<DeviceBuffer> {
    if pool.contains_key(size) {
        pool[size]@
    } else {
        Seq::empty()
    }
}

/// Owner of the device state and of the pool of idle buffers.
pub struct CudaRuntime {
    /// Length of every buffer ever allocated, by identifier.
    pub buffers: Vec<usize>,
    /// Idle buffers by their exact length.
    pub buffer_pool: HashMap<usize, Vec<DeviceBuffer>>,
    /// Every length that the pool has held.
    pub pool_sizes: Vec<usize>,
    /// All streams; the first is the primary one.
    pub streams: Vec<Stream>,
    /// The buffer of every download.
    pub downloads: Vec<usize>,
    /// The buffer of every random fill.
    pub draws: Vec<usize>,
    /// Commands that no driver has taken yet.
    pub pending: Vec<Command>,
    /// Commands that a driver has taken.
    pub handed: Ghost<Seq<Command>>,
    /// Every command since the runtime was made.
    pub issued: Ghost<Seq<Command>>,
    /// The device after these commands.
    pub device: Ghost<Device>,
    /// Buffers that somebody owns.
    pub live: Ghost<Set<usize>>,
}

impl CudaRuntime {
    /// Contents of a buffer.
    #[verifier::inline]
    pub open spec fn mem(self, id: usize) -> Seq<Term> {
        self.device@.mem[id]
    }

    /// Idle buffers of a length, the next one to hand out last.
    #[verifier::inline]
    pub open spec fn pooled(self, size: usize) -> Seq<DeviceBuffer> {
        idle(self.buffer_pool@, size)
    }

    /// Whether an identifier names an existing buffer of a length.
    pub open spec fn allocated(self, id: usize, len: usize) -> bool {
        id < self.buffers@.len() && self.buffers@[id as int] == len
    }

    /// Whether a buffer is alive and described correctly.
    pub open spec fn owns(self, buffer: DeviceBuffer) -> bool {
        self.live@.contains(buffer.id) && self.allocated(buffer.id, buffer.len)
    }

    /// Whether a range lies inside a live buffer.
    pub open spec fn spans(self, d: DeviceSliceDescriptor) -> bool {
        self.live@.contains(d.buffer) && d.buffer < self.buffers@.len() && d.offset + d.len
            <= self.buffers@[d.buffer as int]
    }

    /// The invariant: the issued commands are those that a driver has taken and those
    /// that wait for one, the device state is that of the issued commands, every buffer has its recorded length and is alive, idle or given back, and the
    /// pool holds distinct idle buffers of the lengths it files them under.
    pub open spec fn wf(self) -> bool {
        &&& self.issued@ == self.handed@ + self.pending@
        &&& self.device@ == run(self.issued@)
        &&& self.streams@.len() >= 1
        &&& self.streams@[0] == (Stream { id: 0 })
        &&& self.device@.downloads.len() == self.downloads@.len()
        &&& forall|id: usize|
            #![trigger self.mem(id)]
            id < self.buffers@.len() ==> self.mem(id).len() == self.buffers@[id as int]
        &&& forall|i: int|
            #![trigger self.buffers@[i]]
            0 <= i < self.buffers@.len() ==> addressable(self.buffers@[i] as int)
        &&& forall|id: usize|
            #![trigger self.live@.contains(id)]
            self.live@.contains(id) ==> id < self.buffers@.len()
        &&& forall|id: usize|
            #![trigger self.accounted(id)]
            id < self.buffers@.len() ==> self.accounted(id)
        &&& self.pool_wf()
    }

    /// Whether a buffer is alive, idle or given back.
    pub open spec fn accounted(self, id: usize) -> bool {
        ||| self.live@.contains(id)
        ||| self.is_idle(id)
        ||| freed_since(self.issued@, 0, id)
    }

    /// Whether the pool holds a buffer.
    pub open spec fn is_idle(self, id: usize) -> bool {
        exists|size: usize, i: int|
            0 <= i < self.pooled(size).len() && (#[trigger] self.pooled(size)[i]).id == id
    }

    pub open spec fn pool_wf(self) -> bool {
        &&& self.pooled(0).len() == 0
        &&& forall|size: usize, i: int|
            #![trigger self.pooled(size)[i]]
            0 <= i < self.pooled(size).len() ==> self.pooled(size)[i].len == size && self.allocated(self.pooled(size)[i].id, size) && !self.live@.contains(
                self.pooled(size)[i].id,
            )
        &&& forall|size: usize, i: int, other: usize, j: int|
            #![trigger self.pooled(size)[i], self.pooled(other)[j]]
            0 <= i < self.pooled(size).len() && 0 <= j < self.pooled(other).len() && self.pooled(
                size,
            )[i].id == self.pooled(other)[j].id ==> size == other && i == j
        &&& forall|size: usize|
            #![trigger self.buffer_pool@.contains_key(size)]
            self.buffer_pool@.contains_key(size) ==> self.pool_sizes@.contains(size)
    }

    /// Whether all that was done since `before` was to record commands: what was issued
    /// stays issued, and no command that waits for a driver is lost. See
    /// [`law_recorded_commands_wait`].
    pub open spec fn recorded(self, before: CudaRuntime) -> bool {
        &&& self.handed@ == before.handed@
        &&& before.issued@.len() <= self.issued@.len()
        &&& forall|i: int|
            #![trigger self.issued@[i]]
            0 <= i < before.issued@.len() ==> self.issued@[i] == before.issued@[i]
    }

    /// Whether nothing but the listed buffers changed among those that were
    /// alive before, and commands were only recorded.
    pub open spec fn keeps(self, before: CudaRuntime, except: Set<usize>) -> bool {
        &&& forall|id: usize|
            #![trigger self.mem(id)]
            before.live@.contains(id) && !except.contains(id) ==> self.mem(id) == before.mem(id)
        &&& forall|id: usize|
            #![trigger self.buffers@[id as int]]
            id < before.buffers@.len() ==> id < self.buffers@.len() && self.buffers@[id as int]
                == before.buffers@[id as int]
        &&& before.buffers@.len() <= self.buffers@.len()
        &&& before.draws@.len() <= self.draws@.len()
        &&& self.recorded(before)
    }

    /// Whether everything issued since `before` belongs to one stream, and work on a stream
    /// other than the primary one comes behind a wait for it.
    #[verifier::opaque]
    pub open spec fn ran_on(self, before: CudaRuntime, s: Stream) -> bool {
        let n = before.issued@.len() as int;
        &&& n <= self.issued@.len()
        &&& self.issued@.take(n) == before.issued@
        &&& forall|i: int|
            #![trigger self.issued@[i]]
            n <= i < self.issued@.len() ==> belongs(self.issued@[i], s)
        &&& forall|i: int|
            #![trigger self.issued@[i]]
            n <= i < self.issued@.len() && s != primary() && carrier(self.issued@[i]) == Some(s)
                && !directs(self.issued@[i]) ==> waited(self.issued@, n, i, s)
    }

    /// Whether a stream has caught up with the primary one since `before`, so that more
    /// work can be issued on it.
    #[verifier::opaque]
    pub open spec fn caught_up(self, before: CudaRuntime, s: Stream) -> bool {
        s == primary() || waited(
            self.issued@,
            before.issued@.len() as int,
            self.issued@.len() as int,
            s,
        )
    }

    /// Whether everything issued since `before` keeps to some buffers.
    #[verifier::opaque]
    pub open spec fn confined(
        self,
        before: CudaRuntime,
        read: Set<usize>,
        written: Set<usize>,
    ) -> bool {
        let n = before.issued@.len() as int;
        &&& n <= self.issued@.len()
        &&& self.issued@.take(n) == before.issued@
        &&& forall|i: int|
            #![trigger self.issued@[i]]
            n <= i < self.issued@.len() ==> within(self.issued@[i], read, written)
    }

    /// Whether work that was in order, with nothing left that the primary stream does not
    /// wait for, still is.
    pub open spec fn keeps_order(self, before: CudaRuntime) -> bool {
        orderly(before.issued@) ==> orderly(self.issued@)
    }

    /// Nothing issued is nothing issued elsewhere.
    pub proof fn lemma_ran_on_nothing(self, s: Stream)
        ensures
            self.ran_on(self, s),
    {
        reveal(CudaRuntime::ran_on);
        assert(self.issued@.take(self.issued@.len() as int) =~= self.issued@);
    }

    /// Nothing issued touches nothing.
    pub proof fn lemma_confined_nothing(self, read: Set<usize>, written: Set<usize>)
        ensures
            self.confined(self, read, written),
    {
        reveal(CudaRuntime::confined);
        assert(self.issued@.take(self.issued@.len() as int) =~= self.issued@);
    }

    /// Work that keeps to some buffers keeps to more of them.
    pub proof fn lemma_confined_wider(
        self,
        before: CudaRuntime,
        read: Set<usize>,
        written: Set<usize>,
        more_read: Set<usize>,
        more_written: Set<usize>,
    )
        requires
            self.confined(before, read, written),
            read.subset_of(more_read.union(more_written)),
            written.subset_of(more_written),
        ensures
            self.confined(before, more_read, more_written),
    {
        reveal(CudaRuntime::confined);
        assert forall|i: int|
            #![trigger self.issued@[i]]
            before.issued@.len() <= i < self.issued@.len() implies within(
            self.issued@[i],
            more_read,
            more_written,
        ) by {
            assert(within(self.issued@[i], read, written));
        }
    }

    /// One command keeps to its buffers.
    pub proof fn lemma_confined_one(
        self,
        before: CudaRuntime,
        command: Command,
        read: Set<usize>,
        written: Set<usize>,
    )
        requires
            self.issued@ == before.issued@.push(command),
            within(command, read, written),
        ensures
            self.confined(before, read, written),
    {
        reveal(CudaRuntime::confined);
        assert(self.issued@.take(before.issued@.len() as int) =~= before.issued@);
    }

    /// Where nothing was issued, nothing was touched.
    pub proof fn lemma_confined_same(
        self,
        before: CudaRuntime,
        read: Set<usize>,
        written: Set<usize>,
    )
        requires
            self.issued@ == before.issued@,
        ensures
            self.confined(before, read, written),
    {
        reveal(CudaRuntime::confined);
        assert(self.issued@.take(before.issued@.len() as int) =~= before.issued@);
    }

    /// A stream that has caught up since a moment has done so since any earlier one.
    pub proof fn lemma_caught_up_since(self, middle: CudaRuntime, before: CudaRuntime, s: Stream)
        requires
            self.caught_up(middle, s),
            before.issued@.len() <= middle.issued@.len(),
        ensures
            self.caught_up(before, s),
    {
        reveal(CudaRuntime::caught_up);
        if s != primary() {
            let n = self.issued@.len() as int;
            let w = choose|w: int|
                middle.issued@.len() <= w < n && #[trigger] self.issued@[w] == (Command::Wait {
                    stream: s,
                    on: primary(),
                }) && forall|k: int| w < k < n ==> carrier(#[trigger] self.issued@[k]) == Some(s);
            assert(self.issued@[w] == (Command::Wait { stream: s, on: primary() }));
        }
    }

    /// What was issued stays issued.
    pub proof fn lemma_issued_prefix(self, before: CudaRuntime, s: Stream)
        requires
            self.ran_on(before, s),
        ensures
            before.issued@.len() <= self.issued@.len(),
            self.issued@.take(before.issued@.len() as int) == before.issued@,
    {
        reveal(CudaRuntime::ran_on);
    }

    /// One more command of a stream.
    pub proof fn lemma_one_more_command(
        self,
        middle: CudaRuntime,
        before: CudaRuntime,
        command: Command,
        s: Stream,
    )
        requires
            middle.ran_on(before, s),
            self.issued@ == middle.issued@.push(command),
            belongs(command, s),
        ensures
            s == primary() || carrier(command) != Some(s) || directs(command) || middle.caught_up(
                before,
                s,
            ) ==> self.ran_on(before, s),
            middle.caught_up(before, s) && carrier(command) == Some(s) ==> self.caught_up(before, s),
            command == (Command::Wait { stream: s, on: primary() }) ==> self.caught_up(before, s),
    {
        reveal(CudaRuntime::ran_on);
        reveal(CudaRuntime::caught_up);
        let n = before.issued@.len() as int;
        let m = middle.issued@.len() as int;
        let issued = self.issued@;
        assert(issued.take(n) =~= middle.issued@.take(n));
        assert(issued[m] == command);
        assert forall|i: int| n <= i < m && waited(middle.issued@, n, i, s) implies waited(
            issued,
            n,
            i,
            s,
        ) by {
            let w = choose|w: int|
                n <= w < i && #[trigger] middle.issued@[w] == (Command::Wait {
                    stream: s,
                    on: primary(),
                }) && forall|k: int|
                    w < k < i ==> carrier(#[trigger] middle.issued@[k]) == Some(s);
            assert(issued[w] == middle.issued@[w]);
            assert forall|k: int| w < k < i implies carrier(#[trigger] issued[k]) == Some(s) by {
                assert(issued[k] == middle.issued@[k]);
            }
        }
        assert forall|i: int|
            #![trigger issued[i]]
            n <= i < m implies issued[i] == middle.issued@[i] by {}
        if s != primary() && middle.caught_up(before, s) {
            let w = choose|w: int|
                n <= w < m && #[trigger] middle.issued@[w] == (Command::Wait {
                    stream: s,
                    on: primary(),
                }) && forall|k: int|
                    w < k < m ==> carrier(#[trigger] middle.issued@[k]) == Some(s);
            assert(issued[w] == middle.issued@[w]);
            assert forall|k: int| w < k < m implies carrier(#[trigger] issued[k]) == Some(s) by {
                assert(issued[k] == middle.issued@[k]);
            }
            assert(waited(issued, n, m, s));
            if carrier(command) == Some(s) {
                assert(waited(issued, n, m + 1, s));
            }
        }
    }

    /// A later state that differs only by one new live buffer.
    pub open spec fn grown(self, before: CudaRuntime, id: usize, stream: Option<Stream>) -> bool {
        &&& self.wf()
        &&& !before.live@.contains(id)
        &&& self.live@ == before.live@.insert(id)
        &&& self.keeps(before, Set::empty())
        &&& self.device@.downloads == before.device@.downloads
        &&& self.ran_on(before, chosen(stream))
    }

    /// A later state that differs only in the contents of one live buffer.
    pub open spec fn changed(self, before: CudaRuntime, id: usize, stream: Option<Stream>) -> bool {
        &&& self.wf()
        &&& self.live@ == before.live@
        &&& self.keeps(before, set![id])
        &&& self.device@.downloads == before.device@.downloads
        &&& self.ran_on(before, chosen(stream))
    }

    /// A later state in which one buffer is no longer alive.
    pub open spec fn shrunk(self, before: CudaRuntime, id: usize) -> bool {
        &&& self.wf()
        &&& self.live@ == before.live@.remove(id)
        &&& self.keeps(before, set![id])
        &&& self.device@.downloads == before.device@.downloads
        &&& forall|s: Stream| #[trigger] self.ran_on(before, s)
        &&& self.keeps_order(before)
    }

    /// A later state with the same live buffers and contents.
    pub open spec fn untouched(self, before: CudaRuntime) -> bool {
        &&& self.wf()
        &&& self.live@ == before.live@
        &&& self.keeps(before, Set::empty())
        &&& self.device@.downloads == before.device@.downloads
    }

    /// A runtime without buffers.
    pub fn new() -> (r: CudaRuntime)
        ensures
            r.wf(),
            r.live@ == Set::<usize>::empty(),
            r.issued@ == Seq::<Command>::empty(),
            r.pending@ == Seq::<Command>::empty(),
            r.handed@ == Seq::<Command>::empty(),
            r.streams@ == seq![Stream { id: 0 }],
            forall|size: usize| r.pooled(size).len() == 0,
            orderly(r.issued@),
    {
        reveal(orderly);
        let mut streams: Vec<Stream> = Vec::new();
        streams.push(Stream { id: 0 });
        CudaRuntime {
            buffers: Vec::new(),
            buffer_pool: HashMap::new(),
            pool_sizes: Vec::new(),
            streams,
            downloads: Vec::new(),
            draws: Vec::new(),
            pending: Vec::new(),
            handed: Ghost(Seq::empty()),
            issued: Ghost(Seq::empty()),
            device: Ghost(Device::blank()),
            live: Ghost(Set::empty()),
        }
    }

    /// Records a command that neither allocates nor downloads.
    pub(crate) fn issue(&mut self, command: Command)
        requires
            old(self).wf(),
            !(command is Allocate),
            !(command is Download),
        ensures
            final(self).wf(),
            final(self).issued@ == old(self).issued@.push(command),
            final(self).pending@ == old(self).pending@.push(command),
            final(self).handed == old(self).handed,
            final(self).device@ == old(self).device@.step(command),
            final(self).live == old(self).live,
            final(self).buffers == old(self).buffers,
            final(self).buffer_pool == old(self).buffer_pool,
            final(self).pool_sizes == old(self).pool_sizes,
            final(self).streams == old(self).streams,
            final(self).downloads == old(self).downloads,
            final(self).draws == old(self).draws,
            forall|s: Stream|
                belongs(command, s) && (s == primary() || carrier(command) != Some(s) || directs(
                    command,
                )) ==> #[trigger] final(self).ran_on(*old(self), s),
            forall|s: Stream|
                command == (Command::Wait { stream: s, on: primary() })
                    ==> #[trigger] final(self).caught_up(*old(self), s),
            forall|first: CudaRuntime, s: Stream|
                old(self).ran_on(first, s) && old(self).caught_up(first, s) && belongs(command, s)
                    && carrier(command) == Some(s) ==> #[trigger] final(self).ran_on(first, s)
                    && final(self).caught_up(first, s),
            forall|read: Set<usize>, written: Set<usize>|
                within(command, read, written) ==> #[trigger] final(self).confined(
                    *old(self),
                    read,
                    written,
                ),
    {
        let ghost before = *self;
        proof {
            lemma_run_push(self.issued@, command);
            assert forall|id: usize|
                self.device@.step(command).mem[id].len() == self.device@.mem[id].len() by {
                lemma_step_keeps_lengths(self.device@, command, id);
            }
            self.device@ = self.device@.step(command);
            self.issued@ = self.issued@.push(command);
        }
        self.pending.push(command);
        proof {
            assert(self.issued@ =~= self.handed@ + self.pending@);
            assert forall|id: usize| #[trigger] self.mem(id).len() == before.mem(id).len() by {}
            assert forall|size: usize| #[trigger] self.pooled(size) == before.pooled(size) by {}
            lemma_pool_kept(before, *self);
            assert(self.issued@.take(before.issued@.len() as int) =~= before.issued@);
            lemma_accounted_kept(before, *self);
            assert forall|s: Stream|
                belongs(command, s) && (s == primary() || carrier(command) != Some(s) || directs(
                    command,
                )) implies #[trigger] self.ran_on(before, s) by {
                before.lemma_ran_on_nothing(s);
                self.lemma_one_more_command(before, before, command, s);
            }
            assert forall|s: Stream|
                command == (Command::Wait { stream: s, on: primary() }) implies #[trigger] self.caught_up(
                before,
                s,
            ) by {
                before.lemma_ran_on_nothing(s);
                self.lemma_one_more_command(before, before, command, s);
            }
            assert forall|first: CudaRuntime, s: Stream|
                before.ran_on(first, s) && before.caught_up(first, s) && belongs(command, s)
                    && carrier(command) == Some(s) implies #[trigger] self.ran_on(first, s)
                && self.caught_up(first, s) by {
                self.lemma_one_more_command(before, first, command, s);
            }
            assert forall|read: Set<usize>, written: Set<usize>|
                within(command, read, written) implies #[trigger] self.confined(
                before,
                read,
                written,
            ) by {
                reveal(CudaRuntime::confined);
            }
        }
    }

    /// Whether a driver has taken these commands, and nothing else has happened.
    pub open spec fn handed_over(self, before: CudaRuntime, commands: Seq<Command>) -> bool {
        &&& commands == before.pending@
        &&& self.pending@ == Seq::<Command>::empty()
        &&& self.handed@ == before.handed@ + commands
        &&& self.issued == before.issued
    }

    /// Hands the recorded commands to a driver.
    pub fn take_pending(&mut self) -> (r: Vec<Command>)
        requires
            old(self).wf(),
        ensures
            r@ == old(self).pending@,
            final(self).pending@ == Seq::<Command>::empty(),
            final(self).handed_over(*old(self), r@),
            final(self).wf(),
            final(self).issued == old(self).issued,
            final(self).device == old(self).device,
            final(self).live == old(self).live,
            final(self).buffers == old(self).buffers,
            final(self).buffer_pool == old(self).buffer_pool,
            final(self).pool_sizes == old(self).pool_sizes,
            final(self).streams == old(self).streams,
            final(self).downloads == old(self).downloads,
            final(self).draws == old(self).draws,
    {
        let mut taken: Vec<Command> = Vec::new();
        std::mem::swap(&mut taken, &mut self.pending);
        proof {
            self.handed@ = self.handed@ + taken@;
            assert(self.issued@ =~= self.handed@ + self.pending@);
            assert forall|size: usize| #[trigger] self.pooled(size) == old(self).pooled(size) by {}
            lemma_pool_kept(*old(self), *self);
            assert(self.issued@.take(self.issued@.len() as int) =~= self.issued@);
            lemma_accounted_kept(*old(self), *self);
            assert forall|id: usize| #[trigger] self.mem(id) == old(self).mem(id) by {}
        }
        taken
    }
}

/// Commands that were recorded wait for a driver, behind those that waited before.
pub proof fn law_recorded_commands_wait(before: CudaRuntime, after: CudaRuntime)
    requires
        before.wf(),
        after.wf(),
        after.recorded(before),
    ensures
        after.issued@.take(before.issued@.len() as int) == before.issued@,
        after.pending@ == before.pending@ + after.issued@.skip(before.issued@.len() as int),
{
    let n = before.issued@.len() as int;
    let h = before.handed@.len() as int;
    assert(after.issued@.take(n) =~= before.issued@);
    assert forall|i: int| 0 <= i < before.pending@.len() implies after.pending@[i]
        == before.pending@[i] by {
        assert(after.issued@[h + i] == after.pending@[i]);
        assert(before.issued@[h + i] == before.pending@[i]);
    }
    assert forall|i: int| before.pending@.len() <= i < after.pending@.len() implies after.pending@[i]
        == after.issued@[h + i] by {}
    assert(after.pending@ =~= before.pending@ + after.issued@.skip(n));
}

/// Lists one after the other.
pub open spec fn in_turn(batches: Seq<Seq<Command>>) -> Seq<Command>
    decreases batches.len(),
{
    if batches.len() == 0 {
        Seq::empty()
    } else {
        in_turn(batches.drop_last()) + batches.last()
    }
}

/// Every command reaches a driver once and in order. From a new runtime on, while commands are
/// recorded and now and then taken, what drivers have taken, one batch after the other, and
/// what still waits is all that was ever issued. A batch is empty where nothing was taken.
pub proof fn law_every_command_is_handed_out(
    moments: Seq<CudaRuntime>,
    batches: Seq<Seq<Command>>,
)
    requires
        moments.len() == batches.len() + 1,
        moments[0].handed@ == Seq::<Command>::empty(),
        forall|k: int| 0 <= k < moments.len() ==> (#[trigger] moments[k]).wf(),
        forall|k: int|
            #![trigger batches[k]]
            0 <= k < batches.len() ==> {
                ||| moments[k + 1].handed_over(moments[k], batches[k])
                ||| moments[k + 1].recorded(moments[k]) && batches[k] == Seq::<Command>::empty()
            },
    ensures
        in_turn(batches) + moments.last().pending@ == moments.last().issued@,
        in_turn(batches) == moments.last().handed@,
    decreases batches.len(),
{
    let n = batches.len() as int;
    if n > 0 {
        let fewer = moments.drop_last();
        let front = batches.drop_last();
        assert forall|k: int| #![trigger front[k]] 0 <= k < front.len() implies {
            ||| fewer[k + 1].handed_over(fewer[k], front[k])
            ||| fewer[k + 1].recorded(fewer[k]) && front[k] == Seq::<Command>::empty()
        } by {
            assert(front[k] == batches[k]);
        }
        assert forall|k: int| 0 <= k < fewer.len() implies (#[trigger] fewer[k]).wf() by {
            assert(fewer[k] == moments[k]);
        }
        law_every_command_is_handed_out(fewer, front);
        assert(batches[n - 1] == batches.last());
        assert(fewer.last() == moments[n - 1]);
        assert(moments[n] == moments.last());
        assert(in_turn(batches) =~= moments.last().handed@);
    }
    assert(moments[n].wf());
}

/// Buffers stay accounted for while none is lost from the live ones or the pool.
pub proof fn lemma_still_accounted(before: CudaRuntime, after: CudaRuntime)
    requires
        before.issued@.len() <= after.issued@.len(),
        after.issued@.take(before.issued@.len() as int) == before.issued@,
        forall|id: usize|
            #![trigger before.accounted(id)]
            id < before.buffers@.len() ==> before.accounted(id),
        forall|id: usize| #[trigger]
            before.live@.contains(id) ==> after.accounted(id),
        forall|size: usize, i: int|
            #![trigger before.pooled(size)[i]]
            0 <= i < before.pooled(size).len() ==> after.accounted(before.pooled(size)[i].id),
    ensures
        forall|id: usize|
            #![trigger after.accounted(id)]
            id < before.buffers@.len() ==> after.accounted(id),
{
    assert forall|id: usize| #![trigger after.accounted(id)] id < before.buffers@.len() implies after.accounted(
        id,
    ) by {
        assert(before.accounted(id));
        if before.live@.contains(id) {
        } else if before.is_idle(id) {
            let (size, i) = choose|size: usize, i: int|
                0 <= i < before.pooled(size).len() && (#[trigger] before.pooled(size)[i]).id == id;
            assert(after.accounted(before.pooled(size)[i].id));
        } else {
            let k = choose|k: int|
                0 <= k < before.issued@.len() && #[trigger] before.issued@[k] == (Command::Free {
                    buffer: id,
                });
            assert(after.issued@[k] == after.issued@.take(before.issued@.len() as int)[k]);
        }
    }
}

/// The same while the pool is untouched and nothing that was alive goes.
pub proof fn lemma_accounted_kept(before: CudaRuntime, after: CudaRuntime)
    requires
        before.issued@.len() <= after.issued@.len(),
        after.issued@.take(before.issued@.len() as int) == before.issued@,
        forall|id: usize|
            #![trigger before.accounted(id)]
            id < before.buffers@.len() ==> before.accounted(id),
        before.live@.subset_of(after.live@),
        forall|size: usize| #[trigger] after.pooled(size) == before.pooled(size),
    ensures
        forall|id: usize|
            #![trigger after.accounted(id)]
            id < before.buffers@.len() ==> after.accounted(id),
{
    assert forall|size: usize, i: int|
        #![trigger before.pooled(size)[i]]
        0 <= i < before.pooled(size).len() implies after.accounted(before.pooled(size)[i].id) by {
        assert(after.pooled(size)[i] == before.pooled(size)[i]);
        assert(after.is_idle(before.pooled(size)[i].id));
    }
    lemma_still_accounted(before, after);
}

/// An untouched pool stays well-formed while new buffers are made.
pub proof fn lemma_pool_kept(before: CudaRuntime, after: CudaRuntime)
    requires
        before.pool_wf(),
        forall|size: usize| #[trigger] after.pooled(size) == before.pooled(size),
        forall|size: usize| #[trigger]
            after.buffer_pool@.contains_key(size) ==> before.buffer_pool@.contains_key(size),
        after.pool_sizes == before.pool_sizes,
        before.buffers@.is_prefix_of(after.buffers@),
        forall|id: usize| #[trigger]
            after.live@.contains(id) ==> before.live@.contains(id) || id >= before.buffers@.len(),
    ensures
        after.pool_wf(),
{
    assert forall|size: usize, i: int|
        #![trigger after.pooled(size)[i]]
        0 <= i < after.pooled(size).len() implies after.pooled(size)[i].len == size && after.allocated(
        after.pooled(size)[i].id,
        size,
    ) && !after.live@.contains(after.pooled(size)[i].id) by {
        assert(before.pooled(size)[i].len == size);
        assert(before.buffers@[before.pooled(size)[i].id as int]
            == after.buffers@[before.pooled(size)[i].id as int]);
    }
    assert forall|size: usize, i: int, other: usize, j: int|
        #![trigger after.pooled(size)[i], after.pooled(other)[j]]
        0 <= i < after.pooled(size).len() && 0 <= j < after.pooled(other).len() && after.pooled(
            size,
        )[i].id == after.pooled(other)[j].id implies size == other && i == j by {
        assert(before.pooled(size)[i].id == before.pooled(other)[j].id);
    }
}

/// Work that stays on a stream, followed by work that stays on it, stays on it.
pub broadcast proof fn lemma_ran_on_transitive(
    first: CudaRuntime,
    second: CudaRuntime,
    third: CudaRuntime,
    s: Stream,
)
    requires
        #[trigger] second.ran_on(first, s),
        #[trigger] third.ran_on(second, s),
    ensures
        third.ran_on(first, s),
{
    reveal(CudaRuntime::ran_on);
    let n = first.issued@.len() as int;
    let m = second.issued@.len() as int;
    assert(third.issued@.take(n) =~= third.issued@.take(m).take(n));
    assert forall|i: int| #![trigger third.issued@[i]] n <= i < m implies third.issued@[i]
        == second.issued@[i] by {
        assert(third.issued@.take(m)[i] == third.issued@[i]);
    }
    assert forall|i: int|
        #![trigger third.issued@[i]]
        n <= i < third.issued@.len() && s != primary() && carrier(third.issued@[i]) == Some(s)
            && !directs(third.issued@[i]) implies waited(third.issued@, n, i, s) by {
        if i < m {
            let w = choose|w: int|
                n <= w < i && #[trigger] second.issued@[w] == (Command::Wait {
                    stream: s,
                    on: primary(),
                }) && forall|k: int|
                    w < k < i ==> carrier(#[trigger] second.issued@[k]) == Some(s);
            assert(third.issued@[w] == second.issued@[w]);
            assert forall|k: int| w < k < i implies carrier(#[trigger] third.issued@[k]) == Some(s) by {
                assert(third.issued@[k] == second.issued@[k]);
            }
        } else {
            let w = choose|w: int|
                m <= w < i && #[trigger] third.issued@[w] == (Command::Wait {
                    stream: s,
                    on: primary(),
                }) && forall|k: int| w < k < i ==> carrier(#[trigger] third.issued@[k]) == Some(s);
            assert(third.issued@[w] == (Command::Wait { stream: s, on: primary() }));
        }
    }
}

/// Work that keeps to some buffers, followed by work that keeps to them, keeps to them.
pub broadcast proof fn lemma_confined_transitive(
    first: CudaRuntime,
    second: CudaRuntime,
    third: CudaRuntime,
    read: Set<usize>,
    written: Set<usize>,
)
    requires
        #[trigger] second.confined(first, read, written),
        #[trigger] third.confined(second, read, written),
    ensures
        third.confined(first, read, written),
{
    reveal(CudaRuntime::confined);
    let n = first.issued@.len() as int;
    let m = second.issued@.len() as int;
    assert(third.issued@.take(n) =~= third.issued@.take(m).take(n));
    assert forall|i: int| #![trigger third.issued@[i]] n <= i < third.issued@.len() implies within(
        third.issued@[i],
        read,
        written,
    ) by {
        if i < m {
            assert(third.issued@.take(m)[i] == third.issued@[i]);
            assert(second.issued@[i] == third.issued@[i]);
        }
    }
}

/// Work on the primary stream keeps what is in order in order.
pub broadcast proof fn lemma_primary_keeps_order(
    before: CudaRuntime,
    after: CudaRuntime,
    s: Stream,
)
    requires
        #[trigger] after.ran_on(before, s),
        s == primary(),
    ensures
        after.keeps_order(before),
{
    reveal(orderly);
    reveal(CudaRuntime::ran_on);
    if orderly(before.issued@) {
        let all = Set::<usize>::full();
        assert forall|i: int| #![trigger after.issued@[i]] before.issued@.len() <= i
            < after.issued@.len() implies within(after.issued@[i], all, all) by {}
        lemma_phase(before.issued@, after.issued@, s, Seq::empty(), all, all);
    }
}

/// Work on a stream goes on beside lanes whose buffers it leaves alone: it is one more lane,
/// or on the primary stream none.
pub proof fn lemma_works_beside(
    before: CudaRuntime,
    after: CudaRuntime,
    s: Stream,
    lanes: Seq<Lane>,
    read: Set<usize>,
    written: Set<usize>,
)
    requires
        after.ran_on(before, s),
        after.confined(before, read, written),
        calm(before.issued@, lanes),
        forall|k: int|
            #![trigger lanes[k]]
            0 <= k < lanes.len() ==> beside(read, written, lanes[k]),
    ensures
        s == primary() ==> calm(after.issued@, lanes),
        calm(after.issued@, lanes.push(Lane { stream: s, read, written })),
{
    reveal(CudaRuntime::ran_on);
    reveal(CudaRuntime::confined);
    lemma_phase(before.issued@, after.issued@, s, lanes, read, written);
}

/// What is known of work on streams.
pub broadcast group group_streams {
    lemma_ran_on_transitive,
    lemma_confined_transitive,
    lemma_primary_keeps_order,
}

} // verus!
