//! Buffers: allocation, the exact-size pool, streams and launch geometry.

use vstd::prelude::*;

use super::algebra::{undefined, zeros};
use super::arith::{ceil_div, div_ceil, lemma_ceil_div};
use super::command::{Command, LaunchConfig, Stream};
use super::model::{lemma_run_push, reach};
use super::order::{belongs, within};
use super::runtime::{
    addressable, chosen, elements_per_thread, elementwise_grid, entry, freed_since,
    lemma_accounted_kept, lemma_pool_kept, lemma_still_accounted, CudaRuntime, DeviceBuffer,
};

verus! {

broadcast use {
    vstd::std_specs::hash::group_hash_axioms,
    crate::cuda::runtime::group_streams,
};

impl CudaRuntime {
    /// Makes a new buffer.
    pub(crate) fn allocate_uninit_buffer(&mut self, size: usize) -> (b: DeviceBuffer)
        requires
            old(self).wf(),
            addressable(size as int),
        ensures
            forall|stream: Option<Stream>| #[trigger]
                final(self).grown(*old(self), b.id, stream),
            final(self).owns(b),
            b.len == size,
            b.id == old(self).buffers@.len(),
            final(self).mem(b.id) == undefined(size as nat),
            final(self).buffers@ == old(self).buffers@.push(size),
            final(self).issued@ == old(self).issued@.push(
                Command::Allocate { buffer: b.id, len: size },
            ),
            final(self).buffer_pool == old(self).buffer_pool,
            final(self).pool_sizes == old(self).pool_sizes,
            final(self).streams == old(self).streams,
            final(self).draws == old(self).draws,
    {
        let ghost before = *self;
        let id: usize = self.buffers.len();
        let ghost command = Command::Allocate { buffer: id, len: size };
        self.pending.push(Command::Allocate { buffer: id, len: size });
        self.buffers.push(size);
        proof {
            lemma_run_push(self.issued@, command);
            self.device@ = self.device@.step(command);
            self.issued@ = self.issued@.push(command);
            self.live@ = self.live@.insert(id);
            assert(self.issued@ =~= self.handed@ + self.pending@);
            assert forall|s: Stream| #[trigger] self.ran_on(before, s) by {
                reveal(CudaRuntime::ran_on);
                assert(self.issued@.take(before.issued@.len() as int) =~= before.issued@);
            }
            assert(!before.live@.contains(id));
            assert forall|other: usize| other < before.buffers@.len() implies #[trigger] self.mem(
                other,
            ) == before.mem(other) by {}
            assert forall|size: usize| #[trigger] self.pooled(size) == before.pooled(size) by {}
            lemma_pool_kept(before, *self);
            assert(self.issued@.take(before.issued@.len() as int) =~= before.issued@);
            lemma_accounted_kept(before, *self);
            assert(self.wf());
        }
        DeviceBuffer { id, len: size }
    }

    /// Hands out an idle buffer of this exact length, or a new one. Its
    /// contents are whatever they were.
    pub fn get_uninit_buffer(&mut self, size: usize) -> (b: DeviceBuffer)
        requires
            old(self).wf(),
            addressable(size as int),
        ensures
            forall|stream: Option<Stream>| #[trigger]
                final(self).grown(*old(self), b.id, stream),
            final(self).owns(b),
            b.len == size,
            old(self).pooled(size).len() > 0 ==> b == old(self).pooled(size).last() && final(self).issued@ == old(self).issued@ && final(self).pooled(size) == old(self).pooled(
                size,
            ).drop_last(),
            old(self).pooled(size).len() == 0 ==> b.id == old(self).buffers@.len() && final(self).issued@ == old(self).issued@.push(Command::Allocate { buffer: b.id, len: size })
                && final(self).pooled(size) == old(self).pooled(size),
            forall|other: usize|
                other != size ==> #[trigger] final(self).pooled(other) == old(self).pooled(other),
            final(self).streams == old(self).streams,
            final(self).draws == old(self).draws,
            final(self).confined(*old(self), Set::empty(), set![b.id]),
    {
        let ghost before = *self;
        if size > 0 {
            if let Some(mut idle) = self.buffer_pool.remove(&size) {
                let popped = idle.pop();
                let ghost left = idle@;
                self.buffer_pool.insert(size, idle);
                proof {
                    assert(self.pooled(size) == left);
                    assert forall|other: usize| other != size implies #[trigger] self.pooled(other)
                        == before.pooled(other) by {}
                    assert forall|id: usize| #[trigger] self.mem(id) == before.mem(id) by {}
                }
                if let Some(b) = popped {
                    proof {
                        let n = before.pooled(size).len() - 1;
                        assert(b == before.pooled(size)[n]);
                        assert(before.allocated(b.id, size));
                        self.live@ = self.live@.insert(b.id);
                        assert forall|s: Stream| #[trigger] self.ran_on(before, s) by {
                            reveal(CudaRuntime::ran_on);
                            assert(self.issued@.take(before.issued@.len() as int)
                                =~= before.issued@);
                        }
                        assert forall|other: usize, i: int|
                            0 <= i < self.pooled(other).len() implies #[trigger] self.pooled(
                            other,
                        )[i] == before.pooled(other)[i] && self.pooled(other)[i].id != b.id by {
                            assert(self.pooled(other)[i] == before.pooled(other)[i]);
                            if self.pooled(other)[i].id == b.id {
                                assert(before.pooled(size)[n].id == before.pooled(other)[i].id);
                            }
                        }
                        assert forall|size: usize, i: int, other: usize, j: int|
                            #![trigger self.pooled(size)[i], self.pooled(other)[j]]
                            0 <= i < self.pooled(size).len() && 0 <= j < self.pooled(other).len()
                                && self.pooled(size)[i].id == self.pooled(other)[j].id implies size
                            == other && i == j by {
                            assert(before.pooled(size)[i].id == before.pooled(other)[j].id);
                        }
                        assert forall|other: usize, i: int|
                            #![trigger self.pooled(other)[i]]
                            0 <= i < self.pooled(other).len() implies self.pooled(other)[i].len
                            == other && self.allocated(
                            self.pooled(other)[i].id,
                            other,
                        ) && !self.live@.contains(self.pooled(other)[i].id) by {
                            assert(before.pooled(other)[i].len == other);
                        }
                        assert forall|k: usize| #[trigger]
                            self.buffer_pool@.contains_key(k) implies self.pool_sizes@.contains(
                            k,
                        ) by {
                            assert(before.buffer_pool@.contains_key(k));
                        }
                        assert(self.pool_wf());
                        assert(self.issued@.take(before.issued@.len() as int) =~= before.issued@);
                        assert forall|other: usize, i: int|
                            #![trigger before.pooled(other)[i]]
                            0 <= i < before.pooled(other).len() implies self.accounted(
                            before.pooled(other)[i].id,
                        ) by {
                            if other != size || i < n {
                                assert(self.pooled(other)[i] == before.pooled(other)[i]);
                                assert(self.is_idle(before.pooled(other)[i].id));
                            }
                        }
                        lemma_still_accounted(before, *self);
                        assert(self.wf());
                        self.lemma_confined_same(before, Set::empty(), set![b.id]);
                    }
                    return b;
                }
                proof {
                    assert(self.pooled(size) =~= before.pooled(size));
                    assert forall|s: Stream| #[trigger] self.ran_on(before, s) by {
                        reveal(CudaRuntime::ran_on);
                        assert(self.issued@.take(before.issued@.len() as int) =~= before.issued@);
                    }
                    lemma_pool_kept(before, *self);
                    assert(self.issued@.take(before.issued@.len() as int) =~= before.issued@);
                    lemma_accounted_kept(before, *self);
                    assert(self.wf());
                }
            } else {
                proof {
                    assert(self.buffer_pool@ =~= before.buffer_pool@);
                    assert(self.issued@.take(before.issued@.len() as int) =~= before.issued@);
                    lemma_accounted_kept(before, *self);
                    assert(self.wf());
                }
            }
        }
        proof {
            assert(before.pooled(size).len() == 0);
        }
        let ghost mid = *self;
        let b = self.allocate_uninit_buffer(size);
        proof {
            assert forall|stream: Option<Stream>| #[trigger] self.grown(before, b.id, stream) by {
                assert(self.grown(mid, b.id, stream));
                assert(mid.ran_on(before, chosen(stream))) by {
                    reveal(CudaRuntime::ran_on);
                    assert(mid.issued@.take(before.issued@.len() as int) =~= before.issued@);
                }
            }
            assert forall|other: usize| #[trigger] self.pooled(other) == mid.pooled(other) by {}
            self.lemma_confined_one(
                before,
                Command::Allocate { buffer: b.id, len: size },
                Set::empty(),
                set![b.id],
            );
        }
        b
    }

    /// A buffer of 32-bit integers. These are never pooled.
    pub fn get_u32_uninit_buffer(&mut self, size: usize) -> (b: DeviceBuffer)
        requires
            old(self).wf(),
            addressable(size as int),
        ensures
            forall|stream: Option<Stream>| #[trigger]
                final(self).grown(*old(self), b.id, stream),
            final(self).owns(b),
            b.len == size,
            b.id == old(self).buffers@.len(),
            final(self).mem(b.id) == undefined(size as nat),
            final(self).issued@ == old(self).issued@.push(
                Command::Allocate { buffer: b.id, len: size },
            ),
            final(self).buffer_pool == old(self).buffer_pool,
    {
        self.allocate_uninit_buffer(size)
    }

    /// Hands out a buffer that is filled with zeros on the primary stream.
    pub fn get_zerod_buffer(&mut self, size: usize) -> (b: DeviceBuffer)
        requires
            old(self).wf(),
            addressable(size as int),
        ensures
            final(self).grown(*old(self), b.id, None),
            final(self).owns(b),
            b.len == size,
            final(self).mem(b.id) == zeros(size as nat),
            old(self).pooled(size).len() > 0 ==> b == old(self).pooled(size).last(),
            old(self).pooled(size).len() == 0 ==> b.id == old(self).buffers@.len(),
    {
        let ghost before = *self;
        let b = self.get_uninit_buffer(size);
        assert(self.grown(before, b.id, None));
        let ghost middle = *self;
        self.issue(Command::Zero { buffer: b.id, stream: Stream { id: 0 } });
        proof {
            assert(self.ran_on(middle, Stream { id: 0 }));
            assert(self.mem(b.id) =~= zeros(size as nat));
        }
        b
    }

    /// Gives up a buffer; its memory goes back to the device.
    pub(crate) fn drop_buffer(&mut self, buffer: DeviceBuffer)
        requires
            old(self).wf(),
            old(self).owns(buffer),
        ensures
            final(self).shrunk(*old(self), buffer.id),
            final(self).issued@ == old(self).issued@.push(Command::Free { buffer: buffer.id }),
            final(self).buffer_pool == old(self).buffer_pool,
            final(self).buffers == old(self).buffers,
    {
        let ghost before = *self;
        self.issue(Command::Free { buffer: buffer.id });
        proof {
            assert forall|s: Stream| #[trigger] self.ran_on(before, s) by {
                assert(belongs(Command::Free { buffer: buffer.id }, s));
            }
            let ghost middle = *self;
            self.live@ = self.live@.remove(buffer.id);
            lemma_pool_kept(middle, *self);
            let last = self.issued@.len() - 1;
            assert(self.issued@[last] == (Command::Free { buffer: buffer.id }));
            assert(self.issued@.take(middle.issued@.len() as int) =~= middle.issued@);
            assert forall|size: usize, i: int|
                #![trigger middle.pooled(size)[i]]
                0 <= i < middle.pooled(size).len() implies self.accounted(
                middle.pooled(size)[i].id,
            ) by {
                assert(self.pooled(size)[i] == middle.pooled(size)[i]);
                assert(self.is_idle(middle.pooled(size)[i].id));
            }
            lemma_still_accounted(middle, *self);
            assert forall|s: Stream| #[trigger] self.ran_on(before, s) by {
                assert(middle.ran_on(before, s));
                reveal(CudaRuntime::ran_on);
            }
            assert(self.ran_on(before, Stream { id: 0 }));
        }
    }

    /// Returns a buffer to the exact-size pool without freeing it. An empty
    /// buffer is freed.
    ///
    /// All pending uses must be ordered on the primary stream.
    pub fn recycle_buffer(&mut self, buffer: DeviceBuffer)
        requires
            old(self).wf(),
            old(self).owns(buffer),
        ensures
            final(self).shrunk(*old(self), buffer.id),
            final(self).buffers == old(self).buffers,
            buffer.len > 0 ==> final(self).issued@ == old(self).issued@ && final(self).pooled(
                buffer.len,
            ) == old(self).pooled(buffer.len).push(buffer),
            buffer.len == 0 ==> final(self).issued@ == old(self).issued@.push(
                Command::Free { buffer: buffer.id },
            ),
            forall|size: usize|
                size != buffer.len || size == 0 ==> #[trigger] final(self).pooled(size)
                    == old(self).pooled(size),
            final(self).confined(*old(self), Set::empty(), set![buffer.id]),
    {
        if buffer.len == 0 {
            self.drop_buffer(buffer);
            proof {
                self.lemma_confined_one(
                    *old(self),
                    Command::Free { buffer: buffer.id },
                    Set::empty(),
                    set![buffer.id],
                );
            }
            return;
        }
        let ghost before = *self;
        let size: usize = buffer.len;
        let id: usize = buffer.id;
        let mut shelf: Vec<DeviceBuffer> = match self.buffer_pool.remove(&size) {
            Some(shelf) => shelf,
            None => {
                self.pool_sizes.push(size);
                Vec::new()
            },
        };
        proof {
            assert(shelf@ =~= before.pooled(size));
            assert(self.pool_sizes@.contains(size)) by {
                if before.buffer_pool@.contains_key(size) {
                    assert(before.pool_sizes@.contains(size));
                } else {
                    assert(self.pool_sizes@[self.pool_sizes@.len() - 1] == size);
                }
            }
            assert forall|k: usize| before.pool_sizes@.contains(k) implies #[trigger]
            self.pool_sizes@.contains(k) by {
                let i = choose|i: int|
                    0 <= i < before.pool_sizes@.len() && before.pool_sizes@[i] == k;
                assert(self.pool_sizes@[i] == k);
            }
        }
        shelf.push(buffer);
        let ghost filed = shelf@;
        self.buffer_pool.insert(size, shelf);
        proof {
            self.live@ = self.live@.remove(id);
            assert(self.pooled(size) == filed);
            assert forall|other: usize| other != size implies #[trigger] self.pooled(other)
                == before.pooled(other) by {}
            assert forall|other: usize, i: int|
                #![trigger self.pooled(other)[i]]
                0 <= i < self.pooled(other).len() && self.pooled(other)[i].id == id implies other
                == size && i == before.pooled(size).len() by {
                if other != size || i < before.pooled(size).len() {
                    assert(self.pooled(other)[i] == before.pooled(other)[i]);
                    assert(!before.live@.contains(before.pooled(other)[i].id));
                }
            }
            assert forall|size: usize, i: int, other: usize, j: int|
                #![trigger self.pooled(size)[i], self.pooled(other)[j]]
                0 <= i < self.pooled(size).len() && 0 <= j < self.pooled(other).len()
                    && self.pooled(size)[i].id == self.pooled(other)[j].id implies size == other && i
                == j by {
                if self.pooled(size)[i].id != id {
                    assert(self.pooled(size)[i] == before.pooled(size)[i]);
                    assert(self.pooled(other)[j] == before.pooled(other)[j]);
                }
            }
            assert forall|other: usize, i: int|
                #![trigger self.pooled(other)[i]]
                0 <= i < self.pooled(other).len() implies self.pooled(other)[i].len == other
                && self.allocated(self.pooled(other)[i].id, other) && !self.live@.contains(
                self.pooled(other)[i].id,
            ) by {
                if self.pooled(other)[i].id != id {
                    assert(self.pooled(other)[i] == before.pooled(other)[i]);
                }
            }
            assert(self.pool_wf());
            assert(self.issued@.take(before.issued@.len() as int) =~= before.issued@);
            assert(self.pooled(size)[before.pooled(size).len() as int].id == id);
            assert(self.is_idle(id));
            assert forall|other: usize, i: int|
                #![trigger before.pooled(other)[i]]
                0 <= i < before.pooled(other).len() implies self.accounted(
                before.pooled(other)[i].id,
            ) by {
                assert(self.pooled(other)[i] == before.pooled(other)[i]);
                assert(self.is_idle(before.pooled(other)[i].id));
            }
            lemma_still_accounted(before, *self);
            assert(self.wf());
            assert forall|s: Stream| #[trigger] self.ran_on(before, s) by {
                reveal(CudaRuntime::ran_on);
                assert(self.issued@.take(before.issued@.len() as int) =~= before.issued@);
            }
            assert(self.ran_on(before, Stream { id: 0 }));
            self.lemma_confined_same(before, Set::empty(), set![id]);
        }
    }

    /// Ensures that at least `count` buffers of exactly `size` elements are
    /// immediately available from the runtime pool.
    pub fn reserve_buffers(&mut self, size: usize, count: usize)
        requires
            old(self).wf(),
            addressable(size as int),
        ensures
            final(self).untouched(*old(self)),
            size > 0 ==> final(self).pooled(size).len() == if count > old(self).pooled(size).len() {
                count as int
            } else {
                old(self).pooled(size).len() as int
            },
            size > 0 ==> old(self).pooled(size).is_prefix_of(final(self).pooled(size)),
            size > 0 ==> final(self).issued@ == old(self).issued@ + Seq::new(
                (final(self).pooled(size).len() - old(self).pooled(size).len()) as nat,
                |i: int|
                    Command::Allocate { buffer: (old(self).buffers@.len() + i) as usize, len: size },
            ),
            size == 0 ==> *final(self) == *old(self),
            forall|other: usize|
                other != size ==> #[trigger] final(self).pooled(other) == old(self).pooled(other),
    {
        if size == 0 {
            return;
        }
        let available: usize = match self.buffer_pool.get(&size) {
            Some(shelf) => shelf.len(),
            None => 0,
        };
        let missing: usize = if count > available {
            count - available
        } else {
            0
        };
        let ghost before = *self;
        let mut made: usize = 0;
        while made < missing
            invariant
                made <= missing,
                size > 0,
                addressable(size as int),
                self.untouched(before),
                self.pooled(size).len() == before.pooled(size).len() + made,
                before.pooled(size).is_prefix_of(self.pooled(size)),
                self.buffers@.len() == before.buffers@.len() + made,
                self.issued@ == before.issued@ + Seq::new(
                    made as nat,
                    |i: int|
                        Command::Allocate {
                            buffer: (before.buffers@.len() + i) as usize,
                            len: size,
                        },
                ),
                forall|other: usize|
                    other != size ==> #[trigger] self.pooled(other) == before.pooled(other),
            decreases missing - made,
        {
            let ghost start = *self;
            let b = self.allocate_uninit_buffer(size);
            assert(self.grown(start, b.id, None));
            let ghost middle = *self;
            self.recycle_buffer(b);
            proof {
                assert(self.live@ =~= start.live@);
                assert(self.pooled(size) == start.pooled(size).push(b));
                assert forall|id: usize| before.live@.contains(id) implies #[trigger] self.mem(id)
                    == before.mem(id) by {
                    assert(middle.mem(id) == start.mem(id));
                }
            }
            made = made + 1;
            assert(self.issued@ =~= before.issued@ + Seq::new(
                made as nat,
                |i: int|
                    Command::Allocate { buffer: (before.buffers@.len() + i) as usize, len: size },
            ));
        }
    }

    /// Blocks the host until the primary stream is idle.
    pub fn sync(&mut self)
        requires
            old(self).wf(),
        ensures
            final(self).untouched(*old(self)),
            final(self).issued@ == old(self).issued@.push(
                Command::Synchronize { stream: Stream { id: 0 } },
            ),
    {
        self.issue(Command::Synchronize { stream: Stream { id: 0 } });
    }

    /// The primary stream.
    pub fn stream(&self) -> (s: Stream)
        ensures
            s == chosen(None),
    {
        Stream { id: 0 }
    }

    /// The stream to work on. A stream other than the default first waits for
    /// the work queued on the primary one.
    pub(crate) fn execution_stream(&mut self, stream: Option<Stream>) -> (s: Stream)
        requires
            old(self).wf(),
        ensures
            s == chosen(stream),
            final(self).untouched(*old(self)),
            final(self).ran_on(*old(self), s),
            final(self).device == old(self).device,
            final(self).buffers == old(self).buffers,
            final(self).buffer_pool == old(self).buffer_pool,
            final(self).pool_sizes == old(self).pool_sizes,
            final(self).streams == old(self).streams,
            final(self).downloads == old(self).downloads,
            final(self).draws == old(self).draws,
            final(self).caught_up(*old(self), s),
            final(self).issued@ == old(self).issued@ + entry(stream),
            forall|read: Set<usize>, written: Set<usize>|
                #[trigger] final(self).confined(*old(self), read, written),
    {
        match stream {
            Some(s) => {
                self.issue(Command::Wait { stream: s, on: Stream { id: 0 } });
                proof {
                    let command = Command::Wait { stream: s, on: Stream { id: 0 } };
                    assert(belongs(command, s));
                    assert(self.issued@ =~= old(self).issued@ + entry(stream));
                    assert forall|read: Set<usize>, written: Set<usize>| #[trigger]
                        self.confined(*old(self), read, written) by {
                        assert(within(command, read, written));
                    }
                }
                s
            },
            None => {
                proof {
                    reveal(CudaRuntime::ran_on);
                    reveal(CudaRuntime::caught_up);
                    assert(self.issued@.take(old(self).issued@.len() as int)
                        =~= old(self).issued@);
                    assert(self.issued@ =~= old(self).issued@ + entry(stream));
                    assert forall|read: Set<usize>, written: Set<usize>| #[trigger]
                        self.confined(*old(self), read, written) by {
                        self.lemma_confined_nothing(read, written);
                    }
                }
                Stream { id: 0 }
            },
        }
    }

    /// A launch of one thread per element.
    pub(crate) fn get_launch_config(&self, size: usize, block_size: usize) -> (c: LaunchConfig)
        requires
            0 < block_size <= u32::MAX,
            ceil_div(size as int, block_size as int) <= u32::MAX,
        ensures
            c == LaunchConfig::line(
                if size == 0 {
                    1
                } else {
                    ceil_div(size as int, block_size as int)
                },
                block_size as int,
                0,
            ),
            reach(c, 1) >= size,
    {
        proof {
            lemma_ceil_div(size as int, block_size as int);
        }
        let blocks: usize = div_ceil(size, block_size);
        let grid: usize = if blocks < 1 {
            1
        } else {
            blocks
        };
        LaunchConfig::new_1d(grid as u32, block_size as u32, 0)
    }

    /// A launch in which every thread handles up to four elements, and how
    /// many that are.
    pub(crate) fn get_elementwise_launch_config(&self, size: usize, block_size: usize) -> (r: (
        LaunchConfig,
        usize,
    ))
        requires
            0 < block_size <= u32::MAX,
            elementwise_grid(size as int, block_size as int) <= u32::MAX,
        ensures
            r.0 == LaunchConfig::line(
                elementwise_grid(size as int, block_size as int),
                block_size as int,
                0,
            ),
            r.1 == elements_per_thread(size as int, block_size as int),
            reach(r.0, r.1 as int) >= size,
    {
        let wanted: usize = div_ceil(size, block_size);
        let per_thread: usize = if wanted < 1 {
            1
        } else if wanted > 4 {
            4
        } else {
            wanted
        };
        let threads: usize = div_ceil(size, per_thread);
        let blocks: usize = div_ceil(threads, block_size);
        let grid: usize = if blocks < 1 {
            1
        } else {
            blocks
        };
        proof {
            lemma_ceil_div(size as int, per_thread as int);
            lemma_ceil_div(threads as int, block_size as int);
            assert(grid * block_size >= threads) by (nonlinear_arith)
                requires
                    grid >= blocks,
                    blocks * block_size >= threads,
                    block_size > 0,
            ;
            assert(grid * block_size * per_thread >= threads * per_thread) by (nonlinear_arith)
                requires
                    grid * block_size >= threads,
                    per_thread > 0,
            ;
        }
        (LaunchConfig::new_1d(grid as u32, block_size as u32, 0), per_thread)
    }

    /// Makes streams that start after everything queued on the primary one.
    pub fn create_extra_streams(&mut self, count: usize) -> (r: Vec<Stream>)
        requires
            old(self).wf(),
        ensures
            final(self).untouched(*old(self)),
            r@.len() == count,
            final(self).streams@ == old(self).streams@ + r@,
            forall|i: int|
                0 <= i < count ==> (#[trigger] r@[i]).id == old(self).streams@.len() + i,
            final(self).issued@ == old(self).issued@ + Seq::new(
                count as nat,
                |i: int| Command::Fork { stream: r@[i] },
            ),
    {
        let ghost before = *self;
        let mut made: Vec<Stream> = Vec::new();
        let mut i: usize = 0;
        while i < count
            invariant
                i <= count,
                made@.len() == i,
                self.untouched(before),
                self.streams@ == before.streams@ + made@,
                forall|k: int|
                    0 <= k < i ==> (#[trigger] made@[k]).id == before.streams@.len() + k,
                self.issued@ == before.issued@ + Seq::new(
                    i as nat,
                    |k: int| Command::Fork { stream: made@[k] },
                ),
            decreases count - i,
        {
            let ghost sofar = made@;
            let ghost start = *self;
            let s = Stream { id: self.streams.len() };
            self.streams.push(s);
            proof {
                assert(self.issued@.take(start.issued@.len() as int) =~= start.issued@);
                lemma_pool_kept(start, *self);
                lemma_accounted_kept(start, *self);
            }
            self.issue(Command::Fork { stream: s });
            made.push(s);
            i = i + 1;
            proof {
                assert(self.streams@ =~= before.streams@ + made@);
                assert(self.issued@ =~= before.issued@ + Seq::new(
                    i as nat,
                    |k: int| Command::Fork { stream: made@[k] },
                ));
            }
        }
        made
    }

    /// Refreshes the fork point for reusable streams so their subsequent work
    /// waits for everything currently queued on the primary stream.
    pub fn fork_streams(&mut self, streams: &Vec<Stream>)
        requires
            old(self).wf(),
        ensures
            final(self).untouched(*old(self)),
            final(self).issued@ == old(self).issued@ + Seq::new(
                streams@.len(),
                |i: int| Command::Wait { stream: streams@[i], on: Stream { id: 0 } },
            ),
    {
        let ghost before = *self;
        let mut i: usize = 0;
        while i < streams.len()
            invariant
                i <= streams@.len(),
                self.untouched(before),
                self.issued@ == before.issued@ + Seq::new(
                    i as nat,
                    |k: int| Command::Wait { stream: streams@[k], on: Stream { id: 0 } },
                ),
            decreases streams@.len() - i,
        {
            self.issue(Command::Wait { stream: streams[i], on: Stream { id: 0 } });
            i = i + 1;
            assert(self.issued@ =~= before.issued@ + Seq::new(
                i as nat,
                |k: int| Command::Wait { stream: streams@[k], on: Stream { id: 0 } },
            ));
        }
    }

    /// Makes the primary stream wait for the given ones.
    pub fn join_streams(&mut self, streams: &Vec<Stream>)
        requires
            old(self).wf(),
        ensures
            final(self).untouched(*old(self)),
            final(self).issued@ == old(self).issued@ + Seq::new(
                streams@.len(),
                |i: int| Command::Wait { stream: Stream { id: 0 }, on: streams@[i] },
            ),
    {
        let ghost before = *self;
        let mut i: usize = 0;
        while i < streams.len()
            invariant
                i <= streams@.len(),
                self.untouched(before),
                self.issued@ == before.issued@ + Seq::new(
                    i as nat,
                    |k: int| Command::Wait { stream: Stream { id: 0 }, on: streams@[k] },
                ),
            decreases streams@.len() - i,
        {
            self.issue(Command::Wait { stream: Stream { id: 0 }, on: streams[i] });
            i = i + 1;
            assert(self.issued@ =~= before.issued@ + Seq::new(
                i as nat,
                |k: int| Command::Wait { stream: Stream { id: 0 }, on: streams@[k] },
            ));
        }
    }

    /// Joins the given streams and blocks the host until all work is done.
    pub fn sync_streams(&mut self, streams: &Vec<Stream>)
        requires
            old(self).wf(),
        ensures
            final(self).untouched(*old(self)),
            final(self).issued@ == (old(self).issued@ + Seq::new(
                streams@.len(),
                |i: int| Command::Wait { stream: Stream { id: 0 }, on: streams@[i] },
            )).push(Command::Synchronize { stream: Stream { id: 0 } }),
    {
        self.join_streams(streams);
        self.sync();
    }

    /// Frees every idle buffer of one length.
    pub fn clear_buffers_by_size(&mut self, size: usize)
        requires
            old(self).wf(),
        ensures
            final(self).untouched(*old(self)),
            final(self).pooled(size).len() == 0,
            final(self).issued@ == old(self).issued@ + Seq::new(
                old(self).pooled(size).len(),
                |i: int| Command::Free { buffer: old(self).pooled(size)[i].id },
            ),
            forall|other: usize|
                other != size ==> #[trigger] final(self).pooled(other) == old(self).pooled(other),
            final(self).pool_sizes == old(self).pool_sizes,
            final(self).buffer_pool@ == old(self).buffer_pool@.remove(size),
    {
        let ghost before = *self;
        let count: usize = match self.buffer_pool.get(&size) {
            Some(shelf) => shelf.len(),
            None => 0,
        };
        let mut i: usize = 0;
        while i < count
            invariant
                i <= count,
                count == before.pooled(size).len(),
                self.untouched(before),
                self.buffer_pool == before.buffer_pool,
                self.pool_sizes == before.pool_sizes,
                self.buffers == before.buffers,
                self.issued@ == before.issued@ + Seq::new(
                    i as nat,
                    |k: int| Command::Free { buffer: before.pooled(size)[k].id },
                ),
            decreases count - i,
        {
            let id: usize = match self.buffer_pool.get(&size) {
                Some(shelf) => shelf[i].id,
                None => 0,
            };
            self.issue(Command::Free { buffer: id });
            i = i + 1;
            assert(self.issued@ =~= before.issued@ + Seq::new(
                i as nat,
                |k: int| Command::Free { buffer: before.pooled(size)[k].id },
            ));
        }
        let ghost middle = *self;
        let _freed = self.buffer_pool.remove(&size);
        proof {
            assert forall|other: usize| other != size implies #[trigger] self.pooled(other)
                == before.pooled(other) by {}
            assert forall|other: usize, i: int|
                #![trigger self.pooled(other)[i]]
                0 <= i < self.pooled(other).len() implies self.pooled(other)[i].len == other
                && self.allocated(self.pooled(other)[i].id, other) && !self.live@.contains(
                self.pooled(other)[i].id,
            ) by {
                assert(self.pooled(other)[i] == before.pooled(other)[i]);
            }
            assert forall|size: usize, i: int, other: usize, j: int|
                #![trigger self.pooled(size)[i], self.pooled(other)[j]]
                0 <= i < self.pooled(size).len() && 0 <= j < self.pooled(other).len()
                    && self.pooled(size)[i].id == self.pooled(other)[j].id implies size == other && i
                == j by {
                assert(self.pooled(size)[i] == before.pooled(size)[i]);
                assert(self.pooled(other)[j] == before.pooled(other)[j]);
            }
            assert(self.pool_wf());
            assert(self.issued@.take(middle.issued@.len() as int) =~= middle.issued@);
            assert forall|other: usize, i: int|
                #![trigger middle.pooled(other)[i]]
                0 <= i < middle.pooled(other).len() implies self.accounted(
                middle.pooled(other)[i].id,
            ) by {
                if other == size {
                    let k = before.issued@.len() + i;
                    assert(self.issued@[k] == (Command::Free { buffer: before.pooled(size)[i].id }));
                } else {
                    assert(self.pooled(other)[i] == middle.pooled(other)[i]);
                    assert(self.is_idle(middle.pooled(other)[i].id));
                }
            }
            lemma_still_accounted(middle, *self);
            assert(self.issued@ =~= before.issued@ + Seq::new(
                before.pooled(size).len(),
                |k: int| Command::Free { buffer: before.pooled(size)[k].id },
            ));
        }
    }

    /// Frees every idle buffer, and does nothing else.
    pub fn clear_buffers(&mut self)
        requires
            old(self).wf(),
        ensures
            final(self).untouched(*old(self)),
            forall|size: usize| (#[trigger] final(self).pooled(size)).len() == 0,
            old(self).issued@.is_prefix_of(final(self).issued@),
            forall|size: usize, i: int|
                #![trigger old(self).pooled(size)[i]]
                0 <= i < old(self).pooled(size).len() ==> freed_since(
                    final(self).issued@,
                    old(self).issued@.len() as int,
                    old(self).pooled(size)[i].id,
                ),
            forall|k: int|
                #![trigger final(self).issued@[k]]
                old(self).issued@.len() <= k < final(self).issued@.len() ==> frees_idle(
                    final(self).issued@[k],
                    *old(self),
                ),
    {
        let ghost before = *self;
        let ghost n = self.issued@.len() as int;
        let mut i: usize = 0;
        while i < self.pool_sizes.len()
            invariant
                i <= self.pool_sizes@.len(),
                n == before.issued@.len(),
                self.untouched(before),
                self.pool_sizes == before.pool_sizes,
                before.issued@.is_prefix_of(self.issued@),
                forall|size: usize|
                    #![trigger self.pooled(size)]
                    self.pooled(size) == before.pooled(size) || self.pooled(size).len() == 0,
                forall|k: int|
                    #![trigger self.pool_sizes@[k]]
                    0 <= k < i ==> self.pooled(self.pool_sizes@[k]).len() == 0,
                forall|size: usize, j: int|
                    #![trigger before.pooled(size)[j]]
                    0 <= j < before.pooled(size).len() && self.pooled(size).len() == 0
                        ==> freed_since(self.issued@, n, before.pooled(size)[j].id),
                forall|k: int|
                    #![trigger self.issued@[k]]
                    n <= k < self.issued@.len() ==> frees_idle(self.issued@[k], before),
            decreases self.pool_sizes@.len() - i,
        {
            let ghost start = *self;
            let size: usize = self.pool_sizes[i];
            self.clear_buffers_by_size(size);
            i = i + 1;
            proof {
                let m = start.issued@.len() as int;
                assert(self.issued@.take(m) =~= start.issued@);
                assert forall|other: usize|
                    #![trigger self.pooled(other)]
                    self.pooled(other) == before.pooled(other) || self.pooled(other).len() == 0 by {
                    if other != size {
                        assert(self.pooled(other) == start.pooled(other));
                    }
                }
                assert forall|other: usize, j: int|
                    #![trigger before.pooled(other)[j]]
                    0 <= j < before.pooled(other).len() && self.pooled(other).len()
                        == 0 implies freed_since(self.issued@, n, before.pooled(other)[j].id) by {
                    if start.pooled(other).len() == 0 {
                        assert(freed_since(start.issued@, n, before.pooled(other)[j].id));
                        let k = choose|k: int|
                            n <= k < start.issued@.len() && #[trigger] start.issued@[k]
                                == (Command::Free { buffer: before.pooled(other)[j].id });
                        assert(self.issued@[k] == start.issued@[k]);
                    } else {
                        assert(other == size) by {
                            if other != size {
                                assert(self.pooled(other) == start.pooled(other));
                            }
                        }
                        assert(start.pooled(size) == before.pooled(size));
                        assert(self.issued@[m + j] == (Command::Free {
                            buffer: before.pooled(size)[j].id,
                        }));
                    }
                }
                assert forall|k: int|
                    #![trigger self.issued@[k]]
                    n <= k < self.issued@.len() implies frees_idle(self.issued@[k], before) by {
                    if k < m {
                        assert(self.issued@[k] == start.issued@[k]);
                    } else {
                        assert(start.pooled(size) == before.pooled(size));
                        assert(self.issued@[k] == (Command::Free {
                            buffer: before.pooled(size)[k - m].id,
                        }));
                    }
                }
                assert forall|k: int|
                    #![trigger self.pool_sizes@[k]]
                    0 <= k < i implies self.pooled(self.pool_sizes@[k]).len() == 0 by {
                    if self.pool_sizes@[k] != size {
                        assert(self.pooled(self.pool_sizes@[k]) == start.pooled(
                            self.pool_sizes@[k],
                        ));
                    }
                }
            }
        }
        proof {
            assert forall|size: usize| (#[trigger] self.pooled(size)).len() == 0 by {
                if self.buffer_pool@.contains_key(size) {
                    assert(self.pool_sizes@.contains(size));
                }
            }
            assert forall|size: usize, j: int|
                #![trigger before.pooled(size)[j]]
                0 <= j < before.pooled(size).len() implies freed_since(
                self.issued@,
                n,
                before.pooled(size)[j].id,
            ) by {
                assert(self.pooled(size).len() == 0);
            }
        }
    }
}

/// Whether a command frees a buffer that was idle.
pub open spec fn frees_idle(command: Command, runtime: CudaRuntime) -> bool {
    exists|size: usize, i: int|
        0 <= i < runtime.pooled(size).len() && command == (Command::Free {
            buffer: (#[trigger] runtime.pooled(size)[i]).id,
        })
}

} // verus!
