//! Read-Log-Update synchronisation over a sorted set of `u64` elements.
//!
//! The shared state is a sequence of object headers in ascending element
//! order. Each header publishes one node (its "actual" version) and, while a
//! writer holds its lock, a private copy of it. Threads take part through a
//! bounded registry of contexts that record whether they are inside a read
//! section and which clock value their snapshot was taken at. Writers lock the
//! headers that they touch, log them, and publish their change at a single
//! step of the global clock; superseded nodes wait on a bounded free list until
//! no reader that might still see them is left.
use vstd::prelude::*;

verus! {

/// Largest number of entries in one thread's write log.
pub const RLU_MAX_LOG_SIZE: usize = 128;

/// Largest number of thread contexts registered at the same time.
pub const RLU_MAX_THREADS: usize = 32;

/// Largest number of retired nodes awaiting reclamation.
pub const RLU_MAX_FREE_NODES: usize = 100;

/// One version of one set element.
#[derive(Clone, Copy, PartialEq, Eq, Structural)]
pub struct Node {
    pub value: u64,
}

/// The unit of synchronisation: a stable identity for one element.
#[derive(Clone, Copy)]
pub struct ObjectHeader {
    /// The version that readers see.
    pub actual: Node,
    /// The locking writer's private copy, present only while locked.
    pub copy: Option<Node>,
    /// The context that holds the lock, if any.
    pub locked_by: Option<usize>,
    /// Clock value at which `actual` became visible.
    pub commit_clock: u64,
}

/// A write-log record: a locked header and the private copy made of it.
#[derive(Clone, Copy, PartialEq, Eq, Structural)]
pub struct LogEntry {
    pub header: usize,
    pub node: Node,
}

/// Per-thread synchronisation state.
pub struct ThreadContext {
    /// The slot is taken by a registered thread.
    pub live: bool,
    /// The thread is inside a read section.
    pub active: bool,
    /// Clock value observed when the current read section began.
    pub epoch: u64,
    /// Headers locked by the thread's current write, with their copies.
    pub log: Vec<LogEntry>,
}

/// A superseded node, tagged with the clock value of the commit that retired it.
#[derive(Clone, Copy, PartialEq, Eq, Structural)]
pub struct FreeEntry {
    pub node: Node,
    pub clock: u64,
}

/// The structural part of a write, applied at commit.
#[derive(Clone, Copy, PartialEq, Eq, Structural)]
pub enum Change {
    /// Publish a new header holding `node` at position `at`.
    Link { at: usize, node: Node },
    /// Retire the header at position `at`.
    Unlink { at: usize },
}

/// Strictly ascending, hence free of duplicates.
pub open spec fn sorted(s: Seq<u64>) -> bool {
    forall|i: int, j: int| 0 <= i < j < s.len() ==> s[i] < s[j]
}

/// The shared state of one set: clock, headers, registry and free list.
pub struct RluCore {
    pub clock: u64,
    pub headers: Vec<ObjectHeader>,
    pub threads: Vec<ThreadContext>,
    pub free_list: Vec<FreeEntry>,
}

impl View for RluCore {
    type V = Seq<u64>;

    /// The published elements, in header order.
    open spec fn view(&self) -> Seq<u64> {
        self.headers@.map_values(|h: ObjectHeader| h.actual.value)
    }
}

impl RluCore {
    /// The set that the published elements form.
    pub open spec fn contents(&self) -> Set<u64> {
        Set::new(|w: u64| self@.contains(w))
    }

    pub open spec fn header_wf(&self, h: ObjectHeader) -> bool {
        &&& h.commit_clock <= self.clock
        &&& match h.locked_by {
            Some(t) => t < RLU_MAX_THREADS && self.threads@[t as int].live && h.copy == Some(h.actual),
            None => h.copy is None,
        }
    }

    pub open spec fn thread_wf(&self, t: int, c: ThreadContext) -> bool {
        &&& c.epoch <= self.clock
        &&& c.active ==> c.live
        &&& c.log@.len() <= RLU_MAX_LOG_SIZE
        &&& forall|k: int|
            0 <= k < c.log@.len() ==> {
                let e = #[trigger] c.log@[k];
                &&& e.header < self.headers@.len()
                &&& self.headers@[e.header as int].locked_by == Some(t as usize)
                &&& e.node == self.headers@[e.header as int].actual
            }
    }

    /// The invariant that every operation keeps.
    pub open spec fn wf(&self) -> bool {
        &&& self.threads@.len() == RLU_MAX_THREADS
        &&& sorted(self@)
        &&& self.free_list@.len() <= RLU_MAX_FREE_NODES
        &&& forall|h: int| 0 <= h < self.headers@.len() ==> self.header_wf(#[trigger] self.headers@[h])
        &&& forall|t: int| 0 <= t < RLU_MAX_THREADS ==> self.thread_wf(t, #[trigger] self.threads@[t])
        &&& forall|i: int| 0 <= i < self.free_list@.len() ==> #[trigger] self.free_list@[i].clock <= self.clock
    }

    /// No header is locked by a context other than `ctx`.
    pub open spec fn no_foreign_locks(&self, ctx: usize) -> bool {
        forall|h: int| 0 <= h < self.headers@.len() ==> match #[trigger] self.headers@[h].locked_by {
            Some(t) => t == ctx,
            None => true,
        }
    }

    /// No header is locked.
    pub open spec fn unlocked(&self) -> bool {
        forall|h: int| 0 <= h < self.headers@.len() ==> (#[trigger] self.headers@[h]).locked_by is None
    }

    /// No context is registered, inside a read section, or holding a lock.
    pub open spec fn at_rest(&self) -> bool {
        &&& forall|t: int| 0 <= t < RLU_MAX_THREADS ==> !(#[trigger] self.threads@[t]).live
        &&& self.unlocked()
    }

    /// The global clock's current value.
    pub fn clock_read(&self) -> (r: u64)
        ensures
            r == self.clock,
    {
        self.clock
    }

    /// Takes a free context slot; `None` when all slots are taken.
    pub fn register(&mut self) -> (r: Option<usize>)
        requires
            old(self).wf(),
        ensures
            final(self).wf(),
            final(self)@ == old(self)@,
            final(self).clock == old(self).clock,
            final(self).headers@ == old(self).headers@,
            final(self).free_list@ == old(self).free_list@,
            match r {
                Some(id) => {
                    &&& id < RLU_MAX_THREADS
                    &&& !old(self).threads@[id as int].live
                    &&& final(self).threads@[id as int].live
                    &&& !final(self).threads@[id as int].active
                    &&& final(self).threads@[id as int].log@.len() == 0
                    &&& forall|t: int| 0 <= t < RLU_MAX_THREADS && t != id ==>
                        #[trigger] final(self).threads@[t] == old(self).threads@[t]
                },
                None => {
                    &&& forall|t: int| 0 <= t < RLU_MAX_THREADS ==> (#[trigger] old(self).threads@[t]).live
                    &&& final(self).threads@ == old(self).threads@
                },
            },
    {
        let mut i: usize = 0;
        while i < RLU_MAX_THREADS
            invariant
                self.wf(),
                i <= RLU_MAX_THREADS,
                self.clock == old(self).clock,
                self.headers@ == old(self).headers@,
                self.free_list@ == old(self).free_list@,
                self.threads@ == old(self).threads@,
                forall|t: int| 0 <= t < i ==> (#[trigger] self.threads@[t]).live,
            decreases RLU_MAX_THREADS - i,
        {
            if !self.threads[i].live {
                let ghost pre = *self;
                let c = ThreadContext { live: true, active: false, epoch: self.clock, log: Vec::new() };
                self.threads.set(i, c);
                assert forall|h: int| 0 <= h < self.headers@.len() implies self.header_wf(
                    #[trigger] self.headers@[h],
                ) by {
                    assert(pre.header_wf(pre.headers@[h]));
                }
                assert forall|t: int| 0 <= t < RLU_MAX_THREADS implies self.thread_wf(
                    t,
                    #[trigger] self.threads@[t],
                ) by {
                    assert(pre.thread_wf(t, pre.threads@[t]));
                }
                return Some(i);
            }
            i = i + 1;
        }
        None
    }

    /// Frees the slot of a context that holds no read section and no log.
    pub fn deregister(&mut self, ctx: usize)
        requires
            old(self).wf(),
            ctx < RLU_MAX_THREADS,
            !old(self).threads@[ctx as int].active,
            old(self).threads@[ctx as int].log@.len() == 0,
            forall|h: int|
                0 <= h < old(self).headers@.len() ==> (#[trigger] old(self).headers@[h]).locked_by
                    != Some(ctx),
        ensures
            final(self).wf(),
            final(self)@ == old(self)@,
            final(self).clock == old(self).clock,
            final(self).headers@ == old(self).headers@,
            final(self).free_list@ == old(self).free_list@,
            !final(self).threads@[ctx as int].live,
            forall|t: int| 0 <= t < RLU_MAX_THREADS && t != ctx ==>
                #[trigger] final(self).threads@[t] == old(self).threads@[t],
    {
        let ghost pre = *self;
        let c = ThreadContext { live: false, active: false, epoch: self.clock, log: Vec::new() };
        self.threads.set(ctx, c);
        assert forall|h: int| 0 <= h < self.headers@.len() implies self.header_wf(
            #[trigger] self.headers@[h],
        ) by {
            assert(pre.header_wf(pre.headers@[h]));
        }
        assert forall|t: int| 0 <= t < RLU_MAX_THREADS implies self.thread_wf(
            t,
            #[trigger] self.threads@[t],
        ) by {
            assert(pre.thread_wf(t, pre.threads@[t]));
        }
    }

    /// The oldest epoch among the read sections in progress in contexts other
    /// than `except`; `None` when there is none.
    pub fn min_active_epoch(&self, except: usize) -> (r: Option<u64>)
        requires
            self.wf(),
        ensures
            match r {
                Some(m) => {
                    &&& exists|t: int| 0 <= t < RLU_MAX_THREADS && t != except
                        && (#[trigger] self.threads@[t]).active && self.threads@[t].epoch == m
                    &&& forall|t: int| 0 <= t < RLU_MAX_THREADS && t != except
                        && (#[trigger] self.threads@[t]).active ==> m <= self.threads@[t].epoch
                },
                None => forall|t: int| 0 <= t < RLU_MAX_THREADS && t != except
                    ==> !(#[trigger] self.threads@[t]).active,
            },
    {
        let mut best: Option<u64> = None;
        let mut i: usize = 0;
        while i < RLU_MAX_THREADS
            invariant
                self.wf(),
                i <= RLU_MAX_THREADS,
                match best {
                    Some(m) => {
                        &&& exists|t: int| 0 <= t < i && t != except
                            && (#[trigger] self.threads@[t]).active && self.threads@[t].epoch == m
                        &&& forall|t: int| 0 <= t < i && t != except
                            && (#[trigger] self.threads@[t]).active ==> m <= self.threads@[t].epoch
                    },
                    None => forall|t: int| 0 <= t < i && t != except
                        ==> !(#[trigger] self.threads@[t]).active,
                },
            decreases RLU_MAX_THREADS - i,
        {
            if i != except && self.threads[i].active {
                let e = self.threads[i].epoch;
                match best {
                    Some(m) => {
                        if e < m {
                            best = Some(e);
                        }
                    },
                    None => {
                        best = Some(e);
                    },
                }
            }
            i = i + 1;
        }
        best
    }

    /// Opens a read section: the context's snapshot is the current clock.
    pub fn begin_read(&mut self, ctx: usize)
        requires
            old(self).wf(),
            ctx < RLU_MAX_THREADS,
            old(self).threads@[ctx as int].live,
        ensures
            final(self).wf(),
            final(self)@ == old(self)@,
            final(self).clock == old(self).clock,
            final(self).headers@ == old(self).headers@,
            final(self).free_list@ == old(self).free_list@,
            final(self).threads@[ctx as int].live,
            final(self).threads@[ctx as int].active,
            final(self).threads@[ctx as int].epoch == old(self).clock,
            final(self).threads@[ctx as int].log@ == old(self).threads@[ctx as int].log@,
            forall|t: int| 0 <= t < RLU_MAX_THREADS && t != ctx ==>
                #[trigger] final(self).threads@[t] == old(self).threads@[t],
    {
        let ghost pre = *self;
        let clock = self.clock;
        self.threads[ctx].active = true;
        self.threads[ctx].epoch = clock;
        assert forall|h: int| 0 <= h < self.headers@.len() implies self.header_wf(
            #[trigger] self.headers@[h],
        ) by {
            assert(pre.header_wf(pre.headers@[h]));
        }
        assert forall|t: int| 0 <= t < RLU_MAX_THREADS implies self.thread_wf(
            t,
            #[trigger] self.threads@[t],
        ) by {
            assert(pre.thread_wf(t, pre.threads@[t]));
        }
    }

    /// Closes a read section.
    pub fn end_read(&mut self, ctx: usize)
        requires
            old(self).wf(),
            ctx < RLU_MAX_THREADS,
        ensures
            final(self).wf(),
            final(self)@ == old(self)@,
            final(self).clock == old(self).clock,
            final(self).headers@ == old(self).headers@,
            final(self).free_list@ == old(self).free_list@,
            !final(self).threads@[ctx as int].active,
            final(self).threads@[ctx as int].live == old(self).threads@[ctx as int].live,
            final(self).threads@[ctx as int].epoch == old(self).threads@[ctx as int].epoch,
            final(self).threads@[ctx as int].log@ == old(self).threads@[ctx as int].log@,
            forall|t: int| 0 <= t < RLU_MAX_THREADS && t != ctx ==>
                #[trigger] final(self).threads@[t] == old(self).threads@[t],
    {
        let ghost pre = *self;
        self.threads[ctx].active = false;
        assert forall|h: int| 0 <= h < self.headers@.len() implies self.header_wf(
            #[trigger] self.headers@[h],
        ) by {
            assert(pre.header_wf(pre.headers@[h]));
        }
        assert forall|t: int| 0 <= t < RLU_MAX_THREADS implies self.thread_wf(
            t,
            #[trigger] self.threads@[t],
        ) by {
            assert(pre.thread_wf(t, pre.threads@[t]));
        }
    }

    /// The node that `ctx` sees at header `h`: its own private copy where it
    /// holds the lock, the published version otherwise. A copy that another
    /// writer holds is never handed out.
    pub fn dereference(&self, ctx: usize, h: usize) -> (r: Node)
        requires
            self.wf(),
            h < self.headers@.len(),
        ensures
            r == (match self.headers@[h as int].copy {
                Some(c) => if self.headers@[h as int].locked_by == Some(ctx) {
                    c
                } else {
                    self.headers@[h as int].actual
                },
                None => self.headers@[h as int].actual,
            }),
            r.value == self@[h as int],
    {
        let hd = self.headers[h];
        assert(self.header_wf(self.headers@[h as int]));
        match hd.copy {
            Some(c) => {
                if hd.locked_by == Some(ctx) {
                    c
                } else {
                    hd.actual
                }
            },
            None => hd.actual,
        }
    }

    /// The position of the first element not below `v`, found by walking the
    /// headers in order through `dereference`.
    pub fn locate(&self, ctx: usize, v: u64) -> (r: usize)
        requires
            self.wf(),
        ensures
            r <= self@.len(),
            forall|i: int| 0 <= i < r ==> self@[i] < v,
            forall|i: int| r <= i < self@.len() ==> v <= self@[i],
    {
        let n = self.headers.len();
        let mut i: usize = 0;
        while i < n
            invariant
                self.wf(),
                n == self@.len(),
                i <= n,
                forall|k: int| 0 <= k < i ==> self@[k] < v,
            decreases n - i,
        {
            let node = self.dereference(ctx, i);
            if node.value >= v {
                return i;
            }
            i = i + 1;
        }
        i
    }

    /// Whether `v` is published, read without taking any lock.
    pub fn contains(&self, ctx: usize, v: u64) -> (r: bool)
        requires
            self.wf(),
        ensures
            r == self@.contains(v),
            r == self.contents().contains(v),
    {
        let pos = self.locate(ctx, v);
        let r = pos < self.headers.len() && self.dereference(ctx, pos).value == v;
        if !r {
            assert forall|i: int| 0 <= i < self@.len() implies self@[i] != v by {
                if i >= pos {
                    assert(self@[pos as int] <= self@[i]);
                }
            }
        }
        r
    }

    /// The number of published elements.
    pub fn len(&self) -> (r: usize)
        requires
            self.wf(),
        ensures
            r == self@.len(),
            r == self.contents().len(),
    {
        proof {
            lemma_sorted_contents_len(self@);
            assert(self.contents() =~= self@.to_set());
        }
        self.headers.len()
    }

    /// Every context other than `ctx` that is inside a read section began it
    /// after clock value `c`: a node retired at `c` is out of its sight.
    pub open spec fn grace_elapsed(&self, ctx: usize, c: u64) -> bool {
        forall|t: int|
            0 <= t < RLU_MAX_THREADS && t != ctx && (#[trigger] self.threads@[t]).active
                ==> self.threads@[t].epoch > c
    }

    /// Whether any header is locked by a context other than `ctx`.
    pub fn foreign_lock_free(&self, ctx: usize) -> (r: bool)
        requires
            self.wf(),
        ensures
            r == self.no_foreign_locks(ctx),
    {
        let n = self.headers.len();
        let mut i: usize = 0;
        while i < n
            invariant
                n == self.headers@.len(),
                i <= n,
                forall|h: int| 0 <= h < i ==> match #[trigger] self.headers@[h].locked_by {
                    Some(t) => t == ctx,
                    None => true,
                },
            decreases n - i,
        {
            match self.headers[i].locked_by {
                Some(t) => {
                    if t != ctx {
                        return false;
                    }
                },
                None => {},
            }
            i = i + 1;
        }
        true
    }

    /// Tries to lock header `h` for `ctx` without waiting. On first locking,
    /// the header gets a private copy and the log records it. A write of
    /// this set locks at most two headers, so its log stays far below its
    /// capacity.
    pub fn try_lock(&mut self, ctx: usize, h: usize) -> (r: bool)
        requires
            old(self).wf(),
            ctx < RLU_MAX_THREADS,
            old(self).threads@[ctx as int].live,
            h < old(self).headers@.len(),
            old(self).threads@[ctx as int].log@.len() < RLU_MAX_LOG_SIZE,
        ensures
            final(self).wf(),
            final(self)@ == old(self)@,
            final(self).clock == old(self).clock,
            final(self).free_list@ == old(self).free_list@,
            final(self).headers@.len() == old(self).headers@.len(),
            r == match old(self).headers@[h as int].locked_by {
                Some(t) => t == ctx,
                None => true,
            },
            r ==> final(self).headers@[h as int].locked_by == Some(ctx),
            !r ==> final(self).headers@ == old(self).headers@,
            forall|g: int| 0 <= g < old(self).headers@.len() && g != h ==>
                #[trigger] final(self).headers@[g] == old(self).headers@[g],
            final(self).headers@[h as int].actual == old(self).headers@[h as int].actual,
            final(self).headers@[h as int].commit_clock == old(self).headers@[h as int].commit_clock,
            final(self).threads@[ctx as int].live,
            final(self).threads@[ctx as int].active == old(self).threads@[ctx as int].active,
            final(self).threads@[ctx as int].epoch == old(self).threads@[ctx as int].epoch,
            final(self).threads@[ctx as int].log@.len() <= old(self).threads@[ctx as int].log@.len() + 1,
            forall|t: int| 0 <= t < RLU_MAX_THREADS && t != ctx ==>
                #[trigger] final(self).threads@[t] == old(self).threads@[t],
    {
        let hd = self.headers[h];
        match hd.locked_by {
            Some(t) => t == ctx,
            None => {
                let ghost pre = *self;
                self.headers.set(
                    h,
                    ObjectHeader {
                        actual: hd.actual,
                        copy: Some(hd.actual),
                        locked_by: Some(ctx),
                        commit_clock: hd.commit_clock,
                    },
                );
                self.threads[ctx].log.push(LogEntry { header: h, node: hd.actual });
                assert(self@ =~= pre@);
                assert forall|g: int| 0 <= g < self.headers@.len() implies self.header_wf(
                    #[trigger] self.headers@[g],
                ) by {
                    assert(pre.header_wf(pre.headers@[g]));
                }
                assert forall|t: int| 0 <= t < RLU_MAX_THREADS implies self.thread_wf(
                    t,
                    #[trigger] self.threads@[t],
                ) by {
                    assert(pre.thread_wf(t, pre.threads@[t]));
                    assert(pre.header_wf(pre.headers@[h as int]));
                }
                true
            },
        }
    }

    /// Releases every lock that `ctx` holds, dropping the private copies.
    fn release_locks(&mut self, ctx: usize)
        requires
            old(self).wf(),
            ctx < RLU_MAX_THREADS,
            old(self).threads@[ctx as int].log@.len() == 0,
        ensures
            final(self).wf(),
            final(self)@ == old(self)@,
            final(self).clock == old(self).clock,
            final(self).free_list@ == old(self).free_list@,
            final(self).threads@ == old(self).threads@,
            final(self).headers@.len() == old(self).headers@.len(),
            forall|g: int| 0 <= g < final(self).headers@.len() ==> {
                let a = #[trigger] final(self).headers@[g];
                let b = old(self).headers@[g];
                &&& a.actual == b.actual
                &&& a.commit_clock == b.commit_clock
                &&& a.locked_by == (if b.locked_by == Some(ctx) { None } else { b.locked_by })
            },
    {
        let n = self.headers.len();
        let mut i: usize = 0;
        while i < n
            invariant
                self.wf(),
                n == self.headers@.len(),
                n == old(self).headers@.len(),
                i <= n,
                self@ == old(self)@,
                self.clock == old(self).clock,
                self.free_list@ == old(self).free_list@,
                self.threads@ == old(self).threads@,
                ctx < RLU_MAX_THREADS,
                self.threads@[ctx as int].log@.len() == 0,
                forall|g: int| 0 <= g < n ==> {
                    let a = #[trigger] self.headers@[g];
                    let b = old(self).headers@[g];
                    &&& a.actual == b.actual
                    &&& a.commit_clock == b.commit_clock
                    &&& a.locked_by == (if g < i && b.locked_by == Some(ctx) {
                        None
                    } else {
                        b.locked_by
                    })
                },
            decreases n - i,
        {
            let hd = self.headers[i];
            if hd.locked_by == Some(ctx) {
                let ghost pre = *self;
                self.headers.set(
                    i,
                    ObjectHeader {
                        actual: hd.actual,
                        copy: None,
                        locked_by: None,
                        commit_clock: hd.commit_clock,
                    },
                );
                assert(self@ =~= pre@);
                assert forall|g: int| 0 <= g < self.headers@.len() implies self.header_wf(
                    #[trigger] self.headers@[g],
                ) by {
                    assert(pre.header_wf(pre.headers@[g]));
                }
                assert forall|t: int| 0 <= t < RLU_MAX_THREADS implies self.thread_wf(
                    t,
                    #[trigger] self.threads@[t],
                ) by {
                    let c = self.threads@[t];
                    assert(pre.thread_wf(t, pre.threads@[t]));
                    assert(c == pre.threads@[t]);
                    if t == ctx {
                        assert(c.log@.len() == 0);
                    } else {
                        assert forall|k: int| 0 <= k < c.log@.len() implies {
                            let e = #[trigger] c.log@[k];
                            &&& e.header < self.headers@.len()
                            &&& self.headers@[e.header as int].locked_by == Some(t as usize)
                            &&& e.node == self.headers@[e.header as int].actual
                        } by {
                            let e = c.log@[k];
                            assert(pre.headers@[e.header as int].locked_by == Some(t as usize));
                            assert(e.header != i);
                        }
                    }
                }
            }
            i = i + 1;
        }
    }

    /// Gives up the current write of `ctx`: its log is discarded and its
    /// locks released, leaving the published state as it was.
    pub fn abort(&mut self, ctx: usize)
        requires
            old(self).wf(),
            ctx < RLU_MAX_THREADS,
        ensures
            final(self).wf(),
            final(self)@ == old(self)@,
            final(self).clock == old(self).clock,
            final(self).free_list@ == old(self).free_list@,
            final(self).headers@.len() == old(self).headers@.len(),
            forall|g: int| 0 <= g < final(self).headers@.len() ==> {
                let a = #[trigger] final(self).headers@[g];
                let b = old(self).headers@[g];
                &&& a.actual == b.actual
                &&& a.commit_clock == b.commit_clock
                &&& a.locked_by == (if b.locked_by == Some(ctx) { None } else { b.locked_by })
            },
            final(self).threads@[ctx as int].log@.len() == 0,
            final(self).threads@[ctx as int].live == old(self).threads@[ctx as int].live,
            final(self).threads@[ctx as int].active == old(self).threads@[ctx as int].active,
            final(self).threads@[ctx as int].epoch == old(self).threads@[ctx as int].epoch,
            forall|t: int| 0 <= t < RLU_MAX_THREADS && t != ctx ==>
                #[trigger] final(self).threads@[t] == old(self).threads@[t],
    {
        self.clear_log(ctx);
        self.release_locks(ctx);
    }

    /// Empties the log of `ctx`, handing back what it held.
    fn clear_log(&mut self, ctx: usize) -> (log: Vec<LogEntry>)
        requires
            old(self).wf(),
            ctx < RLU_MAX_THREADS,
        ensures
            final(self).wf(),
            final(self)@ == old(self)@,
            final(self).clock == old(self).clock,
            final(self).free_list@ == old(self).free_list@,
            final(self).headers@ == old(self).headers@,
            log@ == old(self).threads@[ctx as int].log@,
            final(self).threads@[ctx as int].log@.len() == 0,
            final(self).threads@[ctx as int].live == old(self).threads@[ctx as int].live,
            final(self).threads@[ctx as int].active == old(self).threads@[ctx as int].active,
            final(self).threads@[ctx as int].epoch == old(self).threads@[ctx as int].epoch,
            forall|t: int| 0 <= t < RLU_MAX_THREADS && t != ctx ==>
                #[trigger] final(self).threads@[t] == old(self).threads@[t],
    {
        let ghost pre = *self;
        let mut log: Vec<LogEntry> = Vec::new();
        std::mem::swap(&mut log, &mut self.threads[ctx].log);
        assert forall|g: int| 0 <= g < self.headers@.len() implies self.header_wf(
            #[trigger] self.headers@[g],
        ) by {
            assert(pre.header_wf(pre.headers@[g]));
        }
        assert forall|t: int| 0 <= t < RLU_MAX_THREADS implies self.thread_wf(
            t,
            #[trigger] self.threads@[t],
        ) by {
            assert(pre.thread_wf(t, pre.threads@[t]));
        }
        log
    }

    /// Releases the free-list entries whose grace period has elapsed for every
    /// context other than `ctx`; the others stay, in order.
    pub fn reclaim(&mut self, ctx: usize)
        requires
            old(self).wf(),
        ensures
            final(self).wf(),
            final(self)@ == old(self)@,
            final(self).clock == old(self).clock,
            final(self).headers@ == old(self).headers@,
            final(self).threads@ == old(self).threads@,
            final(self).free_list@.len() <= old(self).free_list@.len(),
            forall|i: int| 0 <= i < final(self).free_list@.len() ==> {
                &&& !old(self).grace_elapsed(ctx, (#[trigger] final(self).free_list@[i]).clock)
                &&& old(self).free_list@.contains(final(self).free_list@[i])
            },
            forall|i: int| 0 <= i < old(self).free_list@.len()
                && !old(self).grace_elapsed(ctx, (#[trigger] old(self).free_list@[i]).clock)
                ==> final(self).free_list@.contains(old(self).free_list@[i]),
            forall|i: int| 0 <= i < old(self).free_list@.len()
                && !final(self).free_list@.contains(#[trigger] old(self).free_list@[i])
                ==> old(self).grace_elapsed(ctx, old(self).free_list@[i].clock),
    {
        let m = self.min_active_epoch(ctx);
        let n = self.free_list.len();
        let mut kept: Vec<FreeEntry> = Vec::new();
        let mut i: usize = 0;
        while i < n
            invariant
                n == self.free_list@.len(),
                i <= n,
                kept@.len() <= i,
                match m {
                    Some(mm) => {
                        &&& exists|t: int| 0 <= t < RLU_MAX_THREADS && t != ctx
                            && (#[trigger] self.threads@[t]).active && self.threads@[t].epoch == mm
                        &&& forall|t: int| 0 <= t < RLU_MAX_THREADS && t != ctx
                            && (#[trigger] self.threads@[t]).active ==> mm <= self.threads@[t].epoch
                    },
                    None => forall|t: int| 0 <= t < RLU_MAX_THREADS && t != ctx
                        ==> !(#[trigger] self.threads@[t]).active,
                },
                forall|j: int| 0 <= j < kept@.len() ==> {
                    &&& !self.grace_elapsed(ctx, (#[trigger] kept@[j]).clock)
                    &&& self.free_list@.contains(kept@[j])
                },
                forall|j: int| 0 <= j < i && !self.grace_elapsed(
                    ctx,
                    (#[trigger] self.free_list@[j]).clock,
                ) ==> kept@.contains(self.free_list@[j]),
            decreases n - i,
        {
            let e = self.free_list[i];
            let keep = match m {
                Some(mm) => e.clock >= mm,
                None => false,
            };
            proof {
                match m {
                    Some(mm) => {
                        let w = choose|t: int|
                            0 <= t < RLU_MAX_THREADS && t != ctx && (#[trigger] self.threads@[t]).active
                                && self.threads@[t].epoch == mm;
                        if keep {
                            assert(!(self.threads@[w].epoch > e.clock));
                        }
                    },
                    None => {},
                }
                assert(keep == !self.grace_elapsed(ctx, e.clock));
            }
            let ghost before = kept@;
            if keep {
                kept.push(e);
            }
            proof {
                assert forall|j: int| 0 <= j < i + 1 && !self.grace_elapsed(
                    ctx,
                    (#[trigger] self.free_list@[j]).clock,
                ) implies kept@.contains(self.free_list@[j]) by {
                    if j == i {
                        assert(kept@[kept@.len() - 1] == e);
                    } else {
                        let w = choose|w: int| 0 <= w < before.len() && before[w] == self.free_list@[j];
                        assert(kept@[w] == before[w]);
                    }
                }
            }
            i = i + 1;
        }
        let ghost pre = *self;
        std::mem::swap(&mut self.free_list, &mut kept);
        assert forall|i: int| 0 <= i < self.free_list@.len() implies #[trigger] self.free_list@[i].clock
            <= self.clock by {
            let j = choose|j: int| 0 <= j < pre.free_list@.len() && pre.free_list@[j] == self.free_list@[i];
            assert(pre.free_list@[j].clock <= pre.clock);
        }
        assert forall|h: int| 0 <= h < self.headers@.len() implies self.header_wf(
            #[trigger] self.headers@[h],
        ) by {
            assert(pre.header_wf(pre.headers@[h]));
        }
        assert forall|t: int| 0 <= t < RLU_MAX_THREADS implies self.thread_wf(
            t,
            #[trigger] self.threads@[t],
        ) by {
            assert(pre.thread_wf(t, pre.threads@[t]));
        }
    }

    /// `change` keeps the published elements strictly ascending.
    pub open spec fn change_fits(&self, change: Change) -> bool {
        match change {
            Change::Link { at, node } => {
                &&& at <= self@.len()
                &&& at > 0 ==> self@[at - 1] < node.value
                &&& at < self@.len() ==> node.value < self@[at as int]
            },
            Change::Unlink { at } => at < self@.len(),
        }
    }

    /// Publishes the write of `ctx`: advances the clock, stamps the logged
    /// headers with the new value, releases the locks, applies `change`, puts
    /// a superseded node on the free list and reclaims what is safe to free.
    pub fn commit(&mut self, ctx: usize, change: Change) -> (stamp: u64)
        requires
            old(self).wf(),
            ctx < RLU_MAX_THREADS,
            old(self).no_foreign_locks(ctx),
            old(self).clock < u64::MAX,
            old(self).change_fits(change),
            change is Unlink ==> old(self).free_list@.len() < RLU_MAX_FREE_NODES,
        ensures
            final(self).wf(),
            stamp == old(self).clock + 1,
            final(self).clock == stamp,
            final(self)@ == applied(old(self)@, change),
            forall|g: int| 0 <= g < final(self).headers@.len()
                ==> (#[trigger] final(self).headers@[g]).locked_by is None,
            final(self).threads@[ctx as int].log@.len() == 0,
            final(self).threads@[ctx as int].live == old(self).threads@[ctx as int].live,
            final(self).threads@[ctx as int].active == old(self).threads@[ctx as int].active,
            final(self).threads@[ctx as int].epoch == old(self).threads@[ctx as int].epoch,
            forall|t: int| 0 <= t < RLU_MAX_THREADS && t != ctx ==>
                #[trigger] final(self).threads@[t] == old(self).threads@[t],
            forall|i: int| 0 <= i < final(self).free_list@.len()
                ==> !final(self).grace_elapsed(ctx, (#[trigger] final(self).free_list@[i]).clock),
    {
        let ghost pre = *self;
        let stamp = self.clock + 1;
        self.clock = stamp;
        assert forall|h: int| 0 <= h < self.headers@.len() implies self.header_wf(
            #[trigger] self.headers@[h],
        ) by {
            assert(pre.header_wf(pre.headers@[h]));
        }
        assert forall|t: int| 0 <= t < RLU_MAX_THREADS implies self.thread_wf(
            t,
            #[trigger] self.threads@[t],
        ) by {
            assert(pre.thread_wf(t, pre.threads@[t]));
        }
        let log = self.clear_log(ctx);
        proof {
            assert(pre.thread_wf(ctx as int, pre.threads@[ctx as int]));
        }
        let mut k: usize = 0;
        while k < log.len()
            invariant
                self.wf(),
                ctx < RLU_MAX_THREADS,
                self.clock == stamp,
                self@ == pre@,
                self.headers@.len() == pre.headers@.len(),
                self.free_list@ == pre.free_list@,
                self.threads@ == old(self).threads@.update(ctx as int, self.threads@[ctx as int]),
                self.threads@[ctx as int].log@.len() == 0,
                self.threads@[ctx as int].live == old(self).threads@[ctx as int].live,
                self.threads@[ctx as int].active == old(self).threads@[ctx as int].active,
                self.threads@[ctx as int].epoch == old(self).threads@[ctx as int].epoch,
                self.no_foreign_locks(ctx),
                forall|j: int| 0 <= j < log@.len() ==> (#[trigger] log@[j]).header < self.headers@.len(),
            decreases log.len() - k,
        {
            let e = log[k];
            let hd = self.headers[e.header];
            let ghost cur = *self;
            self.headers.set(
                e.header,
                ObjectHeader {
                    actual: hd.actual,
                    copy: hd.copy,
                    locked_by: hd.locked_by,
                    commit_clock: stamp,
                },
            );
            assert(self@ =~= cur@);
            assert forall|h: int| 0 <= h < self.headers@.len() implies self.header_wf(
                #[trigger] self.headers@[h],
            ) by {
                assert(cur.header_wf(cur.headers@[h]));
            }
            assert forall|t: int| 0 <= t < RLU_MAX_THREADS implies self.thread_wf(
                t,
                #[trigger] self.threads@[t],
            ) by {
                assert(cur.thread_wf(t, cur.threads@[t]));
            }
            k = k + 1;
        }
        self.release_locks(ctx);
        let ghost unlocked = *self;
        assert forall|g: int| 0 <= g < self.headers@.len() implies (
        #[trigger] self.headers@[g]).locked_by is None by {}
        assert forall|t: int| 0 <= t < RLU_MAX_THREADS implies (
        #[trigger] self.threads@[t]).log@.len() == 0 by {
            assert(unlocked.thread_wf(t, unlocked.threads@[t]));
            if unlocked.threads@[t].log@.len() > 0 {
                let e = unlocked.threads@[t].log@[0];
                assert(unlocked.headers@[e.header as int].locked_by is None);
            }
        }
        match change {
            Change::Link { at, node } => {
                self.headers.insert(
                    at,
                    ObjectHeader { actual: node, copy: None, locked_by: None, commit_clock: stamp },
                );
                assert(self@ =~= unlocked@.insert(at as int, node.value));
            },
            Change::Unlink { at } => {
                let gone = self.headers.remove(at);
                self.free_list.push(FreeEntry { node: gone.actual, clock: stamp });
                assert(self@ =~= unlocked@.remove(at as int));
            },
        }
        proof {
            lemma_applied_sorted(pre@, change);
        }
        assert forall|h: int| 0 <= h < self.headers@.len() implies self.header_wf(
            #[trigger] self.headers@[h],
        ) by {
            if self.headers@[h].commit_clock != stamp {
                match change {
                    Change::Link { at, node } => {
                        if h < at {
                            assert(unlocked.header_wf(unlocked.headers@[h]));
                        } else {
                            assert(unlocked.header_wf(unlocked.headers@[h - 1]));
                        }
                    },
                    Change::Unlink { at } => {
                        if h < at {
                            assert(unlocked.header_wf(unlocked.headers@[h]));
                        } else {
                            assert(unlocked.header_wf(unlocked.headers@[h + 1]));
                        }
                    },
                }
            }
        }
        assert forall|t: int| 0 <= t < RLU_MAX_THREADS implies self.thread_wf(
            t,
            #[trigger] self.threads@[t],
        ) by {
            assert(unlocked.thread_wf(t, unlocked.threads@[t]));
        }
        assert forall|i: int| 0 <= i < self.free_list@.len() implies #[trigger] self.free_list@[i].clock
            <= self.clock by {
            if i < unlocked.free_list@.len() {
                assert(unlocked.free_list@[i] == self.free_list@[i]);
            }
        }
        self.reclaim(ctx);
        stamp
    }

    /// Adds `v` for the registered context `ctx`. `Some(true)`: `v` was absent
    /// and is now published; `Some(false)`: `v` was present and nothing
    /// changed. `None`: some header is locked by another context (a change of
    /// structure shifts the positions that other writers hold), or the clock
    /// is spent; the attempt was rolled back and may be made again.
    pub fn insert(&mut self, ctx: usize, v: u64) -> (r: Option<bool>)
        requires
            old(self).wf(),
            ctx < RLU_MAX_THREADS,
            old(self).threads@[ctx as int].live,
            !old(self).threads@[ctx as int].active,
            old(self).threads@[ctx as int].log@.len() == 0,
        ensures
            final(self).wf(),
            final(self).threads@[ctx as int].live,
            !final(self).threads@[ctx as int].active,
            final(self).threads@[ctx as int].log@.len() == 0,
            forall|t: int| 0 <= t < RLU_MAX_THREADS && t != ctx ==>
                #[trigger] final(self).threads@[t] == old(self).threads@[t],
            old(self).unlocked() ==> final(self).unlocked(),
            final(self).clock <= old(self).clock + 1,
            old(self).free_list@.len() == 0 && (forall|t: int|
                0 <= t < RLU_MAX_THREADS && t != ctx ==> !(#[trigger] old(self).threads@[t]).active)
                ==> final(self).free_list@.len() == 0,
            match r {
                Some(b) => {
                    &&& b == !old(self).contents().contains(v)
                    &&& final(self).contents() == old(self).contents().insert(v)
                },
                None => {
                    &&& final(self)@ == old(self)@
                    &&& !old(self).contents().contains(v)
                    &&& (!old(self).no_foreign_locks(ctx) || old(self).clock == u64::MAX)
                },
            },
            old(self).contents().contains(v) || (old(self).no_foreign_locks(ctx) && old(self).clock
                < u64::MAX) ==> r is Some,
    {
        self.begin_read(ctx);
        let pos = self.locate(ctx, v);
        if pos < self.headers.len() && self.dereference(ctx, pos).value == v {
            self.end_read(ctx);
            assert(old(self).contents().insert(v) =~= final(self).contents());
            return Some(false);
        }
        proof {
            assert(!old(self)@.contains(v)) by {
                if old(self)@.contains(v) {
                    let w = choose|w: int| 0 <= w < old(self)@.len() && old(self)@[w] == v;
                    assert(self@[w] == v);
                    if w >= pos {
                        assert(self@[pos as int] <= self@[w]);
                        assert(self@[pos as int] == v);
                    }
                }
            }
        }
        let ghost entry = *self;
        if pos > 0 {
            if !self.try_lock(ctx, pos - 1) {
                self.abort(ctx);
                self.end_read(ctx);
                return None;
            }
        }
        if self.clock == u64::MAX || !self.foreign_lock_free(ctx) {
            proof {
                if old(self).no_foreign_locks(ctx) {
                    assert forall|g: int| 0 <= g < self.headers@.len() implies match #[trigger] self.headers@[g].locked_by {
                        Some(t) => t == ctx,
                        None => true,
                    } by {
                        if pos == 0 || g != pos - 1 {
                            assert(self.headers@[g] == entry.headers@[g]);
                        }
                    }
                }
            }
            self.abort(ctx);
            self.end_read(ctx);
            return None;
        }
        let node = Node { value: v };
        self.commit(ctx, Change::Link { at: pos, node });
        proof {
            if old(self).free_list@.len() == 0 && (forall|t: int|
                0 <= t < RLU_MAX_THREADS && t != ctx ==> !(#[trigger] old(self).threads@[t]).active) {
                if self.free_list@.len() > 0 {
                    let c = self.free_list@[0].clock;
                    assert(!self.grace_elapsed(ctx, c));
                    assert forall|t: int|
                        0 <= t < RLU_MAX_THREADS && t != ctx && (#[trigger] self.threads@[t]).active
                            implies self.threads@[t].epoch > c by {
                        assert(self.threads@[t] == old(self).threads@[t]);
                    }
                }
            }
        }
        self.end_read(ctx);
        proof {
            let s = old(self)@;
            let t = s.insert(pos as int, v);
            assert forall|w: u64| #[trigger] t.contains(w) == (w == v || s.contains(w)) by {
                if t.contains(w) && w != v {
                    let i = choose|i: int| 0 <= i < t.len() && t[i] == w;
                    if i < pos {
                        assert(s[i] == w);
                    } else {
                        assert(s[i - 1] == w);
                    }
                }
                if s.contains(w) {
                    let i = choose|i: int| 0 <= i < s.len() && s[i] == w;
                    if i < pos {
                        assert(t[i] == w);
                    } else {
                        assert(t[i + 1] == w);
                    }
                }
                if w == v {
                    assert(t[pos as int] == v);
                }
            }
            assert(final(self).contents() =~= old(self).contents().insert(v));
        }
        Some(true)
    }

    /// Removes `v` for the registered context `ctx`. `Some(true)`: `v` was
    /// present and is now retired; `Some(false)`: `v` was absent and nothing
    /// changed. `None`: some header is locked by another context, the free
    /// list stays full after reclamation (readers still hold old snapshots),
    /// or the clock is spent; the attempt was rolled back and may be made
    /// again once the cause has passed.
    pub fn delete(&mut self, ctx: usize, v: u64) -> (r: Option<bool>)
        requires
            old(self).wf(),
            ctx < RLU_MAX_THREADS,
            old(self).threads@[ctx as int].live,
            !old(self).threads@[ctx as int].active,
            old(self).threads@[ctx as int].log@.len() == 0,
        ensures
            final(self).wf(),
            final(self).threads@[ctx as int].live,
            !final(self).threads@[ctx as int].active,
            final(self).threads@[ctx as int].log@.len() == 0,
            forall|t: int| 0 <= t < RLU_MAX_THREADS && t != ctx ==>
                #[trigger] final(self).threads@[t] == old(self).threads@[t],
            old(self).unlocked() ==> final(self).unlocked(),
            final(self).clock <= old(self).clock + 1,
            old(self).free_list@.len() == 0 && (forall|t: int|
                0 <= t < RLU_MAX_THREADS && t != ctx ==> !(#[trigger] old(self).threads@[t]).active)
                ==> final(self).free_list@.len() == 0,
            match r {
                Some(b) => {
                    &&& b == old(self).contents().contains(v)
                    &&& final(self).contents() == old(self).contents().remove(v)
                },
                None => {
                    &&& final(self)@ == old(self)@
                    &&& old(self).contents().contains(v)
                    &&& (!old(self).no_foreign_locks(ctx) || old(self).clock == u64::MAX
                        || old(self).free_list@.len() == RLU_MAX_FREE_NODES)
                },
            },
            !old(self).contents().contains(v) || (old(self).no_foreign_locks(ctx) && old(self).clock
                < u64::MAX && old(self).free_list@.len() < RLU_MAX_FREE_NODES) ==> r is Some,
    {
        self.begin_read(ctx);
        let pos = self.locate(ctx, v);
        if !(pos < self.headers.len() && self.dereference(ctx, pos).value == v) {
            self.end_read(ctx);
            proof {
                assert(!old(self)@.contains(v)) by {
                    if old(self)@.contains(v) {
                        let w = choose|w: int| 0 <= w < old(self)@.len() && old(self)@[w] == v;
                        assert(self@[w] == v);
                        if w > pos {
                            assert(self@[pos as int] < self@[w]);
                        }
                    }
                }
                assert(old(self).contents().remove(v) =~= final(self).contents());
            }
            return Some(false);
        }
        let ghost entry = *self;
        if pos > 0 {
            if !self.try_lock(ctx, pos - 1) {
                self.abort(ctx);
                self.end_read(ctx);
                return None;
            }
        }
        let ghost after_pred = *self;
        if !self.try_lock(ctx, pos) {
            self.abort(ctx);
            self.end_read(ctx);
            return None;
        }
        if self.clock == u64::MAX || !self.foreign_lock_free(ctx) {
            proof {
                if old(self).no_foreign_locks(ctx) {
                    assert forall|g: int| 0 <= g < self.headers@.len() implies match #[trigger] self.headers@[g].locked_by {
                        Some(t) => t == ctx,
                        None => true,
                    } by {
                        if g != pos && (pos == 0 || g != pos - 1) {
                            assert(self.headers@[g] == after_pred.headers@[g]);
                            assert(after_pred.headers@[g] == entry.headers@[g]);
                        }
                    }
                }
            }
            self.abort(ctx);
            self.end_read(ctx);
            return None;
        }
        self.reclaim(ctx);
        if self.free_list.len() >= RLU_MAX_FREE_NODES {
            self.abort(ctx);
            self.end_read(ctx);
            return None;
        }
        self.commit(ctx, Change::Unlink { at: pos });
        proof {
            if old(self).free_list@.len() == 0 && (forall|t: int|
                0 <= t < RLU_MAX_THREADS && t != ctx ==> !(#[trigger] old(self).threads@[t]).active) {
                if self.free_list@.len() > 0 {
                    let c = self.free_list@[0].clock;
                    assert(!self.grace_elapsed(ctx, c));
                    assert forall|t: int|
                        0 <= t < RLU_MAX_THREADS && t != ctx && (#[trigger] self.threads@[t]).active
                            implies self.threads@[t].epoch > c by {
                        assert(self.threads@[t] == old(self).threads@[t]);
                    }
                }
            }
        }
        self.end_read(ctx);
        proof {
            let s = old(self)@;
            let t = s.remove(pos as int);
            assert(s[pos as int] == v);
            assert forall|w: u64| #[trigger] t.contains(w) == (w != v && s.contains(w)) by {
                if t.contains(w) {
                    let i = choose|i: int| 0 <= i < t.len() && t[i] == w;
                    if i < pos {
                        assert(s[i] == w);
                        assert(s[i] < s[pos as int]);
                    } else {
                        assert(s[i + 1] == w);
                        assert(s[pos as int] < s[i + 1]);
                    }
                }
                if s.contains(w) && w != v {
                    let i = choose|i: int| 0 <= i < s.len() && s[i] == w;
                    if i < pos {
                        assert(t[i] == w);
                    } else {
                        assert(i != pos);
                        assert(t[i - 1] == w);
                    }
                }
            }
            assert(final(self).contents() =~= old(self).contents().remove(v));
        }
        Some(true)
    }

    /// The published elements as text: `{1, 2, 3}`.
    pub fn to_string(&self) -> (r: String)
        requires
            self.wf(),
        ensures
            r@ == render(self@),
    {
        let mut out = String::new();
        proof {
            reveal_strlit("{");
        }
        out.append("{");
        let n = self.headers.len();
        let mut i: usize = 0;
        while i < n
            invariant
                n == self@.len(),
                i <= n,
                out@ == seq!['{'] + render_items(self@.take(i as int)),
            decreases n - i,
        {
            let ghost before = out@;
            if i > 0 {
                out.append(", ");
            }
            let v = self.headers[i].actual.value;
            push_decimal(&mut out, v);
            proof {
                reveal_strlit(", ");
                let s = self@.take(i as int + 1);
                assert(v == self@[i as int]);
                assert(s.drop_last() =~= self@.take(i as int));
                assert(s.last() == v);
                if i == 0 {
                    assert(s[0] == v);
                    assert(render_items(s) == decimal(v as nat));
                    assert(out@ =~= seq!['{'] + render_items(s));
                } else {
                    assert(render_items(s) == render_items(self@.take(i as int)) + seq![',', ' ']
                        + decimal(v as nat));
                    assert(out@ =~= seq!['{'] + render_items(s));
                }
            }
            i = i + 1;
        }
        proof {
            reveal_strlit("}");
        }
        out.append("}");
        assert(self@.take(n as int) =~= self@);
        out
    }

    /// An empty set with an empty registry, at clock zero.
    pub fn new() -> (r: RluCore)
        ensures
            r.wf(),
            r.at_rest(),
            r@ == Seq::<u64>::empty(),
            r.clock == 0,
            r.free_list@.len() == 0,
    {
        let mut threads: Vec<ThreadContext> = Vec::new();
        let mut i: usize = 0;
        while i < RLU_MAX_THREADS
            invariant
                i <= RLU_MAX_THREADS,
                threads@.len() == i,
                forall|t: int|
                    0 <= t < i ==> {
                        let c = #[trigger] threads@[t];
                        !c.live && !c.active && c.epoch == 0 && c.log@.len() == 0
                    },
            decreases RLU_MAX_THREADS - i,
        {
            threads.push(ThreadContext { live: false, active: false, epoch: 0, log: Vec::new() });
            i = i + 1;
        }
        let r = RluCore { clock: 0, headers: Vec::new(), threads, free_list: Vec::new() };
        assert(r@ =~= Seq::<u64>::empty());
        r
    }
}

/// The published elements once `change` is applied to `s`.
pub open spec fn applied(s: Seq<u64>, change: Change) -> Seq<u64> {
    match change {
        Change::Link { at, node } => s.insert(at as int, node.value),
        Change::Unlink { at } => s.remove(at as int),
    }
}

/// A change that fits keeps a strictly ascending sequence so.
pub proof fn lemma_applied_sorted(s: Seq<u64>, change: Change)
    requires
        sorted(s),
        match change {
            Change::Link { at, node } => {
                &&& at <= s.len()
                &&& at > 0 ==> s[at - 1] < node.value
                &&& at < s.len() ==> node.value < s[at as int]
            },
            Change::Unlink { at } => at < s.len(),
        },
    ensures
        sorted(applied(s, change)),
{
    let r = applied(s, change);
    match change {
        Change::Link { at, node } => {
            assert forall|i: int, j: int| 0 <= i < j < r.len() implies r[i] < r[j] by {
                if j < at {
                } else if i > at {
                } else if i == at {
                    assert(s[at as int] <= s[j - 1]);
                } else {
                    assert(s[i] <= s[at - 1]);
                }
            }
        },
        Change::Unlink { at } => {
            assert forall|i: int, j: int| 0 <= i < j < r.len() implies r[i] < r[j] by {
                if j < at {
                } else if i >= at {
                    assert(r[i] == s[i + 1] && r[j] == s[j + 1]);
                } else {
                    assert(r[j] == s[j + 1]);
                }
            }
        },
    }
}

/// The character of a decimal digit.
pub open spec fn digit_char(d: nat) -> char {
    if d == 0 { '0' } else if d == 1 { '1' } else if d == 2 { '2' } else if d == 3 { '3' }
    else if d == 4 { '4' } else if d == 5 { '5' } else if d == 6 { '6' } else if d == 7 { '7' }
    else if d == 8 { '8' } else { '9' }
}

/// `n` written in decimal, without leading zeros.
pub open spec fn decimal(n: nat) -> Seq<char>
    decreases n,
{
    if n < 10 {
        seq![digit_char(n)]
    } else {
        decimal(n / 10) + seq![digit_char(n % 10)]
    }
}

/// The elements of `s` in decimal, separated by `", "`.
pub open spec fn render_items(s: Seq<u64>) -> Seq<char>
    decreases s.len(),
{
    if s.len() == 0 {
        Seq::empty()
    } else if s.len() == 1 {
        decimal(s[0] as nat)
    } else {
        render_items(s.drop_last()) + seq![',', ' '] + decimal(s.last() as nat)
    }
}

/// The elements of `s` between braces: `{1, 2, 3}`.
pub open spec fn render(s: Seq<u64>) -> Seq<char> {
    seq!['{'] + render_items(s) + seq!['}']
}

/// The text of one decimal digit.
fn digit_str(d: u64) -> (r: &'static str)
    requires
        d < 10,
    ensures
        r@ == seq![digit_char(d as nat)],
{
    proof {
        reveal_strlit("0");
        reveal_strlit("1");
        reveal_strlit("2");
        reveal_strlit("3");
        reveal_strlit("4");
        reveal_strlit("5");
        reveal_strlit("6");
        reveal_strlit("7");
        reveal_strlit("8");
        reveal_strlit("9");
    }
    if d == 0 { "0" } else if d == 1 { "1" } else if d == 2 { "2" } else if d == 3 { "3" }
    else if d == 4 { "4" } else if d == 5 { "5" } else if d == 6 { "6" } else if d == 7 { "7" }
    else if d == 8 { "8" } else { "9" }
}

/// Appends `n` in decimal to `out`.
fn push_decimal(out: &mut String, n: u64)
    ensures
        final(out)@ == old(out)@ + decimal(n as nat),
    decreases n,
{
    if n >= 10 {
        push_decimal(out, n / 10);
    }
    out.append(digit_str(n % 10));
    assert(final(out)@ =~= old(out)@ + decimal(n as nat));
}

/// A strictly ascending sequence has as many elements as the set it forms.
pub proof fn lemma_sorted_contents_len(s: Seq<u64>)
    requires
        sorted(s),
    ensures
        s.to_set().len() == s.len(),
{
    assert(s.no_duplicates());
    s.unique_seq_to_set();
}

} // verus!
