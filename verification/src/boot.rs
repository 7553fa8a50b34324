//! The bootstrap sequence that every core runs: load the kernel if no core
//! has yet, claim a stack, map it, and collect what the switch to long mode
//! needs.
//!
//! The shared state is one value that the caller keeps behind its locks.
//! Every function here takes it by reference for the length of one step, so
//! a step is atomic with respect to the others exactly as far as the
//! caller's locking makes it so.

use vstd::prelude::*;
use crate::entry;
use crate::entry::Leaf;
use crate::entry::PageType;
use crate::image::Image;
use crate::layout::KERNEL_PHYS_WINDOW_BASE;
use crate::layout::KERNEL_STACKS_BASE;
use crate::layout::KERNEL_STACK_PAD;
use crate::layout::KERNEL_STACK_SIZE;
use crate::layout::KERNEL_STACK_STRIDE;
use crate::mapping;
use crate::phys::PhysMem;
use crate::spaces;
use crate::spaces::KernelError;
use crate::stack;
use crate::stack::StackCursor;
use crate::table;
use crate::table::MapError;
use crate::table::PageTable;

verus! {

/// Why a core could not be handed off to the kernel.
#[derive(Clone, Copy, Debug, PartialEq, Eq, Structural)]
pub enum BootError {
    /// The kernel image could not be fetched.
    Download,
    /// The kernel image could not be parsed.
    Malformed,
    /// No kernel is loaded and none was supplied.
    KernelMissing,
    /// The allocator ran dry while the trampoline table was built.
    Trampoline,
    /// The allocator ran dry while the kernel's physical window was built.
    Window,
    /// A section of the kernel image could not be mapped.
    Section(MapError),
    /// The core's stack could not be mapped.
    Stack(MapError),
}

/// What the attempt to obtain the kernel image gave.
pub enum Fetched {
    /// No attempt was made.
    Skipped,
    /// The download failed.
    Missing,
    /// The download succeeded but the bytes are not an image.
    Malformed,
    /// The parsed image.
    Kernel(Image),
}

/// Everything the switch to long mode is given.
#[derive(Clone, Copy, Debug, PartialEq, Eq, Structural)]
pub struct Handoff {
    /// Virtual address at which the kernel starts.
    pub entry_point: u64,
    /// Initial stack pointer: one past the top of the core's stack.
    pub stack: u64,
    /// Physical address of the root of the kernel table.
    pub cr3: u64,
    /// Physical address of the root of the trampoline table.
    pub tramp_cr3: u64,
    /// Base of the kernel's physical window.
    pub phys_window_base: u64,
}

/// The one-time claim of the serial port. It is shared between all cores
/// under a lock of its own, apart from the rest of the shared state, so
/// that bringing up the port never waits on a kernel being loaded.
pub struct SerialClaim {
    claimed: bool,
}

impl SerialClaim {
    /// Whether the serial port has been claimed for initialization.
    pub closed spec fn claimed(&self) -> bool {
        self.claimed
    }

    /// The claim before any core has run: not taken.
    pub fn new() -> (r: SerialClaim)
        ensures
            !r.claimed(),
    {
        SerialClaim { claimed: false }
    }

    /// Claims the one-time initialization of the serial port. The first call
    /// returns `true`: that caller initializes the port. Every later call
    /// returns `false`.
    pub fn claim(&mut self) -> (r: bool)
        ensures
            r == !old(self).claimed(),
            final(self).claimed(),
    {
        let first = !self.claimed;
        self.claimed = true;
        first
    }
}

/// The state that all cores share: the kernel's entry point, the two
/// tables, and the cursor from which stacks are claimed.
pub struct BootState {
    kernel_entry: Option<u64>,
    page_table: Option<PageTable>,
    trampoline_page_table: Option<PageTable>,
    stack_vaddr: StackCursor,
}

impl BootState {
    /// The kernel's entry point, once a kernel is loaded.
    pub closed spec fn entry(&self) -> Option<u64> {
        self.kernel_entry
    }

    /// The kernel table, once a kernel is loaded.
    pub closed spec fn kernel(&self) -> Option<PageTable> {
        self.page_table
    }

    /// The trampoline table, once a kernel is loaded.
    pub closed spec fn trampoline(&self) -> Option<PageTable> {
        self.trampoline_page_table
    }

    /// The base of the stack that the next core will get.
    pub closed spec fn cursor(&self) -> u64 {
        self.stack_vaddr.value()
    }

    /// Whether a kernel is loaded.
    pub open spec fn loaded(&self) -> bool {
        self.entry() is Some
    }

    /// Whether the state is consistent with memory `m`: the entry point and
    /// the two tables are set together or not at all, and when they are set
    /// the tables are well formed and share no frame.
    pub open spec fn wf(&self, m: Map<u64, u64>) -> bool {
        &&& self.kernel() is Some <==> self.entry() is Some
        &&& self.trampoline() is Some <==> self.entry() is Some
        &&& self.entry() is Some ==> {
            &&& self.kernel().unwrap().wf(m)
            &&& self.trampoline().unwrap().wf(m)
            &&& self.kernel().unwrap().frames().disjoint(self.trampoline().unwrap().frames())
        }
    }

    /// The state before any core has run: nothing set, the first stack at
    /// the base of the stack region.
    pub fn new() -> (r: BootState)
        ensures
            r.entry() is None,
            r.kernel() is None,
            r.trampoline() is None,
            r.cursor() == KERNEL_STACKS_BASE,
            forall|m: Map<u64, u64>| r.wf(m),
    {
        BootState {
            kernel_entry: None,
            page_table: None,
            trampoline_page_table: None,
            stack_vaddr: StackCursor::new(KERNEL_STACKS_BASE),
        }
    }

    /// Whether the calling core has to fetch the kernel: true until a kernel
    /// is loaded, false ever after.
    pub fn needs_kernel(&self) -> (r: bool)
        ensures
            r == !self.loaded(),
    {
        self.kernel_entry.is_none()
    }

    /// The kernel's entry point, once a kernel is loaded.
    pub fn kernel_entry(&self) -> (r: Option<u64>)
        ensures
            r == self.entry(),
    {
        self.kernel_entry
    }

    /// Physical address of the root of the kernel table, once a kernel is
    /// loaded.
    pub fn kernel_root(&self) -> (r: Option<u64>)
        ensures
            r == (match self.kernel() {
                Some(t) => Some(t.root()),
                None => None,
            }),
    {
        match &self.page_table {
            Some(t) => Some(t.table()),
            None => None,
        }
    }

    /// Physical address of the root of the trampoline table, once a kernel
    /// is loaded.
    pub fn trampoline_root(&self) -> (r: Option<u64>)
        ensures
            r == (match self.trampoline() {
                Some(t) => Some(t.root()),
                None => None,
            }),
    {
        match &self.trampoline_page_table {
            Some(t) => Some(t.table()),
            None => None,
        }
    }

    /// The base of the stack that the next core will get.
    pub fn next_stack(&self) -> (r: u64)
        ensures
            r == self.cursor(),
    {
        self.stack_vaddr.peek()
    }

    /// The leaf that maps `vaddr` in the kernel table; `None` where nothing
    /// does or no kernel is loaded.
    pub fn kernel_lookup<M: PhysMem>(&self, mem: &M, vaddr: u64) -> (r: Option<Leaf>)
        requires
            mem.inv(),
            self.wf(mem.view()),
        ensures
            r == (match self.kernel() {
                Some(t) => t.mapping(mem.view(), vaddr),
                None => None,
            }),
    {
        match &self.page_table {
            Some(t) => t.lookup(mem, vaddr),
            None => None,
        }
    }

    /// The leaf that maps `vaddr` in the trampoline table; `None` where
    /// nothing does or no kernel is loaded.
    pub fn trampoline_lookup<M: PhysMem>(&self, mem: &M, vaddr: u64) -> (r: Option<Leaf>)
        requires
            mem.inv(),
            self.wf(mem.view()),
        ensures
            r == (match self.trampoline() {
                Some(t) => t.mapping(mem.view(), vaddr),
                None => None,
            }),
    {
        match &self.trampoline_page_table {
            Some(t) => t.lookup(mem, vaddr),
            None => None,
        }
    }
}

impl BootState {
    /// What one call of the one-time initialization does. On a state with a
    /// kernel loaded it succeeds and changes nothing. On a state without,
    /// success means the entry point of `img` and both tables are set, the
    /// tables built from frames that were out of use; failure means the
    /// state is still unset.
    pub open spec fn after_load(
        &self,
        before: BootState,
        m0: Map<u64, u64>,
        m1: Map<u64, u64>,
        bootloader_end: u32,
        img: Image,
        r: Result<(), BootError>,
    ) -> bool {
        if before.loaded() {
            &&& r is Ok
            &&& *self == before
            &&& m1 == m0
        } else {
            match r {
                Ok(()) => {
                    &&& self.entry() == Some(img.entry_point)
                    &&& self.trampoline() is Some
                    &&& self.kernel() is Some
                    &&& spaces::built_in(self.trampoline().unwrap(), m0, m1)
                    &&& spaces::trampoline_maps(self.trampoline().unwrap(), bootloader_end, m1)
                    &&& spaces::kernel_built(self.kernel().unwrap(), img, m0, m1)
                },
                Err(e) => {
                    &&& *self == before
                    &&& match e {
                        BootError::Trampoline => true,
                        BootError::Window => true,
                        BootError::Section(c) => {
                            &&& c != MapError::InvalidEntry
                            &&& spaces::section_stopped(img.sections@, c)
                        },
                        _ => false,
                    }
                },
            }
        }
    }

    /// The one-time initialization: builds the trampoline table for a
    /// bootloader that ends at `bootloader_end`, builds the kernel table,
    /// loads `img` into it, and records the entry point and both tables.
    ///
    /// Where a kernel is loaded already, nothing is done: the state and
    /// memory stay as they are. Where building fails, the state stays
    /// unset; frames claimed on the way are not given back.
    #[verifier::rlimit(40)]
    pub fn load_kernel<M: PhysMem>(&mut self, mem: &mut M, bootloader_end: u32, img: &Image) -> (r:
        Result<(), BootError>)
        requires
            old(mem).inv(),
            old(self).wf(old(mem).view()),
        ensures
            final(mem).inv(),
            final(self).wf(final(mem).view()),
            final(self).cursor() == old(self).cursor(),
            forall|a: u64| #[trigger]
                old(mem).view().dom().contains(a) ==> final(mem).view().dom().contains(a)
                    && final(mem).view()[a] == old(mem).view()[a],
            final(self).after_load(
                *old(self),
                old(mem).view(),
                final(mem).view(),
                bootloader_end,
                *img,
                r,
            ),
            !old(self).loaded() && spaces::image_hits(img.sections@) ==> r is Err && *final(self)
                == *old(self),
            !old(self).loaded() && old(mem).offer(PageType::Page4K) is None ==> r == Err::<
                (),
                BootError,
            >(BootError::Trampoline) && *final(self) == *old(self) && final(mem).view()
                == old(mem).view(),
    {
        if self.kernel_entry.is_some() {
            return Ok(());
        }
        let ghost m0 = mem.view();
        let tramp = match spaces::build_trampoline(mem, bootloader_end) {
            Ok(t) => t,
            Err(_) => {
                return Err(BootError::Trampoline);
            },
        };
        let ghost m1 = mem.view();
        let (kernel, entry_point) = match spaces::build_kernel(mem, img) {
            Ok(built) => built,
            Err(KernelError::Window) => {
                return Err(BootError::Window);
            },
            Err(KernelError::Section(e)) => {
                return Err(BootError::Section(e));
            },
        };
        proof {
            let m2 = mem.view();
            spaces::lemma_spaces_apart(tramp, kernel, bootloader_end, m1, m2);
            spaces::lemma_kernel_rebased(kernel, *img, m0, m1, m2);
            assert forall|a: u64| #[trigger] m0.dom().contains(a) implies !tramp.owns(a) by {}
        }
        self.kernel_entry = Some(entry_point);
        self.trampoline_page_table = Some(tramp);
        self.page_table = Some(kernel);
        Ok(())
    }
}

/// Number of pages in one kernel stack.
pub open spec fn stack_pages() -> int {
    (KERNEL_STACK_SIZE / 4096) as int
}

impl BootState {
    /// What one call of the per-core step does. Without a kernel it fails
    /// and changes nothing. With one, the cursor moves on by one stack and
    /// its guard region; the entry point and the trampoline table stay as
    /// they are; the kernel table keeps its root and grows by, at most, the
    /// pages of the new stack; and success means that those pages are all
    /// mapped, writable and not executable, to zeroed frames of their own,
    /// and that the hand-off names the entry point, the top of the new
    /// stack, both roots and the base of the physical window.
    pub open spec fn after_core(
        &self,
        before: BootState,
        m0: Map<u64, u64>,
        m1: Map<u64, u64>,
        r: Result<Handoff, BootError>,
    ) -> bool {
        if !before.loaded() {
            &&& r == Err::<Handoff, BootError>(BootError::KernelMissing)
            &&& *self == before
            &&& m1 == m0
        } else {
            &&& self.entry() == before.entry()
            &&& self.trampoline() == before.trampoline()
            &&& self.kernel() is Some
            &&& self.kernel().unwrap().root() == before.kernel().unwrap().root()
            &&& self.kernel().unwrap().grown_from(before.kernel().unwrap(), m0, m1)
            &&& self.cursor() == stack::ticket(before.cursor(), 1)
            &&& forall|a: u64, t: nat|
                t <= 3 ==> #[trigger] before.trampoline().unwrap().probe(m1, a, t)
                    == before.trampoline().unwrap().probe(m0, a, t)
            &&& self.kernel().unwrap().rest_untouched(
                before.kernel().unwrap(),
                m0,
                m1,
                before.cursor(),
                PageType::Page4K,
                stack_pages(),
            )
            &&& match r {
                Ok(h) => {
                    &&& mapping::request_ok(before.cursor(), PageType::Page4K, KERNEL_STACK_SIZE)
                    &&& h.entry_point == before.entry().unwrap()
                    &&& h.stack == before.cursor() + KERNEL_STACK_SIZE
                    &&& h.cr3 == before.kernel().unwrap().root()
                    &&& h.tramp_cr3 == before.trampoline().unwrap().root()
                    &&& h.phys_window_base == KERNEL_PHYS_WINDOW_BASE
                    &&& self.kernel().unwrap().mapped_range(
                        before.kernel().unwrap(),
                        m0,
                        m1,
                        before.cursor(),
                        PageType::Page4K,
                        true,
                        false,
                        Seq::<u8>::empty(),
                        stack_pages(),
                    )
                },
                Err(BootError::Stack(e)) => {
                    &&& e != MapError::InvalidEntry
                    &&& e == MapError::Misaligned <==> (before.cursor() % 4096 != 0
                        || before.cursor() + KERNEL_STACK_SIZE > u64::MAX)
                    &&& e == MapError::AlreadyMapped ==> before.kernel().unwrap().overlaps(
                        m0,
                        before.cursor(),
                        PageType::Page4K,
                        KERNEL_STACK_SIZE,
                    )
                },
                Err(_) => false,
            }
        }
    }

    /// The per-core step: claims the next stack, maps it into the kernel
    /// table, readable and writable and not executable, and collects what
    /// the switch to long mode needs.
    ///
    /// Where no kernel is loaded, nothing is claimed and nothing changes.
    /// Otherwise the cursor moves on by one stack and its guard region
    /// whatever happens next, and is never moved back. The entry point and
    /// the trampoline table are never touched.
    #[verifier::rlimit(40)]
    pub fn prepare_core<M: PhysMem>(&mut self, mem: &mut M) -> (r: Result<Handoff, BootError>)
        requires
            old(mem).inv(),
            old(self).wf(old(mem).view()),
        ensures
            final(mem).inv(),
            final(self).wf(final(mem).view()),
            final(self).after_core(*old(self), old(mem).view(), final(mem).view(), r),
            old(self).loaded() && mapping::request_ok(
                old(self).cursor(),
                PageType::Page4K,
                KERNEL_STACK_SIZE,
            ) && old(self).cursor() + KERNEL_STACK_SIZE <= u64::MAX && old(mem).offer(PageType::Page4K) is None ==> r == Err::<Handoff, BootError>(BootError::Stack(MapError::OutOfFrames))
                && final(self).kernel() == old(self).kernel() && final(mem).view()
                == old(mem).view(),
    {
        let ghost m0 = mem.view();
        let ghost before = *self;
        let entry_point: u64 = match self.kernel_entry {
            Some(entry_point) => entry_point,
            None => {
                return Err(BootError::KernelMissing);
            },
        };
        let tramp_cr3: u64 = match &self.trampoline_page_table {
            Some(t) => t.table(),
            None => {
                return Err(BootError::KernelMissing);
            },
        };
        let ghost k0 = self.page_table.unwrap();
        let ghost tramp = self.trampoline_page_table.unwrap();
        proof {
            table::lemma_grown_refl(k0, m0);
            assert(k0.rest_untouched(k0, m0, m0, before.cursor(), PageType::Page4K, stack_pages()));
        }
        let base: u64 = self.stack_vaddr.claim();
        let top: u64 = match base.checked_add(KERNEL_STACK_SIZE) {
            Some(top) => top,
            None => {
                return Err(BootError::Stack(MapError::Misaligned));
            },
        };
        let mut kernel: PageTable = match self.page_table.take() {
            Some(kernel) => kernel,
            None => {
                return Err(BootError::KernelMissing);
            },
        };
        let r = kernel.map(mem, base, PageType::Page4K, KERNEL_STACK_SIZE, true, true, false);
        let cr3: u64 = kernel.table();
        proof {
            table::lemma_other_table(k0, kernel, tramp, m0, mem.view());
            table::lemma_grown_facts(k0, kernel, m0, mem.view());
        }
        self.page_table = Some(kernel);
        match r {
            Ok(()) => Ok(
                Handoff {
                    entry_point,
                    stack: top,
                    cr3,
                    tramp_cr3,
                    phys_window_base: KERNEL_PHYS_WINDOW_BASE,
                },
            ),
            Err(e) => Err(BootError::Stack(e)),
        }
    }

    /// What one call of the whole sequence does. On a state with a kernel
    /// loaded it is the per-core step, and what was fetched is not looked
    /// at. On a state without, a core that brings no image fails and
    /// changes nothing; a core that brings one runs the one-time
    /// initialization and, where that succeeds, the per-core step.
    pub open spec fn after_enter(
        &self,
        before: BootState,
        m0: Map<u64, u64>,
        m1: Map<u64, u64>,
        bootloader_end: u32,
        fetched: Fetched,
        r: Result<Handoff, BootError>,
    ) -> bool {
        if before.loaded() {
            self.after_core(before, m0, m1, r)
        } else {
            match fetched {
                Fetched::Skipped => {
                    &&& r == Err::<Handoff, BootError>(BootError::KernelMissing)
                    &&& *self == before
                    &&& m1 == m0
                },
                Fetched::Missing => {
                    &&& r == Err::<Handoff, BootError>(BootError::Download)
                    &&& *self == before
                    &&& m1 == m0
                },
                Fetched::Malformed => {
                    &&& r == Err::<Handoff, BootError>(BootError::Malformed)
                    &&& *self == before
                    &&& m1 == m0
                },
                Fetched::Kernel(img) => exists|mid: BootState, m: Map<u64, u64>, loaded: Result<(), BootError>|
                    {
                        &&& #[trigger] mid.after_load(before, m0, m, bootloader_end, img, loaded)
                        &&& mid.cursor() == before.cursor()
                        &&& forall|a: u64| #[trigger]
                            m0.dom().contains(a) ==> m.dom().contains(a) && m[a] == m0[a]
                        &&& match loaded {
                            Ok(()) => self.after_core(mid, m, m1, r),
                            Err(e) => {
                                &&& r == Err::<Handoff, BootError>(e)
                                &&& *self == mid
                                &&& m1 == m
                            },
                        }
                    },
            }
        }
    }

    /// The whole sequence for one core, given what the attempt to obtain
    /// the kernel image gave. A core that found [`BootState::needs_kernel`]
    /// true fetches and parses the image and passes the outcome; any other
    /// core passes [`Fetched::Skipped`].
    ///
    /// Where a kernel is loaded already, `fetched` is not looked at. Where
    /// none is, the image in `fetched` is loaded; without one the core
    /// fails and the state is untouched. Then the per-core step runs.
    #[verifier::rlimit(40)]
    pub fn enter<M: PhysMem>(&mut self, mem: &mut M, bootloader_end: u32, fetched: Fetched) -> (r:
        Result<Handoff, BootError>)
        requires
            old(mem).inv(),
            old(self).wf(old(mem).view()),
        ensures
            final(mem).inv(),
            final(self).wf(final(mem).view()),
            final(self).after_enter(
                *old(self),
                old(mem).view(),
                final(mem).view(),
                bootloader_end,
                fetched,
                r,
            ),
            r is Ok ==> final(self).loaded(),
            !final(self).loaded() ==> *final(self) == *old(self) && forall|a: u64| #[trigger]
                old(mem).view().dom().contains(a) ==> final(mem).view().dom().contains(a)
                    && final(mem).view()[a] == old(mem).view()[a],
            forall|a: u64| #[trigger]
                old(mem).view().dom().contains(a) ==> final(mem).view().dom().contains(a),
            !old(self).loaded() && (match fetched {
                Fetched::Kernel(img) => spaces::image_hits(img.sections@),
                _ => false,
            }) ==> r is Err && *final(self) == *old(self),
            !old(self).loaded() && fetched is Kernel && old(mem).offer(PageType::Page4K) is None
                ==> r == Err::<Handoff, BootError>(BootError::Trampoline) && *final(self)
                == *old(self) && final(mem).view() == old(mem).view(),
            old(self).loaded() && mapping::request_ok(
                old(self).cursor(),
                PageType::Page4K,
                KERNEL_STACK_SIZE,
            ) && old(self).cursor() + KERNEL_STACK_SIZE <= u64::MAX && old(mem).offer(PageType::Page4K) is None ==> r == Err::<Handoff, BootError>(BootError::Stack(MapError::OutOfFrames))
                && final(self).kernel() == old(self).kernel() && final(mem).view()
                == old(mem).view(),
    {
        let ghost before = *self;
        let ghost m0 = mem.view();
        if self.needs_kernel() {
            match fetched {
                Fetched::Skipped => {
                    return Err(BootError::KernelMissing);
                },
                Fetched::Missing => {
                    return Err(BootError::Download);
                },
                Fetched::Malformed => {
                    return Err(BootError::Malformed);
                },
                Fetched::Kernel(img) => {
                    let loaded = self.load_kernel(mem, bootloader_end, &img);
                    let ghost mid = *self;
                    let ghost m = mem.view();
                    match loaded {
                        Ok(()) => {
                            let r = self.prepare_core(mem);
                            proof {
                                assert(mid.after_load(before, m0, m, bootloader_end, img, loaded));
                                table::lemma_grown_facts(
                                    mid.kernel().unwrap(),
                                    self.kernel().unwrap(),
                                    m,
                                    mem.view(),
                                );
                            }
                            return r;
                        },
                        Err(e) => {
                            proof {
                                assert(mid.after_load(before, m0, m, bootloader_end, img, loaded));
                            }
                            return Err(e);
                        },
                    }
                },
            }
        }
        let r = self.prepare_core(mem);
        proof {
            table::lemma_grown_facts(
                before.kernel().unwrap(),
                self.kernel().unwrap(),
                m0,
                mem.view(),
            );
        }
        r
    }
}

/// The one-time initialization is idempotent: once it has succeeded, a
/// second invocation, whatever image it is given, succeeds, builds nothing,
/// and leaves the entry point, both tables and all of memory as the first
/// left them.
pub proof fn lemma_load_once(
    s0: BootState,
    s1: BootState,
    s2: BootState,
    m0: Map<u64, u64>,
    m1: Map<u64, u64>,
    m2: Map<u64, u64>,
    end1: u32,
    img1: Image,
    end2: u32,
    img2: Image,
    r2: Result<(), BootError>,
)
    requires
        !s0.loaded(),
        s1.after_load(s0, m0, m1, end1, img1, Ok(())),
        s2.after_load(s1, m1, m2, end2, img2, r2),
    ensures
        s1.loaded(),
        r2 is Ok,
        s2 == s1,
        m2 == m1,
        s2.entry() == Some(img1.entry_point),
        s2.kernel().unwrap().root() == s1.kernel().unwrap().root(),
        s2.trampoline().unwrap().root() == s1.trampoline().unwrap().root(),
{
}

/// Every core is handed the same kernel: two cores that run the per-core
/// step one after the other get the same entry point and the same two
/// roots, and stacks that are exactly one stack size long, disjoint, and
/// separated by the guard region, as long as the cursor has not run off the
/// end of the address space.
pub proof fn lemma_cores_agree(
    s0: BootState,
    s1: BootState,
    s2: BootState,
    m0: Map<u64, u64>,
    m1: Map<u64, u64>,
    m2: Map<u64, u64>,
    h1: Handoff,
    h2: Handoff,
)
    requires
        s0.loaded(),
        s1.after_core(s0, m0, m1, Ok(h1)),
        s2.after_core(s1, m1, m2, Ok(h2)),
        s0.cursor() + 2 * KERNEL_STACK_STRIDE <= 0x1_0000_0000_0000_0000,
    ensures
        h2.entry_point == h1.entry_point,
        h2.cr3 == h1.cr3,
        h2.tramp_cr3 == h1.tramp_cr3,
        h2.phys_window_base == h1.phys_window_base,
        h1.stack - KERNEL_STACK_SIZE == s0.cursor(),
        h2.stack - KERNEL_STACK_SIZE == h1.stack + KERNEL_STACK_PAD,
        s2.kernel().unwrap().grown_from(s0.kernel().unwrap(), m0, m2),
{
    table::lemma_grown_trans(
        s0.kernel().unwrap(),
        s1.kernel().unwrap(),
        s2.kernel().unwrap(),
        m0,
        m1,
        m2,
    );
    stack::lemma_stacks_disjoint(s0.cursor(), 0, 1);
}

/// Mapping a core's stack leaves the guard region above it as it was:
/// whatever the kernel table did or did not map there, it still does or
/// does not.
pub proof fn lemma_guard_untouched(
    s0: BootState,
    s1: BootState,
    m0: Map<u64, u64>,
    m1: Map<u64, u64>,
    r: Result<Handoff, BootError>,
    g: u64,
)
    requires
        s0.loaded(),
        s1.after_core(s0, m0, m1, r),
        s0.cursor() % 4096 == 0,
        s0.cursor() + KERNEL_STACK_SIZE <= g,
        g < s0.cursor() + KERNEL_STACK_STRIDE,
    ensures
        s1.kernel().unwrap().mapping(m1, g) == s0.kernel().unwrap().mapping(m0, g),
{
    let base = s0.cursor();
    let page = PageType::Page4K;
    assert(!mapping::run_covers(base, page, stack_pages(), g)) by {
        if mapping::run_covers(base, page, stack_pages(), g) {
            let k = choose|k: int|
                0 <= k < stack_pages() && #[trigger] entry::covers(
                    mapping::page_addr(base, page, k),
                    page,
                    g,
                );
            let va = mapping::page_addr(base, page, k);
            assert(va == base + k * 4096);
            entry::lemma_covers_same_page(va, page, g);
        }
    }
    assert(s1.kernel().unwrap().probe(m1, g, 3) == s0.kernel().unwrap().probe(m0, g, 3));
}

} // verus!
