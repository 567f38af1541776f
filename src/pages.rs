use vstd::prelude::*;
use crate::clock::{
    all_referenced, clock_victim, hand_after, has_resident, is_victim, lemma_victim_exists,
    lemma_victim_unique, scan_key, swept,
};

verus! {

/// Size in bytes of one page and of one physical frame.
pub const PAGE_SIZE: usize = 4096;

/// One page-aligned slot of a process's virtual address space.
#[derive(Debug, Clone, Copy)]
pub struct VirtualPage {
    /// Set while the page is bound to a physical frame.
    pub presence: bool,
    /// Set on every access; cleared by the clock scan and by `tick`.
    pub reference: bool,
    /// Set on write access ("dirty").
    pub modification: bool,
    /// Address of the frame that backs the page, if it is resident.
    pub frame: Option<usize>,
}

impl VirtualPage {
    /// The page bound to frame `address`: resident and referenced, dirty bit kept.
    pub open spec fn bound(self, address: usize) -> VirtualPage {
        VirtualPage {
            presence: true,
            reference: true,
            modification: self.modification,
            frame: Some(address),
        }
    }

    /// The page after it lost its frame to eviction.
    pub open spec fn unbound(self) -> VirtualPage {
        VirtualPage {
            presence: false,
            reference: false,
            modification: self.modification,
            frame: None,
        }
    }

    /// The page after a read (`write == false`) or a write access.
    pub open spec fn touched(self, write: bool) -> VirtualPage {
        VirtualPage {
            presence: self.presence,
            reference: true,
            modification: self.modification || write,
            frame: self.frame,
        }
    }

    /// The page with its reference bit cleared.
    pub open spec fn cleared(self) -> VirtualPage {
        VirtualPage {
            presence: self.presence,
            reference: false,
            modification: self.modification,
            frame: self.frame,
        }
    }

    /// The page after the periodic clearing of its status bits.
    pub open spec fn ticked(self) -> VirtualPage {
        VirtualPage {
            presence: self.presence,
            reference: false,
            modification: false,
            frame: self.frame,
        }
    }

    /// A page that has never been touched: not resident, no bit set.
    pub open spec fn fresh() -> VirtualPage {
        VirtualPage { presence: false, reference: false, modification: false, frame: None }
    }

    pub fn new() -> (r: VirtualPage)
        ensures
            r == VirtualPage::fresh(),
    {
        VirtualPage {
            presence: false,
            reference: false,
            modification: false,
            frame: VirtualPage::null(),
        }
    }

    /// The frame binding of a page that is not resident.
    pub fn null() -> (r: Option<usize>)
        ensures
            r is None,
    {
        None
    }

    /// Binds the page to the frame at `paddress`.
    pub fn alloc_frame(&mut self, paddress: usize)
        ensures
            *final(self) == old(self).bound(paddress),
    {
        self.presence = true;
        self.reference = true;
        self.frame = Some(paddress);
    }

    /// Takes the page's frame away: the page is no longer resident.
    pub fn swap(&mut self)
        ensures
            *final(self) == old(self).unbound(),
    {
        self.frame = VirtualPage::null();
        self.presence = false;
        self.reference = false;
    }

    pub fn write(&mut self)
        ensures
            *final(self) == old(self).touched(true),
    {
        self.reference = true;
        self.modification = true;
    }

    pub fn read(&mut self)
        ensures
            *final(self) == old(self).touched(false),
    {
        self.reference = true;
    }
}

/// A physical frame, identified by its address.
#[derive(Debug, Clone, Copy)]
pub struct PhysicalPage {
    pub address: usize,
}

impl PhysicalPage {
    pub fn new(address: usize) -> (r: PhysicalPage)
        ensures
            r.address == address,
    {
        PhysicalPage { address }
    }
}

/// Why an operation of the memory manager was refused.
#[derive(Debug, Clone, Copy, PartialEq, Eq, Structural)]
pub enum MemoryError {
    ProcessAlreadyRegistered,
    ProcessNotRegistered,
    AddressOutOfRange,
}

/// Where one process's pages lie in the manager's flat page table.
#[derive(Debug, Clone, Copy)]
pub struct Region {
    pub id: usize,
    /// Index of the process's page 0.
    pub first: usize,
    /// Number of pages the process declared.
    pub count: usize,
}

/// The abstract state of a [`MemoryManager`].
pub struct MemoryState {
    /// One entry per registered process, in registration order.
    pub regions: Seq<Region>,
    /// Every virtual page of every process: process by process in
    /// registration order, and within a process by page number.
    pub pages: Seq<VirtualPage>,
    pub free: Seq<PhysicalPage>,
    pub busy: Seq<PhysicalPage>,
    /// Where the next clock scan starts, as an index into `pages`.
    pub hand: int,
    /// Number of frames, fixed when the manager is made.
    pub total_frames: int,
}

/// `s` with its element `i` removed, the last element taking its place.
pub open spec fn swap_removed<T>(s: Seq<T>, i: int) -> Seq<T> {
    s.update(i, s.last()).drop_last()
}

/// The address of the first byte of the page that holds `address`.
pub open spec fn page_address(address: usize) -> usize {
    ((address / PAGE_SIZE) * PAGE_SIZE) as usize
}

impl MemoryState {
    pub open spec fn registered(self, id: usize) -> bool {
        exists|k: int| 0 <= k < self.regions.len() && #[trigger] self.regions[k].id == id
    }

    /// The region of a registered process.
    pub open spec fn region(self, id: usize) -> Region {
        self.regions[choose|k: int| 0 <= k < self.regions.len() && #[trigger] self.regions[k].id == id]
    }

    /// Some page is bound to the frame at `address`.
    pub open spec fn is_bound(self, address: usize) -> bool {
        exists|g: int| 0 <= g < self.pages.len() && #[trigger] self.pages[g].frame == Some(address)
    }

    /// The address falls inside the pages that process `id` declared.
    pub open spec fn in_range(self, id: usize, address: usize) -> bool {
        address / PAGE_SIZE < self.region(id).count
    }

    /// Index in `pages` of the page of process `id` that holds `address`.
    pub open spec fn page_index(self, id: usize, address: usize) -> int {
        self.region(id).first + address / PAGE_SIZE
    }

    /// Index in `free` of the frame given to a page requested at `address`:
    /// the frame at that very address when it is free, else the first one.
    pub open spec fn frame_slot(self, address: usize) -> int {
        if exists|j: int| 0 <= j < self.free.len() && #[trigger] self.free[j].address == address {
            choose|j: int| 0 <= j < self.free.len() && #[trigger] self.free[j].address == address
        } else {
            0
        }
    }

    /// The state after page `g`, not resident, was bound to a frame for a
    /// request at `address`: a free frame when there is one, else the frame
    /// of the clock's victim.
    pub open spec fn after_alloc(self, g: int, address: usize) -> MemoryState {
        if self.free.len() > 0 {
            let j = self.frame_slot(address);
            MemoryState {
                pages: self.pages.update(g, self.pages[g].bound(self.free[j].address)),
                free: swap_removed(self.free, j),
                busy: self.busy.push(self.free[j]),
                ..self
            }
        } else {
            let v = clock_victim(self.pages, self.hand);
            MemoryState {
                pages: swept(self.pages, self.hand, v).update(v, self.pages[v].unbound()).update(
                    g,
                    self.pages[g].bound(self.pages[v].frame.unwrap()),
                ),
                hand: hand_after(v, self.pages.len() as int),
                ..self
            }
        }
    }

    /// What an access by `id` at `address` returns.
    pub open spec fn access_result(self, id: usize, address: usize) -> Result<(), MemoryError> {
        if !self.registered(id) {
            Err(MemoryError::ProcessNotRegistered)
        } else if !self.in_range(id, address) {
            Err(MemoryError::AddressOutOfRange)
        } else {
            Ok(())
        }
    }

    /// The state after an access to page `g`, binding it first if needed.
    pub open spec fn after_access(self, g: int, address: usize, write: bool) -> MemoryState {
        let base = if self.pages[g].presence {
            self
        } else {
            self.after_alloc(g, address)
        };
        MemoryState { pages: base.pages.update(g, base.pages[g].touched(write)), ..base }
    }

    /// The state after process `id` was registered with `count` fresh pages.
    pub open spec fn after_register(self, id: usize, count: usize) -> MemoryState {
        MemoryState {
            regions: self.regions.push(
                Region { id, first: self.pages.len() as usize, count },
            ),
            pages: self.pages + Seq::new(count as nat, |i: int| VirtualPage::fresh()),
            hand: 0,
            ..self
        }
    }

    /// The state after the status bits of every page of `id` were cleared.
    pub open spec fn after_tick(self, id: usize) -> MemoryState {
        let r = self.region(id);
        MemoryState {
            pages: Seq::new(
                self.pages.len(),
                |g: int|
                    if r.first <= g < r.first + r.count {
                        self.pages[g].ticked()
                    } else {
                        self.pages[g]
                    },
            ),
            ..self
        }
    }
}

/// The simulated machine's memory manager: per-process virtual pages, the
/// free and busy frame pools, and the clock hand.
pub struct MemoryManager {
    regions: Vec<Region>,
    pages: Vec<VirtualPage>,
    free_physical_pages: Vec<PhysicalPage>,
    busy_physical_pages: Vec<PhysicalPage>,
    hand: usize,
    total_frames: usize,
    /// For each busy frame, the index of the page bound to it.
    owner: Ghost<Seq<int>>,
}

impl View for MemoryManager {
    type V = MemoryState;

    closed spec fn view(&self) -> MemoryState {
        MemoryState {
            regions: self.regions@,
            pages: self.pages@,
            free: self.free_physical_pages@,
            busy: self.busy_physical_pages@,
            hand: self.hand as int,
            total_frames: self.total_frames as int,
        }
    }
}

/// The regions lie back to back over the whole page table, in order.
#[verifier::opaque]
pub open spec fn regions_tile(regions: Seq<Region>, n: int) -> bool {
    &&& forall|k: int|
        0 <= k < regions.len() ==> #[trigger] regions[k].first == if k == 0 {
            0
        } else {
            regions[k - 1].first + regions[k - 1].count
        }
    &&& n == if regions.len() == 0 {
        0
    } else {
        regions.last().first + regions.last().count
    }
}

/// Each region lies inside the page table, and no id has two regions.
pub open spec fn regions_fit(regions: Seq<Region>, n: int) -> bool {
    &&& forall|k: int|
        0 <= k < regions.len() ==> #[trigger] regions[k].first + regions[k].count <= n
    &&& forall|k1: int, k2: int|
        0 <= k1 < regions.len() && 0 <= k2 < regions.len() && k1 != k2
            ==> #[trigger] regions[k1].id != #[trigger] regions[k2].id
}

/// No two resident pages share a frame, and no resident page holds a free one.
pub open spec fn frames_bound_once(pages: Seq<VirtualPage>, free: Seq<PhysicalPage>) -> bool {
    &&& forall|g: int| 0 <= g < pages.len() ==> #[trigger] pages[g].presence == pages[g].frame is Some
    &&& forall|g1: int, g2: int|
        0 <= g1 < pages.len() && 0 <= g2 < pages.len() && g1 != g2 && #[trigger] pages[g1].presence
            && #[trigger] pages[g2].presence ==> pages[g1].frame != pages[g2].frame
    &&& forall|g: int, j: int|
        0 <= g < pages.len() && 0 <= j < free.len() && #[trigger] pages[g].presence
            ==> pages[g].frame != Some(#[trigger] free[j].address)
    &&& forall|j1: int, j2: int|
        0 <= j1 < free.len() && 0 <= j2 < free.len() && j1 != j2 ==> #[trigger] free[j1].address
            != #[trigger] free[j2].address
}

impl MemoryManager {
    /// The manager's invariant.
    pub closed spec fn wf(&self) -> bool {
        let s = self@;
        &&& s.free.len() + s.busy.len() == s.total_frames
        &&& regions_tile(s.regions, s.pages.len() as int)
        &&& regions_fit(s.regions, s.pages.len() as int)
        &&& s.hand == 0 || s.hand < s.pages.len()
        &&& frames_bound_once(s.pages, s.free)
        &&& self.owner@.len() == s.busy.len()
        &&& forall|k: int|
            0 <= k < s.busy.len() ==> 0 <= #[trigger] self.owner@[k] < s.pages.len()
                && s.pages[self.owner@[k]].frame == Some(s.busy[k].address)
    }
}

impl MemoryManager {
    /// A manager with `mem_size / PAGE_SIZE` free frames at addresses
    /// `0, PAGE_SIZE, 2 * PAGE_SIZE, ...` and no process.
    pub fn new(mem_size: usize) -> (r: MemoryManager)
        ensures
            r.wf(),
            r@.total_frames == mem_size / PAGE_SIZE,
            r@.free.len() == mem_size / PAGE_SIZE,
            forall|x: int| 0 <= x < r@.free.len() ==> #[trigger] r@.free[x].address == x * PAGE_SIZE,
            r@.busy.len() == 0,
            r@.regions.len() == 0,
            r@.pages.len() == 0,
            r@.hand == 0,
    {
        let count = mem_size / PAGE_SIZE;
        let mut physical_pages: Vec<PhysicalPage> = Vec::new();
        let mut x: usize = 0;
        while x < count
            invariant
                x <= count,
                count == mem_size / PAGE_SIZE,
                physical_pages@.len() == x,
                forall|i: int| 0 <= i < x ==> #[trigger] physical_pages@[i].address == i * PAGE_SIZE,
            decreases count - x,
        {
            physical_pages.push(PhysicalPage::new(x * PAGE_SIZE));
            x = x + 1;
        }
        let r = MemoryManager {
            regions: Vec::new(),
            pages: Vec::new(),
            free_physical_pages: physical_pages,
            busy_physical_pages: Vec::new(),
            hand: 0,
            total_frames: count,
            owner: Ghost(Seq::empty()),
        };
        assert(frames_bound_once(r@.pages, r@.free));
        proof {
            reveal(regions_tile);
        }
        r
    }

    /// Index in `regions` of process `id`, if it is registered.
    fn find_region(&self, id: usize) -> (r: Option<usize>)
        requires
            self.wf(),
        ensures
            r is None <==> !self@.registered(id),
            r matches Some(k) ==> k < self@.regions.len() && self@.regions[k as int] == self@.region(
                id,
            ),
    {
        let mut k: usize = 0;
        while k < self.regions.len()
            invariant
                self.wf(),
                k <= self.regions@.len(),
                forall|i: int| 0 <= i < k ==> #[trigger] self.regions@[i].id != id,
            decreases self.regions@.len() - k,
        {
            if self.regions[k].id == id {
                assert(self@.regions[k as int].id == id);
                let ghost c = choose|c: int|
                    0 <= c < self@.regions.len() && #[trigger] self@.regions[c].id == id;
                assert(c == k);
                return Some(k);
            }
            k = k + 1;
        }
        None
    }

    /// Registers process `id` with `count` pages, none of them resident.
    pub fn register(&mut self, id: usize, count: usize) -> (r: Result<(), MemoryError>)
        requires
            old(self).wf(),
            old(self)@.pages.len() + count <= usize::MAX,
        ensures
            final(self).wf(),
            old(self)@.registered(id) ==> r == Err::<(), MemoryError>(
                MemoryError::ProcessAlreadyRegistered,
            ) && final(self)@ == old(self)@,
            !old(self)@.registered(id) ==> r is Ok && final(self)@ == old(self)@.after_register(
                id,
                count,
            ),
    {
        if self.find_region(id).is_some() {
            return Err(MemoryError::ProcessAlreadyRegistered);
        }
        let ghost before = self@;
        let first = self.pages.len();
        let mut i: usize = 0;
        while i < count
            invariant
                first == before.pages.len(),
                self@ == (MemoryState {
                    pages: before.pages + Seq::new(i as nat, |x: int| VirtualPage::fresh()),
                    ..before
                }),
                first + count <= usize::MAX,
                i <= count,
                self.owner@ == old(self).owner@,
                old(self)@ == before,
            decreases count - i,
        {
            self.pages.push(VirtualPage::new());
            i = i + 1;
            assert(self@.pages =~= before.pages + Seq::new(i as nat, |x: int| VirtualPage::fresh()));
        }
        self.regions.push(Region { id, first, count });
        self.hand = 0;
        assert(self@ =~= before.after_register(id, count));
        proof {
            let s = self@;
            reveal(regions_tile);
            assert forall|k1: int, k2: int|
                0 <= k1 < s.regions.len() && 0 <= k2 < s.regions.len() && k1 != k2
                    implies #[trigger] s.regions[k1].id != #[trigger] s.regions[k2].id by {
                if k1 == s.regions.len() - 1 {
                    assert(before.regions[k2].id == s.regions[k2].id);
                } else if k2 == s.regions.len() - 1 {
                    assert(before.regions[k1].id == s.regions[k1].id);
                }
            }
            assert forall|g: int| 0 <= g < s.pages.len() implies #[trigger] s.pages[g].presence
                == s.pages[g].frame is Some by {
                if g >= first {
                    assert(s.pages[g] == VirtualPage::fresh());
                }
            }
        }
        Ok(())
    }

    /// Clears the reference and modification bits of every page of `id`.
    #[verifier::rlimit(60)]
    pub fn tick(&mut self, id: usize) -> (r: Result<(), MemoryError>)
        requires
            old(self).wf(),
        ensures
            final(self).wf(),
            !old(self)@.registered(id) ==> r == Err::<(), MemoryError>(
                MemoryError::ProcessNotRegistered,
            ) && final(self)@ == old(self)@,
            old(self)@.registered(id) ==> r is Ok && final(self)@ == old(self)@.after_tick(id),
    {
        let k = match self.find_region(id) {
            Some(k) => k,
            None => return Err(MemoryError::ProcessNotRegistered),
        };
        let region = self.regions[k];
        let ghost before = self@;
        let n = self.pages.len();
        proof {
            assert(before.regions[k as int].first + before.regions[k as int].count <= n);
        }
        let mut i: usize = 0;
        while i < region.count
            invariant
                region == before.region(id),
                region.first + region.count <= n,
                n == before.pages.len(),
                i <= region.count,
                self.pages@.len() == n,
                forall|g: int|
                    0 <= g < n ==> #[trigger] self.pages@[g] == if region.first <= g < region.first
                        + i {
                        before.pages[g].ticked()
                    } else {
                        before.pages[g]
                    },
                self.regions == old(self).regions,
                self.free_physical_pages == old(self).free_physical_pages,
                self.busy_physical_pages == old(self).busy_physical_pages,
                self.hand == old(self).hand,
                self.total_frames == old(self).total_frames,
                self.owner == old(self).owner,
                old(self)@ == before,
            decreases region.count - i,
        {
            let g = region.first + i;
            let mut page = self.pages[g];
            page.reference = false;
            page.modification = false;
            self.pages[g] = page;
            i = i + 1;
        }
        assert(self@.pages =~= before.after_tick(id).pages);
        assert(self@ == before.after_tick(id));
        proof {
            lemma_same_bindings_keep_wf(*old(self), *self);
        }
        Ok(())
    }
}

impl MemoryManager {
    /// Index in the free pool of the frame to give to a request at `address`.
    fn find_free_frame(&self, address: usize) -> (r: usize)
        requires
            self.wf(),
            self@.free.len() > 0,
        ensures
            r == self@.frame_slot(address),
            r < self@.free.len(),
    {
        let mut j: usize = 0;
        while j < self.free_physical_pages.len()
            invariant
                self.wf(),
                j <= self@.free.len(),
                forall|i: int| 0 <= i < j ==> #[trigger] self@.free[i].address != address,
            decreases self@.free.len() - j,
        {
            if self.free_physical_pages[j].address == address {
                proof {
                    let s = self@;
                    assert(s.free[j as int].address == address);
                    let c = choose|c: int| 0 <= c < s.free.len() && #[trigger] s.free[c].address == address;
                    assert(c == j);
                }
                return j;
            }
            j = j + 1;
        }
        0
    }

    /// While no frame is free, some page is resident.
    proof fn lemma_exhausted_has_resident(&self)
        requires
            self.wf(),
            self@.total_frames > 0,
            self@.free.len() == 0,
        ensures
            has_resident(self@.pages),
            0 <= self@.hand < self@.pages.len(),
    {
        let o = self.owner@[0];
        assert(self@.pages[o].frame == Some(self@.busy[0].address));
        assert(self@.pages[o].presence);
    }

    /// Binds page `g`, which is not resident, to a frame for a request at
    /// `address`: the free frame at that address, another free frame, or the
    /// frame of the page that the clock evicts.
    fn bind_page(&mut self, g: usize, address: usize)
        requires
            old(self).wf(),
            g < old(self)@.pages.len(),
            !old(self)@.pages[g as int].presence,
            old(self)@.total_frames > 0,
        ensures
            final(self).wf(),
            final(self)@ == old(self)@.after_alloc(g as int, address),
    {
        if self.free_physical_pages.len() == 0 {
            self.evict_for(g, address);
            return;
        }
        let ghost before = self@;
        let j = self.find_free_frame(address);
        let frame = self.free_physical_pages.swap_remove(j);
        let mut page = self.pages[g];
        page.alloc_frame(frame.address);
        self.pages[g] = page;
        self.busy_physical_pages.push(frame);
        self.owner = Ghost(self.owner@.push(g as int));
        proof {
            let s = self@;
            assert(s.pages =~= before.after_alloc(g as int, address).pages);
            assert(s == before.after_alloc(g as int, address));
            let last = before.free.len() - 1;
            assert forall|x: int, y: int|
                0 <= x < s.pages.len() && 0 <= y < s.pages.len() && x != y
                    && #[trigger] s.pages[x].presence && #[trigger] s.pages[y].presence
                    implies s.pages[x].frame != s.pages[y].frame by {
                if x == g {
                    assert(before.pages[y].presence);
                    assert(before.pages[y].frame != Some(before.free[j as int].address));
                } else if y == g {
                    assert(before.pages[x].presence);
                    assert(before.pages[x].frame != Some(before.free[j as int].address));
                } else {
                    assert(before.pages[x].presence && before.pages[y].presence);
                }
            }
            assert forall|x: int, i: int|
                0 <= x < s.pages.len() && 0 <= i < s.free.len() && #[trigger] s.pages[x].presence
                    implies s.pages[x].frame != Some(#[trigger] s.free[i].address) by {
                let i0 = if i == j { last } else { i };
                assert(s.free[i] == before.free[i0]);
                if x == g {
                    assert(before.free[j as int].address != before.free[i0].address);
                } else {
                    assert(before.pages[x].presence);
                    assert(before.pages[x].frame != Some(before.free[i0].address));
                }
            }
            assert forall|i1: int, i2: int|
                0 <= i1 < s.free.len() && 0 <= i2 < s.free.len() && i1 != i2
                    implies #[trigger] s.free[i1].address != #[trigger] s.free[i2].address by {
                let a1 = if i1 == j { last } else { i1 };
                let a2 = if i2 == j { last } else { i2 };
                assert(s.free[i1] == before.free[a1]);
                assert(s.free[i2] == before.free[a2]);
            }
            assert forall|k: int| 0 <= k < s.busy.len() implies 0 <= #[trigger] self.owner@[k]
                < s.pages.len() && s.pages[self.owner@[k]].frame == Some(s.busy[k].address) by {
                if k < before.busy.len() {
                    let o = old(self).owner@[k];
                    assert(before.pages[o].frame == Some(before.busy[k].address));
                    assert(before.pages[o].presence);
                    assert(o != g);
                }
            }
        }
    }

    /// Runs the clock from the hand until it finds a victim, and hands the
    /// victim's frame to page `g`.
    fn evict_for(&mut self, g: usize, address: usize)
        requires
            old(self).wf(),
            g < old(self)@.pages.len(),
            !old(self)@.pages[g as int].presence,
            old(self)@.total_frames > 0,
            old(self)@.free.len() == 0,
        ensures
            final(self).wf(),
            final(self)@ == old(self)@.after_alloc(g as int, address),
    {
        let ghost before = self@;
        proof {
            self.lemma_exhausted_has_resident();
        }
        let n = self.pages.len();
        let h = self.hand;
        let mut victim: usize = 0;
        let mut found = false;
        let mut k: usize = 0;
        while k < n && !found
            invariant
                0 <= h < n,
                n == before.pages.len(),
                h == before.hand,
                k <= n,
                self.pages@.len() == n,
                forall|x: int|
                    0 <= x < n ==> #[trigger] self.pages@[x] == if before.pages[x].presence
                        && scan_key(x, h as int, n as int) < k {
                        before.pages[x].cleared()
                    } else {
                        before.pages[x]
                    },
                forall|x: int|
                    0 <= x < n && #[trigger] before.pages[x].presence && scan_key(
                        x,
                        h as int,
                        n as int,
                    ) < k ==> before.pages[x].reference,
                found ==> victim < n && before.pages[victim as int].presence
                    && !before.pages[victim as int].reference && scan_key(
                    victim as int,
                    h as int,
                    n as int,
                ) == k,
                self.regions == old(self).regions,
                self.free_physical_pages == old(self).free_physical_pages,
                self.busy_physical_pages == old(self).busy_physical_pages,
                self.hand == old(self).hand,
                self.total_frames == old(self).total_frames,
                self.owner == old(self).owner,
                old(self)@ == before,
            decreases n + 1 - k - (if found { 1int } else { 0int }),
        {
            let pos = if k < n - h { h + k } else { k - (n - h) };
            let page = self.pages[pos];
            if page.presence {
                if page.reference {
                    let mut p = page;
                    p.reference = false;
                    self.pages[pos] = p;
                } else {
                    victim = pos;
                    found = true;
                }
            }
            if !found {
                k = k + 1;
            }
        }
        if !found {
            assert(all_referenced(before.pages));
            k = 0;
            while !found
                invariant
                    0 <= h < n,
                    n == before.pages.len(),
                    h == before.hand,
                    k < n,
                    all_referenced(before.pages),
                    has_resident(before.pages),
                    self.pages@.len() == n,
                    forall|x: int|
                        0 <= x < n ==> #[trigger] self.pages@[x] == if before.pages[x].presence {
                            before.pages[x].cleared()
                        } else {
                            before.pages[x]
                        },
                    forall|x: int|
                        0 <= x < n && scan_key(x, h as int, n as int) < k ==> !(
                        #[trigger] before.pages[x].presence),
                    found ==> victim < n && before.pages[victim as int].presence && scan_key(
                        victim as int,
                        h as int,
                        n as int,
                    ) == k,
                    self.regions == old(self).regions,
                    self.free_physical_pages == old(self).free_physical_pages,
                    self.busy_physical_pages == old(self).busy_physical_pages,
                    self.hand == old(self).hand,
                    self.total_frames == old(self).total_frames,
                    self.owner == old(self).owner,
                    old(self)@ == before,
                decreases n + 1 - k - (if found { 1int } else { 0int }),
            {
                let pos = if k < n - h { h + k } else { k - (n - h) };
                if self.pages[pos].presence {
                    victim = pos;
                    found = true;
                } else {
                    proof {
                        let w = choose|w: int| 0 <= w < n && #[trigger] before.pages[w].presence;
                        assert(scan_key(w, h as int, n as int) >= k);
                        assert(w != pos);
                    }
                    k = k + 1;
                }
            }
        }
        proof {
            assert(is_victim(before.pages, h as int, victim as int));
            lemma_victim_exists(before.pages, h as int);
            lemma_victim_unique(
                before.pages,
                h as int,
                victim as int,
                clock_victim(before.pages, h as int),
            );
            assert(self.pages@ =~= swept(before.pages, h as int, victim as int));
        }
        let v = victim;
        let frame_address = self.pages[v].frame.unwrap();
        let mut out = self.pages[v];
        out.swap();
        self.pages[v] = out;
        let mut page = self.pages[g];
        page.alloc_frame(frame_address);
        self.pages[g] = page;
        self.hand = if v + 1 < n { v + 1 } else { 0 };
        let ghost old_owner = self.owner@;
        self.owner = Ghost(old_owner.map_values(|o: int| if o == v { g as int } else { o }));
        proof {
            let s = self@;
            let sw = swept(before.pages, h as int, v as int);
            assert(s.pages =~= before.after_alloc(g as int, address).pages);
            assert(s == before.after_alloc(g as int, address));
            assert forall|x: int, y: int|
                0 <= x < s.pages.len() && 0 <= y < s.pages.len() && x != y
                    && #[trigger] s.pages[x].presence && #[trigger] s.pages[y].presence
                    implies s.pages[x].frame != s.pages[y].frame by {
                assert(sw[x].presence == before.pages[x].presence);
                assert(sw[y].presence == before.pages[y].presence);
                if x == g {
                    assert(before.pages[y].presence && before.pages[v as int].presence);
                } else if y == g {
                    assert(before.pages[x].presence && before.pages[v as int].presence);
                } else {
                    assert(before.pages[x].presence && before.pages[y].presence);
                }
            }
            assert forall|k2: int| 0 <= k2 < s.busy.len() implies 0 <= #[trigger] self.owner@[k2]
                < s.pages.len() && s.pages[self.owner@[k2]].frame == Some(s.busy[k2].address) by {
                let o = old_owner[k2];
                assert(before.pages[o].frame == Some(before.busy[k2].address));
                assert(before.pages[o].presence);
                assert(sw[o].frame == before.pages[o].frame);
            }
        }
    }
}

impl MemoryManager {
    /// Index in the page table of the page of `id` that holds `address`.
    fn locate(&self, id: usize, address: usize) -> (r: Result<usize, MemoryError>)
        requires
            self.wf(),
        ensures
            !self@.registered(id) ==> r == Err::<usize, MemoryError>(
                MemoryError::ProcessNotRegistered,
            ),
            self@.registered(id) && !self@.in_range(id, address) ==> r == Err::<usize, MemoryError>(
                MemoryError::AddressOutOfRange,
            ),
            self@.registered(id) && self@.in_range(id, address) ==> (r matches Ok(g) && g
                == self@.page_index(id, address) && g < self@.pages.len()),
    {
        let k = match self.find_region(id) {
            Some(k) => k,
            None => return Err(MemoryError::ProcessNotRegistered),
        };
        let region = self.regions[k];
        let page_no = address / PAGE_SIZE;
        if page_no >= region.count {
            return Err(MemoryError::AddressOutOfRange);
        }
        let n = self.pages.len();
        proof {
            assert(self@.regions[k as int].first + self@.regions[k as int].count <= n);
        }
        Ok(region.first + page_no)
    }

    /// Binds the page of `process_id` that holds `address` to a frame, unless
    /// it is resident already.
    pub fn allocate(&mut self, process_id: usize, address: usize) -> (r: Result<(), MemoryError>)
        requires
            old(self).wf(),
            old(self)@.total_frames > 0,
        ensures
            final(self).wf(),
            !old(self)@.registered(process_id) ==> r == Err::<(), MemoryError>(
                MemoryError::ProcessNotRegistered,
            ) && final(self)@ == old(self)@,
            old(self)@.registered(process_id) && !old(self)@.in_range(process_id, address) ==> r
                == Err::<(), MemoryError>(MemoryError::AddressOutOfRange) && final(self)@ == old(
                self,
            )@,
            old(self)@.registered(process_id) && old(self)@.in_range(process_id, address) ==> {
                let g = old(self)@.page_index(process_id, address);
                &&& r is Ok
                &&& final(self)@ == if old(self)@.pages[g].presence {
                    old(self)@
                } else {
                    old(self)@.after_alloc(g, address)
                }
            },
    {
        let g = match self.locate(process_id, address) {
            Ok(g) => g,
            Err(e) => return Err(e),
        };
        if !self.pages[g].presence {
            self.bind_page(g, address);
        }
        Ok(())
    }

    /// A read or write access to the page of `id` that holds `address`.
    fn access(&mut self, id: usize, address: usize, write: bool) -> (r: Result<(), MemoryError>)
        requires
            old(self).wf(),
            old(self)@.total_frames > 0,
        ensures
            final(self).wf(),
            old(self)@.access_result(id, address) == r,
            r is Err ==> final(self)@ == old(self)@,
            r is Ok ==> final(self)@ == old(self)@.after_access(
                old(self)@.page_index(id, address),
                page_address(address),
                write,
            ),
    {
        let g = match self.locate(id, address) {
            Ok(g) => g,
            Err(e) => return Err(e),
        };
        let ghost before = self@;
        let page_no = address / PAGE_SIZE;
        if !self.pages[g].presence {
            self.bind_page(g, page_no * PAGE_SIZE);
        }
        let ghost mid = self@;
        let ghost mid_m = *self;
        let mut page = self.pages[g];
        if write {
            page.write();
        } else {
            page.read();
        }
        self.pages[g] = page;
        proof {
            assert(self@.pages =~= before.after_access(g as int, page_address(address), write).pages);
            lemma_same_bindings_keep_wf(mid_m, *self);
        }
        Ok(())
    }

    /// Reads from the page of `id` that holds `address`, binding it to a frame
    /// first if it is not resident.
    pub fn read(&mut self, id: usize, address: usize) -> (r: Result<(), MemoryError>)
        requires
            old(self).wf(),
            old(self)@.total_frames > 0,
        ensures
            final(self).wf(),
            old(self)@.access_result(id, address) == r,
            r is Err ==> final(self)@ == old(self)@,
            r is Ok ==> final(self)@ == old(self)@.after_access(
                old(self)@.page_index(id, address),
                page_address(address),
                false,
            ),
    {
        self.access(id, address, false)
    }

    /// Writes to the page of `id` that holds `address`, binding it to a frame
    /// first if it is not resident.
    pub fn write(&mut self, id: usize, address: usize) -> (r: Result<(), MemoryError>)
        requires
            old(self).wf(),
            old(self)@.total_frames > 0,
        ensures
            final(self).wf(),
            old(self)@.access_result(id, address) == r,
            r is Err ==> final(self)@ == old(self)@,
            r is Ok ==> final(self)@ == old(self)@.after_access(
                old(self)@.page_index(id, address),
                page_address(address),
                true,
            ),
    {
        self.access(id, address, true)
    }
}

impl MemoryManager {
    pub fn total_frames(&self) -> (r: usize)
        ensures
            r == self@.total_frames,
    {
        self.total_frames
    }

    /// Number of frames in the free pool.
    pub fn free_count(&self) -> (r: usize)
        ensures
            r == self@.free.len(),
    {
        self.free_physical_pages.len()
    }

    /// Number of frames bound to a page.
    pub fn busy_count(&self) -> (r: usize)
        ensures
            r == self@.busy.len(),
    {
        self.busy_physical_pages.len()
    }

    /// Index into the flat page table where the next clock scan starts.
    pub fn hand(&self) -> (r: usize)
        ensures
            r == self@.hand,
    {
        self.hand
    }

    pub fn is_registered(&self, id: usize) -> (r: bool)
        requires
            self.wf(),
        ensures
            r == self@.registered(id),
    {
        self.find_region(id).is_some()
    }

    /// Page number `page_no` of process `id`, if the process declared it.
    pub fn page(&self, id: usize, page_no: usize) -> (r: Option<VirtualPage>)
        requires
            self.wf(),
        ensures
            r matches Some(p) ==> self@.registered(id) && page_no < self@.region(id).count && p
                == self@.pages[self@.region(id).first + page_no],
            r is None ==> !self@.registered(id) || page_no >= self@.region(id).count,
    {
        let k = match self.find_region(id) {
            Some(k) => k,
            None => return None,
        };
        let region = self.regions[k];
        if page_no >= region.count {
            return None;
        }
        let n = self.pages.len();
        proof {
            assert(self@.regions[k as int].first + self@.regions[k as int].count <= n);
        }
        Some(self.pages[region.first + page_no])
    }
}

/// Each page of `b` is resident, and bound to the same frame, exactly when
/// the page at the same index of `a` is.
pub open spec fn same_bindings(a: Seq<VirtualPage>, b: Seq<VirtualPage>) -> bool {
    &&& a.len() == b.len()
    &&& forall|g: int|
        #![trigger b[g]]
        0 <= g < a.len() ==> b[g].presence == a[g].presence && b[g].frame == a[g].frame
}

/// Changing status bits alone keeps the invariant.
proof fn lemma_same_bindings_keep_wf(a: MemoryManager, b: MemoryManager)
    requires
        a.wf(),
        same_bindings(a@.pages, b@.pages),
        b@.regions == a@.regions,
        b@.free == a@.free,
        b@.busy == a@.busy,
        b@.hand == a@.hand,
        b@.total_frames == a@.total_frames,
        b.owner == a.owner,
    ensures
        b.wf(),
{
    let pa = a@.pages;
    let pb = b@.pages;
    assert forall|g1: int, g2: int|
        0 <= g1 < pb.len() && 0 <= g2 < pb.len() && g1 != g2 && #[trigger] pb[g1].presence
            && #[trigger] pb[g2].presence implies pb[g1].frame != pb[g2].frame by {
        assert(pa[g1].presence && pa[g2].presence);
    }
    assert forall|g: int, j: int|
        0 <= g < pb.len() && 0 <= j < b@.free.len() && #[trigger] pb[g].presence
            implies pb[g].frame != Some(#[trigger] b@.free[j].address) by {
        assert(pa[g].presence);
    }
    assert forall|k: int| 0 <= k < b@.busy.len() implies 0 <= #[trigger] b.owner@[k] < pb.len()
        && pb[b.owner@[k]].frame == Some(b@.busy[k].address) by {
        let g = a.owner@[k];
        assert(0 <= g < pa.len() && pa[g].frame == Some(a@.busy[k].address));
        assert(pb[g].frame == pa[g].frame);
    }
}

/// Frame conservation: in a well-formed manager the free and busy pools
/// together hold every frame, and no operation changes the number of frames.
pub proof fn lemma_frame_conservation(
    m: MemoryManager,
    id: usize,
    count: usize,
    g: int,
    address: usize,
    write: bool,
)
    requires
        m.wf(),
    ensures
        m@.free.len() + m@.busy.len() == m@.total_frames,
        m@.after_register(id, count).total_frames == m@.total_frames,
        m@.after_tick(id).total_frames == m@.total_frames,
        m@.after_alloc(g, address).total_frames == m@.total_frames,
        m@.after_access(g, address, write).total_frames == m@.total_frames,
{
}

/// Residency and frame bindings agree: a page is resident exactly when it has
/// a frame, and each busy frame is bound to exactly one page.
pub proof fn lemma_frame_binding(m: MemoryManager)
    requires
        m.wf(),
    ensures
        forall|g: int|
            0 <= g < m@.pages.len() ==> #[trigger] m@.pages[g].presence == m@.pages[g].frame is Some,
        forall|k: int| 0 <= k < m@.busy.len() ==> m@.is_bound(#[trigger] m@.busy[k].address),
        forall|k: int, g1: int, g2: int|
            0 <= k < m@.busy.len() && 0 <= g1 < m@.pages.len() && 0 <= g2 < m@.pages.len()
                && #[trigger] m@.pages[g1].frame == Some(#[trigger] m@.busy[k].address)
                && #[trigger] m@.pages[g2].frame == Some(m@.busy[k].address) ==> g1 == g2,
{
    let s = m@;
    assert forall|k: int| 0 <= k < m@.busy.len() implies m@.is_bound(
        #[trigger] m@.busy[k].address,
    ) by {
        let o = m.owner@[k];
        assert(0 <= o < m@.pages.len() && m@.pages[o].frame == Some(m@.busy[k].address));
    }
    assert forall|k: int, g1: int, g2: int|
        0 <= k < s.busy.len() && 0 <= g1 < s.pages.len() && 0 <= g2 < s.pages.len()
            && #[trigger] s.pages[g1].frame == Some(#[trigger] s.busy[k].address)
            && #[trigger] s.pages[g2].frame == Some(s.busy[k].address) implies g1 == g2 by {
        assert(s.pages[g1].presence && s.pages[g2].presence);
    }
}

/// First touch: an access to a page that is not resident binds it to a frame,
/// a free one when there is one (which moves from the free pool to the busy
/// one), and leaves it resident and referenced.
pub proof fn lemma_first_touch(m: MemoryManager, g: int, address: usize, write: bool)
    requires
        m.wf(),
        m@.total_frames > 0,
        0 <= g < m@.pages.len(),
        !m@.pages[g].presence,
    ensures
        ({
            let s = m@.after_access(g, address, write);
            &&& s.pages.len() == m@.pages.len()
            &&& s.pages[g].presence
            &&& s.pages[g].frame is Some
            &&& s.pages[g].reference
            &&& write ==> s.pages[g].modification
            &&& m@.free.len() > 0 ==> s.busy == m@.busy.push(m@.free[m@.frame_slot(address)])
                && s.free.len() == m@.free.len() - 1
                && s.pages[g].frame == Some(m@.free[m@.frame_slot(address)].address)
                && forall|x: int| 0 <= x < m@.pages.len() && x != g ==> #[trigger] s.pages[x]
                    == m@.pages[x]
        }),
{
    if m@.free.len() == 0 {
        m.lemma_exhausted_has_resident();
        lemma_victim_exists(m@.pages, m@.hand);
    }
}

/// Reading a page twice: the second read binds nothing, moves no frame and
/// leaves the state as the first read left it.
pub proof fn lemma_second_read(m: MemoryManager, g: int, address: usize)
    requires
        m.wf(),
        m@.total_frames > 0,
        0 <= g < m@.pages.len(),
    ensures
        ({
            let first = m@.after_access(g, address, false);
            let second = first.after_access(g, address, false);
            &&& first.pages[g].presence
            &&& second.pages[g].frame == first.pages[g].frame
            &&& second.free == first.free
            &&& second.busy == first.busy
            &&& second == first
        }),
{
    if !m@.pages[g].presence {
        lemma_first_touch(m, g, address, false);
    }
    let first = m@.after_access(g, address, false);
    let second = first.after_access(g, address, false);
    assert(second.pages =~= first.pages);
}

/// Eviction progress: with every frame busy, binding a page that is not
/// resident takes the frame of exactly one resident page elsewhere, the
/// clock's victim; every other page keeps its residency and its frame.
pub proof fn lemma_eviction_progress(m: MemoryManager, g: int, address: usize)
    requires
        m.wf(),
        m@.total_frames > 0,
        m@.free.len() == 0,
        0 <= g < m@.pages.len(),
        !m@.pages[g].presence,
    ensures
        ({
            let s = m@.after_alloc(g, address);
            let v = clock_victim(m@.pages, m@.hand);
            &&& 0 <= v < m@.pages.len()
            &&& v != g
            &&& m@.pages[v].presence
            &&& !s.pages[v].presence
            &&& s.pages[g].presence
            &&& s.pages[g].frame == m@.pages[v].frame
            &&& s.free == m@.free
            &&& s.busy == m@.busy
            &&& forall|x: int|
                0 <= x < m@.pages.len() && x != g && x != v ==> #[trigger] s.pages[x].presence
                    == m@.pages[x].presence && s.pages[x].frame == m@.pages[x].frame
        }),
{
    m.lemma_exhausted_has_resident();
    lemma_victim_exists(m@.pages, m@.hand);
}

} // verus!
