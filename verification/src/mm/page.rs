//! Frames as the kernel hands them around: a `Page` names one frame or, as
//! the leader of a block, a run of `2^order` frames. The `PagesManager`
//! records which frames are in use and counts the holders of each block.
use vstd::prelude::*;
use crate::consts::{MAX_ORDER, PAGE_SIZE, PHY_MEM_OFFSET};
use crate::mm::addr::{spec_ceil, spec_floor, Paddr, PageAlign, SeekFrom, Vaddr};
use crate::mm::buddy_model::{lemma_ancestor_nonneg, lemma_ancestor_range, spec_ancestor, spec_first_page};
use crate::mm::phys::PhysMemory;
use crate::utils::{lemma_order2pages_monotone, lemma_order2pages_values, order2pages, spec_order2pages};

verus! {

/// The part of a page that changes while the page is in use.
pub struct PageMutInner {
    /// Addresses of the other frames of the block, in rising order. Empty
    /// for a frame that does not lead a block.
    pub friends: Vec<Vaddr>,
    /// Address of the frame that leads the block.
    pub leader: Vaddr,
    /// Order of the block; kept on the leader only.
    pub order: usize,
    /// Cursor of the stream access, in bytes from the start of the block.
    pub pos: usize,
}

impl PageMutInner {
    fn change_leader(&mut self, leader: Vaddr)
        ensures
            final(self).leader == leader,
            final(self).friends == old(self).friends,
            final(self).order == old(self).order,
            final(self).pos == old(self).pos,
    {
        self.leader = leader;
    }

    pub fn get_friend(&self) -> (friends: &Vec<Vaddr>)
        ensures
            *friends == self.friends,
    {
        &self.friends
    }
}

/// One frame, or a block of frames through its leader.
pub struct Page {
    pub vaddr: Vaddr,
    /// Set on the placeholder that `default` makes, which stands for no frame.
    pub default_flag: bool,
    pub is_leader_flag: bool,
    pub inner: PageMutInner,
}

impl Default for Page {
    /// A placeholder that stands for no frame.
    fn default() -> (p: Self)
        ensures
            p.vaddr.0 == 0,
            p.default_flag,
            p.is_leader_flag,
            p.inner.friends@.len() == 0,
            p.inner.leader.0 == 0,
            p.inner.order == 0,
            p.inner.pos == 0,
    {
        Page {
            vaddr: Vaddr(0),
            default_flag: true,
            is_leader_flag: true,
            inner: PageMutInner { friends: Vec::new(), leader: Vaddr(0), order: 0, pos: 0 },
        }
    }
}

/// What a page says: the frame, its flags, and the block that it leads.
pub struct PageView {
    pub vaddr: int,
    pub default_flag: bool,
    pub is_leader: bool,
    pub friends: Seq<int>,
    pub leader: int,
    pub order: int,
    pub pos: int,
}

impl View for Page {
    type V = PageView;

    open spec fn view(&self) -> PageView {
        PageView {
            vaddr: self.vaddr.0 as int,
            default_flag: self.default_flag,
            is_leader: self.is_leader_flag,
            friends: Seq::new(self.inner.friends@.len(), |i: int| self.inner.friends@[i].0 as int),
            leader: self.inner.leader.0 as int,
            order: self.inner.order as int,
            pos: self.inner.pos as int,
        }
    }
}

impl Clone for Page {
    fn clone(&self) -> (p: Self)
        ensures
            p@ == self@,
            p.inner.friends@ == self.inner.friends@,
    {
        let mut friends: Vec<Vaddr> = Vec::new();
        let mut i: usize = 0;
        while i < self.inner.friends.len()
            invariant
                i <= self.inner.friends@.len(),
                friends@ == self.inner.friends@.subrange(0, i as int),
            decreases self.inner.friends@.len() - i,
        {
            friends.push(self.inner.friends[i]);
            i += 1;
            proof {
                assert(friends@ =~= self.inner.friends@.subrange(0, i as int));
            }
        }
        proof {
            assert(friends@ =~= self.inner.friends@);
        }
        Page {
            vaddr: self.vaddr,
            default_flag: self.default_flag,
            is_leader_flag: self.is_leader_flag,
            inner: PageMutInner {
                friends,
                leader: self.inner.leader,
                order: self.inner.order,
                pos: self.inner.pos,
            },
        }
    }
}

/// The position that a seek aims at, from a cursor at `pos` in a stream of
/// `max_pos` bytes.
pub open spec fn spec_seek_target(pos: int, max_pos: int, to: SeekFrom) -> int {
    match to {
        SeekFrom::Start(v) => v as int,
        SeekFrom::End(v) => max_pos + v,
        SeekFrom::Current(v) => pos + v,
    }
}

impl Page {
    /// The invariant of a page in use: a leader names the `2^order` frames
    /// of its block, itself first, and any other frame names itself only. The
    /// cursor lies within the block.
    pub open spec fn wf(&self) -> bool {
        &&& !self.default_flag
        &&& self.vaddr.0 % 4096 == 0
        &&& self.inner.order < MAX_ORDER
        &&& self.inner.friends@.len() + 1 == if self.is_leader_flag {
            spec_order2pages(self.inner.order as int)
        } else {
            1
        }
        &&& self.vaddr.0 + (self.inner.friends@.len() + 1) * 4096 <= u64::MAX
        &&& forall|i: int|
            0 <= i < self.inner.friends@.len() ==> (#[trigger] self.inner.friends@[i]).0 == self.vaddr.0 + (i + 1)
                * 4096
        &&& self.is_leader_flag ==> self.inner.leader == self.vaddr
        &&& self.inner.pos <= (self.inner.friends@.len() + 1) * 4096
    }

    /// Number of bytes in the block.
    pub open spec fn spec_max_pos(&self) -> int {
        (self.inner.friends@.len() + 1) * 4096 as int
    }

    /// A page for the frame at `vaddr`, which leads itself and has no friends.
    pub fn new(vaddr: Vaddr, is_leader: bool) -> (pg: Page)
        ensures
            pg.vaddr == vaddr,
            !pg.default_flag,
            pg.is_leader_flag == is_leader,
            pg.inner.friends@.len() == 0,
            pg.inner.leader == vaddr,
            pg.inner.order == 0,
            pg.inner.pos == 0,
    {
        let mut pg = Page {
            vaddr,
            default_flag: false,
            is_leader_flag: is_leader,
            inner: PageMutInner { friends: Vec::new(), leader: Vaddr(0), order: 0, pos: 0 },
        };
        pg.inner.change_leader(vaddr);
        pg
    }

    pub fn __set_vaddr(&mut self, vaddr: Vaddr)
        ensures
            final(self).vaddr == vaddr,
            final(self).default_flag == old(self).default_flag,
            final(self).is_leader_flag == old(self).is_leader_flag,
            final(self).inner == old(self).inner,
    {
        self.vaddr = vaddr;
    }

    /// Number of bytes in the block.
    pub fn __get_max_pos(&self) -> (max_pos: usize)
        requires
            self.wf(),
        ensures
            max_pos == self.spec_max_pos(),
    {
        proof {
            lemma_order2pages_values();
            lemma_order2pages_monotone(self.inner.order as int, 10);
        }
        self.get_block_page_cnt() * PAGE_SIZE
    }

    /// Fills the frame with zeros.
    pub fn clear_one_page(&self, ram: &mut PhysMemory)
        requires
            old(ram).spec_contains(self.vaddr.0 as int, 4096),
        ensures
            final(ram).wf() == old(ram).wf(),
            final(ram).spec_start() == old(ram).spec_start(),
            old(ram).same_but(final(ram), self.vaddr.0 as int, 4096),
            forall|a: int| self.vaddr.0 <= a < self.vaddr.0 + 4096 ==> #[trigger] final(ram).spec_byte(a) == 0,
    {
        ram.clear_page(self.vaddr);
    }

    /// Fills all frames of the block with zeros.
    pub fn clear_pages_block(&self, ram: &mut PhysMemory)
        requires
            self.wf(),
            old(ram).spec_contains(self.vaddr.0 as int, self.spec_max_pos()),
        ensures
            final(ram).wf() == old(ram).wf(),
            final(ram).spec_start() == old(ram).spec_start(),
            old(ram).same_but(final(ram), self.vaddr.0 as int, self.spec_max_pos()),
            forall|a: int|
                self.vaddr.0 <= a < self.vaddr.0 + self.spec_max_pos() ==> #[trigger] final(ram).spec_byte(a) == 0,
    {
        self.clear_one_page(ram);
        let mut i: usize = 0;
        while i < self.inner.friends.len()
            invariant
                self.wf(),
                i <= self.inner.friends@.len(),
                ram.wf() == old(ram).wf(),
                ram.spec_start() == old(ram).spec_start(),
                old(ram).spec_contains(self.vaddr.0 as int, self.spec_max_pos()),
                old(ram).same_but(ram, self.vaddr.0 as int, self.spec_max_pos()),
                forall|a: int| self.vaddr.0 <= a < self.vaddr.0 + (i + 1) * 4096 ==> #[trigger] ram.spec_byte(a) == 0,
            decreases self.inner.friends@.len() - i,
        {
            let v = self.inner.friends[i];
            let ghost mid = *ram;
            ram.clear_page(v);
            proof {
                assert forall|a: int|
                    old(ram).spec_contains(a, 1) && !(self.vaddr.0 <= a < self.vaddr.0 + self.spec_max_pos())
                    implies #[trigger] ram.spec_byte(a) == old(ram).spec_byte(a) by {
                    assert(mid.spec_byte(a) == old(ram).spec_byte(a));
                    assert(ram.spec_byte(a) == mid.spec_byte(a));
                }
                assert forall|a: int| self.vaddr.0 <= a < self.vaddr.0 + (i + 2) * 4096 implies #[trigger] ram.spec_byte(
                    a,
                ) == 0 by {
                    if a < v.0 {
                        assert(mid.spec_byte(a) == 0);
                        assert(ram.spec_byte(a) == mid.spec_byte(a));
                    }
                }
            }
            i += 1;
        }
    }

    /// Copies the frame of `src` over this frame.
    pub fn copy_one_page_data_from(&self, ram: &mut PhysMemory, src: &Page)
        requires
            old(ram).spec_contains(self.vaddr.0 as int, 4096),
            old(ram).spec_contains(src.vaddr.0 as int, 4096),
            self.vaddr.0 + 4096 <= src.vaddr.0 || src.vaddr.0 + 4096 <= self.vaddr.0,
        ensures
            final(ram).wf() == old(ram).wf(),
            final(ram).spec_start() == old(ram).spec_start(),
            old(ram).same_but(final(ram), self.vaddr.0 as int, 4096),
            forall|i: int|
                0 <= i < 4096 ==> #[trigger] final(ram).spec_byte(self.vaddr.0 + i) == old(ram).spec_byte(
                    src.vaddr.0 + i,
                ),
    {
        ram.copy_page(self.vaddr, src.vaddr);
    }

    pub fn get_inner_guard(&self) -> (inner: &PageMutInner)
        ensures
            *inner == self.inner,
    {
        &self.inner
    }

    pub fn have_friends(&self) -> (b: bool)
        ensures
            b == (self.inner.friends@.len() != 0),
    {
        self.inner.friends.len() != 0
    }

    /// Makes `page` a further frame of the block that this page leads.
    pub fn add_friend(&mut self, page: Page)
        ensures
            final(self).inner.friends@ == old(self).inner.friends@.push(page.vaddr),
            final(self).vaddr == old(self).vaddr,
            final(self).default_flag == old(self).default_flag,
            final(self).is_leader_flag == old(self).is_leader_flag,
            final(self).inner.leader == old(self).inner.leader,
            final(self).inner.order == old(self).inner.order,
            final(self).inner.pos == old(self).inner.pos,
    {
        let mut page = page;
        page.inner.change_leader(self.get_leader());
        self.inner.friends.push(page.vaddr);
    }

    /// The address of the frame that leads the block.
    pub fn get_leader(&self) -> (leader: Vaddr)
        ensures
            leader == self.inner.leader,
    {
        self.inner.leader
    }

    /// Number of frames in the block.
    pub fn get_block_page_cnt(&self) -> (cnt: usize)
        requires
            self.inner.friends@.len() < usize::MAX,
        ensures
            cnt == self.inner.friends@.len() + 1,
    {
        self.inner.friends.len() + 1
    }

    pub fn get_order(&self) -> (order: usize)
        ensures
            order == self.inner.order,
    {
        self.inner.order
    }

    pub fn set_order(&mut self, order: usize)
        ensures
            final(self).inner.order == order,
            final(self).inner.friends == old(self).inner.friends,
            final(self).inner.leader == old(self).inner.leader,
            final(self).inner.pos == old(self).inner.pos,
            final(self).vaddr == old(self).vaddr,
            final(self).default_flag == old(self).default_flag,
            final(self).is_leader_flag == old(self).is_leader_flag,
    {
        self.inner.order = order;
    }

    pub fn get_vaddr(&self) -> (vaddr: Vaddr)
        ensures
            vaddr == self.vaddr,
    {
        self.vaddr
    }

    /// The physical address of the frame.
    pub fn get_paddr(&self) -> (paddr: Paddr)
        requires
            self.vaddr.0 >= PHY_MEM_OFFSET,
        ensures
            paddr.0 == self.vaddr.0 - PHY_MEM_OFFSET,
    {
        self.vaddr.into()
    }

    pub fn is_leader(&self) -> (b: bool)
        ensures
            b == self.is_leader_flag,
    {
        self.is_leader_flag
    }

    /// The last frame of the block that this page leads.
    pub fn back(&self) -> (pg: Page)
        requires
            self.is_leader_flag,
        ensures
            pg.vaddr == if self.inner.friends@.len() == 0 {
                self.inner.leader
            } else {
                self.inner.friends@.last()
            },
            self.inner.friends@.len() == 0 && self.inner.leader == self.vaddr ==> pg@ == self@,
            self.inner.friends@.len() != 0 ==> pg.inner.friends@.len() == 0 && !pg.is_leader_flag
                && !pg.default_flag && pg.inner.leader == self.inner.leader && pg.inner.order == 0 && pg.inner.pos
                == 0,
    {
        if self.inner.friends.is_empty() {
            let mut pg = self.clone();
            pg.vaddr = self.get_leader();
            pg
        } else {
            let mut pg = Page::new(self.inner.friends[self.inner.friends.len() - 1], false);
            pg.inner.change_leader(self.get_leader());
            pg
        }
    }

    /// The first frame of the block that this page leads: the leader.
    pub fn front(&self) -> (pg: Page)
        requires
            self.is_leader_flag,
        ensures
            pg.vaddr == self.inner.leader,
            pg.default_flag == self.default_flag,
            pg.is_leader_flag == self.is_leader_flag,
            pg.inner.friends@ == self.inner.friends@,
            pg.inner.leader == self.inner.leader,
            pg.inner.order == self.inner.order,
            pg.inner.pos == self.inner.pos,
    {
        let mut pg = self.clone();
        pg.vaddr = self.get_leader();
        pg
    }

    /// Moves the cursor. Succeeds, and returns the new position, exactly
    /// where the target lies within the block, its end included; otherwise
    /// the cursor stays.
    pub fn seek(&mut self, pos: SeekFrom) -> (r: Result<u64, ()>)
        requires
            old(self).inner.friends@.len() + 1 <= 1024,
        ensures
            final(self).vaddr == old(self).vaddr,
            final(self).default_flag == old(self).default_flag,
            final(self).is_leader_flag == old(self).is_leader_flag,
            final(self).inner.friends == old(self).inner.friends,
            final(self).inner.leader == old(self).inner.leader,
            final(self).inner.order == old(self).inner.order,
            0 <= spec_seek_target(old(self).inner.pos as int, old(self).spec_max_pos(), pos) <= old(
                self,
            ).spec_max_pos() ==> r == Ok::<u64, ()>(
                spec_seek_target(old(self).inner.pos as int, old(self).spec_max_pos(), pos) as u64,
            ) && final(self).inner.pos == spec_seek_target(
                old(self).inner.pos as int,
                old(self).spec_max_pos(),
                pos,
            ),
            !(0 <= spec_seek_target(old(self).inner.pos as int, old(self).spec_max_pos(), pos) <= old(
                self,
            ).spec_max_pos()) ==> r is Err && final(self).inner.pos == old(self).inner.pos,
    {
        let max_pos = (self.inner.friends.len() + 1) * PAGE_SIZE;
        let target: i128 = match pos {
            SeekFrom::Start(v) => v as i128,
            SeekFrom::End(v) => max_pos as i128 + v as i128,
            SeekFrom::Current(v) => self.inner.pos as i128 + v as i128,
        };
        if target < 0 || target > max_pos as i128 {
            Err(())
        } else {
            self.inner.pos = target as usize;
            Ok(target as u64)
        }
    }

    /// Reads from the cursor on into the front of `buf`, as far as the block
    /// and `buf` reach, and moves the cursor behind what was read.
    pub fn read(&mut self, ram: &PhysMemory, buf: &mut Vec<u8>) -> (r: Result<usize, ()>)
        requires
            old(self).wf(),
            ram.spec_contains(old(self).vaddr.0 as int, old(self).spec_max_pos()),
        ensures
            final(self).wf(),
            final(self).vaddr == old(self).vaddr,
            final(self).is_leader_flag == old(self).is_leader_flag,
            final(self).inner.friends == old(self).inner.friends,
            final(self).inner.leader == old(self).inner.leader,
            final(self).inner.order == old(self).inner.order,
            r == Ok::<usize, ()>(
                crate::pre::spec_min(old(buf)@.len() as int, old(self).spec_max_pos() - old(self).inner.pos) as usize,
            ),
            final(self).inner.pos == old(self).inner.pos + r->Ok_0,
            final(buf)@.len() == old(buf)@.len(),
            forall|i: int|
                0 <= i < r->Ok_0 ==> final(buf)@[i] == ram.spec_byte(old(self).vaddr.0 + old(self).inner.pos + i),
            forall|i: int| r->Ok_0 <= i < old(buf)@.len() ==> final(buf)@[i] == old(buf)@[i],
    {
        let pos_now = self.inner.pos;
        let pos_end = self.__get_max_pos();
        let pos_left = pos_end - pos_now;
        let buf_len = buf.len();
        let real_read_len = if buf_len < pos_left { buf_len } else { pos_left };
        let base = Vaddr(self.vaddr.0 + pos_now as u64);
        let mut i: usize = 0;
        while i < real_read_len
            invariant
                i <= real_read_len <= buf@.len(),
                buf@.len() == old(buf)@.len(),
                base.0 == self.vaddr.0 + pos_now,
                ram.spec_contains(base.0 as int, real_read_len as int),
                base.0 + real_read_len <= u64::MAX,
                forall|j: int| 0 <= j < i ==> buf@[j] == ram.spec_byte(base.0 + j),
                forall|j: int| i <= j < old(buf)@.len() ==> buf@[j] == old(buf)@[j],
            decreases real_read_len - i,
        {
            let b = ram.read_u8(Vaddr(base.0 + i as u64));
            buf[i] = b;
            i += 1;
        }
        self.inner.pos += real_read_len;
        Ok(real_read_len)
    }

    /// Writes the front of `buf` from the cursor on, as far as the block and
    /// `buf` reach, and moves the cursor behind what was written.
    pub fn write(&mut self, ram: &mut PhysMemory, buf: &Vec<u8>) -> (r: Result<usize, ()>)
        requires
            old(self).wf(),
            old(ram).spec_contains(old(self).vaddr.0 as int, old(self).spec_max_pos()),
        ensures
            final(self).wf(),
            final(self).vaddr == old(self).vaddr,
            final(self).is_leader_flag == old(self).is_leader_flag,
            final(self).inner.friends == old(self).inner.friends,
            final(self).inner.leader == old(self).inner.leader,
            final(self).inner.order == old(self).inner.order,
            r == Ok::<usize, ()>(
                crate::pre::spec_min(buf@.len() as int, old(self).spec_max_pos() - old(self).inner.pos) as usize,
            ),
            final(self).inner.pos == old(self).inner.pos + r->Ok_0,
            final(ram).wf() == old(ram).wf(),
            final(ram).spec_start() == old(ram).spec_start(),
            old(ram).same_but(final(ram), old(self).vaddr.0 + old(self).inner.pos, r->Ok_0 as int),
            forall|i: int|
                0 <= i < r->Ok_0 ==> #[trigger] final(ram).spec_byte(old(self).vaddr.0 + old(self).inner.pos + i)
                    == buf@[i],
    {
        let pos_now = self.inner.pos;
        let pos_end = self.__get_max_pos();
        let pos_left = pos_end - pos_now;
        let buf_len = buf.len();
        let real_write_len = if buf_len < pos_left { buf_len } else { pos_left };
        let base = Vaddr(self.vaddr.0 + pos_now as u64);
        let mut i: usize = 0;
        while i < real_write_len
            invariant
                i <= real_write_len <= buf@.len(),
                base.0 == self.vaddr.0 + pos_now,
                old(ram).spec_contains(base.0 as int, real_write_len as int),
                base.0 + real_write_len <= u64::MAX,
                ram.wf() == old(ram).wf(),
                ram.spec_start() == old(ram).spec_start(),
                ram@.len() == old(ram)@.len(),
                forall|a: int|
                    old(ram).spec_contains(a, 1) ==> #[trigger] ram.spec_byte(a) == if base.0 <= a < base.0 + i {
                        buf@[a - base.0]
                    } else {
                        old(ram).spec_byte(a)
                    },
            decreases real_write_len - i,
        {
            let ghost mid = *ram;
            ram.write_u8(Vaddr(base.0 + i as u64), buf[i]);
            proof {
                assert forall|a: int| old(ram).spec_contains(a, 1) implies #[trigger] ram.spec_byte(a) == if base.0
                    <= a < base.0 + i + 1 {
                    buf@[a - base.0]
                } else {
                    old(ram).spec_byte(a)
                } by {
                    assert(mid.spec_byte(a) == if base.0 <= a < base.0 + i {
                        buf@[a - base.0]
                    } else {
                        old(ram).spec_byte(a)
                    });
                }
            }
            i += 1;
        }
        self.inner.pos += real_write_len;
        Ok(real_write_len)
    }

    /// Nothing is buffered, so there is nothing to flush.
    pub fn flush(&mut self) -> (r: Result<(), ()>)
        ensures
            r is Ok,
            *final(self) == *old(self),
    {
        Ok(())
    }
}


/// What the registry records of a frame in use.
#[derive(Clone, Copy)]
pub struct PageSlot {
    /// Index of the frame that leads the block.
    pub leader: usize,
    /// Order of the block.
    pub order: usize,
    /// Number of holders of the block; kept on the leader, zero elsewhere.
    pub refs: usize,
}

/// Whether page `p` belongs to the block of order `order` led by `leader`.
pub open spec fn spec_in_block(p: int, leader: int, order: int) -> bool {
    0 <= p && spec_ancestor(p, order) == spec_ancestor(leader, order)
}

/// The frames of a block are the `2^order` frames from its leader on.
pub proof fn lemma_block_pages(leader: int, order: int, p: int)
    requires
        0 <= order,
        0 <= leader,
        leader == spec_first_page(spec_ancestor(leader, order), order),
    ensures
        spec_in_block(p, leader, order) <==> leader <= p < leader + spec_order2pages(order),
{
    let k = spec_ancestor(leader, order);
    let s = spec_order2pages(order);
    lemma_ancestor_nonneg(leader, order);
    lemma_ancestor_range(leader, order, k);
    assert((k + 1) * s == k * s + s) by (nonlinear_arith);
    if 0 <= p {
        lemma_ancestor_range(p, order, k);
    }
}

/// Number of frames in use among `slots`.
pub open spec fn spec_live_count(slots: Seq<Option<PageSlot>>) -> int
    decreases slots.len(),
{
    if slots.len() == 0 {
        0
    } else {
        spec_live_count(slots.drop_last()) + if slots.last() is Some {
            1int
        } else {
            0int
        }
    }
}

/// The invariant of the slots: a frame in use belongs to a block whose
/// leader is in use, leads itself, lies at the start of the block and is
/// held at least once; and all frames of that block are in use for that
/// leader.
pub open spec fn spec_slots_wf(slots: Seq<Option<PageSlot>>) -> bool {
    &&& forall|idx: int|
        0 <= idx < slots.len() && (#[trigger] slots[idx]) is Some ==> {
            let s = slots[idx]->0;
            &&& s.order < MAX_ORDER
            &&& s.leader < slots.len()
            &&& s.leader == spec_first_page(spec_ancestor(s.leader as int, s.order as int), s.order as int)
            &&& spec_in_block(idx, s.leader as int, s.order as int)
            &&& slots[s.leader as int] is Some
            &&& slots[s.leader as int]->0.leader == s.leader
            &&& slots[s.leader as int]->0.order == s.order
            &&& slots[s.leader as int]->0.refs >= 1
            &&& idx != s.leader ==> s.refs == 0
        }
    &&& forall|idx: int, p: int|
        0 <= idx < slots.len() && slots[idx] is Some && #[trigger] spec_in_block(
            p,
            slots[idx]->0.leader as int,
            slots[idx]->0.order as int,
        ) ==> {
            &&& p < slots.len()
            &&& slots[p] is Some
            &&& slots[p]->0.leader == slots[idx]->0.leader
            &&& slots[p]->0.order == slots[idx]->0.order
        }
}

/// The slots after the block of order `order` led by `leader`, none of
/// whose frames was in use, has been taken into use.
pub open spec fn spec_take_block(slots: Seq<Option<PageSlot>>, leader: int, order: int) -> Seq<Option<PageSlot>> {
    Seq::new(
        slots.len(),
        |p: int|
            if spec_in_block(p, leader, order) {
                Some(PageSlot { leader: leader as usize, order: order as usize, refs: if p == leader {
                    1usize
                } else {
                    0usize
                } })
            } else {
                slots[p]
            },
    )
}

/// The slots after the block of order `order` led by `leader` has left.
pub open spec fn spec_drop_block(slots: Seq<Option<PageSlot>>, leader: int, order: int) -> Seq<Option<PageSlot>> {
    Seq::new(
        slots.len(),
        |p: int|
            if spec_in_block(p, leader, order) {
                None
            } else {
                slots[p]
            },
    )
}

/// Taking a block of frames that are not in use into use keeps the
/// invariant.
pub proof fn lemma_take_block(before: Seq<Option<PageSlot>>, leader: int, order: int)
    requires
        spec_slots_wf(before),
        0 <= order < MAX_ORDER,
        0 <= leader < before.len() <= usize::MAX,
        leader == spec_first_page(spec_ancestor(leader, order), order),
        forall|p: int| #[trigger] spec_in_block(p, leader, order) ==> p < before.len() && before[p] is None,
    ensures
        spec_slots_wf(spec_take_block(before, leader, order)),
{
    let after = spec_take_block(before, leader, order);
    lemma_block_pages(leader, order, leader);
    crate::utils::lemma_order2pages_monotone(0, order);
    assert(spec_in_block(leader, leader, order));
    assert forall|idx: int| 0 <= idx < after.len() && (#[trigger] after[idx]) is Some implies {
        let s = after[idx]->0;
        &&& s.order < MAX_ORDER
        &&& s.leader < after.len()
        &&& s.leader == spec_first_page(spec_ancestor(s.leader as int, s.order as int), s.order as int)
        &&& spec_in_block(idx, s.leader as int, s.order as int)
        &&& after[s.leader as int] is Some
        &&& after[s.leader as int]->0.leader == s.leader
        &&& after[s.leader as int]->0.order == s.order
        &&& after[s.leader as int]->0.refs >= 1
        &&& idx != s.leader ==> s.refs == 0
    } by {
        if !spec_in_block(idx, leader, order) {
            assert(before[idx] is Some);
            let s = before[idx]->0;
            assert(before[s.leader as int] is Some);
            assert(!spec_in_block(s.leader as int, leader, order));
            assert(after[s.leader as int] == before[s.leader as int]);
        }
    }
    assert forall|idx: int, p: int|
        0 <= idx < after.len() && after[idx] is Some && #[trigger] spec_in_block(
            p,
            after[idx]->0.leader as int,
            after[idx]->0.order as int,
        ) implies {
        &&& p < after.len()
        &&& after[p] is Some
        &&& after[p]->0.leader == after[idx]->0.leader
        &&& after[p]->0.order == after[idx]->0.order
    } by {
        if !spec_in_block(idx, leader, order) {
            assert(before[idx] is Some);
            assert(spec_in_block(p, before[idx]->0.leader as int, before[idx]->0.order as int));
            assert(before[p] is Some);
            assert(!spec_in_block(p, leader, order));
        }
    }
}

/// Letting the block led by the frame in use `leader` leave keeps the
/// invariant.
pub proof fn lemma_drop_block(before: Seq<Option<PageSlot>>, leader: int)
    requires
        spec_slots_wf(before),
        0 <= leader < before.len(),
        before[leader] is Some,
        before[leader]->0.leader == leader,
    ensures
        spec_slots_wf(spec_drop_block(before, leader, before[leader]->0.order as int)),
{
    let s = before[leader]->0;
    let order = s.order as int;
    let after = spec_drop_block(before, leader, order);
    assert forall|idx: int| 0 <= idx < after.len() && (#[trigger] after[idx]) is Some implies {
        let t = after[idx]->0;
        &&& t.order < MAX_ORDER
        &&& t.leader < after.len()
        &&& t.leader == spec_first_page(spec_ancestor(t.leader as int, t.order as int), t.order as int)
        &&& spec_in_block(idx, t.leader as int, t.order as int)
        &&& after[t.leader as int] is Some
        &&& after[t.leader as int]->0.leader == t.leader
        &&& after[t.leader as int]->0.order == t.order
        &&& after[t.leader as int]->0.refs >= 1
        &&& idx != t.leader ==> t.refs == 0
    } by {
        assert(before[idx] is Some);
        let t = before[idx]->0;
        assert(before[t.leader as int] is Some);
        // the leader of a block that stays is not in the block that leaves
        if spec_in_block(t.leader as int, leader, order) {
            assert(spec_in_block(t.leader as int, s.leader as int, s.order as int));
            assert(before[t.leader as int]->0.leader == s.leader);
            assert(spec_in_block(idx, t.leader as int, t.order as int));
            assert(false);
        }
    }
    assert forall|idx: int, p: int|
        0 <= idx < after.len() && after[idx] is Some && #[trigger] spec_in_block(
            p,
            after[idx]->0.leader as int,
            after[idx]->0.order as int,
        ) implies {
        &&& p < after.len()
        &&& after[p] is Some
        &&& after[p]->0.leader == after[idx]->0.leader
        &&& after[p]->0.order == after[idx]->0.order
    } by {
        assert(before[idx] is Some);
        assert(spec_in_block(p, before[idx]->0.leader as int, before[idx]->0.order as int));
        assert(before[p] is Some);
        if spec_in_block(p, leader, order) {
            assert(spec_in_block(p, s.leader as int, s.order as int));
            assert(before[p]->0.leader == s.leader);
            assert(before[idx]->0.leader == s.leader);
            assert(spec_in_block(idx, s.leader as int, s.order as int));
            assert(false);
        }
    }
}

/// Changing the number of holders of a block, to at least one, keeps the
/// invariant.
pub proof fn lemma_set_refs(before: Seq<Option<PageSlot>>, leader: int, refs: usize)
    requires
        spec_slots_wf(before),
        0 <= leader < before.len(),
        before[leader] is Some,
        before[leader]->0.leader == leader,
        refs >= 1,
    ensures
        spec_slots_wf(before.update(leader, Some(PageSlot { refs, ..before[leader]->0 }))),
{
    let after = before.update(leader, Some(PageSlot { refs, ..before[leader]->0 }));
    assert forall|idx: int, p: int|
        0 <= idx < after.len() && after[idx] is Some && #[trigger] spec_in_block(
            p,
            after[idx]->0.leader as int,
            after[idx]->0.order as int,
        ) implies {
        &&& p < after.len()
        &&& after[p] is Some
        &&& after[p]->0.leader == after[idx]->0.leader
        &&& after[p]->0.order == after[idx]->0.order
    } by {
        assert(before[idx] is Some);
        assert(spec_in_block(p, before[idx]->0.leader as int, before[idx]->0.order as int));
    }
    assert forall|idx: int| 0 <= idx < after.len() && (#[trigger] after[idx]) is Some implies {
        let t = after[idx]->0;
        &&& t.order < MAX_ORDER
        &&& t.leader < after.len()
        &&& t.leader == spec_first_page(spec_ancestor(t.leader as int, t.order as int), t.order as int)
        &&& spec_in_block(idx, t.leader as int, t.order as int)
        &&& after[t.leader as int] is Some
        &&& after[t.leader as int]->0.leader == t.leader
        &&& after[t.leader as int]->0.order == t.order
        &&& after[t.leader as int]->0.refs >= 1
        &&& idx != t.leader ==> t.refs == 0
    } by {
        assert(before[idx] is Some);
        assert(before[before[idx]->0.leader as int] is Some);
    }
}

/// The registry of frames: one slot for each frame of the managed range,
/// empty while the frame is not in use.
pub struct PagesManager {
    start_vaddr: Vaddr,
    pages: Vec<Option<PageSlot>>,
}

impl View for PagesManager {
    type V = Seq<Option<PageSlot>>;

    /// The slots, the first for the frame at the start address.
    closed spec fn view(&self) -> Seq<Option<PageSlot>> {
        self.pages@
    }
}

impl Default for PagesManager {
    /// A registry that manages nothing yet.
    fn default() -> (pm: Self)
        ensures
            pm@.len() == 0,
            pm.spec_start() == 0,
    {
        PagesManager { start_vaddr: Vaddr(0), pages: Vec::new() }
    }
}

impl PagesManager {
    /// The address of the first managed frame.
    pub closed spec fn spec_start(&self) -> int {
        self.start_vaddr.0 as int
    }

    /// The index of the frame that holds `addr`.
    pub open spec fn spec_index(&self, addr: int) -> int {
        (addr - self.spec_start()) / 4096
    }

    /// The invariant: the managed range starts at a page and ends below the
    /// highest address, and the slots are consistent.
    pub open spec fn wf(&self) -> bool {
        &&& self.spec_start() + self@.len() * 4096 <= u64::MAX
        &&& self@.len() <= usize::MAX
        &&& self.spec_start() % 4096 == 0
        &&& spec_slots_wf(self@)
    }

    /// Whether `page` is a handle to a block that the registry has in use.
    pub open spec fn spec_holds(&self, page: &Page) -> bool {
        &&& page.wf()
        &&& page.is_leader_flag
        &&& page.vaddr.0 >= self.spec_start()
        &&& self.spec_index(page.vaddr.0 as int) < self@.len()
        &&& self@[self.spec_index(page.vaddr.0 as int)] is Some
        &&& self@[self.spec_index(page.vaddr.0 as int)]->0.leader == self.spec_index(page.vaddr.0 as int)
        &&& self@[self.spec_index(page.vaddr.0 as int)]->0.order == page.inner.order
    }

    /// Takes over the whole frames between `start_addr` and `end_addr`,
    /// none of them in use.
    pub fn init(&mut self, start_addr: Vaddr, end_addr: Vaddr)
        requires
            old(self)@.len() == 0,
            spec_ceil(start_addr.0 as int) <= spec_floor(end_addr.0 as int),
            (spec_floor(end_addr.0 as int) - spec_ceil(start_addr.0 as int)) / 4096 <= usize::MAX,
        ensures
            final(self).wf(),
            final(self).spec_start() == spec_ceil(start_addr.0 as int),
            final(self)@.len() == (spec_floor(end_addr.0 as int) - spec_ceil(start_addr.0 as int)) / 4096,
            forall|i: int| 0 <= i < final(self)@.len() ==> final(self)@[i] is None,
    {
        let ns = start_addr.ceil();
        let ne = end_addr.floor();
        let pgs = ((ne - ns.0).0 / (PAGE_SIZE as u64)) as usize;
        let mut i: usize = 0;
        while i < pgs
            invariant
                i <= pgs,
                self.pages@.len() == i,
                forall|j: int| 0 <= j < i ==> self.pages@[j] is None,
            decreases pgs - i,
        {
            self.pages.push(None);
            i += 1;
        }
        self.start_vaddr = ns;
    }

    /// A registry over the whole frames between `start_addr` and `end_addr`.
    pub fn new(start_addr: Vaddr, end_addr: Vaddr) -> (pm: Self)
        requires
            spec_ceil(start_addr.0 as int) <= spec_floor(end_addr.0 as int),
            (spec_floor(end_addr.0 as int) - spec_ceil(start_addr.0 as int)) / 4096 <= usize::MAX,
        ensures
            pm.wf(),
            pm.spec_start() == spec_ceil(start_addr.0 as int),
            pm@.len() == (spec_floor(end_addr.0 as int) - spec_ceil(start_addr.0 as int)) / 4096,
            forall|i: int| 0 <= i < pm@.len() ==> pm@[i] is None,
    {
        let mut pm = Self::default();
        pm.init(start_addr, end_addr);
        pm
    }

    /// Number of managed frames.
    pub fn cap(&self) -> (n: usize)
        ensures
            n == self@.len(),
    {
        self.pages.len()
    }

    fn __get_index_no_check(&self, vaddr: Vaddr) -> (idx: usize)
        requires
            vaddr.0 >= self.spec_start(),
            self.spec_index(vaddr.0 as int) < self@.len(),
        ensures
            idx == self.spec_index(vaddr.0 as int),
            self@.len() <= usize::MAX,
    {
        let n = self.pages.len();
        ((vaddr - self.start_vaddr.0).0 / (PAGE_SIZE as u64)) as usize
    }

    fn __get_index_check(&self, vaddr: Vaddr) -> (r: Option<usize>)
        ensures
            r is Some <==> (vaddr.0 % 4096 == 0 && vaddr.0 >= self.spec_start() && self.spec_index(vaddr.0 as int)
                < self@.len()),
            r matches Some(idx) ==> idx == self.spec_index(vaddr.0 as int),
    {
        if !vaddr.is_align() {
            return None;
        }
        if vaddr.0 < self.start_vaddr.0 {
            return None;
        }
        if (vaddr - self.start_vaddr.0).0 / (PAGE_SIZE as u64) >= self.cap() as u64 {
            return None;
        }
        Some(self.__get_index_no_check(vaddr))
    }

    /// Whether `vaddr` is the address of a frame that is in use.
    pub fn in_use(&self, vaddr: Vaddr) -> (b: bool)
        requires
            self.wf(),
        ensures
            b == (vaddr.0 % 4096 == 0 && vaddr.0 >= self.spec_start() && self.spec_index(vaddr.0 as int) < self@.len()
                && self@[self.spec_index(vaddr.0 as int)] is Some),
    {
        match self.__get_index_check(vaddr) {
            Some(index) => self.pages[index].is_some(),
            None => false,
        }
    }

    /// Number of frames in use.
    pub fn get_in_memory_page_cnt(&self) -> (cnt: usize)
        ensures
            cnt == spec_live_count(self@),
    {
        let mut cnt: usize = 0;
        let mut i: usize = 0;
        while i < self.pages.len()
            invariant
                i <= self.pages@.len(),
                cnt == spec_live_count(self.pages@.subrange(0, i as int)),
                cnt <= i,
            decreases self.pages@.len() - i,
        {
            proof {
                assert(self.pages@.subrange(0, i + 1).drop_last() =~= self.pages@.subrange(0, i as int));
            }
            match &self.pages[i] {
                Some(_) => {
                    cnt += 1;
                },
                _ => {},
            }
            i += 1;
        }
        proof {
            assert(self.pages@.subrange(0, i as int) =~= self.pages@);
        }
        cnt
    }

    /// Takes the `2^order` frames from `vaddr` into use as one block, held
    /// once, and returns its leader. The frames must lie in the managed range
    /// at a multiple of the block size and must not be in use.
    pub fn new_pages_block_in_memory(&mut self, vaddr: Vaddr, order: usize) -> (ret: Page)
        requires
            old(self).wf(),
            order < MAX_ORDER,
            vaddr.0 >= old(self).spec_start(),
            vaddr.0 % 4096 == 0,
            old(self).spec_index(vaddr.0 as int) == spec_first_page(
                spec_ancestor(old(self).spec_index(vaddr.0 as int), order as int),
                order as int,
            ),
            forall|p: int|
                #[trigger] spec_in_block(p, old(self).spec_index(vaddr.0 as int), order as int) ==> p < old(
                    self,
                )@.len() && old(self)@[p] is None,
        ensures
            final(self).wf(),
            final(self).spec_start() == old(self).spec_start(),
            final(self).spec_holds(&ret),
            ret.wf(),
            ret.vaddr == vaddr,
            ret.is_leader_flag,
            ret.inner.order == order,
            ret.inner.pos == 0,
            final(self)@ == spec_take_block(old(self)@, old(self).spec_index(vaddr.0 as int), order as int),
    {
        let ghost before = self@;
        let ghost gidx = self.spec_index(vaddr.0 as int);
        proof {
            lemma_order2pages_values();
            lemma_order2pages_monotone(order as int, 10);
            lemma_order2pages_monotone(0, order as int);
            assert(0 <= gidx);
            lemma_block_pages(gidx, order as int, gidx);
            lemma_block_pages(gidx, order as int, gidx + spec_order2pages(order as int) - 1);
            assert(spec_in_block(gidx, gidx, order as int));
            assert(spec_in_block(gidx + spec_order2pages(order as int) - 1, gidx, order as int));
            assert forall|p: int| gidx <= p < gidx + spec_order2pages(order as int) implies before[p] is None by {
                lemma_block_pages(gidx, order as int, p);
                assert(spec_in_block(p, gidx, order as int));
            }
            lemma_take_block(before, gidx, order as int);
        }
        let index = self.__get_index_no_check(vaddr);
        let pgs = order2pages(order);
        let mut ret: Page = Page::new(vaddr, true);
        ret.set_order(order);
        let mut vaddr_probe = vaddr;
        let mut i: usize = index;
        while i < index + pgs
            invariant
                index == gidx,
                index <= i <= index + pgs,
                pgs == spec_order2pages(order as int),
                index + pgs <= before.len() <= usize::MAX,
                self.pages@.len() == before.len(),
                self.start_vaddr == old(self).start_vaddr,
                vaddr.0 + pgs * 4096 <= u64::MAX,
                vaddr_probe.0 == vaddr.0 + (i - index) * 4096,
                ret.vaddr == vaddr,
                !ret.default_flag,
                ret.is_leader_flag,
                ret.inner.order == order,
                ret.inner.pos == 0,
                ret.inner.leader == vaddr,
                ret.inner.friends@.len() == if i == index { 0 } else { i - index - 1 },
                forall|j: int|
                    0 <= j < ret.inner.friends@.len() ==> (#[trigger] ret.inner.friends@[j]).0 == vaddr.0 + (j + 1)
                        * 4096,
                forall|p: int|
                    0 <= p < before.len() ==> #[trigger] self.pages@[p] == if index <= p < i {
                        Some(
                            PageSlot { leader: index, order, refs: if p == index {
                                1usize
                            } else {
                                0usize
                            } },
                        )
                    } else {
                        before[p]
                    },
            decreases index + pgs - i,
        {
            let new_pg = Page::new(vaddr_probe, if i == index { true } else { false });
            if i == index {
            } else {
                ret.add_friend(new_pg);
            }
            self.pages[i] = Some(PageSlot { leader: index, order, refs: if i == index { 1 } else { 0 } });
            vaddr_probe.add_assign(PAGE_SIZE as u64);
            i += 1;
        }
        proof {
            let after = self@;
            assert forall|p: int| 0 <= p < after.len() implies after[p] == spec_take_block(
                before,
                gidx,
                order as int,
            )[p] by {
                lemma_block_pages(gidx, order as int, p);
            }
            assert(after =~= spec_take_block(before, gidx, order as int));
        }
        ret
    }

    /// The page of the frame at `vaddr`, if that frame is in use. Looking up
    /// the leader of a block adds a holder to the block.
    #[verifier::rlimit(100)]
    #[verifier::spinoff_prover]
    pub fn get_in_memory_page(&mut self, vaddr: Vaddr) -> (r: Option<Page>)
        requires
            old(self).wf(),
            forall|i: int| 0 <= i < old(self)@.len() && old(self)@[i] is Some ==> (#[trigger] old(self)@[i])->0.refs
                < usize::MAX,
        ensures
            final(self).wf(),
            final(self).spec_start() == old(self).spec_start(),
            final(self)@.len() == old(self)@.len(),
            r is Some <==> (vaddr.0 % 4096 == 0 && vaddr.0 >= old(self).spec_start() && old(self).spec_index(
                vaddr.0 as int,
            ) < old(self)@.len() && old(self)@[old(self).spec_index(vaddr.0 as int)] is Some),
            r is None ==> final(self)@ == old(self)@,
            r matches Some(pg) ==> {
                let idx = old(self).spec_index(vaddr.0 as int);
                let s = old(self)@[idx]->0;
                &&& pg.wf()
                &&& pg.vaddr == vaddr
                &&& pg.is_leader_flag == (s.leader == idx)
                &&& pg.inner.leader.0 == old(self).spec_start() + s.leader * 4096
                &&& pg.inner.order == if s.leader == idx { s.order } else { 0 }
                &&& pg.inner.pos == 0
                &&& final(self)@ == if s.leader == idx {
                    old(self)@.update(idx, Some(PageSlot { refs: (s.refs + 1) as usize, ..s }))
                } else {
                    old(self)@
                }
            },
    {
        match self.__get_index_check(vaddr) {
            None => None,
            Some(index) => {
                match self.pages[index] {
                    Some(s) => {
                        let ghost before = self@;
                        proof {
                            lemma_order2pages_values();
                            lemma_order2pages_monotone(s.order as int, 10);
                            lemma_order2pages_monotone(0, s.order as int);
                            assert(before[index as int] is Some);
                            assert(before[s.leader as int] is Some);
                        }
                        if s.leader == index {
                            let mut pg = Page::new(vaddr, true);
                            pg.set_order(s.order);
                            let pgs = order2pages(s.order);
                            proof {
                                lemma_block_pages(index as int, s.order as int, index + pgs - 1);
                                assert(spec_in_block(index + pgs - 1, s.leader as int, s.order as int));
                                lemma_set_refs(before, index as int, (s.refs + 1) as usize);
                            }
                            let mut i: usize = 1;
                            while i < pgs
                                invariant
                                    1 <= i <= pgs,
                                    pgs <= 1024,
                                    vaddr.0 + pgs * 4096 <= u64::MAX,
                                    pg.vaddr == vaddr,
                                    !pg.default_flag,
                                    pg.is_leader_flag,
                                    pg.inner.order == s.order,
                                    pg.inner.pos == 0,
                                    pg.inner.leader == vaddr,
                                    pg.inner.friends@.len() == i - 1,
                                    forall|j: int|
                                        0 <= j < pg.inner.friends@.len() ==> (#[trigger] pg.inner.friends@[j]).0
                                            == vaddr.0 + (j + 1) * 4096,
                                decreases pgs - i,
                            {
                                proof {
                                    assert(PAGE_SIZE == 4096);
                                    assert(i * 4096 < pgs * 4096);
                                    assert(vaddr.0 + i * 4096 <= u64::MAX);
                                }
                                pg.add_friend(Page::new(Vaddr(vaddr.0 + (i as u64) * (PAGE_SIZE as u64)), false));
                                i += 1;
                            }
                            self.pages[index] = Some(PageSlot { leader: s.leader, order: s.order, refs: s.refs + 1 });
                            proof {
                                assert(self@ =~= before.update(
                                    index as int,
                                    Some(PageSlot { refs: (s.refs + 1) as usize, ..s }),
                                ));
                            }
                            Some(pg)
                        } else {
                            let mut pg = Page::new(vaddr, false);
                            pg.inner.change_leader(Vaddr(self.start_vaddr.0 + (s.leader as u64) * (PAGE_SIZE as u64)));
                            Some(pg)
                        }
                    },
                    _ => None,
                }
            },
        }
    }

    /// Lets go of one hold on the block that `page` leads. When that was the
    /// last hold, the frames of the block leave the registry, and the
    /// address and the order of the block are returned, for the block to be
    /// handed back to the allocator. A placeholder, and a page that leads no
    /// block, hold nothing.
    pub fn release(&mut self, page: &Page) -> (r: Option<(Vaddr, usize)>)
        requires
            old(self).wf(),
            !page.default_flag && page.is_leader_flag ==> old(self).spec_holds(page),
        ensures
            final(self).wf(),
            final(self).spec_start() == old(self).spec_start(),
            final(self)@.len() == old(self)@.len(),
            page.default_flag || !page.is_leader_flag ==> r is None && final(self)@ == old(self)@,
            !page.default_flag && page.is_leader_flag ==> {
                let idx = old(self).spec_index(page.vaddr.0 as int);
                let s = old(self)@[idx]->0;
                &&& s.refs > 1 ==> r is None && final(self)@ == old(self)@.update(
                    idx,
                    Some(PageSlot { refs: (s.refs - 1) as usize, ..s }),
                )
                &&& s.refs == 1 ==> r == Some((page.vaddr, page.inner.order)) && final(self)@ == spec_drop_block(
                    old(self)@,
                    idx,
                    page.inner.order as int,
                )
            },
    {
        if page.default_flag || !page.is_leader() {
            return None;
        }
        let ghost before = self@;
        let index = self.__get_index_no_check(page.vaddr);
        let order = page.get_order();
        match self.pages[index] {
            Some(s) => {
                proof {
                    assert(before[index as int] is Some);
                    assert(before[s.leader as int] is Some);
                    lemma_order2pages_values();
                    lemma_order2pages_monotone(order as int, 10);
                    lemma_order2pages_monotone(0, order as int);
                }
                if s.refs > 1 {
                    self.pages[index] = Some(PageSlot { leader: s.leader, order: s.order, refs: s.refs - 1 });
                    proof {
                        assert(self@ =~= before.update(
                            index as int,
                            Some(PageSlot { refs: (s.refs - 1) as usize, ..s }),
                        ));
                        lemma_set_refs(before, index as int, (s.refs - 1) as usize);
                    }
                    None
                } else {
                    let pgs = order2pages(order);
                    proof {
                        lemma_block_pages(index as int, order as int, index + pgs - 1);
                        assert(spec_in_block(index + pgs - 1, s.leader as int, s.order as int));
                        lemma_drop_block(before, index as int);
                    }
                    let mut i: usize = index;
                    while i < index + pgs
                        invariant
                            index <= i <= index + pgs,
                            index + pgs <= before.len() <= usize::MAX,
                            self.pages@.len() == before.len(),
                            self.start_vaddr == old(self).start_vaddr,
                            forall|p: int|
                                0 <= p < before.len() ==> #[trigger] self.pages@[p] == if index <= p < i {
                                    None
                                } else {
                                    before[p]
                                },
                        decreases index + pgs - i,
                    {
                        self.pages[i] = None;
                        i += 1;
                    }
                    proof {
                        let after = self@;
                        assert forall|p: int| 0 <= p < after.len() implies after[p] == spec_drop_block(
                            before,
                            index as int,
                            order as int,
                        )[p] by {
                            lemma_block_pages(index as int, order as int, p);
                        }
                        assert(after =~= spec_drop_block(before, index as int, order as int));
                    }
                    Some((page.vaddr, order))
                }
            },
            _ => None,
        }
    }
}


/// Goes through the frames of a block, the leader first. A page that leads
/// no block has nothing to go through.
pub struct PageInterator {
    len: usize,
    cur: usize,
    frames: Vec<Vaddr>,
}

impl PageInterator {
    /// The addresses of the frames that are still to come.
    pub closed spec fn spec_rest(&self) -> Seq<Vaddr> {
        self.frames@.subrange(self.cur as int, self.len as int)
    }

    /// The invariant: the place in the block lies within the block.
    pub closed spec fn wf(&self) -> bool {
        self.cur <= self.len && self.len == self.frames@.len()
    }

    /// The frames of the block that `pg` leads, each with its address:
    /// the leader and then its friends.
    pub open spec fn spec_frames(pg: &Page) -> Seq<Vaddr> {
        if pg.is_leader_flag {
            seq![pg.vaddr] + pg.inner.friends@
        } else {
            Seq::empty()
        }
    }

    /// An iterator over the block that `pg` leads.
    pub fn new(pg: &Page) -> (it: Self)
        requires
            pg.inner.friends@.len() < usize::MAX,
        ensures
            it.wf(),
            it.spec_rest() == Self::spec_frames(pg),
    {
        if pg.is_leader() {
            let mut frames: Vec<Vaddr> = Vec::new();
            frames.push(pg.vaddr);
            let mut i: usize = 0;
            while i < pg.inner.friends.len()
                invariant
                    i <= pg.inner.friends@.len(),
                    frames@ == seq![pg.vaddr] + pg.inner.friends@.subrange(0, i as int),
                decreases pg.inner.friends@.len() - i,
            {
                frames.push(pg.inner.friends[i]);
                proof {
                    assert(frames@ =~= seq![pg.vaddr] + pg.inner.friends@.subrange(0, i + 1));
                }
                i += 1;
            }
            proof {
                assert(pg.inner.friends@.subrange(0, pg.inner.friends@.len() as int) =~= pg.inner.friends@);
                assert(frames@.subrange(0, frames@.len() as int) =~= frames@);
            }
            PageInterator { len: pg.inner.friends.len() + 1, cur: 0, frames }
        } else {
            // if this page is not a block,
            // return a null interator
            let it = PageInterator { len: 0, cur: 0, frames: Vec::new() };
            proof {
                assert(it.spec_rest() =~= Seq::<Vaddr>::empty());
            }
            it
        }
    }

    /// The address of the next frame of the block, if one is left.
    pub fn next(&mut self) -> (r: Option<Vaddr>)
        requires
            old(self).wf(),
        ensures
            final(self).wf(),
            r is Some <==> old(self).spec_rest().len() > 0,
            r matches Some(v) ==> v == old(self).spec_rest()[0] && final(self).spec_rest() == old(
                self,
            ).spec_rest().drop_first(),
            r is None ==> final(self).spec_rest() == old(self).spec_rest(),
    {
        if self.cur < self.len {
            let r = Some(self.frames[self.cur]);
            self.cur += 1;
            proof {
                assert(self.spec_rest() =~= old(self).spec_rest().drop_first());
            }
            r
        } else {
            None
        }
    }
}


/// A slot that comes into use adds one to the number of frames in use.
pub proof fn lemma_live_count_set(slots: Seq<Option<PageSlot>>, i: int, v: Option<PageSlot>)
    requires
        0 <= i < slots.len(),
        slots[i] is None,
        v is Some,
    ensures
        spec_live_count(slots.update(i, v)) == spec_live_count(slots) + 1,
    decreases slots.len(),
{
    let after = slots.update(i, v);
    if i == slots.len() - 1 {
        assert(after.drop_last() =~= slots.drop_last());
    } else {
        assert(after.drop_last() =~= slots.drop_last().update(i, v));
        lemma_live_count_set(slots.drop_last(), i, v);
    }
}

/// One frame that is taken into use adds one to the number of frames in
/// use.
pub proof fn lemma_take_one(slots: Seq<Option<PageSlot>>, leader: int)
    requires
        0 <= leader < slots.len(),
        slots[leader] is None,
    ensures
        spec_live_count(spec_take_block(slots, leader, 0)) == spec_live_count(slots) + 1,
{
    let v = Some(PageSlot { leader: leader as usize, order: 0usize, refs: 1usize });
    assert forall|p: int| spec_in_block(p, leader, 0) <==> p == leader by {
        assert(crate::mm::buddy_model::spec_ancestor(p, 0) == p);
        assert(crate::mm::buddy_model::spec_ancestor(leader, 0) == leader);
    }
    assert(spec_take_block(slots, leader, 0) =~= slots.update(leader, v));
    lemma_live_count_set(slots, leader, v);
}

} // verus!
