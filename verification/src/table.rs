//! Page-table entries and the four-level table hierarchy.
//!
//! Table contents are addressed by the physical frame that holds them,
//! the way the hardware walker sees them; the active hierarchy is the
//! set of tables reachable from the level-4 root frame. A ghost map
//! records the level of every table of the active hierarchy, which
//! keeps the four tables touched by one walk pairwise distinct.

use vstd::prelude::*;
use std::collections::HashMap;
use crate::mem::{Frame, FrameAllocator, MAX_FRAMES, PAGE_SIZE};
use crate::paging::{canonical, containing_address, Page, PhysicalAddress, VirtualAddress};

verus! {

broadcast use vstd::std_specs::hash::group_hash_axioms, vstd::set::group_set_axioms;

/// Flag bit 0: the entry maps a present frame.
pub const PRESENT: u64 = 1;

/// Flag bit 1: the mapping is writable.
pub const WRITABLE: u64 = 2;

/// The bits of an entry that carry the physical address.
pub const ADDRESS_MASK: u64 = 0x000f_ffff_ffff_f000;

/// The named flag bits combine as expected and stay clear of the
/// address bits of an entry.
pub proof fn lemma_flag_bits()
    ensures
        PRESENT | WRITABLE == 3,
        3u64 & ADDRESS_MASK == 0,
        3u64 & PRESENT == PRESENT,
        1u64 & ADDRESS_MASK == 0,
        1u64 & PRESENT == PRESENT,
{
    assert(1u64 | 2u64 == 3) by (bit_vector);
    assert(3u64 & 0x000f_ffff_ffff_f000u64 == 0) by (bit_vector);
    assert(3u64 & 1u64 == 1) by (bit_vector);
    assert(1u64 & 0x000f_ffff_ffff_f000u64 == 0) by (bit_vector);
    assert(1u64 & 1u64 == 1) by (bit_vector);
}

/// The four 9-bit walk indices of any page number are table indices.
pub proof fn lemma_walk_indices(n: u64)
    ensures
        (n >> 27) & 0o777 < 512,
        (n >> 18) & 0o777 < 512,
        (n >> 9) & 0o777 < 512,
        n & 0o777 < 512,
{
    assert(((n >> 27) & 0o777) < 512 && ((n >> 18) & 0o777) < 512 && ((n >> 9) & 0o777) < 512
        && (n & 0o777) < 512) by (bit_vector);
}

/// One hardware mapping slot: a 64-bit word combining a frame index
/// and flag bits.
#[derive(Debug, Clone, Copy, PartialEq, Eq, Structural)]
pub struct Entry(pub u64);

impl Entry {
    /// Whether the present flag is set.
    pub open spec fn is_present(self) -> bool {
        self.0 & PRESENT == PRESENT
    }

    /// The frame index carried in the address bits.
    pub open spec fn frame_index(self) -> u64 {
        (self.0 & ADDRESS_MASK) >> 12
    }

    /// The flag bits of the entry.
    pub open spec fn spec_flags(self) -> u64 {
        self.0 & !ADDRESS_MASK
    }

    /// The word that maps `frame_number` with `flags`.
    pub open spec fn spec_new(frame_number: u64, flags: u64) -> Entry {
        Entry((frame_number << 12) | flags)
    }

    /// Whether this entry is wholly clear.
    pub fn is_unused(&self) -> (r: bool)
        ensures
            r == (self.0 == 0),
    {
        self.0 == 0
    }

    /// Clear the entry.
    pub fn set_unused(&mut self)
        ensures
            final(self).0 == 0,
    {
        self.0 = 0;
    }

    /// The flag bits of the entry.
    pub fn flags(&self) -> (r: u64)
        ensures
            r == self.spec_flags(),
    {
        self.0 & !ADDRESS_MASK
    }

    /// The frame this entry maps, when the present flag is set.
    pub fn pointed_frame(&self) -> (r: Option<Frame>)
        ensures
            r == if self.is_present() {
                Some(Frame { number: self.frame_index() })
            } else {
                None::<Frame>
            },
    {
        if self.0 & PRESENT == PRESENT {
            Some(Frame { number: (self.0 & ADDRESS_MASK) >> 12 })
        } else {
            None
        }
    }

    /// The entry mapping `frame` with `flags`; takes ownership of the
    /// frame, which the table now backs.
    pub fn new(frame: Frame, flags: u64) -> (r: Entry)
        requires
            frame.number < MAX_FRAMES,
            flags & ADDRESS_MASK == 0,
        ensures
            r == Entry::spec_new(frame.number, flags),
    {
        Entry((frame.number << 12) | flags)
    }

    /// Install `frame` with `flags` in this entry; from the reader's
    /// side there is no state between the old word and the new one.
    pub fn set(&mut self, frame: Frame, flags: u64)
        requires
            frame.number < MAX_FRAMES,
            flags & ADDRESS_MASK == 0,
        ensures
            *final(self) == Entry::spec_new(frame.number, flags),
    {
        self.0 = (frame.number << 12) | flags;
    }

    /// A freshly written entry reads back the frame index and the flags
    /// it was written with.
    pub proof fn lemma_new_fields(n: u64, flags: u64)
        requires
            n < MAX_FRAMES,
            flags & ADDRESS_MASK == 0,
        ensures
            Entry::spec_new(n, flags).frame_index() == n,
            Entry::spec_new(n, flags).is_present() == (flags & PRESENT == PRESENT),
            Entry::spec_new(n, flags).spec_flags() == flags,
    {
        assert(n < 0x100_0000_0000u64 && flags & 0x000f_ffff_ffff_f000u64 == 0 ==> ((((n << 12)
            | flags) & 0x000f_ffff_ffff_f000u64) >> 12 == n && ((((n << 12) | flags) & 1u64
            == 1u64) == (flags & 1u64 == 1u64)) && (((n << 12) | flags)
            & !0x000f_ffff_ffff_f000u64 == flags))) by (bit_vector);
    }

    /// Any frame index read out of an entry fits the hardware bound.
    pub proof fn lemma_frame_index_bound(e: Entry)
        ensures
            e.frame_index() < MAX_FRAMES,
    {
        let v = e.0;
        assert(((v & 0x000f_ffff_ffff_f000u64) >> 12) < 0x100_0000_0000u64) by (bit_vector);
    }

    /// The cleared entry maps nothing.
    pub proof fn lemma_zero_not_present()
        ensures
            !Entry(0).is_present(),
    {
        assert(0u64 & 1u64 != 1u64) by (bit_vector);
    }
}

/// The contents of a table with every slot clear.
pub open spec fn zero_table() -> Seq<Entry> {
    Seq::new(512, |i: int| Entry(0))
}

/// A zeroed table whose entry 511 points back at frame `f` itself,
/// present and writable: the shape of a fresh root with its recursive
/// mapping installed.
pub open spec fn recursive_root(f: u64) -> Seq<Entry> {
    zero_table().update(511, Entry::spec_new(f, PRESENT | WRITABLE))
}

/// Two page numbers lead the walk through the same four table slots.
/// Distinct canonical pages with the same walk are the sign-extended
/// images of one another and share one mapping by construction.
pub open spec fn same_walk(a: u64, b: u64) -> bool {
    &&& (a >> 27) & 0o777 == (b >> 27) & 0o777
    &&& (a >> 18) & 0o777 == (b >> 18) & 0o777
    &&& (a >> 9) & 0o777 == (b >> 9) & 0o777
    &&& a & 0o777 == b & 0o777
}

/// One table of the hierarchy: 512 contiguous entries.
pub struct Table {
    /// The 512 slots.
    pub entries: Vec<Entry>,
}

impl Table {
    /// A table with every slot clear.
    pub fn new_zeroed() -> (r: Table)
        ensures
            r.entries@ == zero_table(),
    {
        let mut entries: Vec<Entry> = Vec::new();
        let mut i: usize = 0;
        while i < 512
            invariant
                i <= 512,
                entries@.len() == i,
                forall|j: int| 0 <= j < i ==> entries@[j] == Entry(0),
            decreases 512 - i,
        {
            entries.push(Entry(0));
            i += 1;
        }
        proof {
            assert(entries@ =~= zero_table());
        }
        Table { entries }
    }

    /// Write entry `i`.
    pub fn set_entry(&mut self, i: usize, e: Entry)
        requires
            i < old(self).entries@.len(),
        ensures
            final(self).entries@ == old(self).entries@.update(i as int, e),
    {
        self.entries[i] = e;
    }
}

/// The table hierarchy the hardware is walking: the level-4 root frame,
/// and the contents of every physical frame that currently holds a
/// table (reachable through the recursive mapping).
pub struct ActivePageTable {
    /// The frame of the level-4 root table.
    pub p4_frame: Frame,
    /// The stored tables, by the frame that holds each.
    pub store: HashMap<u64, Table>,
    /// Level (4 down to 1) of each table of the active hierarchy.
    pub levels: Ghost<Map<u64, nat>>,
    /// The one entry (table frame, index) that points at each table of
    /// the hierarchy below the root; makes the hierarchy a tree.
    pub parents: Ghost<Map<u64, (u64, int)>>,
}

impl ActivePageTable {
    /// Table memory as the walker sees it: frame index to entries.
    pub open spec fn mem(self) -> Map<u64, Seq<Entry>> {
        Map::new(
            |f: u64| self.store@.contains_key(f),
            |f: u64| self.store@[f].entries@,
        )
    }

    /// The hierarchy invariant: the root is stored at level 4, every
    /// stored table has 512 entries, and every present entry of a
    /// hierarchy table above level 1 (other than the reserved recursive
    /// slot of the root) points at a stored table one level down.
    pub open spec fn wf(self) -> bool {
        &&& self.mem().contains_key(self.p4_frame.number)
        &&& self.levels@.contains_key(self.p4_frame.number)
        &&& self.levels@[self.p4_frame.number] == 4
        &&& forall|f: u64|
            #[trigger] self.levels@.contains_key(f) ==> self.mem().contains_key(f) && 1
                <= self.levels@[f] <= 4
        &&& forall|f: u64| #[trigger] self.mem().contains_key(f) ==> self.mem()[f].len() == 512
        &&& forall|f: u64, i: int|
            self.levels@.contains_key(f) && self.levels@[f] >= 2 && 0 <= i < 512 && !(
            self.levels@[f] == 4 && i == 511) && (#[trigger] self.mem()[f][i]).is_present()
                ==> self.levels@.contains_key(self.mem()[f][i].frame_index())
                && self.levels@[self.mem()[f][i].frame_index()] == self.levels@[f] - 1
                && self.parents@.contains_key(self.mem()[f][i].frame_index())
                && self.parents@[self.mem()[f][i].frame_index()] == (f, i)
    }

    /// The child table named by entry `i` of the table in frame `f`.
    pub open spec fn child_of(self, f: u64, i: u64) -> Option<u64> {
        if self.mem().contains_key(f) && i < 512 && self.mem()[f][i as int].is_present() {
            Some(self.mem()[f][i as int].frame_index())
        } else {
            None
        }
    }

    /// The level-1 table that the walk for `page` reaches.
    pub open spec fn p1_table_of(self, page: Page) -> Option<u64> {
        match self.child_of(self.p4_frame.number, (page.number >> 27) & 0o777) {
            Some(f3) => match self.child_of(f3, (page.number >> 18) & 0o777) {
                Some(f2) => self.child_of(f2, (page.number >> 9) & 0o777),
                None => None,
            },
            None => None,
        }
    }

    /// The level-1 entry the walk for `page` reads.
    pub open spec fn p1_entry_of(self, page: Page) -> Option<Entry> {
        match self.p1_table_of(page) {
            Some(f1) => if self.mem().contains_key(f1) {
                Some(self.mem()[f1][(page.number & 0o777) as int])
            } else {
                None
            },
            None => None,
        }
    }

    /// The frame backing `page`, if the walk is present at every level.
    pub open spec fn translate_page(self, page: Page) -> Option<u64> {
        match self.p1_entry_of(page) {
            Some(e) => if e.is_present() {
                Some(e.frame_index())
            } else {
                None
            },
            None => None,
        }
    }

    /// The physical address backing a virtual address.
    pub open spec fn translate_addr(self, address: u64) -> Option<u64> {
        match self.translate_page(Page { number: address / PAGE_SIZE }) {
            Some(f) => Some((f << 12) | (address & 0xfff)),
            None => None,
        }
    }

    /// A fresh hierarchy rooted in `p4_frame`: the root zeroed, with the
    /// recursive self-reference installed at the reserved slot 511.
    pub fn new(p4_frame: Frame) -> (r: ActivePageTable)
        requires
            p4_frame.number < MAX_FRAMES,
        ensures
            r.wf(),
            r.p4_frame == p4_frame,
            r.levels@ == Map::<u64, nat>::empty().insert(p4_frame.number, 4),
            r.mem() =~= Map::<u64, Seq<Entry>>::empty().insert(
                p4_frame.number,
                recursive_root(p4_frame.number),
            ),
    {
        let n = p4_frame.number;
        let mut table = Table::new_zeroed();
        proof {
            lemma_flag_bits();
        }
        table.set_entry(511, Entry::new(Frame { number: n }, PRESENT | WRITABLE));
        let mut store: HashMap<u64, Table> = HashMap::new();
        store.insert(n, table);
        let r = ActivePageTable {
            p4_frame,
            store,
            levels: Ghost(Map::<u64, nat>::empty().insert(n, 4)),
            parents: Ghost(Map::empty()),
        };
        proof {
            assert(r.mem() =~= Map::<u64, Seq<Entry>>::empty().insert(n, recursive_root(n)));
            Entry::lemma_zero_not_present();
            assert forall|i: int| 0 <= i < 512 && i != 511 implies !recursive_root(n)[i]
                .is_present() by {
                assert(recursive_root(n)[i] == Entry(0));
            }
            assert(r.wf());
        }
        r
    }

    /// Whether frame `f` currently holds a stored table.
    fn contains_table(&self, f: u64) -> (r: bool)
        ensures
            r == self.mem().contains_key(f),
    {
        self.store.contains_key(&f)
    }

    /// Read entry `i` of the table in frame `f`, if one is stored there.
    fn read_entry(&self, f: u64, i: u64) -> (r: Option<Entry>)
        requires
            self.wf(),
            i < 512,
        ensures
            r == if self.mem().contains_key(f) {
                Some(self.mem()[f][i as int])
            } else {
                None::<Entry>
            },
    {
        match self.store.get(&f) {
            None => None,
            Some(t) => {
                proof {
                    assert(self.store@.contains_key(f) && self.store@[f] == *t);
                    assert(self.mem().contains_key(f));
                    assert(self.mem()[f] == t.entries@);
                }
                Some(t.entries[i as usize])
            },
        }
    }

    /// Follow entry `i` of the table in frame `f` to its child frame.
    fn child(&self, f: u64, i: u64) -> (r: Option<u64>)
        requires
            self.wf(),
            i < 512,
        ensures
            r == self.child_of(f, i),
    {
        match self.read_entry(f, i) {
            None => None,
            Some(e) => if e.0 & PRESENT == PRESENT {
                Some((e.0 & ADDRESS_MASK) >> 12)
            } else {
                None
            },
        }
    }

    /// Translate a virtual address to the physical address backing it,
    /// or nothing if the walk is absent at any level.
    pub fn translate(&self, address: VirtualAddress) -> (r: Option<PhysicalAddress>)
        requires
            self.wf(),
            canonical(address),
        ensures
            r == self.translate_addr(address),
    {
        let page = containing_address(address);
        let i4 = page.p4_index();
        let i3 = page.p3_index();
        let i2 = page.p2_index();
        let i1 = page.p1_index();
        let f3 = match self.child(self.p4_frame.number, i4) {
            None => {
                return None;
            },
            Some(f) => f,
        };
        let f2 = match self.child(f3, i3) {
            None => {
                return None;
            },
            Some(f) => f,
        };
        let f1 = match self.child(f2, i2) {
            None => {
                return None;
            },
            Some(f) => f,
        };
        let e = match self.read_entry(f1, i1) {
            None => {
                return None;
            },
            Some(e) => e,
        };
        if e.0 & PRESENT == PRESENT {
            Some((((e.0 & ADDRESS_MASK) >> 12) << 12) | (address & 0xfff))
        } else {
            None
        }
    }

    /// Store a zeroed table into frame `f`.
    fn table_insert_zeroed(&mut self, f: u64)
        ensures
            final(self).p4_frame == old(self).p4_frame,
            final(self).levels@ == old(self).levels@,
            final(self).parents@ == old(self).parents@,
            final(self).mem() =~= old(self).mem().insert(f, zero_table()),
    {
        let t = Table::new_zeroed();
        self.store.insert(f, t);
        proof {
            assert(final(self).mem() =~= old(self).mem().insert(f, zero_table()));
        }
    }

    /// Overwrite entry `i` of the stored table in frame `f`.
    fn table_set(&mut self, f: u64, i: u64, e: Entry)
        requires
            old(self).mem().contains_key(f),
            old(self).mem()[f].len() == 512,
            i < 512,
        ensures
            final(self).p4_frame == old(self).p4_frame,
            final(self).levels@ == old(self).levels@,
            final(self).parents@ == old(self).parents@,
            final(self).mem() =~= old(self).mem().insert(
                f,
                old(self).mem()[f].update(i as int, e),
            ),
    {
        let mut t = self.store.remove(&f).unwrap();
        t.set_entry(i as usize, e);
        self.store.insert(f, t);
        proof {
            assert(final(self).mem() =~= old(self).mem().insert(
                f,
                old(self).mem()[f].update(i as int, e),
            ));
        }
    }

    /// The child table behind entry `idx` of the hierarchy table in
    /// frame `parent`; a missing child is created by taking a frame
    /// from the allocator, zeroing it, and installing it present and
    /// writable, exactly as the hardware walk requires.
    fn child_or_create<A: FrameAllocator>(
        &mut self,
        parent: u64,
        idx: u64,
        allocator: &mut A,
    ) -> (r: Option<u64>)
        requires
            old(self).wf(),
            old(allocator).wf(),
            old(self).levels@.contains_key(parent),
            old(self).levels@[parent] >= 2,
            idx < 512,
            !(old(self).levels@[parent] == 4 && idx == 511),
            forall|f: u64|
                old(allocator).avail().contains(f) ==> !old(self).mem().contains_key(f),
        ensures
            final(self).wf(),
            final(allocator).wf(),
            final(self).p4_frame == old(self).p4_frame,
            forall|f: u64|
                final(allocator).avail().contains(f) ==> !final(self).mem().contains_key(f),
            match r {
                Some(c) => {
                    &&& final(self).child_of(parent, idx) == Some(c)
                    &&& old(self).child_of(parent, idx) is Some ==> old(self).child_of(
                        parent,
                        idx,
                    ) == Some(c)
                    &&& old(self).child_of(parent, idx) is None ==> !old(
                        self,
                    ).mem().contains_key(c)
                    &&& c != parent
                    &&& old(self).levels@.contains_key(c) || !old(self).mem().contains_key(c)
                    &&& old(self).levels@.contains_key(c) ==> old(self).levels@[c] == old(self).levels@[parent] - 1
                    &&& final(self).levels@ =~= old(self).levels@.insert(
                        c,
                        (old(self).levels@[parent] - 1) as nat,
                    )
                    &&& final(self).levels@.contains_key(c)
                    &&& final(self).levels@[c] == old(self).levels@[parent] - 1
                    &&& forall|f: u64|
                        f != parent && f != c && old(self).mem().contains_key(f) ==> final(self).mem().contains_key(f) && final(self).mem()[f] == old(self).mem()[f]
                    &&& forall|f: u64|
                        #[trigger] final(self).mem().contains_key(f) ==> f == c || old(self).mem().contains_key(f)
                    &&& forall|g: u64, j: u64|
                        !(g == parent && j == idx) ==> final(self).child_of(g, j) == old(
                            self,
                        ).child_of(g, j)
                    &&& forall|j: int|
                        0 <= j < 512 && j != idx ==> final(self).mem()[parent][j] == old(
                            self,
                        ).mem()[parent][j]
                    &&& !old(self).mem().contains_key(c) ==> final(self).mem()[c]
                        == zero_table()
                    &&& old(self).mem().contains_key(c) ==> final(self).mem() =~= old(
                        self,
                    ).mem()
                    &&& final(self).parents@ =~= old(self).parents@.insert(
                        c,
                        (parent, idx as int),
                    )
                },
                None => {
                    &&& final(self).mem() =~= old(self).mem()
                    &&& final(self).levels@ == old(self).levels@
                    &&& final(self).parents@ == old(self).parents@
                    &&& final(allocator).avail() =~= Set::<u64>::empty()
                },
            },
    {
        let ghost s0 = *old(self);
        match self.child(parent, idx) {
            Some(c) => {
                proof {
                    let ghost lp = s0.levels@[parent];
                    assert(s0.mem()[parent][idx as int].is_present());
                    assert(s0.levels@.contains_key(c) && s0.levels@[c] == lp - 1);
                    assert(c != parent);
                    assert(s0.levels@ =~= s0.levels@.insert(c, (lp - 1) as nat));
                    assert(s0.parents@[c] == (parent, idx as int));
                    assert(s0.parents@ =~= s0.parents@.insert(c, (parent, idx as int)));
                }
                Some(c)
            },
            None => {
                match allocator.allocate_frame() {
                    None => None,
                    Some(frame) => {
                        let c = frame.number;
                        proof {
                            assert(old(allocator).avail().contains(c));
                            assert(!s0.mem().contains_key(c));
                            assert(s0.mem().contains_key(parent));
                            assert(c != parent);
                            assert(c != s0.p4_frame.number);
                            assert(!s0.levels@.contains_key(c));
                        }
                        self.table_insert_zeroed(c);
                        proof {
                            lemma_flag_bits();
                        }
                        self.table_set(parent, idx, Entry::new(frame, PRESENT | WRITABLE));
                        proof {
                            self.levels@ = s0.levels@.insert(
                                c,
                                (s0.levels@[parent] - 1) as nat,
                            );
                            self.parents@ = s0.parents@.insert(c, (parent, idx as int));
                        }
                        proof {
                            let ghost lp = s0.levels@[parent];
                            let ghost m0 = s0.mem();
                            let ghost m2 = self.mem();
                            let ghost lv2 = self.levels@;
                            let ghost e = Entry::spec_new(c, PRESENT | WRITABLE);
                            Entry::lemma_new_fields(c, 3);
                            Entry::lemma_zero_not_present();
                            assert(m2 =~= m0.insert(c, zero_table()).insert(
                                parent,
                                m0[parent].update(idx as int, e),
                            ));
                            assert(m2.contains_key(parent) && m2.contains_key(c));
                            assert(m2[parent] == m0[parent].update(idx as int, e));
                            assert(m2[parent][idx as int] == e);
                            assert(e.is_present() && e.frame_index() == c);
                            assert(self.child_of(parent, idx) == Some(c));
                            // the hierarchy invariant survives the two writes
                            assert forall|f: u64| #[trigger] lv2.contains_key(f) implies
                                m2.contains_key(f) && 1 <= lv2[f] <= 4 by {
                                if f != c {
                                    assert(s0.levels@.contains_key(f));
                                }
                            }
                            assert forall|f: u64| #[trigger] m2.contains_key(f) implies
                                m2[f].len() == 512 by {
                                if f == c && c != parent {
                                    assert(m2[f] == zero_table());
                                } else {
                                    assert(m2[f] == m0[parent].update(idx as int, e) || m2[f]
                                        == m0[f]);
                                }
                            }
                            let ghost pr2 = self.parents@;
                            assert forall|f: u64, i: int|
                                lv2.contains_key(f) && lv2[f] >= 2 && 0 <= i < 512 && !(lv2[f]
                                    == 4 && i == 511) && (#[trigger] m2[f][i]).is_present()
                                implies lv2.contains_key(m2[f][i].frame_index())
                                && lv2[m2[f][i].frame_index()] == lv2[f] - 1
                                && pr2.contains_key(m2[f][i].frame_index())
                                && pr2[m2[f][i].frame_index()] == (f, i) by {
                                if f == c {
                                    assert(m2[f] == zero_table());
                                    assert(m2[f][i] == Entry(0));
                                    assert(false);
                                } else if f == parent {
                                    assert(lv2[f] == lp);
                                    if i == idx {
                                        assert(m2[f][i] == e);
                                        assert(lv2[c] == lp - 1);
                                        assert(pr2[c] == (parent, idx as int));
                                    } else {
                                        assert(m2[f][i] == m0[f][i]);
                                        assert(s0.levels@.contains_key(
                                            m0[f][i].frame_index(),
                                        ));
                                        assert(m0[f][i].frame_index() != c);
                                    }
                                } else {
                                    assert(m2[f][i] == m0[f][i]);
                                    assert(s0.levels@.contains_key(f) && s0.levels@[f]
                                        == lv2[f]);
                                    assert(s0.levels@.contains_key(m0[f][i].frame_index()));
                                    assert(m0[f][i].frame_index() != c);
                                }
                            }
                            assert(self.wf());
                            assert forall|f: u64| allocator.avail().contains(f) implies
                                !m2.contains_key(f) by {
                                assert(old(allocator).avail().remove(c).contains(f));
                                assert(!m0.contains_key(f) && f != c);
                            }
                            assert(m2[c] == zero_table());
                            assert forall|g: u64, j: u64| !(g == parent && j == idx) implies
                                self.child_of(g, j) == s0.child_of(g, j) by {
                                if g == c {
                                    assert(!m0.contains_key(c));
                                    assert(m2[c] == zero_table());
                                    if j < 512 {
                                        assert(m2[c][j as int] == Entry(0));
                                    }
                                } else if g == parent {
                                    if j < 512 {
                                        assert(m2[parent][j as int] == m0[parent][j as int]);
                                    }
                                } else {
                                    if m0.contains_key(g) {
                                        assert(m2[g] == m0[g]);
                                    } else {
                                        assert(!m2.contains_key(g));
                                    }
                                }
                            }
                        }
                        Some(c)
                    },
                }
            },
        }
    }

    /// Map `page` to `frame` with the given flags, creating any missing
    /// intermediate table along the walk with frames taken from the
    /// allocator. Returns false, leaving no new translation, only when
    /// the allocator is exhausted. Afterwards the level-1 entry of the
    /// walk for `page` carries exactly `frame` and `flags`, so, when the
    /// flags include PRESENT, translating `page` yields `frame`; every
    /// page on a different walk keeps the translation it had.
    #[verifier::rlimit(100)]
    #[verifier::spinoff_prover]
    pub fn map_to<A: FrameAllocator>(
        &mut self,
        page: Page,
        frame: Frame,
        flags: u64,
        allocator: &mut A,
    ) -> (r: bool)
        requires
            old(self).wf(),
            old(allocator).wf(),
            (page.number >> 27) & 0o777 != 511,
            frame.number < MAX_FRAMES,
            flags & ADDRESS_MASK == 0,
            forall|f: u64|
                old(allocator).avail().contains(f) ==> !old(self).mem().contains_key(f),
        ensures
            final(self).wf(),
            final(allocator).wf(),
            final(self).p4_frame == old(self).p4_frame,
            forall|f: u64|
                final(allocator).avail().contains(f) ==> !final(self).mem().contains_key(f),
            forall|f: u64|
                #[trigger] old(self).mem().contains_key(f) ==> final(self).mem().contains_key(
                    f,
                ),
            r ==> final(self).p1_entry_of(page) == Some(Entry::spec_new(frame.number, flags)),
            r && flags & PRESENT == PRESENT ==> final(self).translate_page(page) == Some(
                frame.number,
            ),
            forall|q: Page|
                (q.number >> 27) & 0o777 != 511 && !same_walk(q.number, page.number)
                    ==> final(self).translate_page(q) == old(self).translate_page(q),
            !r ==> final(allocator).avail() =~= Set::<u64>::empty(),
    {
        let ghost s0 = *old(self);
        let i4 = page.p4_index();
        let i3 = page.p3_index();
        let i2 = page.p2_index();
        let i1 = page.p1_index();
        let p4f = self.p4_frame.number;
        let n = frame.number;
        let c3 = match self.child_or_create(p4f, i4, allocator) {
            None => {
                proof {
                    assert(self.mem() =~= s0.mem());
                    assert forall|q: Page| true implies self.translate_page(q)
                        == s0.translate_page(q) by {
                        assert(self.mem() == s0.mem());
                    }
                }
                return false;
            },
            Some(c) => c,
        };
        let ghost s1 = *self;
        proof {
            assert forall|q: Page| (q.number >> 27) & 0o777 != 511 implies
                s1.translate_page(q) == s0.translate_page(q) by {
                let j4 = (q.number >> 27) & 0o777;
                let j3 = (q.number >> 18) & 0o777;
                let j2 = (q.number >> 9) & 0o777;
                let j1 = q.number & 0o777;
                lemma_walk_indices(q.number);
                let g4 = s0.p4_frame.number;
                if s0.mem().contains_key(c3) {
                    assert(s1.mem() == s0.mem());
                } else {
                    assert(s0.child_of(p4f, i4) is None) by {
                        if s0.child_of(p4f, i4) is Some {
                            assert(s0.mem().contains_key(c3));
                        }
                    }
                    Entry::lemma_zero_not_present();
                    assert(s1.mem()[c3] == zero_table());
                    if g4 == p4f && j4 == i4 {
                        assert(s1.child_of(g4, j4) == Some::<u64>(c3));
                        assert(s1.child_of(c3, j3) == None::<u64>);
                        assert(s1.translate_page(q) == None::<u64>);
                        assert(s0.translate_page(q) == None::<u64>);
                    } else {
                        assert(s1.child_of(g4, j4) == s0.child_of(g4, j4));
                        if s0.child_of(g4, j4) is Some {
                            let f3q = s0.child_of(g4, j4)->Some_0;
                            assert(s0.levels@.contains_key(f3q) && s0.levels@[f3q] == 3);
                            if f3q == p4f && j3 == i4 {
                                assert(s1.child_of(f3q, j3) == Some::<u64>(c3));
                                assert(s1.child_of(c3, j2) == None::<u64>);
                                assert(s1.translate_page(q) == None::<u64>);
                                assert(s0.translate_page(q) == None::<u64>);
                            } else {
                                assert(s1.child_of(f3q, j3) == s0.child_of(f3q, j3));
                                if s0.child_of(f3q, j3) is Some {
                                    let f2q = s0.child_of(f3q, j3)->Some_0;
                                    assert(s0.levels@.contains_key(f2q) && s0.levels@[f2q]
                                        == 2);
                                    if f2q == p4f && j2 == i4 {
                                        assert(s1.child_of(f2q, j2) == Some::<u64>(c3));
                                        assert(!s1.mem()[c3][j1 as int].is_present());
                                        assert(s1.translate_page(q) == None::<u64>);
                                        assert(s0.translate_page(q) == None::<u64>);
                                    } else {
                                        assert(s1.child_of(f2q, j2) == s0.child_of(
                                            f2q,
                                            j2,
                                        ));
                                        if s0.child_of(f2q, j2) is Some {
                                            let f1q = s0.child_of(f2q, j2)->Some_0;
                                            assert(s0.levels@.contains_key(f1q)
                                                && s0.levels@[f1q] == 1);
                                            assert(f1q != p4f && f1q != c3);
                                            assert(s1.mem().contains_key(f1q)
                                                && s1.mem()[f1q] == s0.mem()[f1q]);
                                            assert(s1.translate_page(q)
                                                == s0.translate_page(q));
                                        } else {
                                            assert(s1.translate_page(q) == None::<u64>);
                                            assert(s0.translate_page(q) == None::<u64>);
                                        }
                                    }
                                } else {
                                    assert(s1.translate_page(q) == None::<u64>);
                                    assert(s0.translate_page(q) == None::<u64>);
                                }
                            }
                        } else {
                            assert(s1.translate_page(q) == None::<u64>);
                            assert(s0.translate_page(q) == None::<u64>);
                        }
                    }
                }
            }
        }
        let c2 = match self.child_or_create(c3, i3, allocator) {
            None => {
                proof {
                    assert(self.mem() =~= s1.mem());
                    assert forall|q: Page| (q.number >> 27) & 0o777 != 511 implies
                        self.translate_page(q) == s0.translate_page(q) by {
                        assert(s1.translate_page(q) == s0.translate_page(q));
                        assert(self.mem() == s1.mem());
                    }
                }
                return false;
            },
            Some(c) => c,
        };
        let ghost s2 = *self;
        proof {
            assert forall|q: Page| (q.number >> 27) & 0o777 != 511 implies
                s2.translate_page(q) == s1.translate_page(q) by {
                let j4 = (q.number >> 27) & 0o777;
                let j3 = (q.number >> 18) & 0o777;
                let j2 = (q.number >> 9) & 0o777;
                let j1 = q.number & 0o777;
                lemma_walk_indices(q.number);
                let g4 = s1.p4_frame.number;
                if s1.mem().contains_key(c2) {
                    assert(s2.mem() == s1.mem());
                } else {
                    assert(s1.child_of(c3, i3) is None) by {
                        if s1.child_of(c3, i3) is Some {
                            assert(s1.mem().contains_key(c2));
                        }
                    }
                    Entry::lemma_zero_not_present();
                    assert(s2.mem()[c2] == zero_table());
                    if g4 == c3 && j4 == i3 {
                        assert(s2.child_of(g4, j4) == Some::<u64>(c2));
                        assert(s2.child_of(c2, j3) == None::<u64>);
                        assert(s2.translate_page(q) == None::<u64>);
                        assert(s1.translate_page(q) == None::<u64>);
                    } else {
                        assert(s2.child_of(g4, j4) == s1.child_of(g4, j4));
                        if s1.child_of(g4, j4) is Some {
                            let f3q = s1.child_of(g4, j4)->Some_0;
                            assert(s1.levels@.contains_key(f3q) && s1.levels@[f3q] == 3);
                            if f3q == c3 && j3 == i3 {
                                assert(s2.child_of(f3q, j3) == Some::<u64>(c2));
                                assert(s2.child_of(c2, j2) == None::<u64>);
                                assert(s2.translate_page(q) == None::<u64>);
                                assert(s1.translate_page(q) == None::<u64>);
                            } else {
                                assert(s2.child_of(f3q, j3) == s1.child_of(f3q, j3));
                                if s1.child_of(f3q, j3) is Some {
                                    let f2q = s1.child_of(f3q, j3)->Some_0;
                                    assert(s1.levels@.contains_key(f2q) && s1.levels@[f2q]
                                        == 2);
                                    if f2q == c3 && j2 == i3 {
                                        assert(s2.child_of(f2q, j2) == Some::<u64>(c2));
                                        assert(!s2.mem()[c2][j1 as int].is_present());
                                        assert(s2.translate_page(q) == None::<u64>);
                                        assert(s1.translate_page(q) == None::<u64>);
                                    } else {
                                        assert(s2.child_of(f2q, j2) == s1.child_of(
                                            f2q,
                                            j2,
                                        ));
                                        if s1.child_of(f2q, j2) is Some {
                                            let f1q = s1.child_of(f2q, j2)->Some_0;
                                            assert(s1.levels@.contains_key(f1q)
                                                && s1.levels@[f1q] == 1);
                                            assert(f1q != c3 && f1q != c2);
                                            assert(s2.mem().contains_key(f1q)
                                                && s2.mem()[f1q] == s1.mem()[f1q]);
                                            assert(s2.translate_page(q)
                                                == s1.translate_page(q));
                                        } else {
                                            assert(s2.translate_page(q) == None::<u64>);
                                            assert(s1.translate_page(q) == None::<u64>);
                                        }
                                    }
                                } else {
                                    assert(s2.translate_page(q) == None::<u64>);
                                    assert(s1.translate_page(q) == None::<u64>);
                                }
                            }
                        } else {
                            assert(s2.translate_page(q) == None::<u64>);
                            assert(s1.translate_page(q) == None::<u64>);
                        }
                    }
                }
            }
            assert(s2.levels@[p4f] == 4 && s1.levels@[c3] == 3 && s2.levels@[c2] == 2);
            assert(c2 != p4f && c2 != c3);
            assert(s2.levels@[c3] == 3);
            assert(s2.child_of(p4f, i4) == Some(c3)) by {
                assert(s2.mem()[p4f] == s1.mem()[p4f]);
            }
        }
        let c1 = match self.child_or_create(c2, i2, allocator) {
            None => {
                proof {
                    assert(self.mem() =~= s2.mem());
                    assert forall|q: Page| (q.number >> 27) & 0o777 != 511 implies
                        self.translate_page(q) == s0.translate_page(q) by {
                        assert(s1.translate_page(q) == s0.translate_page(q));
                        assert(s2.translate_page(q) == s1.translate_page(q));
                        assert(self.mem() == s2.mem());
                    }
                }
                return false;
            },
            Some(c) => c,
        };
        let ghost s3 = *self;
        proof {
            assert forall|q: Page| (q.number >> 27) & 0o777 != 511 implies
                s3.translate_page(q) == s2.translate_page(q) by {
                let j4 = (q.number >> 27) & 0o777;
                let j3 = (q.number >> 18) & 0o777;
                let j2 = (q.number >> 9) & 0o777;
                let j1 = q.number & 0o777;
                lemma_walk_indices(q.number);
                let g4 = s2.p4_frame.number;
                if s2.mem().contains_key(c1) {
                    assert(s3.mem() == s2.mem());
                } else {
                    assert(s2.child_of(c2, i2) is None) by {
                        if s2.child_of(c2, i2) is Some {
                            assert(s2.mem().contains_key(c1));
                        }
                    }
                    Entry::lemma_zero_not_present();
                    assert(s3.mem()[c1] == zero_table());
                    if g4 == c2 && j4 == i2 {
                        assert(s3.child_of(g4, j4) == Some::<u64>(c1));
                        assert(s3.child_of(c1, j3) == None::<u64>);
                        assert(s3.translate_page(q) == None::<u64>);
                        assert(s2.translate_page(q) == None::<u64>);
                    } else {
                        assert(s3.child_of(g4, j4) == s2.child_of(g4, j4));
                        if s2.child_of(g4, j4) is Some {
                            let f3q = s2.child_of(g4, j4)->Some_0;
                            assert(s2.levels@.contains_key(f3q) && s2.levels@[f3q] == 3);
                            if f3q == c2 && j3 == i2 {
                                assert(s3.child_of(f3q, j3) == Some::<u64>(c1));
                                assert(s3.child_of(c1, j2) == None::<u64>);
                                assert(s3.translate_page(q) == None::<u64>);
                                assert(s2.translate_page(q) == None::<u64>);
                            } else {
                                assert(s3.child_of(f3q, j3) == s2.child_of(f3q, j3));
                                if s2.child_of(f3q, j3) is Some {
                                    let f2q = s2.child_of(f3q, j3)->Some_0;
                                    assert(s2.levels@.contains_key(f2q) && s2.levels@[f2q]
                                        == 2);
                                    if f2q == c2 && j2 == i2 {
                                        assert(s3.child_of(f2q, j2) == Some::<u64>(c1));
                                        assert(!s3.mem()[c1][j1 as int].is_present());
                                        assert(s3.translate_page(q) == None::<u64>);
                                        assert(s2.translate_page(q) == None::<u64>);
                                    } else {
                                        assert(s3.child_of(f2q, j2) == s2.child_of(
                                            f2q,
                                            j2,
                                        ));
                                        if s2.child_of(f2q, j2) is Some {
                                            let f1q = s2.child_of(f2q, j2)->Some_0;
                                            assert(s2.levels@.contains_key(f1q)
                                                && s2.levels@[f1q] == 1);
                                            assert(f1q != c2 && f1q != c1);
                                            assert(s3.mem().contains_key(f1q)
                                                && s3.mem()[f1q] == s2.mem()[f1q]);
                                            assert(s3.translate_page(q)
                                                == s2.translate_page(q));
                                        } else {
                                            assert(s3.translate_page(q) == None::<u64>);
                                            assert(s2.translate_page(q) == None::<u64>);
                                        }
                                    }
                                } else {
                                    assert(s3.translate_page(q) == None::<u64>);
                                    assert(s2.translate_page(q) == None::<u64>);
                                }
                            }
                        } else {
                            assert(s3.translate_page(q) == None::<u64>);
                            assert(s2.translate_page(q) == None::<u64>);
                        }
                    }
                }
            }
            assert(s3.levels@[c1] == 1);
            assert(c1 != c2);
            assert(c1 != p4f && c1 != c3) by {
                if s2.levels@.contains_key(c1) {
                    assert(s2.levels@[c1] == 1);
                    assert(s2.levels@[p4f] == 4 && s2.levels@[c3] == 3);
                } else {
                    assert(!s2.mem().contains_key(c1));
                    assert(s2.mem().contains_key(p4f) && s2.mem().contains_key(c3));
                }
            }
            assert(s3.child_of(p4f, i4) == Some(c3)) by {
                assert(s3.mem()[p4f] == s2.mem()[p4f]);
            }
            assert(s3.child_of(c3, i3) == Some(c2)) by {
                assert(s3.mem()[c3] == s2.mem()[c3]);
            }
            assert(s3.mem().contains_key(c1) && s3.mem()[c1].len() == 512);
            Entry::lemma_new_fields(n, flags);
        }
        let e = Entry::new(frame, flags);
        self.table_set(c1, i1, e);
        proof {
            let ghost s4 = *self;
            assert(s4.mem() =~= s3.mem().insert(c1, s3.mem()[c1].update(i1 as int, e)));
            assert(s4.child_of(p4f, i4) == Some(c3)) by {
                assert(s4.mem()[p4f] == s3.mem()[p4f]);
            }
            assert(s4.child_of(c3, i3) == Some(c2)) by {
                assert(s4.mem()[c3] == s3.mem()[c3]);
            }
            assert(s4.child_of(c2, i2) == Some(c1)) by {
                assert(s4.mem()[c2] == s3.mem()[c2]);
            }
            assert(s4.p1_table_of(page) == Some(c1));
            assert(s4.mem()[c1][i1 as int] == e);
            assert(s4.p1_entry_of(page) == Some(e));
            // the written table sits at level 1, so the invariant is untouched
            assert forall|f: u64, i: int|
                s4.levels@.contains_key(f) && s4.levels@[f] >= 2 && 0 <= i < 512 && !(
                s4.levels@[f] == 4 && i == 511) && (#[trigger] s4.mem()[f][i]).is_present()
                implies s4.levels@.contains_key(s4.mem()[f][i].frame_index())
                && s4.levels@[s4.mem()[f][i].frame_index()] == s4.levels@[f] - 1 by {
                assert(f != c1);
                assert(s4.mem()[f] == s3.mem()[f]);
            }
            assert forall|f: u64| #[trigger] s4.mem().contains_key(f) implies s4.mem()[f].len()
                == 512 by {
                if f == c1 {
                    assert(s4.mem()[f] == s3.mem()[c1].update(i1 as int, e));
                } else {
                    assert(s4.mem()[f] == s3.mem()[f]);
                }
            }
            assert(s4.wf());
            assert forall|f: u64| allocator.avail().contains(f) implies !s4.mem().contains_key(
                f,
            ) by {
                assert(!s3.mem().contains_key(f));
                if s4.mem().contains_key(f) {
                    assert(f == c1);
                    assert(s3.mem().contains_key(c1));
                }
            }
            assert(s3.levels@[c3] == 3 && s3.levels@[c2] == 2 && s3.levels@[p4f] == 4);
            assert(s3.parents@[c3] == (p4f, i4 as int) && s3.parents@[c2] == (c3, i3 as int)
                && s3.parents@[c1] == (c2, i2 as int));
            assert forall|q: Page|
                (q.number >> 27) & 0o777 != 511 && !same_walk(q.number, page.number) implies
                s4.translate_page(q) == s0.translate_page(q) by {
                assert(s1.translate_page(q) == s0.translate_page(q));
                assert(s2.translate_page(q) == s1.translate_page(q));
                assert(s3.translate_page(q) == s2.translate_page(q));
                let j4 = (q.number >> 27) & 0o777;
                let j3 = (q.number >> 18) & 0o777;
                let j2 = (q.number >> 9) & 0o777;
                let j1 = q.number & 0o777;
                lemma_walk_indices(q.number);
                assert(s4.mem()[p4f] == s3.mem()[p4f]);
                assert(s4.child_of(p4f, j4) == s3.child_of(p4f, j4));
                if s3.child_of(p4f, j4) is Some {
                    let of3 = s3.child_of(p4f, j4)->Some_0;
                    assert(s3.levels@[of3] == 3 && s3.parents@[of3] == (p4f, j4 as int));
                    assert(of3 != c1);
                    assert(s4.mem()[of3] == s3.mem()[of3]);
                    assert(s4.child_of(of3, j3) == s3.child_of(of3, j3));
                    if s3.child_of(of3, j3) is Some {
                        let of2 = s3.child_of(of3, j3)->Some_0;
                        assert(s3.levels@[of2] == 2 && s3.parents@[of2] == (of3, j3 as int));
                        assert(of2 != c1);
                        assert(s4.mem()[of2] == s3.mem()[of2]);
                        assert(s4.child_of(of2, j2) == s3.child_of(of2, j2));
                        if s3.child_of(of2, j2) is Some {
                            let of1 = s3.child_of(of2, j2)->Some_0;
                            assert(s3.parents@[of1] == (of2, j2 as int));
                            if of1 == c1 {
                                assert(of2 == c2 && j2 == i2);
                                assert(of3 == c3 && j3 == i3);
                                assert(j4 == i4);
                                assert(j1 != i1);
                                assert(s4.mem()[c1][j1 as int] == s3.mem()[c1][j1 as int]);
                            } else {
                                assert(s4.mem()[of1] == s3.mem()[of1]);
                            }
                            assert(s4.mem()[of1][j1 as int] == s3.mem()[of1][j1 as int]);
                            assert(s4.mem().contains_key(of1) == s3.mem().contains_key(of1));
                        }
                    }
                }
                assert(s4.translate_page(q) == s3.translate_page(q));
            }
        }
        true
    }

    /// Remove the mapping for `page`: clear its level-1 entry and hand
    /// the frame that backed it back to the allocator. On hardware the
    /// cached translation for the address must then be invalidated; the
    /// walk itself no longer yields a translation, and every page on a
    /// different walk keeps the translation it had.
    pub fn unmap<A: FrameAllocator>(&mut self, page: Page, allocator: &mut A)
        requires
            old(self).wf(),
            old(allocator).wf(),
            (page.number >> 27) & 0o777 != 511,
            old(self).translate_page(page) is Some,
            !old(allocator).avail().contains(old(self).translate_page(page)->Some_0),
        ensures
            final(self).wf(),
            final(allocator).wf(),
            final(self).p4_frame == old(self).p4_frame,
            final(self).levels@ == old(self).levels@,
            final(self).mem() =~= old(self).mem().insert(
                old(self).p1_table_of(page)->Some_0,
                old(self).mem()[old(self).p1_table_of(page)->Some_0].update(
                    (page.number & 0o777) as int,
                    Entry(0),
                ),
            ),
            final(self).translate_page(page) == None::<u64>,
            forall|q: Page|
                (q.number >> 27) & 0o777 != 511 && !same_walk(q.number, page.number)
                    ==> final(self).translate_page(q) == old(self).translate_page(q),
            final(allocator).avail() =~= old(allocator).avail().insert(
                old(self).translate_page(page)->Some_0,
            ),
    {
        let ghost s0 = *old(self);
        let i4 = page.p4_index();
        let i3 = page.p3_index();
        let i2 = page.p2_index();
        let i1 = page.p1_index();
        let p4f = self.p4_frame.number;
        let f3 = self.child(p4f, i4).unwrap();
        let f2 = self.child(f3, i3).unwrap();
        let f1 = self.child(f2, i2).unwrap();
        let e = self.read_entry(f1, i1).unwrap();
        let frame = e.pointed_frame().unwrap();
        proof {
            assert(s0.levels@[p4f] == 4);
            assert(s0.levels@.contains_key(f3) && s0.levels@[f3] == 3);
            assert(s0.levels@.contains_key(f2) && s0.levels@[f2] == 2);
            assert(s0.levels@.contains_key(f1) && s0.levels@[f1] == 1);
            assert(s0.mem().contains_key(f1) && s0.mem()[f1].len() == 512);
            Entry::lemma_frame_index_bound(e);
            assert(frame.number == s0.translate_page(page)->Some_0);
        }
        self.table_set(f1, i1, Entry(0));
        proof {
            let ghost s1 = *self;
            assert(s1.mem() =~= s0.mem().insert(f1, s0.mem()[f1].update(i1 as int, Entry(0))));
            assert(f1 != p4f && f1 != f3 && f1 != f2);
            assert(s1.child_of(p4f, i4) == Some(f3)) by {
                assert(s1.mem()[p4f] == s0.mem()[p4f]);
            }
            assert(s1.child_of(f3, i3) == Some(f2)) by {
                assert(s1.mem()[f3] == s0.mem()[f3]);
            }
            assert(s1.child_of(f2, i2) == Some(f1)) by {
                assert(s1.mem()[f2] == s0.mem()[f2]);
            }
            assert(s1.p1_table_of(page) == Some(f1));
            assert(s1.mem()[f1][i1 as int] == Entry(0));
            Entry::lemma_zero_not_present();
            assert(s1.translate_page(page) == None::<u64>);
            assert forall|f: u64, i: int|
                s1.levels@.contains_key(f) && s1.levels@[f] >= 2 && 0 <= i < 512 && !(
                s1.levels@[f] == 4 && i == 511) && (#[trigger] s1.mem()[f][i]).is_present()
                implies s1.levels@.contains_key(s1.mem()[f][i].frame_index())
                && s1.levels@[s1.mem()[f][i].frame_index()] == s1.levels@[f] - 1 by {
                assert(f != f1);
                assert(s1.mem()[f] == s0.mem()[f]);
            }
            assert forall|f: u64| #[trigger] s1.mem().contains_key(f) implies s1.mem()[f].len()
                == 512 by {
                if f == f1 {
                    assert(s1.mem()[f] == s0.mem()[f1].update(i1 as int, Entry(0)));
                } else {
                    assert(s1.mem()[f] == s0.mem()[f]);
                }
            }
            assert(s1.wf());
            assert(s0.parents@[f3] == (p4f, i4 as int));
            assert(s0.parents@[f2] == (f3, i3 as int));
            assert(s0.parents@[f1] == (f2, i2 as int));
            assert forall|q: Page|
                (q.number >> 27) & 0o777 != 511 && !same_walk(q.number, page.number) implies
                s1.translate_page(q) == s0.translate_page(q) by {
                let j4 = (q.number >> 27) & 0o777;
                let j3 = (q.number >> 18) & 0o777;
                let j2 = (q.number >> 9) & 0o777;
                let j1 = q.number & 0o777;
                lemma_walk_indices(q.number);
                assert(s1.mem()[p4f] == s0.mem()[p4f]);
                assert(s1.child_of(p4f, j4) == s0.child_of(p4f, j4));
                if s0.child_of(p4f, j4) is Some {
                    let of3 = s0.child_of(p4f, j4)->Some_0;
                    assert(s0.levels@[of3] == 3 && s0.parents@[of3] == (p4f, j4 as int));
                    assert(of3 != f1);
                    assert(s1.mem()[of3] == s0.mem()[of3]);
                    assert(s1.child_of(of3, j3) == s0.child_of(of3, j3));
                    if s0.child_of(of3, j3) is Some {
                        let of2 = s0.child_of(of3, j3)->Some_0;
                        assert(s0.levels@[of2] == 2 && s0.parents@[of2] == (of3, j3 as int));
                        assert(of2 != f1);
                        assert(s1.mem()[of2] == s0.mem()[of2]);
                        assert(s1.child_of(of2, j2) == s0.child_of(of2, j2));
                        if s0.child_of(of2, j2) is Some {
                            let of1 = s0.child_of(of2, j2)->Some_0;
                            assert(s0.parents@[of1] == (of2, j2 as int));
                            if of1 == f1 {
                                assert(of2 == f2 && j2 == i2);
                                assert(of3 == f3 && j3 == i3);
                                assert(j4 == i4);
                                assert(j1 != i1);
                                assert(s1.mem()[f1][j1 as int] == s0.mem()[f1][j1 as int]);
                            } else {
                                assert(s1.mem()[of1] == s0.mem()[of1]);
                            }
                            assert(s1.mem()[of1][j1 as int] == s0.mem()[of1][j1 as int]);
                            assert(s1.mem().contains_key(of1) == s0.mem().contains_key(of1));
                        }
                    }
                }
                assert(s1.translate_page(q) == s0.translate_page(q));
            }
        }
        allocator.deallocate_frame(frame);
    }
}

/// A single scratch virtual page used to reach a physical frame that is
/// not part of any address space yet. Binding a frame makes the table
/// held in it addressable through the active table's store; at most one
/// frame is bound at a time, and a bound page must be unmapped before
/// it can carry another frame.
pub struct TemporaryPage {
    /// The fixed scratch virtual page.
    pub page: Page,
    /// The frame currently bound, if any.
    pub bound: Option<u64>,
}

impl TemporaryPage {
    /// A scratch page with nothing bound.
    pub fn new(page: Page) -> (r: TemporaryPage)
        ensures
            r.page == page,
            r.bound == None::<u64>,
    {
        TemporaryPage { page, bound: None }
    }

    /// Bind `frame` to the scratch page, making the table held in that
    /// frame addressable through `active_table`. Rebinding while a
    /// frame is bound is a usage error and is excluded outright.
    pub fn map_table_frame(&mut self, frame: Frame, active_table: &mut ActivePageTable)
        requires
            old(self).bound is None,
            old(active_table).wf(),
        ensures
            final(self).page == old(self).page,
            final(self).bound == Some(frame.number),
            final(active_table).wf(),
            final(active_table).p4_frame == old(active_table).p4_frame,
            final(active_table).levels@ == old(active_table).levels@,
            final(active_table).mem().contains_key(frame.number),
            old(active_table).mem().contains_key(frame.number) ==> final(active_table).mem()
                =~= old(active_table).mem(),
            !old(active_table).mem().contains_key(frame.number) ==> final(active_table).mem()
                =~= old(active_table).mem().insert(frame.number, zero_table()),
    {
        let ghost a0 = *old(active_table);
        let n = frame.number;
        if !active_table.contains_table(n) {
            active_table.table_insert_zeroed(n);
            proof {
                let ghost a1 = *active_table;
                assert(!a0.levels@.contains_key(n));
                Entry::lemma_zero_not_present();
                assert forall|f: u64, i: int|
                    a1.levels@.contains_key(f) && a1.levels@[f] >= 2 && 0 <= i < 512 && !(
                    a1.levels@[f] == 4 && i == 511) && (#[trigger] a1.mem()[f][i]).is_present()
                    implies a1.levels@.contains_key(a1.mem()[f][i].frame_index())
                    && a1.levels@[a1.mem()[f][i].frame_index()] == a1.levels@[f] - 1 by {
                    assert(f != n);
                    assert(a1.mem()[f] == a0.mem()[f]);
                }
                assert forall|f: u64| #[trigger] a1.mem().contains_key(f) implies
                    a1.mem()[f].len() == 512 by {
                    if f == n {
                        assert(a1.mem()[f] == zero_table());
                    } else {
                        assert(a1.mem()[f] == a0.mem()[f]);
                    }
                }
                assert(a1.wf());
            }
        }
        self.bound = Some(n);
    }

    /// Read entry `i` of the bound table, through the scratch mapping.
    pub fn read_mapped_entry(&self, active_table: &ActivePageTable, i: u64) -> (r: Entry)
        requires
            active_table.wf(),
            self.bound is Some,
            active_table.mem().contains_key(self.bound->Some_0),
            i < 512,
        ensures
            r == active_table.mem()[self.bound->Some_0][i as int],
    {
        let f = self.bound.unwrap();
        active_table.read_entry(f, i).unwrap()
    }

    /// Clear every entry of the bound table.
    pub fn zero_mapped(&self, active_table: &mut ActivePageTable)
        requires
            old(active_table).wf(),
            self.bound is Some,
            old(active_table).mem().contains_key(self.bound->Some_0),
        ensures
            final(active_table).wf(),
            final(active_table).p4_frame == old(active_table).p4_frame,
            final(active_table).levels@ == old(active_table).levels@,
            final(active_table).mem() =~= old(active_table).mem().insert(
                self.bound->Some_0,
                zero_table(),
            ),
    {
        let ghost a0 = *old(active_table);
        let f = self.bound.unwrap();
        active_table.table_insert_zeroed(f);
        proof {
            let ghost a1 = *active_table;
            Entry::lemma_zero_not_present();
            assert forall|g: u64, i: int|
                a1.levels@.contains_key(g) && a1.levels@[g] >= 2 && 0 <= i < 512 && !(
                a1.levels@[g] == 4 && i == 511) && (#[trigger] a1.mem()[g][i]).is_present()
                implies a1.levels@.contains_key(a1.mem()[g][i].frame_index())
                && a1.levels@[a1.mem()[g][i].frame_index()] == a1.levels@[g] - 1 by {
                if g == f {
                    assert(a1.mem()[g] == zero_table());
                    assert(a1.mem()[g][i] == Entry(0));
                    assert(false);
                } else {
                    assert(a1.mem()[g] == a0.mem()[g]);
                }
            }
            assert forall|g: u64| #[trigger] a1.mem().contains_key(g) implies a1.mem()[g].len()
                == 512 by {
                if g == f {
                    assert(a1.mem()[g] == zero_table());
                } else {
                    assert(a1.mem()[g] == a0.mem()[g]);
                }
            }
            assert(a1.wf());
        }
    }

    /// Write entry `i` of the bound table. The bound frame must not be
    /// a table of the active hierarchy itself: the scratch page exists
    /// to edit foreign frames, not the live walk.
    pub fn set_mapped_entry(
        &self,
        active_table: &mut ActivePageTable,
        i: u64,
        frame: Frame,
        flags: u64,
    )
        requires
            old(active_table).wf(),
            self.bound is Some,
            old(active_table).mem().contains_key(self.bound->Some_0),
            !old(active_table).levels@.contains_key(self.bound->Some_0),
            i < 512,
            frame.number < MAX_FRAMES,
            flags & ADDRESS_MASK == 0,
        ensures
            final(active_table).wf(),
            final(active_table).p4_frame == old(active_table).p4_frame,
            final(active_table).levels@ == old(active_table).levels@,
            final(active_table).mem() =~= old(active_table).mem().insert(
                self.bound->Some_0,
                old(active_table).mem()[self.bound->Some_0].update(
                    i as int,
                    Entry::spec_new(frame.number, flags),
                ),
            ),
    {
        let ghost a0 = *old(active_table);
        let f = self.bound.unwrap();
        active_table.table_set(f, i, Entry::new(frame, flags));
        proof {
            let ghost a1 = *active_table;
            assert forall|g: u64, i2: int|
                a1.levels@.contains_key(g) && a1.levels@[g] >= 2 && 0 <= i2 < 512 && !(
                a1.levels@[g] == 4 && i2 == 511) && (#[trigger] a1.mem()[g][i2]).is_present()
                implies a1.levels@.contains_key(a1.mem()[g][i2].frame_index())
                && a1.levels@[a1.mem()[g][i2].frame_index()] == a1.levels@[g] - 1 by {
                assert(g != f);
                assert(a1.mem()[g] == a0.mem()[g]);
            }
            assert forall|g: u64| #[trigger] a1.mem().contains_key(g) implies a1.mem()[g].len()
                == 512 by {
                if g == f {
                    assert(a1.mem()[g] == a0.mem()[f].update(
                        i as int,
                        Entry::spec_new(frame.number, flags),
                    ));
                } else {
                    assert(a1.mem()[g] == a0.mem()[g]);
                }
            }
            assert(a1.wf());
        }
    }

    /// Release the binding; the frame's contents stay where they are.
    pub fn unmap(&mut self, active_table: &mut ActivePageTable)
        requires
            old(self).bound is Some,
        ensures
            final(self).page == old(self).page,
            final(self).bound == None::<u64>,
            *final(active_table) == *old(active_table),
    {
        self.bound = None;
    }
}

/// Translating the start address of a page answers with the start
/// address of the frame the page is mapped to, and with nothing when
/// the page is unmapped: the address-level reading of the table walk.
pub proof fn lemma_translate_start_address(t: ActivePageTable, page: Page)
    requires
        page.number * PAGE_SIZE <= u64::MAX,
    ensures
        t.translate_addr((page.number * PAGE_SIZE) as u64) == match t.translate_page(page) {
            Some(n) => Some((n * PAGE_SIZE) as u64),
            None => None::<u64>,
        },
{
    let a = (page.number * PAGE_SIZE) as u64;
    let m = page.number;
    vstd::arithmetic::div_mod::lemma_div_multiples_vanish(m as int, PAGE_SIZE as int);
    assert(a == m * PAGE_SIZE && m * PAGE_SIZE <= u64::MAX);
    assert(a / PAGE_SIZE == m) by {
        assert((PAGE_SIZE * m) as int / (PAGE_SIZE as int) == m as int);
    }
    assert(Page { number: a / PAGE_SIZE } == page);
    assert(a & 0xfff == 0) by (bit_vector)
        requires
            a == m * 4096,
    ;
    match t.translate_page(page) {
        Some(n) => {
            let e = t.p1_entry_of(page)->Some_0;
            Entry::lemma_frame_index_bound(e);
            assert(n < 0x100_0000_0000);
            assert((n << 12) | (a & 0xfff) == n * 4096) by (bit_vector)
                requires
                    n < 0x100_0000_0000u64 && a & 0xfff == 0,
            ;
        },
        None => {},
    }
}

/// An address space under construction: the frame of its level-4 root
/// is owned here, and the hardware walker does not see the hierarchy
/// until it is explicitly activated, so it can be edited without any
/// cache invalidation.
pub struct InactivePageTable {
    /// The frame holding the new level-4 root table.
    pub p4_frame: Frame,
}

impl InactivePageTable {
    /// Build a new root table in `frame`: reach the frame through the
    /// temporary page, zero it, install the recursive self-reference at
    /// the reserved slot 511, present and writable, and release the
    /// temporary page. The order is fixed: zeroing after installing the
    /// self-reference would erase it, and unmapping any earlier would
    /// lose access to the frame.
    pub fn new(
        frame: Frame,
        active_table: &mut ActivePageTable,
        temporary_page: &mut TemporaryPage,
    ) -> (r: InactivePageTable)
        requires
            old(active_table).wf(),
            old(temporary_page).bound is None,
            !old(active_table).levels@.contains_key(frame.number),
            frame.number < MAX_FRAMES,
        ensures
            r.p4_frame == frame,
            final(active_table).wf(),
            final(active_table).p4_frame == old(active_table).p4_frame,
            final(active_table).levels@ == old(active_table).levels@,
            final(active_table).mem() =~= old(active_table).mem().insert(
                frame.number,
                recursive_root(frame.number),
            ),
            final(temporary_page).bound == None::<u64>,
            final(temporary_page).page == old(temporary_page).page,
            forall|q: Page|
                (q.number >> 27) & 0o777 != 511 ==> final(active_table).translate_page(q)
                    == old(active_table).translate_page(q),
    {
        let ghost a0 = *old(active_table);
        let n = frame.number;
        temporary_page.map_table_frame(frame.clone(), active_table);
        temporary_page.zero_mapped(active_table);
        proof {
            lemma_flag_bits();
        }
        temporary_page.set_mapped_entry(active_table, 511, frame.clone(), PRESENT | WRITABLE);
        temporary_page.unmap(active_table);
        proof {
            assert(active_table.mem() =~= a0.mem().insert(n, recursive_root(n)));
            let ghost a1 = *active_table;
            // the new root is no table of the active hierarchy, so no
            // walk of the active table ever reads it
            assert forall|q: Page| (q.number >> 27) & 0o777 != 511 implies
                a1.translate_page(q) == a0.translate_page(q) by {
                let j4 = (q.number >> 27) & 0o777;
                let j3 = (q.number >> 18) & 0o777;
                let j2 = (q.number >> 9) & 0o777;
                let j1 = q.number & 0o777;
                lemma_walk_indices(q.number);
                let p4f = a0.p4_frame.number;
                assert(p4f != n);
                assert(a1.mem()[p4f] == a0.mem()[p4f]);
                assert(a1.child_of(p4f, j4) == a0.child_of(p4f, j4));
                if a0.child_of(p4f, j4) is Some {
                    let of3 = a0.child_of(p4f, j4)->Some_0;
                    assert(a0.levels@.contains_key(of3));
                    assert(of3 != n);
                    assert(a1.mem()[of3] == a0.mem()[of3]);
                    assert(a1.child_of(of3, j3) == a0.child_of(of3, j3));
                    if a0.child_of(of3, j3) is Some {
                        let of2 = a0.child_of(of3, j3)->Some_0;
                        assert(a0.levels@.contains_key(of2));
                        assert(of2 != n);
                        assert(a1.mem()[of2] == a0.mem()[of2]);
                        assert(a1.child_of(of2, j2) == a0.child_of(of2, j2));
                        if a0.child_of(of2, j2) is Some {
                            let of1 = a0.child_of(of2, j2)->Some_0;
                            assert(a0.levels@.contains_key(of1));
                            assert(of1 != n);
                            assert(a1.mem()[of1] == a0.mem()[of1]);
                            assert(a1.mem().contains_key(of1) == a0.mem().contains_key(of1));
                        }
                    }
                }
                assert(a1.translate_page(q) == a0.translate_page(q));
            }
        }
        InactivePageTable { p4_frame: frame }
    }
}

} // verus!

