//! The buffer regions of a process, each opened once and shared by its sessions.

use vstd::prelude::*;

use crate::buffer::list::BUFFER_LIST_HEADER_SIZE;
use crate::buffer::manager;
use crate::buffer::manager::{
    sort_pairs, BufferManager, ManagerError, BUFFER_MANAGER_HEADER_SIZE,
};
use crate::config::SizePercentPair;
use crate::consts::MemMapType;

verus! {

/// `new` holds the pairs of `old` in ascending order of size; pairs of one size stay in order.
pub open spec fn sorts(new: Seq<SizePercentPair>, old: Seq<SizePercentPair>) -> bool {
    &&& new.len() == old.len()
    &&& manager::sorted_by_size(new)
    &&& new.to_multiset() == old.to_multiset()
    &&& forall|size: u32|
        #![trigger manager::of_size(new, size)]
        manager::of_size(new, size) == manager::of_size(old, size)
}

/// The free lists can be set up in a region of `len` bytes: their number fits into its field, and
/// the region holds a header for each.
pub open spec fn can_set_up(pairs: Seq<SizePercentPair>, len: int) -> bool {
    &&& len <= u32::MAX
    &&& 0 < len ==> 1 <= pairs.len() <= u16::MAX && BufferManager::region_cap(
        len,
        0,
        pairs.len() as int,
    ) >= 0
}

/// Whether the free lists can be set up in a region of `len` bytes.
pub fn pairs_fit(pairs: &Vec<SizePercentPair>, len: usize) -> (r: bool)
    ensures
        r == can_set_up(pairs@, len as int),
{
    if len > u32::MAX as usize {
        return false;
    }
    if len == 0 {
        return true;
    }
    let n: usize = pairs.len();
    if n < 1 || n > u16::MAX as usize {
        return false;
    }
    let headers: u64 = BUFFER_MANAGER_HEADER_SIZE as u64 + n as u64 * BUFFER_LIST_HEADER_SIZE as u64;
    len as u64 >= headers
}

impl BufferManager {
    /// Sets up the region behind a file, or maps the one that the peer set up.
    pub fn get_with_file(
        shm_path: &str,
        mem: &mut [u8],
        create: bool,
        pairs: &mut Vec<SizePercentPair>,
    ) -> (r: Result<Self, ManagerError>)
        requires
            old(mem)@.len() <= u32::MAX,
            create ==> can_set_up(old(pairs)@, old(mem)@.len() as int),
        ensures
            final(mem)@.len() == old(mem)@.len(),
            create ==> sorts(final(pairs)@, old(pairs)@) && Self::created(
                r,
                final(pairs)@,
                shm_path@,
                0,
                old(mem)@,
                final(mem)@,
            ),
            !create ==> final(pairs)@ == old(pairs)@ && final(mem)@ == old(mem)@ && Self::mapped(
                r,
                shm_path@,
                0,
                old(mem)@,
            ),
            r matches Ok(b) ==> b.mem_map_type == MemMapType::MemMapTypeDevShmFile && b.memfd == 0,
    {
        if create {
            sort_pairs(pairs);
            Self::create(pairs.as_slice(), shm_path, mem, 0)
        } else {
            Self::mapping(shm_path, mem, 0)
        }
    }

    /// Sets up the region behind a memfd, or maps the one that the peer set up.
    pub fn get_with_memfd(
        buffer_path_name: &str,
        memfd: i32,
        mem: &mut [u8],
        create: bool,
        pairs: &mut Vec<SizePercentPair>,
    ) -> (r: Result<Self, ManagerError>)
        requires
            old(mem)@.len() <= u32::MAX,
            create ==> can_set_up(old(pairs)@, old(mem)@.len() as int),
        ensures
            final(mem)@.len() == old(mem)@.len(),
            create ==> sorts(final(pairs)@, old(pairs)@) && Self::created(
                r,
                final(pairs)@,
                buffer_path_name@,
                0,
                old(mem)@,
                final(mem)@,
            ),
            !create ==> final(pairs)@ == old(pairs)@ && final(mem)@ == old(mem)@ && Self::mapped(
                r,
                buffer_path_name@,
                0,
                old(mem)@,
            ),
            r matches Ok(b) ==> b.mem_map_type == MemMapType::MemMapTypeMemFd && b.memfd == memfd,
    {
        match Self::get_with_file(buffer_path_name, mem, create, pairs) {
            Ok(b) => {
                let c = BufferManager {
                    lists: b.lists,
                    min_slice_size: b.min_slice_size,
                    max_slice_size: b.max_slice_size,
                    ref_count: b.ref_count,
                    mem_map_type: MemMapType::MemMapTypeMemFd,
                    path: b.path,
                    memfd,
                };
                Ok(c)
            },
            Err(e) => Err(e),
        }
    }
}

/// How often a region that is to be unmapped is looked at for buffers that are still out.
pub const UNMAP_CHECK_COUNT: u32 = 50;

/// What to do with a region that is to be unmapped.
#[derive(Clone, Copy, Debug, PartialEq, Eq, Structural)]
pub enum UnmapStep {
    /// Wait a moment and look again.
    Wait,
    /// Unmap the region and remove the file at its path.
    RemoveFile,
    /// Unmap the region and close its descriptor.
    CloseFd { memfd: i32 },
}

impl BufferManager {
    /// Decides on a region that is to be unmapped and was looked at `checked` times: it waits for
    /// the buffers that are still out, but not for ever.
    pub fn unmap_step(&self, mem: &[u8], checked: u32) -> (r: UnmapStep)
        requires
            checked < UNMAP_CHECK_COUNT ==> self.wf(mem@),
        ensures
            r == if checked < UNMAP_CHECK_COUNT && !self.all_returned(mem@) {
                UnmapStep::Wait
            } else {
                match self.mem_map_type {
                    MemMapType::MemMapTypeDevShmFile => UnmapStep::RemoveFile,
                    MemMapType::MemMapTypeMemFd => UnmapStep::CloseFd { memfd: self.memfd },
                }
            },
    {
        if checked < UNMAP_CHECK_COUNT && !self.check_buffer_returned(mem) {
            return UnmapStep::Wait;
        }
        match self.mem_map_type {
            MemMapType::MemMapTypeDevShmFile => UnmapStep::RemoveFile,
            MemMapType::MemMapTypeMemFd => UnmapStep::CloseFd { memfd: self.memfd },
        }
    }
}

/// The regions that are open, each under its path.
pub struct BufferManagers {
    managers: Vec<BufferManager>,
}

impl View for BufferManagers {
    type V = Map<Seq<char>, BufferManager>;

    closed spec fn view(&self) -> Map<Seq<char>, BufferManager> {
        Map::new(
            |p: Seq<char>| self.holds_at(p, self.index_of(p)),
            |p: Seq<char>| self.managers@[self.index_of(p)],
        )
    }
}

impl BufferManagers {
    spec fn holds_at(&self, p: Seq<char>, i: int) -> bool {
        0 <= i < self.managers@.len() && self.managers@[i].path@ == p
    }

    spec fn index_of(&self, p: Seq<char>) -> int {
        choose|i: int| self.holds_at(p, i)
    }

    /// No two regions have the same path.
    pub closed spec fn wf(self) -> bool {
        forall|i: int, j: int|
            0 <= i < j < self.managers@.len() ==> (#[trigger] self.managers@[i]).path@ != (
            #[trigger] self.managers@[j]).path@
    }

    proof fn lemma_found(&self, p: Seq<char>, i: int)
        requires
            self.wf(),
            self.holds_at(p, i),
        ensures
            self.index_of(p) == i,
            self@.contains_key(p),
            self@[p] == self.managers@[i],
    {
        let j = self.index_of(p);
        assert(self.holds_at(p, j));
        if i < j {
            assert(self.managers@[i].path@ != self.managers@[j].path@);
        } else if j < i {
            assert(self.managers@[j].path@ != self.managers@[i].path@);
        }
    }

    /// No region is open.
    pub fn new() -> (r: Self)
        ensures
            r.wf(),
            r@ == Map::<Seq<char>, BufferManager>::empty(),
    {
        let r = BufferManagers { managers: Vec::new() };
        assert(r@ =~= Map::<Seq<char>, BufferManager>::empty());
        r
    }

    fn find(&self, path: &str) -> (r: Option<usize>)
        requires
            self.wf(),
        ensures
            match r {
                Some(i) => self.holds_at(path@, i as int),
                None => !self@.contains_key(path@),
            },
    {
        let wanted: String = path.to_owned();
        let mut i: usize = 0;
        while i < self.managers.len()
            invariant
                i <= self.managers@.len(),
                wanted@ == path@,
                forall|j: int| 0 <= j < i ==> !(#[trigger] self.holds_at(path@, j)),
            decreases self.managers@.len() - i,
        {
            if self.managers[i].path == wanted {
                return Some(i);
            }
            i = i + 1;
        }
        assert(!self.holds_at(path@, self.index_of(path@)));
        None
    }

    /// The region at a path, if it is open.
    pub fn get(&self, path: &str) -> (r: Option<&BufferManager>)
        requires
            self.wf(),
        ensures
            match r {
                Some(b) => self@.contains_key(path@) && *b == self@[path@],
                None => !self@.contains_key(path@),
            },
    {
        match self.find(path) {
            Some(i) => {
                proof {
                    self.lemma_found(path@, i as int);
                }
                Some(&self.managers[i])
            },
            None => None,
        }
    }

    /// Takes part in the region at a path, if it is open.
    pub fn acquire(&mut self, path: &str) -> (r: bool)
        requires
            old(self).wf(),
            old(self)@.contains_key(path@) ==> old(self)@[path@].ref_count < i32::MAX,
        ensures
            final(self).wf(),
            r == old(self)@.contains_key(path@),
            !r ==> final(self)@ == old(self)@,
            r ==> final(self)@ == old(self)@.insert(
                path@,
                BufferManager {
                    ref_count: (old(self)@[path@].ref_count + 1) as i32,
                    ..old(self)@[path@]
                },
            ),
    {
        match self.find(path) {
            Some(i) => {
                proof {
                    self.lemma_found(path@, i as int);
                }
                self.change(i, 1, path);
                true
            },
            None => false,
        }
    }

    fn change(&mut self, i: usize, c: i32, path: &str) -> (r: bool)
        requires
            old(self).wf(),
            old(self).holds_at(path@, i as int),
            i32::MIN <= old(self).managers@[i as int].ref_count + c <= i32::MAX,
        ensures
            final(self).wf(),
            final(self).holds_at(path@, i as int),
            final(self).managers@.len() == old(self).managers@.len(),
            r == (old(self)@[path@].ref_count + c <= 0),
            final(self)@ == old(self)@.insert(
                path@,
                BufferManager {
                    ref_count: (old(self)@[path@].ref_count + c) as i32,
                    ..old(self)@[path@]
                },
            ),
    {
        proof {
            self.lemma_found(path@, i as int);
        }
        let r: bool = self.managers[i].add_ref_count(c);
        proof {
            let n = old(self).managers@;
            let m = self.managers@;
            assert(m =~= n.update(i as int, m[i as int]));
            assert(self.wf()) by {
                assert forall|a: int, b: int| 0 <= a < b < m.len() implies (#[trigger] m[a]).path@
                    != (#[trigger] m[b]).path@ by {
                    assert(n[a].path@ != n[b].path@);
                }
            }
            assert forall|p: Seq<char>| #[trigger] self@.contains_key(p) == old(self)@.insert(
                path@,
                m[i as int],
            ).contains_key(p) by {
                if old(self)@.contains_key(p) {
                    let k = old(self).index_of(p);
                    assert(self.holds_at(p, k));
                    self.lemma_found(p, k);
                }
                if self@.contains_key(p) {
                    let k = self.index_of(p);
                    assert(old(self).holds_at(p, k));
                    old(self).lemma_found(p, k);
                }
            }
            assert forall|p: Seq<char>| #[trigger] self@.contains_key(p) implies self@[p] == old(
                self,
            )@.insert(path@, m[i as int])[p] by {
                let k = self.index_of(p);
                assert(self.holds_at(p, k));
                assert(old(self).holds_at(p, k));
                old(self).lemma_found(p, k);
                self.lemma_found(p, k);
            }
            assert(self@ =~= old(self)@.insert(path@, m[i as int]));
        }
        r
    }

    /// Opens a region under its path.
    pub fn insert(&mut self, b: BufferManager)
        requires
            old(self).wf(),
            !old(self)@.contains_key(b.path@),
        ensures
            final(self).wf(),
            final(self)@ == old(self)@.insert(b.path@, b),
    {
        let ghost path = b.path@;
        self.managers.push(b);
        proof {
            let n = old(self).managers@;
            let m = self.managers@;
            assert forall|k: int| 0 <= k < n.len() implies (#[trigger] n[k]).path@ != path by {
                if n[k].path@ == path {
                    old(self).lemma_found(path, k);
                }
            }
            assert(self.wf());
            assert(self.holds_at(path, n.len() as int));
            self.lemma_found(path, n.len() as int);
            assert forall|p: Seq<char>| #[trigger] self@.contains_key(p) == old(self)@.insert(
                path,
                b,
            ).contains_key(p) by {
                if old(self)@.contains_key(p) {
                    let k = old(self).index_of(p);
                    assert(self.holds_at(p, k));
                    self.lemma_found(p, k);
                }
                if self@.contains_key(p) && p != path {
                    let k = self.index_of(p);
                    assert(old(self).holds_at(p, k));
                    old(self).lemma_found(p, k);
                }
            }
            assert forall|p: Seq<char>| #[trigger] self@.contains_key(p) implies self@[p] == old(
                self,
            )@.insert(path, b)[p] by {
                if p != path {
                    let k = self.index_of(p);
                    assert(self.holds_at(p, k));
                    assert(old(self).holds_at(p, k));
                    old(self).lemma_found(p, k);
                    self.lemma_found(p, k);
                }
            }
            assert(self@ =~= old(self)@.insert(path, b));
        }
    }

    /// Adds to the number of users of the region at a path. When none is left, the region is
    /// closed and handed out to be unmapped.
    pub fn add_global_buffer_manager_ref_count(&mut self, path: &str, c: i32) -> (r: Option<
        BufferManager,
    >)
        requires
            old(self).wf(),
            old(self)@.contains_key(path@) ==> i32::MIN <= old(self)@[path@].ref_count + c
                <= i32::MAX,
        ensures
            final(self).wf(),
            ({
                let changed = BufferManager {
                    ref_count: (old(self)@[path@].ref_count + c) as i32,
                    ..old(self)@[path@]
                };
                if !old(self)@.contains_key(path@) {
                    r is None && final(self)@ == old(self)@
                } else if changed.ref_count <= 0 {
                    r == Some(changed) && final(self)@ == old(self)@.remove(path@)
                } else {
                    r is None && final(self)@ == old(self)@.insert(path@, changed)
                }
            }),
    {
        match self.find(path) {
            Some(i) => {
                proof {
                    self.lemma_found(path@, i as int);
                }
                if self.change(i, c, path) {
                    let ghost mid = *self;
                    proof {
                        self.lemma_found(path@, i as int);
                    }
                    let b = self.managers.remove(i);
                    proof {
                        Self::lemma_removed(mid, *self, path@, i as int);
                        assert(self@ =~= old(self)@.remove(path@));
                    }
                    Some(b)
                } else {
                    None
                }
            },
            None => None,
        }
    }

    proof fn lemma_removed(old: Self, new: Self, path: Seq<char>, i: int)
        requires
            old.wf(),
            old.holds_at(path, i),
            new.managers@ == old.managers@.remove(i),
        ensures
            new.wf(),
            new@ == old@.remove(path),
    {
        let n = old.managers@;
        let m = new.managers@;
        assert forall|a: int, b: int| 0 <= a < b < m.len() implies (#[trigger] m[a]).path@ != (
        #[trigger] m[b]).path@ by {
            let a0 = if a < i {
                a
            } else {
                a + 1
            };
            let b0 = if b < i {
                b
            } else {
                b + 1
            };
            assert(n[a0].path@ != n[b0].path@);
        }
        old.lemma_found(path, i);
        assert forall|p: Seq<char>| #[trigger] new@.contains_key(p) == old@.remove(path).contains_key(
            p,
        ) by {
            if old@.contains_key(p) && p != path {
                let k = old.index_of(p);
                let k0 = if k < i {
                    k
                } else {
                    k - 1
                };
                assert(new.holds_at(p, k0));
                new.lemma_found(p, k0);
            }
            if new@.contains_key(p) {
                let k = new.index_of(p);
                let k0 = if k < i {
                    k
                } else {
                    k + 1
                };
                assert(old.holds_at(p, k0));
                old.lemma_found(p, k0);
            }
        }
        assert forall|p: Seq<char>| #[trigger] new@.contains_key(p) implies new@[p] == old@.remove(
            path,
        )[p] by {
            let k = new.index_of(p);
            let k0 = if k < i {
                k
            } else {
                k + 1
            };
            assert(old.holds_at(p, k0));
            old.lemma_found(p, k0);
            new.lemma_found(p, k);
        }
        assert(new@ =~= old@.remove(path));
    }
}

/// A region that was opened under its path is found there and nowhere else, and stays open until as
/// many left as took part: the last who leaves gets it to unmap it, and then it is not found any
/// more. No other region takes notice.
pub proof fn law_last_user_closes_the_region(
    a: &mut BufferManagers,
    x: BufferManager,
    b: &mut BufferManagers,
    path: &str,
    joined: bool,
    c: &mut BufferManagers,
    first: Option<BufferManager>,
    d: &mut BufferManagers,
    last: Option<BufferManager>,
    other: Seq<char>,
)
    requires
        call_ensures(BufferManagers::insert, (a, x), ()),
        path@ == x.path@,
        x.ref_count == 1,
        *old(b) == *final(a),
        call_ensures(BufferManagers::acquire, (b, path), joined),
        *old(c) == *final(b),
        call_ensures(
            BufferManagers::add_global_buffer_manager_ref_count,
            (c, path, (-1) as i32),
            first,
        ),
        *old(d) == *final(c),
        call_ensures(
            BufferManagers::add_global_buffer_manager_ref_count,
            (d, path, (-1) as i32),
            last,
        ),
    ensures
        joined,
        first is None,
        last is Some,
        last->0 == (BufferManager { ref_count: 0, ..x }),
        final(b)@.contains_key(path@),
        final(b)@[path@].ref_count == 2,
        final(c)@.contains_key(path@),
        !final(d)@.contains_key(path@),
        other != path@ ==> final(d)@.contains_key(other) == old(a)@.contains_key(other),
        other != path@ && old(a)@.contains_key(other) ==> final(d)@[other] == old(a)@[other],
{
}

/// Nobody takes part in a region that is not open, and to leave it does nothing.
pub proof fn law_closed_region_is_not_shared(
    a: &mut BufferManagers,
    path: &str,
    joined: bool,
    b: &mut BufferManagers,
    c: i32,
    left: Option<BufferManager>,
    s: BufferManagers,
    found: Option<&BufferManager>,
)
    requires
        !old(a)@.contains_key(path@),
        call_ensures(BufferManagers::acquire, (a, path), joined),
        !old(b)@.contains_key(path@),
        call_ensures(BufferManagers::add_global_buffer_manager_ref_count, (b, path, c), left),
        call_ensures(BufferManagers::get, (&s, path), found),
    ensures
        !joined && final(a)@ == old(a)@,
        left is None && final(b)@ == old(b)@,
        found is Some <==> s@.contains_key(path@),
        found is Some ==> *found->0 == s@[path@],
{
}

/// A region waits for its buffers before it is unmapped, but not for ever: once all are back, or
/// after the last look, it goes the way it came.
pub proof fn law_region_waits_for_its_buffers(
    b: BufferManager,
    mem: &[u8],
    checked: u32,
    r: UnmapStep,
)
    requires
        call_ensures(BufferManager::unmap_step, (&b, mem, checked), r),
    ensures
        (forall|i: int|
            0 <= i < b.lists@.len() ==> (#[trigger] b.lists@[i]).free(mem@).len()
                == b.lists@[i].cap && b.lists@[i].counter(mem@) == 0) ==> !(r is Wait),
        checked >= 50 ==> !(r is Wait),
        checked < 50 && (exists|i: int|
            0 <= i < b.lists@.len() && (#[trigger] b.lists@[i]).free(mem@).len()
                != b.lists@[i].cap) ==> r is Wait,
        !(r is Wait) ==> (r is RemoveFile <==> b.mem_map_type is MemMapTypeDevShmFile),
        r is CloseFd ==> r->memfd == b.memfd,
{
}

/// Who may set a region up sorts its free lists and writes them there; who may not maps what is
/// there and leaves it as it is.
pub proof fn law_region_is_set_up_or_mapped(
    path: &str,
    memfd: i32,
    m: &mut [u8],
    create: bool,
    pairs: &mut Vec<SizePercentPair>,
    r: Result<BufferManager, ManagerError>,
)
    requires
        call_ensures(BufferManager::get_with_memfd, (path, memfd, m, create, pairs), r),
    ensures
        !create ==> final(m)@ == old(m)@ && final(pairs)@ == old(pairs)@,
        create ==> final(pairs)@.to_multiset() == old(pairs)@.to_multiset(),
        create ==> forall|i: int, j: int|
            0 <= i < j < final(pairs)@.len() ==> (#[trigger] final(pairs)@[i]).size <= (
            #[trigger] final(pairs)@[j]).size,
        r is Ok ==> r->Ok_0.memfd == memfd && r->Ok_0.mem_map_type is MemMapTypeMemFd,
{
}

/// At the start no region is open.
pub proof fn law_no_region_is_open_at_the_start(
    s: BufferManagers,
    path: &str,
    found: Option<&BufferManager>,
)
    requires
        call_ensures(BufferManagers::new, (), s),
        call_ensures(BufferManagers::get, (&s, path), found),
    ensures
        found is None,
{
}

} // verus!
