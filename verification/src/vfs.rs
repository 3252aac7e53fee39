//! Inodes as the directory operations see them: where an inode sits on
//! disk, its type and, for a directory, its entries (name, inode number).
//! Lookups, `create`, `ls`, hard links and unlinking work on the entries and
//! on the link counts of the inodes; reading and writing disk blocks is the
//! caller's work.
use vstd::prelude::*;

verus! {

/// One directory entry: a file name and the inode it names.
#[derive(Clone, Debug)]
pub struct DirEntry {
    pub name: Vec<u8>,
    pub inode_id: u32,
}

/// File type recorded in an inode.
#[derive(PartialEq, Eq, Structural, Clone, Copy, Debug)]
pub enum DiskInodeType {
    File,
    Directory,
}

/// `st_mode` bits of a directory.
pub const MODE_DIR: u32 = 0o040000;

/// `st_mode` bits of a regular file.
pub const MODE_FILE: u32 = 0o100000;

/// An inode: the disk block holding it, its byte offset in that block, its
/// type, and (for a directory) its entries in the order they were written.
pub struct Inode {
    pub block_id: usize,
    pub block_offset: usize,
    pub type_: DiskInodeType,
    pub entries: Vec<DirEntry>,
}

/// The entries as (name, inode) pairs.
pub open spec fn entries_view(entries: Seq<DirEntry>) -> Seq<(Seq<u8>, u32)> {
    Seq::new(entries.len(), |i: int| (entries[i].name@, entries[i].inode_id))
}

/// Index of the first entry named `name`, if any.
pub open spec fn first_index(d: Seq<(Seq<u8>, u32)>, name: Seq<u8>) -> Option<int> {
    if exists|i: int| 0 <= i < d.len() && (#[trigger] d[i]).0 == name {
        Some(choose|i: int| 0 <= i < d.len() && d[i].0 == name && forall|k: int| 0 <= k < i ==> (#[trigger] d[k]).0 != name)
    } else {
        None
    }
}

/// Index of the last entry named `name`, if any.
pub open spec fn last_index(d: Seq<(Seq<u8>, u32)>, name: Seq<u8>) -> Option<int> {
    if exists|i: int| 0 <= i < d.len() && (#[trigger] d[i]).0 == name {
        Some(choose|i: int| 0 <= i < d.len() && d[i].0 == name && forall|k: int| i < k < d.len() ==> (#[trigger] d[k]).0 != name)
    } else {
        None
    }
}

/// Whether two byte strings are equal.
fn bytes_eq(a: &Vec<u8>, b: &Vec<u8>) -> (r: bool)
    ensures
        r == (a@ == b@),
{
    if a.len() != b.len() {
        return false;
    }
    let mut i: usize = 0;
    while i < a.len()
        invariant
            i <= a@.len(),
            a@.len() == b@.len(),
            forall|k: int| 0 <= k < i ==> a@[k] == b@[k],
        decreases a@.len() - i,
    {
        if a[i] != b[i] {
            return false;
        }
        i += 1;
    }
    assert(a@ =~= b@);
    true
}

/// Copies a byte string.
fn copy_bytes(a: &Vec<u8>) -> (r: Vec<u8>)
    ensures
        r@ == a@,
{
    let mut r: Vec<u8> = Vec::new();
    let mut i: usize = 0;
    while i < a.len()
        invariant
            i <= a@.len(),
            r@ == a@.take(i as int),
        decreases a@.len() - i,
    {
        r.push(a[i]);
        i += 1;
        assert(r@ =~= a@.take(i as int));
    }
    assert(a@.take(a@.len() as int) =~= a@);
    r
}

impl View for Inode {
    type V = Seq<(Seq<u8>, u32)>;

    /// The entries as (name, inode) pairs, in order.
    open spec fn view(&self) -> Seq<(Seq<u8>, u32)> {
        entries_view(self.entries@)
    }
}

impl Inode {
    /// The inode at `block_offset` of block `block_id`, of type `type_`,
    /// with no entries.
    pub fn new(block_id: u32, block_offset: usize, type_: DiskInodeType) -> (d: Self)
        ensures
            d.block_id == block_id,
            d.block_offset == block_offset,
            d.type_ == type_,
            d@ == Seq::<(Seq<u8>, u32)>::empty(),
    {
        let d = Inode { block_id: block_id as usize, block_offset, type_, entries: Vec::new() };
        assert(d@ =~= Seq::<(Seq<u8>, u32)>::empty());
        d
    }

    /// The inode of the first entry named `name`, if any.
    pub fn find_inode_id(&self, name: &Vec<u8>) -> (r: Option<u32>)
        ensures
            r == (match first_index(self@, name@) {
                Some(i) => Some(self@[i].1),
                None => None,
            }),
    {
        let mut i: usize = 0;
        while i < self.entries.len()
            invariant
                i <= self.entries@.len(),
                forall|k: int| 0 <= k < i ==> (#[trigger] self@[k]).0 != name@,
            decreases self.entries@.len() - i,
        {
            if bytes_eq(&self.entries[i].name, name) {
                assert(self@[i as int].0 == name@);
                let ghost fi = first_index(self@, name@);
                proof {
                    let j = fi.unwrap();
                    if j < i {
                    } else if j > i {
                        assert(self@[i as int].0 == name@);
                    }
                }
                return Some(self.entries[i].inode_id);
            }
            i += 1;
        }
        None
    }

    /// The entry names, in order.
    pub fn ls(&self) -> (names: Vec<Vec<u8>>)
        ensures
            names@.len() == self@.len(),
            forall|i: int| 0 <= i < names@.len() ==> (#[trigger] names@[i])@ == self@[i].0,
    {
        let mut names: Vec<Vec<u8>> = Vec::new();
        let mut i: usize = 0;
        while i < self.entries.len()
            invariant
                i <= self.entries@.len(),
                names@.len() == i,
                forall|k: int| 0 <= k < i ==> (#[trigger] names@[k])@ == self@[k].0,
            decreases self.entries@.len() - i,
        {
            names.push(copy_bytes(&self.entries[i].name));
            i += 1;
        }
        names
    }

    /// Appends an entry.
    fn push_entry(&mut self, name: &Vec<u8>, inode_id: u32)
        ensures
            final(self).block_id == old(self).block_id,
            final(self).block_offset == old(self).block_offset,
            final(self).type_ == old(self).type_,
            final(self)@ == old(self)@.push((name@, inode_id)),
    {
        let e = DirEntry { name: copy_bytes(name), inode_id };
        self.entries.push(e);
        assert(self@ =~= old(self)@.push((name@, inode_id)));
    }

    /// Creates a file named `name` unless an entry of that name exists.
    /// `free_inode_id` is the inode the inode bitmap hands out next. When the
    /// name is free, an entry for that inode is appended and the new inode is
    /// returned: an empty regular file stored where that inode number lives;
    /// the caller then takes that inode from the bitmap and writes it out.
    /// When the name is taken, nothing changes, `None` is returned and no
    /// inode is taken.
    pub fn create(
        &mut self,
        name: &Vec<u8>,
        free_inode_id: u32,
        inode_area_start_block: u32,
        inode_size: usize,
    ) -> (r: Option<Inode>)
        requires
            0 < inode_size <= BLOCK_SZ,
            first_index(old(self)@, name@) is None ==> inode_area_start_block as int + free_inode_id as int
                / (BLOCK_SZ as int / inode_size as int) <= u32::MAX,
        ensures
            final(self).block_id == old(self).block_id,
            final(self).block_offset == old(self).block_offset,
            final(self).type_ == old(self).type_,
            first_index(old(self)@, name@) is Some ==> r is None && final(self)@ == old(self)@,
            first_index(old(self)@, name@) is None ==> r is Some && {
                let i = r->0;
                let pos = disk_inode_pos(inode_area_start_block as int, free_inode_id as int, inode_size as int);
                &&& final(self)@ == old(self)@.push((name@, free_inode_id))
                &&& i.type_ == DiskInodeType::File
                &&& i@ == Seq::<(Seq<u8>, u32)>::empty()
                &&& i.block_id as int == pos.0
                &&& i.block_offset as int == pos.1
            },
    {
        if self.find_inode_id(name).is_some() {
            return None;
        }
        self.push_entry(name, free_inode_id);
        let (block_id, block_offset) = disk_inode_position(inode_area_start_block, free_inode_id, inode_size);
        Some(Inode::new(block_id, block_offset, DiskInodeType::File))
    }

    /// Where the inode of the first entry named `name` is stored (block and
    /// byte offset), if there is such an entry.
    pub fn find(&self, name: &Vec<u8>, inode_area_start_block: u32, inode_size: usize) -> (r: Option<(u32, usize)>)
        requires
            0 < inode_size <= BLOCK_SZ,
            first_index(self@, name@) matches Some(i) ==> inode_area_start_block as int + self@[i].1 as int
                / (BLOCK_SZ as int / inode_size as int) <= u32::MAX,
        ensures
            first_index(self@, name@) is None ==> r is None,
            first_index(self@, name@) matches Some(i) ==> r is Some && {
                let pos = r->0;
                let p = disk_inode_pos(inode_area_start_block as int, self@[i].1 as int, inode_size as int);
                pos.0 as int == p.0 && pos.1 as int == p.1
            },
    {
        match self.find_inode_id(name) {
            None => None,
            Some(id) => Some(disk_inode_position(inode_area_start_block, id, inode_size)),
        }
    }

    /// The number of links to this inode, read from `nlinks` (indexed by
    /// inode), for an inode area starting at block `inode_area_start_block`
    /// and disk inodes of `inode_size` bytes.
    pub fn get_nlink(&self, inode_area_start_block: u32, inode_size: usize, nlinks: &Vec<u32>) -> (n: u32)
        requires
            0 < inode_size <= BLOCK_SZ,
            inode_area_start_block <= self.block_id,
            (self.block_id - inode_area_start_block) * (BLOCK_SZ / inode_size) + self.block_offset
                / inode_size < nlinks@.len(),
        ensures
            n == nlinks@[(self.block_id - inode_area_start_block) * (BLOCK_SZ as int / inode_size as int)
                + self.block_offset / inode_size],
    {
        let _len = nlinks.len();
        assert(usize::MAX == 0xffff_ffff || usize::MAX == 0xffff_ffff_ffff_ffff);
        let id = self.get_inode_id(inode_area_start_block, inode_size);
        nlinks[id as usize]
    }

    /// Hard link: appends an entry `new_name` for the inode of the first
    /// entry named `old_name` and counts one more link to that inode in
    /// `nlinks` (indexed by inode). `Err` when there is no `old_name`.
    pub fn add_dir_entry(&mut self, old_name: &Vec<u8>, new_name: &Vec<u8>, nlinks: &mut Vec<u32>) -> (r: Result<(), ()>)
        requires
            first_index(old(self)@, old_name@) matches Some(i) ==> {
                &&& (old(self)@[i].1 as int) < old(nlinks)@.len()
                &&& old(nlinks)@[old(self)@[i].1 as int] < u32::MAX
            },
        ensures
            final(self).block_id == old(self).block_id,
            final(self).block_offset == old(self).block_offset,
            final(self).type_ == old(self).type_,
            first_index(old(self)@, old_name@) is None ==> r is Err && final(self)@ == old(self)@
                && final(nlinks)@ == old(nlinks)@,
            first_index(old(self)@, old_name@) matches Some(i) ==> {
                let id = old(self)@[i].1;
                &&& r is Ok
                &&& final(self)@ == old(self)@.push((new_name@, id))
                &&& final(nlinks)@ == old(nlinks)@.update(id as int, (old(nlinks)@[id as int] + 1) as u32)
            },
    {
        match self.find_inode_id(old_name) {
            None => Err(()),
            Some(id) => {
                self.push_entry(new_name, id);
                let n = nlinks[id as usize] + 1;
                nlinks.set(id as usize, n);
                Ok(())
            },
        }
    }

    /// Unlink: removes the last entry named `name` and counts one link less
    /// to its inode in `nlinks`. `Ok(Some(inode))` when that was the last
    /// link (the caller frees the inode and its data), `Ok(None)` otherwise,
    /// `Err` when there is no such entry.
    pub fn remove_dir_entry(&mut self, name: &Vec<u8>, nlinks: &mut Vec<u32>) -> (r: Result<Option<u32>, ()>)
        requires
            last_index(old(self)@, name@) matches Some(i) ==> {
                &&& (old(self)@[i].1 as int) < old(nlinks)@.len()
                &&& old(nlinks)@[old(self)@[i].1 as int] > 0
            },
        ensures
            final(self).block_id == old(self).block_id,
            final(self).block_offset == old(self).block_offset,
            final(self).type_ == old(self).type_,
            last_index(old(self)@, name@) is None ==> r is Err && final(self)@ == old(self)@
                && final(nlinks)@ == old(nlinks)@,
            last_index(old(self)@, name@) matches Some(i) ==> {
                let id = old(self)@[i].1;
                let left = old(nlinks)@[id as int] - 1;
                &&& final(self)@ == old(self)@.remove(i)
                &&& final(nlinks)@ == old(nlinks)@.update(id as int, left as u32)
                &&& r == Ok::<Option<u32>, ()>(if left == 0 { Some(id) } else { None })
            },
    {
        let mut target: Option<usize> = None;
        let mut i: usize = 0;
        while i < self.entries.len()
            invariant
                i <= self.entries@.len(),
                self@ == old(self)@,
                match target {
                    Some(t) => t < i && self@[t as int].0 == name@ && forall|k: int| t < k < i ==> (#[trigger] self@[k]).0 != name@,
                    None => forall|k: int| 0 <= k < i ==> (#[trigger] self@[k]).0 != name@,
                },
            decreases self.entries@.len() - i,
        {
            if bytes_eq(&self.entries[i].name, name) {
                assert(self@[i as int].0 == name@);
                target = Some(i);
            }
            i += 1;
        }
        match target {
            None => Err(()),
            Some(t) => {
                proof {
                    let j = last_index(old(self)@, name@).unwrap();
                    if j < t {
                        assert(self@[t as int].0 == name@);
                    } else if j > t {
                        assert(self@[j].0 == name@);
                    }
                }
                let id = self.entries[t].inode_id;
                let left = nlinks[id as usize] - 1;
                nlinks.set(id as usize, left);
                self.entries.remove(t);
                assert(self@ =~= old(self)@.remove(t as int));
                if left == 0 {
                    Ok(Some(id))
                } else {
                    Ok(None)
                }
            },
        }
    }

    /// The `st_mode` bits of this inode's type.
    pub fn get_mode(&self) -> (mode: u32)
        ensures
            mode == (if self.type_ == DiskInodeType::Directory { MODE_DIR } else { MODE_FILE }),
    {
        match self.type_ {
            DiskInodeType::Directory => MODE_DIR,
            DiskInodeType::File => MODE_FILE,
        }
    }

    /// This inode's number, for an inode area starting at block
    /// `inode_area_start_block` and disk inodes of `inode_size` bytes.
    pub fn get_inode_id(&self, inode_area_start_block: u32, inode_size: usize) -> (id: u64)
        requires
            0 < inode_size <= BLOCK_SZ,
            inode_area_start_block <= self.block_id,
            (self.block_id - inode_area_start_block) * (BLOCK_SZ / inode_size) + self.block_offset
                / inode_size <= u64::MAX,
        ensures
            id == (self.block_id - inode_area_start_block) * (BLOCK_SZ as int / inode_size as int)
                + self.block_offset / inode_size,
    {
        let inodes_per_block = BLOCK_SZ / inode_size;
        let blocks = (self.block_id - inode_area_start_block as usize) as u64;
        let offset = self.block_offset;
        assert(blocks * inodes_per_block <= u64::MAX) by (nonlinear_arith)
            requires
                blocks * inodes_per_block + offset / inode_size <= u64::MAX,
                offset / inode_size >= 0,
        ;
        blocks * (inodes_per_block as u64) + (offset / inode_size) as u64
    }
}

/// Bytes in a disk block.
pub const BLOCK_SZ: usize = 512;

/// Where inode `id` is stored: its block (counted from the first block of
/// the inode area at `start`) and its byte offset in that block, for disk
/// inodes of `inode_size` bytes.
pub open spec fn disk_inode_pos(start: int, id: int, inode_size: int) -> (int, int) {
    let per_block = BLOCK_SZ as int / inode_size;
    (start + id / per_block, (id % per_block) * inode_size)
}

/// Where inode `id` is stored: its block and its byte offset in the block.
fn disk_inode_position(inode_area_start_block: u32, id: u32, inode_size: usize) -> (pos: (u32, usize))
    requires
        0 < inode_size <= BLOCK_SZ,
        inode_area_start_block as int + id as int / (BLOCK_SZ as int / inode_size as int) <= u32::MAX,
    ensures
        pos.0 as int == disk_inode_pos(inode_area_start_block as int, id as int, inode_size as int).0,
        pos.1 as int == disk_inode_pos(inode_area_start_block as int, id as int, inode_size as int).1,
{
    let per_block = BLOCK_SZ / inode_size;
    assert(per_block >= 1) by (nonlinear_arith)
        requires
            0 < inode_size <= 512,
            per_block == 512usize / inode_size,
    ;
    let idx = (id as usize) % per_block;
    assert(idx * inode_size < 512) by (nonlinear_arith)
        requires
            idx < per_block,
            per_block == 512usize / inode_size,
            0 < inode_size <= 512,
    ;
    let per32 = per_block as u32;
    (inode_area_start_block + id / per32, idx * inode_size)
}

/// The last entry named `name` is at `c` when that entry has the name and no
/// later one does.
proof fn lemma_last_index_is(d: Seq<(Seq<u8>, u32)>, name: Seq<u8>, c: int)
    requires
        0 <= c < d.len(),
        d[c].0 == name,
        forall|q: int| c < q < d.len() ==> (#[trigger] d[q]).0 != name,
    ensures
        last_index(d, name) == Some(c),
{
    assert(exists|i: int| 0 <= i < d.len() && (#[trigger] d[i]).0 == name) by {
        assert(d[c].0 == name);
    }
    let x = choose|i: int| 0 <= i < d.len() && d[i].0 == name && forall|k: int| i < k < d.len() ==> (#[trigger] d[k]).0 != name;
    assert(0 <= x < d.len() && d[x].0 == name && forall|k: int| x < k < d.len() ==> (#[trigger] d[k]).0 != name);
    if x < c {
        assert(d[c].0 != name);
    } else if x > c {
        assert(d[x].0 != name);
    }
}

/// One link counted and then uncounted leaves the counts as they were.
proof fn lemma_count_up_then_down(nlinks: Seq<u32>, id: int)
    requires
        0 <= id < nlinks.len(),
        1 <= nlinks[id] < u32::MAX,
    ensures
        ({
            let n1 = nlinks.update(id, (nlinks[id] + 1) as u32);
            &&& n1.update(id, (n1[id] - 1) as u32) == nlinks
            &&& n1[id] - 1 != 0
        }),
{
    let n1 = nlinks.update(id, (nlinks[id] + 1) as u32);
    assert(n1[id] == nlinks[id] + 1);
    assert(n1.update(id, (n1[id] - 1) as u32) =~= nlinks);
}

/// A hard link followed by unlinking the new name gives back the directory
/// and the link counts; the inode is not freed since it keeps its old link.
/// (`i` is where `add_dir_entry` finds `old_name`; the link appends
/// `(new_name, id)` and counts one more link to `id`.)
pub proof fn lemma_link_then_unlink_restores(
    d: Seq<(Seq<u8>, u32)>,
    nlinks: Seq<u32>,
    old_name: Seq<u8>,
    new_name: Seq<u8>,
    i: int,
)
    requires
        0 <= i < d.len(),
        (d[i].1 as int) < nlinks.len(),
        1 <= nlinks[d[i].1 as int] < u32::MAX,
    ensures
        last_index(d.push((new_name, d[i].1)), new_name) == Some(d.len() as int),
        d.push((new_name, d[i].1)).remove(d.len() as int) == d,
        ({
            let n1 = nlinks.update(d[i].1 as int, (nlinks[d[i].1 as int] + 1) as u32);
            &&& n1.update(d[i].1 as int, (n1[d[i].1 as int] - 1) as u32) == nlinks
            &&& n1[d[i].1 as int] - 1 != 0
        }),
{
    let id = d[i].1;
    let d1 = d.push((new_name, id));
    let k = d.len() as int;
    lemma_last_index_is(d1, new_name, k);
    assert(d1.remove(k) =~= d);
    lemma_count_up_then_down(nlinks, id as int);
}

/// `get_inode_id` gives back the number of the inode stored at a position.
pub proof fn lemma_inode_id_of_position(start: int, id: int, inode_size: int)
    requires
        0 < inode_size <= BLOCK_SZ,
        0 <= id,
    ensures
        ({
            let (block, offset) = disk_inode_pos(start, id, inode_size);
            (block - start) * (BLOCK_SZ as int / inode_size) + offset / inode_size == id
        }),
{
    let per_block = BLOCK_SZ as int / inode_size;
    assert(per_block >= 1) by (nonlinear_arith)
        requires
            0 < inode_size <= 512,
            per_block == 512int / inode_size,
    ;
    assert((id % per_block) * inode_size / inode_size == id % per_block) by (nonlinear_arith)
        requires
            inode_size > 0,
    ;
    assert((id / per_block) * per_block + id % per_block == id) by (nonlinear_arith)
        requires
            per_block >= 1,
    ;
}

} // verus!
