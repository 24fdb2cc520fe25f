//! Directory logic of the file system: looking names up, listing, counting
//! and adding hard links, and removing names. An inode is held here as what
//! this logic reads of it; the blocks it lives in are the caller's.
use vstd::prelude::*;

verus! {

/// Whether an inode is a regular file or a directory.
#[derive(Clone, Copy, PartialEq, Eq, Debug, Structural)]
pub enum InodeKind {
    File,
    Directory,
}

/// One directory entry: a name and the inode it refers to. A slot whose
/// name is empty has been emptied by `unlink`.
#[derive(Debug)]
pub struct DirEntry {
    pub name: String,
    pub inode_id: u32,
}

/// An inode: its id, its kind, and, for a directory, its entries in the
/// order they are stored.
pub struct Inode {
    pub inode_id: u32,
    pub kind: InodeKind,
    pub entries: Vec<DirEntry>,
}

/// A directory as a sequence of (name, inode id) pairs.
pub open spec fn dir_view(entries: Seq<DirEntry>) -> Seq<(Seq<char>, u32)> {
    entries.map_values(|e: DirEntry| (e.name@, e.inode_id))
}

/// Slot `slot` is in use and holds `name`. A slot whose name is empty was
/// emptied by `unlink` and holds no name, not even the empty one.
pub open spec fn holds_name(slot: (Seq<char>, u32), name: Seq<char>) -> bool {
    slot.0.len() > 0 && slot.0 == name
}

/// The first slot of `d` holding `name`, if any.
pub open spec fn is_first_named(d: Seq<(Seq<char>, u32)>, name: Seq<char>, k: int) -> bool {
    &&& 0 <= k < d.len()
    &&& holds_name(d[k], name)
    &&& forall|p: int| 0 <= p < k ==> !holds_name(#[trigger] d[p], name)
}

/// The inode `name` refers to in `d`: that of its first slot; the empty
/// name refers to nothing.
pub open spec fn lookup(d: Seq<(Seq<char>, u32)>, name: Seq<char>) -> Option<u32>
    decreases d.len(),
{
    if d.len() == 0 {
        None
    } else {
        match lookup(d.drop_last(), name) {
            Some(id) => Some(id),
            None => if holds_name(d.last(), name) {
                Some(d.last().1)
            } else {
                None
            },
        }
    }
}

/// Number of slots of `d` with a name that refer to inode `target`.
pub open spec fn link_count(d: Seq<(Seq<char>, u32)>, target: u32) -> nat
    decreases d.len(),
{
    if d.len() == 0 {
        0
    } else {
        link_count(d.drop_last(), target) + if d.last().0.len() > 0 && d.last().1 == target {
            1nat
        } else {
            0nat
        }
    }
}

/// What removing a name did: the slot it emptied, the inode it referred to,
/// and whether that was its last link (the caller then frees the inode and
/// its data).
#[derive(Clone, Copy, PartialEq, Eq, Debug, Structural)]
pub struct Unlinked {
    pub slot: usize,
    pub inode_id: u32,
    pub last_link: bool,
}

proof fn lemma_lookup_first(d: Seq<(Seq<char>, u32)>, name: Seq<char>)
    ensures
        lookup(d, name) is None <==> forall|p: int| 0 <= p < d.len() ==> !holds_name(#[trigger] d[p], name),
        lookup(d, name) matches Some(id) ==> exists|k: int|
            is_first_named(d, name, k) && #[trigger] d[k].1 == id,
    decreases d.len(),
{
    if d.len() > 0 {
        let r = d.drop_last();
        lemma_lookup_first(r, name);
        assert forall|p: int| 0 <= p < r.len() implies #[trigger] r[p] == d[p] by {}
        if lookup(r, name) is None && holds_name(d.last(), name) {
            assert forall|p: int| 0 <= p < d.len() - 1 implies !holds_name(#[trigger] d[p], name) by {
                assert(r[p] == d[p]);
            }
            assert(is_first_named(d, name, d.len() - 1));
            assert(d[d.len() - 1].1 == d.last().1);
        }
        if let Some(id) = lookup(r, name) {
            let k: int = choose|k: int| is_first_named(r, name, k) && #[trigger] r[k].1 == id;
            assert forall|p: int| 0 <= p < k implies !holds_name(#[trigger] d[p], name) by {
                assert(r[p] == d[p]);
            }
            assert(r[k] == d[k]);
            assert(is_first_named(d, name, k));
            assert(d[k].1 == id);
        }
        if lookup(d, name) is None {
            assert forall|p: int| 0 <= p < d.len() implies !holds_name(#[trigger] d[p], name) by {
                if p < r.len() {
                    assert(r[p] == d[p]);
                }
            }
        }
    }
}

proof fn lemma_lookup_push(d: Seq<(Seq<char>, u32)>, e: (Seq<char>, u32), name: Seq<char>)
    ensures
        lookup(d.push(e), name) == match lookup(d, name) {
            Some(id) => Some(id),
            None => if holds_name(e, name) {
                Some(e.1)
            } else {
                None
            },
        },
{
    assert(d.push(e).drop_last() =~= d);
}

proof fn lemma_link_count_push(d: Seq<(Seq<char>, u32)>, e: (Seq<char>, u32), target: u32)
    ensures
        link_count(d.push(e), target) == link_count(d, target) + if e.0.len() > 0 && e.1
            == target {
            1nat
        } else {
            0nat
        },
{
    assert(d.push(e).drop_last() =~= d);
}

proof fn lemma_link_count_update(d: Seq<(Seq<char>, u32)>, k: int, e: (Seq<char>, u32), target: u32)
    requires
        0 <= k < d.len(),
    ensures
        link_count(d.update(k, e), target) + (if d[k].0.len() > 0 && d[k].1 == target {
            1nat
        } else {
            0nat
        }) == link_count(d, target) + if e.0.len() > 0 && e.1 == target {
            1nat
        } else {
            0nat
        },
    decreases d.len(),
{
    if k == d.len() - 1 {
        assert(d.update(k, e).drop_last() =~= d.drop_last());
    } else {
        lemma_link_count_update(d.drop_last(), k, e, target);
        assert(d.update(k, e).drop_last() =~= d.drop_last().update(k, e));
    }
}

proof fn lemma_link_count_bound(d: Seq<(Seq<char>, u32)>, target: u32)
    ensures
        link_count(d, target) <= d.len(),
    decreases d.len(),
{
    if d.len() > 0 {
        lemma_link_count_bound(d.drop_last(), target);
    }
}

impl Inode {
    /// A handle on inode `inode_id` of kind `kind` with the given entries.
    pub fn new(inode_id: u32, kind: InodeKind, entries: Vec<DirEntry>) -> (inode: Inode)
        ensures
            inode.inode_id == inode_id,
            inode.kind == kind,
            inode.entries@ == entries@,
    {
        Inode { inode_id, kind, entries }
    }

    /// The inode that `name` refers to in this directory: that of the first
    /// slot holding `name`.
    pub fn find_inode_id(&self, name: &String) -> (id: Option<u32>)
        requires
            self.kind == InodeKind::Directory,
        ensures
            id == lookup(dir_view(self.entries@), name@),
            name@.len() == 0 ==> id is None,
            id matches Some(i) ==> exists|k: int|
                0 <= k < self.entries@.len() && (#[trigger] self.entries@[k]).name@ == name@
                    && self.entries@[k].inode_id == i,
            id is None ==> forall|k: int|
                0 <= k < self.entries@.len() ==> (#[trigger] self.entries@[k]).name@ != name@
                    || name@.len() == 0,
    {
        proof {
            lemma_lookup_first(dir_view(self.entries@), name@);
            lemma_lookup_exact(dir_view(self.entries@), name@);
            if let Some(i) = lookup(dir_view(self.entries@), name@) {
                let d = dir_view(self.entries@);
                let k: int = choose|k: int|
                    0 <= k < d.len() && (#[trigger] d[k]).0 == name@ && d[k].1 == i;
                assert(self.entries@[k].name@ == d[k].0);
            } else {
                assert forall|k: int| 0 <= k < self.entries@.len() implies (
                #[trigger] self.entries@[k]).name@ != name@ || name@.len() == 0 by {
                    assert(dir_view(self.entries@)[k].0 == self.entries@[k].name@);
                }
            }
        }
        let ghost d = dir_view(self.entries@);
        let mut i: usize = 0;
        while i < self.entries.len()
            invariant
                i <= self.entries.len(),
                d == dir_view(self.entries@),
                lookup(d.take(i as int), name@) is None,
            decreases self.entries.len() - i,
        {
            proof {
                assert(d.take(i + 1) =~= d.take(i as int).push(d[i as int]));
                lemma_lookup_push(d.take(i as int), d[i as int], name@);
            }
            if !self.entries[i].name.as_str().is_empty() && self.entries[i].name == *name {
                proof {
                    lemma_lookup_prefix(d, i + 1, name@);
                }
                return Some(self.entries[i].inode_id);
            }
            i = i + 1;
        }
        proof {
            assert(d.take(i as int) =~= d);
        }
        None
    }

    /// The inode that `name` refers to in this directory, if any.
    pub fn find(&self, name: &String) -> (id: Option<u32>)
        requires
            self.kind == InodeKind::Directory,
        ensures
            id == lookup(dir_view(self.entries@), name@),
            name@.len() == 0 ==> id is None,
            id matches Some(i) ==> exists|k: int|
                0 <= k < self.entries@.len() && (#[trigger] self.entries@[k]).name@ == name@
                    && self.entries@[k].inode_id == i,
            id is None ==> forall|k: int|
                0 <= k < self.entries@.len() ==> (#[trigger] self.entries@[k]).name@ != name@
                    || name@.len() == 0,
    {
        proof {
            lemma_lookup_first(dir_view(self.entries@), name@);
            lemma_lookup_exact(dir_view(self.entries@), name@);
            if let Some(i) = lookup(dir_view(self.entries@), name@) {
                let d = dir_view(self.entries@);
                let k: int = choose|k: int|
                    0 <= k < d.len() && (#[trigger] d[k]).0 == name@ && d[k].1 == i;
                assert(self.entries@[k].name@ == d[k].0);
            } else {
                assert forall|k: int| 0 <= k < self.entries@.len() implies (
                #[trigger] self.entries@[k]).name@ != name@ || name@.len() == 0 by {
                    assert(dir_view(self.entries@)[k].0 == self.entries@[k].name@);
                }
            }
        }
        self.find_inode_id(name)
    }

    /// Creates a file named `name` in this directory: when the name is not
    /// here yet, adds it in a new slot at the end for inode `new_inode_id`
    /// and returns that inode, a fresh empty file; when it is here already,
    /// returns `None` and changes nothing. The caller picks `new_inode_id`
    /// (allocating it only once `find_inode_id` has found the name free).
    pub fn create(&mut self, name: &String, new_inode_id: u32) -> (created: Option<Inode>)
        requires
            old(self).kind == InodeKind::Directory,
        ensures
            ({
                let d = dir_view(old(self).entries@);
                &&& created is None <==> lookup(d, name@) is Some
                &&& created is None ==> final(self).entries@ == old(self).entries@
                &&& created matches Some(inode) ==> {
                    &&& inode.inode_id == new_inode_id
                    &&& inode.kind == InodeKind::File
                    &&& inode.entries@.len() == 0
                    &&& dir_view(final(self).entries@) == d.push((name@, new_inode_id))
                    &&& name@.len() > 0 ==> lookup(dir_view(final(self).entries@), name@) == Some(
                        new_inode_id,
                    )
                }
            }),
            final(self).inode_id == old(self).inode_id,
            final(self).kind == old(self).kind,
    {
        // Has the file been created?
        if self.find_inode_id(name).is_some() {
            return None;
        }
        let ghost before = self.entries@;
        // Append the file in the dirents.
        self.entries.push(DirEntry { name: name.clone(), inode_id: new_inode_id });
        proof {
            assert(dir_view(self.entries@) =~= dir_view(before).push((name@, new_inode_id)));
            lemma_lookup_push(dir_view(before), (name@, new_inode_id), name@);
        }
        Some(Inode::new(new_inode_id, InodeKind::File, Vec::new()))
    }

    /// The names of the slots of this directory, in order (an emptied slot
    /// gives an empty name).
    pub fn ls(&self) -> (names: Vec<String>)
        ensures
            names@.len() == self.entries@.len(),
            forall|k: int| 0 <= k < names@.len() ==> #[trigger] names@[k]@ == self.entries@[k].name@,
    {
        let mut names: Vec<String> = Vec::new();
        let mut i: usize = 0;
        while i < self.entries.len()
            invariant
                i <= self.entries.len(),
                names@.len() == i,
                forall|k: int| 0 <= k < i ==> #[trigger] names@[k]@ == self.entries@[k].name@,
            decreases self.entries.len() - i,
        {
            names.push(self.entries[i].name.clone());
            i = i + 1;
        }
        names
    }

    /// This inode's id.
    pub fn get_inode_id(&self) -> (id: u32)
        ensures
            id == self.inode_id,
    {
        self.inode_id
    }

    /// Whether this inode is a regular file.
    pub fn is_file(&self) -> (b: bool)
        ensures
            b == (self.kind == InodeKind::File),
    {
        match self.kind {
            InodeKind::File => true,
            InodeKind::Directory => false,
        }
    }

    /// Whether this inode is a directory.
    pub fn is_dir_inode(&self) -> (b: bool)
        ensures
            b == (self.kind == InodeKind::Directory),
    {
        match self.kind {
            InodeKind::File => false,
            InodeKind::Directory => true,
        }
    }

    /// Counts the slots of this directory that have a name and refer to
    /// inode `target_inode_id`: its number of hard links here.
    pub fn link_count_of(&self, target_inode_id: u32) -> (count: u32)
        requires
            self.kind == InodeKind::Directory,
            link_count(dir_view(self.entries@), target_inode_id) <= u32::MAX,
        ensures
            count == link_count(dir_view(self.entries@), target_inode_id),
    {
        count_links(&self.entries, target_inode_id)
    }

    /// Adds the name `new_name` for the inode that `old_name` refers to, in
    /// a new slot at the end. Refused (`false`, nothing changes) when the
    /// names are the same, `old_name` is not here, or `new_name` already is.
    pub fn link(&mut self, old_name: &String, new_name: &String) -> (linked: bool)
        requires
            old_name@ != new_name@ ==> old(self).kind == InodeKind::Directory,
        ensures
            ({
                let d = dir_view(old(self).entries@);
                linked == (old_name@ != new_name@ && lookup(d, old_name@) is Some && lookup(
                    d,
                    new_name@,
                ) is None)
            }),
            linked ==> dir_view(final(self).entries@) == dir_view(old(self).entries@).push(
                (new_name@, lookup(dir_view(old(self).entries@), old_name@)->0),
            ),
            !linked ==> final(self).entries@ == old(self).entries@,
            final(self).inode_id == old(self).inode_id,
            final(self).kind == old(self).kind,
    {
        if *old_name == *new_name {
            return false;
        }
        // Look up old's inode id.
        let inode_id: u32 = match self.find_inode_id(old_name) {
            Some(id) => id,
            None => {
                return false;
            },
        };
        // Refuse if new_name already exists.
        if self.find_inode_id(new_name).is_some() {
            return false;
        }
        let ghost before = self.entries@;
        // Append a new dirent that points to the same inode.
        self.entries.push(DirEntry { name: new_name.clone(), inode_id });
        proof {
            assert(dir_view(self.entries@) =~= dir_view(before).push((new_name@, inode_id)));
        }
        true
    }

    /// Removes the name `name`: its first slot is emptied (empty name,
    /// inode 0), and later lookups skip it; the empty name names nothing.
    /// Returns the inode it referred to and whether that was its last link
    /// here, or `None` (nothing changes) when the name is not here.
    pub fn unlink(&mut self, name: &String) -> (removed: Option<Unlinked>)
        requires
            old(self).kind == InodeKind::Directory,
            old(self).entries.len() <= u32::MAX,
        ensures
            ({
                let d = dir_view(old(self).entries@);
                &&& removed is None <==> lookup(d, name@) is None
                &&& name@.len() == 0 ==> removed is None
                &&& removed is None ==> final(self).entries@ == old(self).entries@
                &&& removed matches Some(r) ==> exists|k: int|
                    #![trigger d[k]]
                    is_first_named(d, name@, k) && r.slot == k && r.inode_id == d[k].1 && dir_view(
                        final(self).entries@,
                    ) == d.update(k, (Seq::<char>::empty(), 0u32)) && r.last_link == (link_count(
                        dir_view(final(self).entries@),
                        r.inode_id,
                    ) == 0)
            }),
            final(self).inode_id == old(self).inode_id,
            final(self).kind == old(self).kind,
    {
        let ghost d = dir_view(self.entries@);
        // Find the dirent slot and the inode it references.
        let found: Option<(usize, u32)> = first_slot_named(&self.entries, name);
        proof {
            lemma_lookup_first(d, name@);
        }
        let (idx, target_inode_id) = match found {
            Some(v) => v,
            None => {
                return None;
            },
        };
        proof {
            assert(is_first_named(d, name@, idx as int));
        }
        // Overwrite the dirent with an empty entry; later lookups skip it.
        self.entries.set(idx, DirEntry { name: String::new(), inode_id: 0 });
        proof {
            assert(dir_view(self.entries@) =~= d.update(idx as int, (Seq::<char>::empty(), 0u32)));
            lemma_link_count_bound(dir_view(self.entries@), target_inode_id);
        }
        // Count remaining links to that inode.
        let nlink: u32 = count_links(&self.entries, target_inode_id);
        Some(Unlinked { slot: idx, inode_id: target_inode_id, last_link: nlink == 0 })
    }
}

/// The first slot holding `name` and the inode it refers to, if any.
fn first_slot_named(entries: &Vec<DirEntry>, name: &String) -> (found: Option<(usize, u32)>)
    ensures
        match found {
            Some((k, id)) => is_first_named(dir_view(entries@), name@, k as int) && id == dir_view(
                entries@,
            )[k as int].1,
            None => forall|p: int|
                0 <= p < entries@.len() ==> !holds_name(#[trigger] dir_view(entries@)[p], name@),
        },
{
    let ghost d = dir_view(entries@);
    let mut i: usize = 0;
    while i < entries.len()
        invariant
            i <= entries.len(),
            d == dir_view(entries@),
            forall|p: int| 0 <= p < i ==> !holds_name(#[trigger] d[p], name@),
        decreases entries.len() - i,
    {
        if !entries[i].name.as_str().is_empty() && entries[i].name == *name {
            return Some((i, entries[i].inode_id));
        }
        i = i + 1;
    }
    None
}

proof fn lemma_lookup_prefix(d: Seq<(Seq<char>, u32)>, k: int, name: Seq<char>)
    requires
        0 <= k <= d.len(),
        lookup(d.take(k), name) is Some,
    ensures
        lookup(d, name) == lookup(d.take(k), name),
    decreases d.len() - k,
{
    if k < d.len() {
        assert(d.take(k + 1) =~= d.take(k).push(d[k]));
        lemma_lookup_push(d.take(k), d[k], name);
        lemma_lookup_prefix(d, k + 1, name);
    } else {
        assert(d.take(k) =~= d);
    }
}

/// Counts the entries with a name that refer to `target`.
fn count_links(entries: &Vec<DirEntry>, target: u32) -> (count: u32)
    requires
        link_count(dir_view(entries@), target) <= u32::MAX,
    ensures
        count == link_count(dir_view(entries@), target),
{
    let ghost d = dir_view(entries@);
    let mut count: u32 = 0;
    let mut i: usize = 0;
    while i < entries.len()
        invariant
            i <= entries.len(),
            d == dir_view(entries@),
            link_count(d, target) <= u32::MAX,
            count == link_count(d.take(i as int), target),
        decreases entries.len() - i,
    {
        proof {
            assert(d.take(i + 1) =~= d.take(i as int).push(d[i as int]));
            lemma_link_count_push(d.take(i as int), d[i as int], target);
            lemma_link_count_prefix(d, i as int + 1, target);
        }
        // Slot was emptied by `unlink`.
        if entries[i].name.as_str().is_empty() {
            i = i + 1;
            continue;
        }
        if entries[i].inode_id == target {
            count = count + 1;
        }
        i = i + 1;
    }
    proof {
        assert(d.take(i as int) =~= d);
    }
    count
}

proof fn lemma_link_count_prefix(d: Seq<(Seq<char>, u32)>, k: int, target: u32)
    requires
        0 <= k <= d.len(),
    ensures
        link_count(d.take(k), target) <= link_count(d, target),
    decreases d.len() - k,
{
    if k < d.len() {
        lemma_link_count_prefix(d, k + 1, target);
        assert(d.take(k + 1) =~= d.take(k).push(d[k]));
        lemma_link_count_push(d.take(k), d[k], target);
    } else {
        assert(d.take(k) =~= d);
    }
}

/// A hard link made by `link` resolves to the same inode as the name it was
/// made from, and that inode has one more link.
pub proof fn lemma_link_resolves_to_same_inode(
    d: Seq<(Seq<char>, u32)>,
    old_name: Seq<char>,
    new_name: Seq<char>,
)
    requires
        old_name != new_name,
        lookup(d, old_name) is Some,
        lookup(d, new_name) is None,
        new_name.len() > 0,
    ensures
        ({
            let id: u32 = lookup(d, old_name)->0;
            let d2 = d.push((new_name, id));
            &&& lookup(d2, new_name) == Some(id)
            &&& lookup(d2, old_name) == Some(id)
            &&& link_count(d2, id) == link_count(d, id) + 1
        }),
{
    let id: u32 = lookup(d, old_name)->0;
    lemma_lookup_push(d, (new_name, id), new_name);
    lemma_lookup_push(d, (new_name, id), old_name);
    lemma_link_count_push(d, (new_name, id), id);
}

/// Removing a name with `unlink` takes one link away from the inode it
/// referred to, and leaves every other inode's links as they were.
pub proof fn lemma_unlink_drops_one_link(
    d: Seq<(Seq<char>, u32)>,
    name: Seq<char>,
    k: int,
    other: u32,
)
    requires
        is_first_named(d, name, k),
        name.len() > 0,
    ensures
        link_count(d.update(k, (Seq::<char>::empty(), 0u32)), d[k].1) + 1 == link_count(d, d[k].1),
        other != d[k].1 ==> link_count(d.update(k, (Seq::<char>::empty(), 0u32)), other)
            == link_count(d, other),
{
    lemma_link_count_update(d, k, (Seq::<char>::empty(), 0u32), d[k].1);
    lemma_link_count_update(d, k, (Seq::<char>::empty(), 0u32), other);
}

/// A slot emptied by `unlink` is skipped by every later lookup: looking a
/// name up in the directory with the slot emptied gives what it gives with
/// the slot taken out altogether. In particular the empty name finds
/// nothing.
pub proof fn lemma_emptied_slot_is_skipped(d: Seq<(Seq<char>, u32)>, k: int, name: Seq<char>)
    requires
        0 <= k < d.len(),
    ensures
        lookup(d.update(k, (Seq::<char>::empty(), 0u32)), name) == lookup(d.remove(k), name),
        lookup(d, Seq::<char>::empty()) is None,
    decreases d.len(),
{
    let e = (Seq::<char>::empty(), 0u32);
    lemma_lookup_first(d, Seq::<char>::empty());
    if k == d.len() - 1 {
        assert(d.update(k, e).drop_last() =~= d.drop_last());
        assert(d.remove(k) =~= d.drop_last());
    } else {
        lemma_emptied_slot_is_skipped(d.drop_last(), k, name);
        assert(d.update(k, e).drop_last() =~= d.drop_last().update(k, e));
        assert(d.remove(k).drop_last() =~= d.drop_last().remove(k));
        assert(d.remove(k).last() == d.last());
    }
}

/// A slot holds a name exactly when its name is that name and is not
/// empty; so a lookup resolves only to a slot named exactly as asked, the
/// first such slot, and finds nothing when no slot has that name.
pub proof fn lemma_lookup_exact(d: Seq<(Seq<char>, u32)>, name: Seq<char>)
    ensures
        forall|slot: (Seq<char>, u32)| #[trigger] holds_name(slot, name) <==> (slot.0 == name
            && name.len() > 0),
        lookup(d, name) matches Some(id) ==> name.len() > 0 && exists|k: int|
            0 <= k < d.len() && (#[trigger] d[k]).0 == name && d[k].1 == id && forall|p: int|
                0 <= p < k ==> d[p].0 != name,
        lookup(d, name) is None <==> (name.len() == 0 || forall|k: int|
            0 <= k < d.len() ==> (#[trigger] d[k]).0 != name),
{
    lemma_lookup_first(d, name);
    if let Some(id) = lookup(d, name) {
        let k: int = choose|k: int| is_first_named(d, name, k) && #[trigger] d[k].1 == id;
        assert(d[k].0 == name && d[k].1 == id);
        assert forall|p: int| 0 <= p < k implies d[p].0 != name by {
            assert(!holds_name(d[p], name));
        }
    }
    if lookup(d, name) is None && name.len() > 0 {
        assert forall|k: int| 0 <= k < d.len() implies (#[trigger] d[k]).0 != name by {
            assert(!holds_name(d[k], name));
        }
    }
    if name.len() > 0 && (forall|k: int| 0 <= k < d.len() ==> (#[trigger] d[k]).0 != name) {
        if lookup(d, name) is Some {
            let id = lookup(d, name)->0;
            let k: int = choose|k: int| is_first_named(d, name, k) && #[trigger] d[k].1 == id;
            assert(d[k].0 != name);
        }
    }
}

} // verus!
