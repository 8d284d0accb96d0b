use vstd::prelude::*;

verus! {

/// Identity of an on-disk file: a block file, named by the level the block
/// was born at and its block id, or a per-level manifest.
#[derive(PartialEq, Eq, Structural, Clone, Copy, Debug)]
pub enum FileId {
    Block { origin_level: u32, block_file_id: u32 },
    Manifest { level: u32 },
}

struct FileEntry {
    fid: FileId,
    data: Vec<char>,
}

/// The set of text files the store has written: the model of its directory.
/// Each file is a sequence of characters under a `FileId`.
pub struct FileStore {
    entries: Vec<FileEntry>,
}

impl View for FileStore {
    type V = Map<FileId, Seq<char>>;

    closed spec fn view(&self) -> Map<FileId, Seq<char>> {
        FileStore::smap(self.entries@)
    }
}

impl FileStore {
    spec fn unique(s: Seq<FileEntry>) -> bool {
        forall|i: int, j: int| 0 <= i < j < s.len()
            ==> (#[trigger] s[i]).fid != (#[trigger] s[j]).fid
    }

    spec fn smap(s: Seq<FileEntry>) -> Map<FileId, Seq<char>>
        decreases s.len(),
    {
        if s.len() == 0 {
            Map::empty()
        } else {
            FileStore::smap(s.drop_last()).insert(s.last().fid, s.last().data@)
        }
    }

    pub closed spec fn wf(&self) -> bool {
        FileStore::unique(self.entries@)
    }

    proof fn lemma_smap_dom(s: Seq<FileEntry>)
        ensures
            forall|f: FileId| #[trigger] FileStore::smap(s).dom().contains(f)
                <==> exists|i: int| 0 <= i < s.len() && (#[trigger] s[i]).fid == f,
        decreases s.len(),
    {
        if s.len() > 0 {
            FileStore::lemma_smap_dom(s.drop_last());
            assert forall|f: FileId| #[trigger] FileStore::smap(s).dom().contains(f)
                implies exists|i: int| 0 <= i < s.len() && (#[trigger] s[i]).fid == f by {
                if f == s.last().fid {
                    assert(0 <= s.len() - 1 < s.len() && s[s.len() - 1].fid == f);
                } else {
                    assert(FileStore::smap(s.drop_last()).dom().contains(f));
                    let i = choose|i: int|
                        0 <= i < s.drop_last().len() && (#[trigger] s.drop_last()[i]).fid == f;
                    assert(s.drop_last()[i] == s[i]);
                    assert(s[i].fid == f);
                }
            }
            assert forall|f: FileId| (exists|i: int| 0 <= i < s.len() && (#[trigger] s[i]).fid == f)
                implies #[trigger] FileStore::smap(s).dom().contains(f) by {
                let i = choose|i: int| 0 <= i < s.len() && (#[trigger] s[i]).fid == f;
                if i < s.len() - 1 {
                    assert(s.drop_last()[i].fid == f);
                    assert(FileStore::smap(s.drop_last()).dom().contains(f));
                } else {
                    assert(s.last().fid == f);
                }
            }
        }
    }

    proof fn lemma_smap_index(s: Seq<FileEntry>, i: int)
        requires
            FileStore::unique(s),
            0 <= i < s.len(),
        ensures
            FileStore::smap(s).dom().contains(s[i].fid),
            FileStore::smap(s)[s[i].fid] == s[i].data@,
        decreases s.len(),
    {
        if i == s.len() - 1 {
        } else {
            assert(FileStore::unique(s.drop_last()));
            assert(s.drop_last()[i] == s[i]);
            FileStore::lemma_smap_index(s.drop_last(), i);
            assert(s.last().fid != s[i].fid);
        }
    }

    proof fn lemma_smap_remove(s: Seq<FileEntry>, i: int)
        requires
            FileStore::unique(s),
            0 <= i < s.len(),
        ensures
            FileStore::smap(s.remove(i)) == FileStore::smap(s).remove(s[i].fid),
        decreases s.len(),
    {
        let f = s[i].fid;
        if i == s.len() - 1 {
            assert(s.remove(i) =~= s.drop_last());
            FileStore::lemma_smap_dom(s.drop_last());
            assert forall|j: int| 0 <= j < s.drop_last().len()
                implies (#[trigger] s.drop_last()[j]).fid != f by {
                assert(s.drop_last()[j] == s[j]);
            }
            assert(!FileStore::smap(s.drop_last()).dom().contains(f));
            assert(FileStore::smap(s.drop_last()).insert(f, s.last().data@).remove(f)
                =~= FileStore::smap(s.drop_last()));
        } else {
            assert(FileStore::unique(s.drop_last()));
            assert(s.drop_last()[i] == s[i]);
            FileStore::lemma_smap_remove(s.drop_last(), i);
            assert(s.remove(i).drop_last() =~= s.drop_last().remove(i));
            assert(s.remove(i).last() == s.last());
            assert(FileStore::smap(s.remove(i))
                == FileStore::smap(s.drop_last()).remove(f).insert(s.last().fid, s.last().data@));
            assert(FileStore::smap(s.drop_last()).remove(f).insert(s.last().fid, s.last().data@)
                =~= FileStore::smap(s).remove(f));
        }
    }

    /// An empty directory.
    pub fn new() -> (s: FileStore)
        ensures
            s.wf(),
            s@ == Map::<FileId, Seq<char>>::empty(),
    {
        FileStore { entries: Vec::new() }
    }

    /// The contents of a file, if it exists.
    pub fn read(&self, fid: FileId) -> (r: Option<&Vec<char>>)
        requires
            self.wf(),
        ensures
            match r {
                Some(d) => self@.dom().contains(fid) && d@ == self@[fid],
                None => !self@.dom().contains(fid),
            },
    {
        let n = self.entries.len();
        let mut i: usize = 0;
        while i < n
            invariant
                self.wf(),
                n == self.entries@.len(),
                i <= n,
                forall|j: int| 0 <= j < i ==> (#[trigger] self.entries@[j]).fid != fid,
            decreases n - i,
        {
            if self.entries[i].fid == fid {
                proof {
                    FileStore::lemma_smap_index(self.entries@, i as int);
                }
                return Some(&self.entries[i].data);
            }
            i = i + 1;
        }
        proof {
            FileStore::lemma_smap_dom(self.entries@);
        }
        None
    }

    /// Remove the file, if it exists.
    pub fn remove(&mut self, fid: FileId)
        requires
            old(self).wf(),
        ensures
            final(self).wf(),
            final(self)@ == old(self)@.remove(fid),
    {
        let n = self.entries.len();
        let mut i: usize = 0;
        while i < n
            invariant
                self.wf(),
                self == old(self),
                n == self.entries@.len(),
                i <= n,
                forall|j: int| 0 <= j < i ==> (#[trigger] self.entries@[j]).fid != fid,
            decreases n - i,
        {
            if self.entries[i].fid == fid {
                proof {
                    FileStore::lemma_smap_remove(self.entries@, i as int);
                }
                let _ = self.entries.remove(i);
                proof {
                    assert forall|a: int, b: int|
                        0 <= a < b < self.entries@.len() implies (#[trigger] self.entries@[a]).fid
                        != (#[trigger] self.entries@[b]).fid by {
                        let olds = old(self).entries@;
                        let oa = if a < i { a } else { a + 1 };
                        let ob = if b < i { b } else { b + 1 };
                        assert(self.entries@[a] == olds[oa]);
                        assert(self.entries@[b] == olds[ob]);
                    }
                }
                return;
            }
            i = i + 1;
        }
        proof {
            FileStore::lemma_smap_dom(self.entries@);
            assert(!self@.dom().contains(fid));
            assert(self@.remove(fid) =~= self@);
        }
    }

    /// Create or fully rewrite the file.
    pub fn write(&mut self, fid: FileId, data: Vec<char>)
        requires
            old(self).wf(),
        ensures
            final(self).wf(),
            final(self)@ == old(self)@.insert(fid, data@),
    {
        self.remove(fid);
        let ghost mid = self.entries@;
        proof {
            FileStore::lemma_smap_dom(mid);
        }
        self.entries.push(FileEntry { fid, data });
        proof {
            assert(self.entries@.drop_last() =~= mid);
            assert forall|a: int, b: int|
                0 <= a < b < self.entries@.len() implies (#[trigger] self.entries@[a]).fid
                != (#[trigger] self.entries@[b]).fid by {
                if b < self.entries@.len() - 1 {
                    assert(self.entries@[a] == mid[a]);
                    assert(self.entries@[b] == mid[b]);
                } else {
                    if self.entries@[a].fid == fid {
                        assert(mid[a] == self.entries@[a]);
                        assert(FileStore::smap(mid).dom().contains(fid));
                    }
                }
            }
        }
    }

    /// The identities of all files currently present.
    pub fn file_ids(&self) -> (r: Vec<FileId>)
        requires
            self.wf(),
        ensures
            forall|i: int| 0 <= i < r@.len() ==> self@.dom().contains(#[trigger] r@[i]),
            forall|f: FileId| self@.dom().contains(f) ==> r@.contains(f),
    {
        let n = self.entries.len();
        let mut r: Vec<FileId> = Vec::new();
        let mut i: usize = 0;
        while i < n
            invariant
                self.wf(),
                n == self.entries@.len(),
                i <= n,
                r@.len() == i,
                forall|j: int| 0 <= j < i ==> #[trigger] r@[j] == self.entries@[j].fid,
            decreases n - i,
        {
            r.push(self.entries[i].fid);
            i = i + 1;
        }
        proof {
            FileStore::lemma_smap_dom(self.entries@);
            assert forall|j: int| 0 <= j < r@.len()
                implies self@.dom().contains(#[trigger] r@[j]) by {
                assert(self.entries@[j].fid == r@[j]);
            }
            assert forall|f: FileId| self@.dom().contains(f) implies r@.contains(f) by {
                let i0 = choose|i0: int| 0 <= i0 < self.entries@.len()
                    && (#[trigger] self.entries@[i0]).fid == f;
                assert(r@[i0] == f);
            }
        }
        r
    }
}

} // verus!
