//! A verified mock storage: named files with sizes, a fixed capacity, and
//! an uploader that talks to any storage through a trait.

use vstd::prelude::*;

verus! {

/// The total size of the stored files.
pub open spec fn used_of(files: Seq<(Seq<char>, usize)>) -> int
    decreases files.len(),
{
    if files.len() == 0 {
        0
    } else {
        used_of(files.drop_last()) + files.last().1
    }
}

/// The size stored under `name`, or zero if there is no such file.
pub open spec fn size_of_name(files: Seq<(Seq<char>, usize)>, name: Seq<char>) -> int
    decreases files.len(),
{
    if files.len() == 0 {
        0
    } else if files[0].0 == name {
        files[0].1 as int
    } else {
        size_of_name(files.drop_first(), name)
    }
}

/// Whether a file of that name is stored.
pub open spec fn has_name(files: Seq<(Seq<char>, usize)>, name: Seq<char>) -> bool {
    exists|i: int| 0 <= i < files.len() && (#[trigger] files[i]).0 == name
}

/// The files after storing `size` under `name`: an existing entry is
/// overwritten in place, a new name is appended.
pub open spec fn store_entry(files: Seq<(Seq<char>, usize)>, name: Seq<char>, size: usize) -> Seq<
    (Seq<char>, usize),
> {
    if has_name(files, name) {
        files.map_values(
            |e: (Seq<char>, usize)|
                if e.0 == name {
                    (name, size)
                } else {
                    e
                },
    )
    } else {
        files.push((name, size))
    }
}

/// Storage keeps file names unique and never exceeds its capacity.
pub open spec fn files_wf(files: Seq<(Seq<char>, usize)>, capacity: usize) -> bool {
    &&& forall|i: int, j: int|
        0 <= i < j < files.len() ==> (#[trigger] files[i]).0 != (#[trigger] files[j]).0
    &&& used_of(files) <= capacity
}

/// Trait for storage objects: named files of known sizes, bounded by a
/// capacity.
pub trait Storage: Sized {
    /// The stored files, in storage order.
    spec fn files_view(&self) -> Seq<(Seq<char>, usize)>;

    /// The capacity of the storage.
    spec fn capacity_view(&self) -> usize;

    /// Uploads a file, overwriting an existing file of the same name, and
    /// fails with the free space when the upload would exceed the
    /// capacity.
    fn upload(&mut self, name: &str, size: usize) -> (r: Result<(), usize>)
        requires
            files_wf(old(self).files_view(), old(self).capacity_view()),
        ensures
            files_wf(final(self).files_view(), final(self).capacity_view()),
            final(self).capacity_view() == old(self).capacity_view(),
            ({
                let used0 = used_of(old(self).files_view());
                let prev = size_of_name(old(self).files_view(), name@);
                if used0 - prev + size > old(self).capacity_view() {
                    r == Result::<(), usize>::Err((old(self).capacity_view() - used0) as usize)
                        && final(self).files_view() == old(self).files_view()
                } else {
                    r == Result::<(), usize>::Ok(()) && final(self).files_view() == store_entry(
                        old(self).files_view(),
                        name@,
                        size,
                    )
                }
            }),
    ;

    /// Returns the used size of the storage.
    fn used(&self) -> (r: usize)
        requires
            files_wf(self.files_view(), self.capacity_view()),
        ensures
            r == used_of(self.files_view()),
    ;

    /// Returns the capacity of the storage.
    fn capacity(&self) -> (r: usize)
        ensures
            r == self.capacity_view(),
    ;
}

/// Mock storage: an in-memory table of files and a fixed capacity.
#[derive(Debug)]
pub struct MockStorage {
    files: Vec<(String, usize)>,
    capacity: usize,
}

impl MockStorage {
    /// Creates a new mock storage with the given capacity.
    pub fn new(capacity: usize) -> (r: Self)
        ensures
            r.files_view() =~= Seq::<(Seq<char>, usize)>::empty(),
            r.capacity_view() == capacity,
            files_wf(r.files_view(), r.capacity_view()),
    {
        let s = Self { files: Vec::new(), capacity };
        proof {
            assert(s.files_view() =~= Seq::<(Seq<char>, usize)>::empty());
        }
        s
    }
}

/// Partial sums of file sizes never exceed the total.
proof fn lemma_used_prefix(files: Seq<(Seq<char>, usize)>, k: int)
    requires
        0 <= k <= files.len(),
    ensures
        0 <= used_of(files.subrange(0, k)) <= used_of(files),
    decreases files.len() - k,
{
    if k < files.len() {
        lemma_used_prefix(files, k + 1);
        assert(files.subrange(0, k + 1).drop_last() =~= files.subrange(0, k));
        lemma_used_nonneg(files.subrange(0, k));
    } else {
        assert(files.subrange(0, k) =~= files);
        lemma_used_nonneg(files);
    }
}

/// Each stored size is at most the total.
proof fn lemma_used_element(files: Seq<(Seq<char>, usize)>, i: int)
    requires
        0 <= i < files.len(),
    ensures
        files[i].1 <= used_of(files),
    decreases files.len(),
{
    if i == files.len() - 1 {
        lemma_used_nonneg(files.drop_last());
    } else {
        lemma_used_element(files.drop_last(), i);
    }
}

/// A total of sizes is never negative.
proof fn lemma_used_nonneg(files: Seq<(Seq<char>, usize)>)
    ensures
        used_of(files) >= 0,
    decreases files.len(),
{
    if files.len() > 0 {
        lemma_used_nonneg(files.drop_last());
    }
}

/// With unique names, the entry found by a scan carries the size that
/// `size_of_name` names.
proof fn lemma_size_of_name_at(files: Seq<(Seq<char>, usize)>, name: Seq<char>, k: int)
    requires
        0 <= k < files.len(),
        files[k].0 == name,
        forall|j: int| 0 <= j < k ==> (#[trigger] files[j]).0 != name,
    ensures
        size_of_name(files, name) == files[k].1,
        has_name(files, name),
    decreases k,
{
    if k > 0 {
        lemma_size_of_name_at(files.drop_first(), name, k - 1);
    }
}

/// A table without the name stores size zero under it.
proof fn lemma_size_of_name_none(files: Seq<(Seq<char>, usize)>, name: Seq<char>)
    requires
        forall|j: int| 0 <= j < files.len() ==> (#[trigger] files[j]).0 != name,
    ensures
        size_of_name(files, name) == 0,
        !has_name(files, name),
    decreases files.len(),
{
    if files.len() > 0 {
        lemma_size_of_name_none(files.drop_first(), name);
    }
}

/// Overwriting the unique entry of a name changes the total by the size
/// difference.
proof fn lemma_used_update(
    files: Seq<(Seq<char>, usize)>,
    updated: Seq<(Seq<char>, usize)>,
    k: int,
    size: usize,
)
    requires
        0 <= k < files.len(),
        updated.len() == files.len(),
        forall|j: int| 0 <= j < files.len() && j != k ==> updated[j] == files[j],
        updated[k].1 == size,
    ensures
        used_of(updated) == used_of(files) - files[k].1 + size,
    decreases files.len(),
{
    if k == files.len() - 1 {
        assert(updated.drop_last() =~= files.drop_last());
    } else {
        lemma_used_update(files.drop_last(), updated.drop_last(), k, size);
    }
}

impl Storage for MockStorage {
    closed spec fn files_view(&self) -> Seq<(Seq<char>, usize)> {
        Seq::new(self.files@.len(), |i: int| (self.files@[i].0@, self.files@[i].1))
    }

    closed spec fn capacity_view(&self) -> usize {
        self.capacity
    }

    fn upload(&mut self, name: &str, size: usize) -> (r: Result<(), usize>) {
        let ghost pre = self.files_view();
        let name_string = name.to_owned();
        let mut used: usize = 0;
        let mut found: Option<usize> = None;
        let mut k: usize = 0;
        proof {
            assert(pre.subrange(0, 0) =~= Seq::<(Seq<char>, usize)>::empty());
            lemma_used_nonneg(pre);
        }
        while k < self.files.len()
            invariant
                pre == self.files_view(),
                pre.len() == self.files@.len(),
                forall|i: int|
                    0 <= i < pre.len() ==> #[trigger] pre[i] == (self.files@[i].0@, self.files@[i].1),
                files_wf(pre, self.capacity),
                name_string@ == name@,
                k <= pre.len(),
                used == used_of(pre.subrange(0, k as int)),
                used <= used_of(pre),
                found matches Some(i) ==> i < k && pre[i as int].0 == name@ && pre[i as int].1
                    == size_of_name(pre, name@) && has_name(pre, name@),
                found is None ==> forall|j: int| 0 <= j < k ==> (#[trigger] pre[j]).0 != name@,
            decreases pre.len() - k,
        {
            proof {
                lemma_used_prefix(pre, k + 1);
                assert(pre.subrange(0, k + 1).drop_last() =~= pre.subrange(0, k as int));
                lemma_used_prefix(pre, k as int);
            }
            if self.files[k].0 == name_string {
                if found.is_none() {
                    proof {
                        lemma_size_of_name_at(pre, name@, k as int);
                    }
                    found = Some(k);
                }
            }
            used = used + self.files[k].1;
            k = k + 1;
        }
        proof {
            assert(pre.subrange(0, pre.len() as int) =~= pre);
            if found is None {
                lemma_size_of_name_none(pre, name@);
            }
        }
        let prev: usize = match found {
            Some(i) => {
                proof {
                    lemma_used_element(pre, i as int);
                }
                self.files[i].1
            },
            None => 0,
        };
        if (used - prev) as u128 + size as u128 > self.capacity as u128 {
            Err(self.capacity - used)
        } else {
            match found {
                Some(i) => {
                    let _ = self.files.remove(i);
                    self.files.insert(i, (name_string, size));
                    proof {
                        let post = self.files_view();
                        assert(post =~= pre.update(i as int, (name@, size)));
                        lemma_used_update(pre, post, i as int, size);
                        assert(post =~= store_entry(pre, name@, size)) by {
                            assert forall|j: int| 0 <= j < post.len() implies post[j]
                                == store_entry(pre, name@, size)[j] by {
                                if j != i {
                                    assert(pre[j].0 != name@);
                                }
                            }
                        }
                    }
                    Ok(())
                },
                None => {
                    self.files.push((name_string, size));
                    proof {
                        let post = self.files_view();
                        assert(post =~= pre.push((name@, size)));
                        assert(store_entry(pre, name@, size) == pre.push((name@, size)));
                        assert(used_of(post) == used_of(pre) + size) by {
                            assert(post.drop_last() =~= pre);
                        }
                        assert forall|i: int, j: int|
                            0 <= i < j < post.len() implies (#[trigger] post[i]).0
                            != (#[trigger] post[j]).0 by {
                            if j == post.len() - 1 {
                                assert(pre[i].0 != name@);
                            }
                        }
                    }
                    Ok(())
                },
            }
        }
    }

    fn used(&self) -> (r: usize) {
        let ghost fs = self.files_view();
        let mut used: usize = 0;
        let mut k: usize = 0;
        proof {
            assert(fs.subrange(0, 0) =~= Seq::<(Seq<char>, usize)>::empty());
            lemma_used_nonneg(fs);
        }
        while k < self.files.len()
            invariant
                fs == self.files_view(),
                fs.len() == self.files@.len(),
                forall|i: int|
                    0 <= i < fs.len() ==> #[trigger] fs[i] == (self.files@[i].0@, self.files@[i].1),
                files_wf(fs, self.capacity),
                k <= fs.len(),
                used == used_of(fs.subrange(0, k as int)),
                used <= used_of(fs),
            decreases fs.len() - k,
        {
            proof {
                lemma_used_prefix(fs, k + 1);
                assert(fs.subrange(0, k + 1).drop_last() =~= fs.subrange(0, k as int));
            }
            used = used + self.files[k].1;
            k = k + 1;
        }
        proof {
            assert(fs.subrange(0, fs.len() as int) =~= fs);
        }
        used
    }

    fn capacity(&self) -> (r: usize) {
        self.capacity
    }
}

/// File uploader: forwards uploads to the storage it owns.
#[derive(Debug)]
pub struct FileUploader<T: Storage> {
    storage: T,
}

impl<T: Storage> FileUploader<T> {
    /// The files of the owned storage.
    pub closed spec fn files_view(&self) -> Seq<(Seq<char>, usize)> {
        self.storage.files_view()
    }

    /// The capacity of the owned storage.
    pub closed spec fn capacity_view(&self) -> usize {
        self.storage.capacity_view()
    }

    /// Creates a new file uploader around the given storage.
    pub fn new(storage: T) -> (r: Self)
        ensures
            r.files_view() == storage.files_view(),
            r.capacity_view() == storage.capacity_view(),
    {
        Self { storage }
    }

    /// Uploads a file to the internal storage.
    pub fn upload(&mut self, name: &str, size: usize) -> (r: Result<(), usize>)
        requires
            files_wf(old(self).files_view(), old(self).capacity_view()),
        ensures
            files_wf(final(self).files_view(), final(self).capacity_view()),
            final(self).capacity_view() == old(self).capacity_view(),
            ({
                let used0 = used_of(old(self).files_view());
                let prev = size_of_name(old(self).files_view(), name@);
                if used0 - prev + size > old(self).capacity_view() {
                    r == Result::<(), usize>::Err((old(self).capacity_view() - used0) as usize)
                        && final(self).files_view() == old(self).files_view()
                } else {
                    r == Result::<(), usize>::Ok(()) && final(self).files_view() == store_entry(
                        old(self).files_view(),
                        name@,
                        size,
                    )
                }
            }),
    {
        self.storage.upload(name, size)
    }
}

} // verus!
