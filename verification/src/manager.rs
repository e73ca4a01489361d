//! The mount layer: filesystem types, the trait a mountable filesystem
//! implements, and the manager mapping mount paths to filesystem instances.

use vstd::prelude::*;
use vstd::string::StringSliceAdditionalSpecFns;

verus! {

/// Byte-wise string equality.
pub fn str_eq(a: &str, b: &str) -> (r: bool)
    ensures
        r == (a@ == b@),
{
    let ab = a.as_bytes();
    let bb = b.as_bytes();
    if ab.len() != bb.len() {
        return false;
    }
    let n = ab.len();
    let mut i: usize = 0;
    while i < n
        invariant
            n == ab@.len() == bb@.len(),
            i <= n,
            ab@ == a.spec_bytes(),
            bb@ == b.spec_bytes(),
            forall|k: int| 0 <= k < i ==> ab@[k] == bb@[k],
        decreases n - i,
    {
        if ab[i] != bb[i] {
            return false;
        }
        i = i + 1;
    }
    proof {
        assert(a.spec_bytes() =~= b.spec_bytes());
        vstd::utf8::encode_utf8_decode_utf8(a@);
        vstd::utf8::encode_utf8_decode_utf8(b@);
    }
    true
}

/// The on-disk filesystem formats the mount layer knows of.
#[derive(Debug, Clone, Copy, PartialEq, Eq, Structural)]
pub enum FileSystemType {
    VFAT,
    EXT4,
}

impl FileSystemType {
    /// Parses a filesystem type name; only the known names are accepted.
    pub fn from_str(name: &str) -> (r: Option<Self>)
        requires
            name@ == "vfat"@ || name@ == "ext4"@,
        ensures
            name@ == "vfat"@ ==> r == Some(FileSystemType::VFAT),
            name@ == "ext4"@ ==> r == Some(FileSystemType::EXT4),
    {
        proof {
            reveal_strlit("vfat");
            reveal_strlit("ext4");
            assert("vfat"@ != "ext4"@) by {
                assert("vfat"@[0] == 'v');
                assert("ext4"@[0] == 'e');
            }
        }
        if str_eq(name, "vfat") {
            Some(FileSystemType::VFAT)
        } else if str_eq(name, "ext4") {
            Some(FileSystemType::EXT4)
        } else {
            proof {
                assert(false);
            }
            None
        }
    }

    /// The canonical name of this filesystem type.
    pub fn to_str(&self) -> (r: &'static str)
        ensures
            *self == FileSystemType::VFAT ==> r@ == "vfat"@,
            *self == FileSystemType::EXT4 ==> r@ == "ext4"@,
    {
        match self {
            FileSystemType::VFAT => "vfat",
            FileSystemType::EXT4 => "ext4",
        }
    }
}

/// What a mountable filesystem exposes to the mount layer. Implementations
/// live with each concrete filesystem.
pub trait FileSystem {
    fn fs_type(&self) -> FileSystemType;
}

/// The first filesystem mounted at `key`, if any.
pub open spec fn spec_lookup<F>(s: Seq<(String, F)>, key: Seq<char>) -> Option<F>
    decreases s.len(),
{
    if s.len() == 0 {
        None
    } else if s[0].0@ == key {
        Some(s[0].1)
    } else {
        spec_lookup(s.drop_first(), key)
    }
}

/// Maps mount paths to mounted filesystem instances; each path is mounted
/// at most once.
pub struct FileSystemManager<F> {
    pub mounted_fs: Vec<(String, F)>,
}

impl<F: FileSystem> FileSystemManager<F> {
    /// Paths are unique, so a lookup is unambiguous.
    pub open spec fn wf(&self) -> bool {
        forall|p: int, q: int|
            0 <= p < q < self.mounted_fs@.len() ==> self.mounted_fs@[p].0@ != self.mounted_fs@[
                q].0@
    }

    /// The filesystem mounted at `key`, if any.
    pub open spec fn spec_mounted(&self, key: Seq<char>) -> Option<F> {
        spec_lookup(self.mounted_fs@, key)
    }

    /// An empty mount table.
    pub fn new() -> (r: Self)
        ensures
            r.wf(),
            forall|key: Seq<char>| r.spec_mounted(key) is None,
    {
        FileSystemManager { mounted_fs: Vec::new() }
    }

    /// Mounts `fs` at `path`, replacing whatever was mounted there.
    pub fn mount(&mut self, fs: F, path: &str)
        requires
            old(self).wf(),
        ensures
            final(self).wf(),
            final(self).spec_mounted(path@) == Some(fs),
            forall|key: Seq<char>|
                key != path@ ==> final(self).spec_mounted(key) == old(self).spec_mounted(key),
    {
        let mut i: usize = 0;
        let n = self.mounted_fs.len();
        while i < n
            invariant
                self == old(self),
                old(self).wf(),
                n == self.mounted_fs@.len(),
                i <= n,
                forall|k: int| 0 <= k < i ==> self.mounted_fs@[k].0@ != path@,
            decreases n - i,
        {
            if str_eq(self.mounted_fs[i].0.as_str(), path) {
                let owned_path = copy_string(path);
                self.mounted_fs.set(i, (owned_path, fs));
                proof {
                    lemma_lookup_at(old(self).mounted_fs@, self.mounted_fs@, i as int, path@);
                }
                return ;
            }
            i = i + 1;
        }
        let owned_path = copy_string(path);
        self.mounted_fs.push((owned_path, fs));
        proof {
            lemma_lookup_append(old(self).mounted_fs@, self.mounted_fs@, path@);
        }
    }

    /// Unmounts whatever is mounted at `path`.
    pub fn unmount(&mut self, path: &str)
        requires
            old(self).wf(),
        ensures
            final(self).wf(),
            final(self).spec_mounted(path@) is None,
            forall|key: Seq<char>|
                key != path@ ==> final(self).spec_mounted(key) == old(self).spec_mounted(key),
    {
        let mut i: usize = 0;
        let n = self.mounted_fs.len();
        while i < n
            invariant
                self == old(self),
                old(self).wf(),
                n == self.mounted_fs@.len(),
                i <= n,
                forall|k: int| 0 <= k < i ==> self.mounted_fs@[k].0@ != path@,
            decreases n - i,
        {
            if str_eq(self.mounted_fs[i].0.as_str(), path) {
                self.mounted_fs.remove(i);
                proof {
                    lemma_lookup_remove(old(self).mounted_fs@, self.mounted_fs@, i as int,
                        path@);
                }
                return ;
            }
            i = i + 1;
        }
        proof {
            lemma_lookup_absent(self.mounted_fs@, path@);
        }
    }

    /// The filesystem mounted at the root path, which must exist.
    pub fn rootfs(&self) -> (r: &F)
        requires
            self.wf(),
            self.spec_mounted("/"@) is Some,
        ensures
            Some(*r) == self.spec_mounted("/"@),
    {
        let mut i: usize = 0;
        let n = self.mounted_fs.len();
        while i < n
            invariant
                n == self.mounted_fs@.len(),
                i <= n,
                self.wf(),
                self.spec_mounted("/"@) is Some,
                forall|k: int| 0 <= k < i ==> self.mounted_fs@[k].0@ != "/"@,
            decreases n - i,
        {
            if str_eq(self.mounted_fs[i].0.as_str(), "/") {
                proof {
                    lemma_lookup_found(self.mounted_fs@, i as int, "/"@);
                }
                return &self.mounted_fs[i].1;
            }
            i = i + 1;
        }
        proof {
            lemma_lookup_absent(self.mounted_fs@, "/"@);
        }
        unreached()
    }
}

impl<F: FileSystem> Default for FileSystemManager<F> {
    /// An empty mount table, the same as `new`.
    fn default() -> (r: Self)
        ensures
            r.wf(),
            forall|key: Seq<char>| r.spec_mounted(key) is None,
    {
        FileSystemManager::new()
    }
}

/// Copies a borrowed path into an owned string.
pub fn copy_string(s: &str) -> (r: String)
    ensures
        r@ == s@,
{
    s.to_owned()
}

/// A lookup walks to the first entry whose key matches.
pub proof fn lemma_lookup_found<F>(s: Seq<(String, F)>, i: int, key: Seq<char>)
    requires
        0 <= i < s.len(),
        s[i].0@ == key,
        forall|k: int| 0 <= k < i ==> s[k].0@ != key,
    ensures
        spec_lookup(s, key) == Some(s[i].1),
    decreases i,
{
    if i > 0 {
        lemma_lookup_found(s.drop_first(), i - 1, key);
    }
}

/// A lookup over entries that all miss yields nothing.
pub proof fn lemma_lookup_absent<F>(s: Seq<(String, F)>, key: Seq<char>)
    requires
        forall|k: int| 0 <= k < s.len() ==> s[k].0@ != key,
    ensures
        spec_lookup(s, key) is None,
    decreases s.len(),
{
    if s.len() > 0 {
        lemma_lookup_absent(s.drop_first(), key);
    }
}

/// Replacing entry `i`, whose key is `key` and unique, rebinds `key` alone.
pub proof fn lemma_lookup_at<F>(s0: Seq<(String, F)>, s1: Seq<(String, F)>, i: int, key: Seq<
    char>)
    requires
        0 <= i < s0.len(),
        s1.len() == s0.len(),
        forall|k: int| 0 <= k < s0.len() && k != i ==> s1[k] == s0[k],
        s1[i].0@ == key,
        forall|k: int| 0 <= k < i ==> s0[k].0@ != key,
        forall|p: int, q: int| 0 <= p < q < s0.len() ==> s0[p].0@ != s0[q].0@,
        s0[i].0@ == key,
    ensures
        spec_lookup(s1, key) == Some(s1[i].1),
        forall|k2: Seq<char>| k2 != key ==> spec_lookup(s1, k2) == spec_lookup(s0, k2),
        forall|p: int, q: int| 0 <= p < q < s1.len() ==> s1[p].0@ != s1[q].0@,
    decreases i,
{
    lemma_lookup_found(s1, i, key);
    assert forall|k2: Seq<char>| k2 != key implies spec_lookup(s1, k2) == spec_lookup(
        s0, k2) by {
        lemma_lookup_agree(s0, s1, k2);
    }
}

/// Two tables that agree except on entries keyed `skip` agree on every
/// other lookup.
pub proof fn lemma_lookup_agree<F>(s0: Seq<(String, F)>, s1: Seq<(String, F)>, key: Seq<char>)
    requires
        s1.len() == s0.len(),
        forall|k: int|
            0 <= k < s0.len() ==> (s1[k] == s0[k] || (s1[k].0@ != key && s0[k].0@ != key)),
    ensures
        spec_lookup(s1, key) == spec_lookup(s0, key),
    decreases s0.len(),
{
    if s0.len() > 0 {
        assert forall|k: int|
            0 <= k < s0.drop_first().len() implies (s1.drop_first()[k] == s0.drop_first()[k]
            || (s1.drop_first()[k].0@ != key && s0.drop_first()[k].0@ != key)) by {
            assert(s1.drop_first()[k] == s1[k + 1]);
            assert(s0.drop_first()[k] == s0[k + 1]);
        }
        lemma_lookup_agree(s0.drop_first(), s1.drop_first(), key);
    }
}

/// Appending a new entry binds its key and no other.
pub proof fn lemma_lookup_append<F>(s0: Seq<(String, F)>, s1: Seq<(String, F)>, key: Seq<
    char>)
    requires
        s1 == s0.push(s1.last()),
        s1.len() == s0.len() + 1,
        s1.last().0@ == key,
        forall|k: int| 0 <= k < s0.len() ==> s0[k].0@ != key,
    ensures
        spec_lookup(s1, key) == Some(s1.last().1),
        forall|k2: Seq<char>| k2 != key ==> spec_lookup(s1, k2) == spec_lookup(s0, k2),
    decreases s0.len(),
{
    lemma_lookup_found(s1, s0.len() as int, key);
    assert forall|k2: Seq<char>| k2 != key implies spec_lookup(s1, k2) == spec_lookup(
        s0, k2) by {
        lemma_lookup_push_other(s0, s1.last(), k2);
    }
}

/// A pushed entry with a different key leaves a lookup unchanged.
pub proof fn lemma_lookup_push_other<F>(s0: Seq<(String, F)>, e: (String, F), key: Seq<char>)
    requires
        e.0@ != key,
    ensures
        spec_lookup(s0.push(e), key) == spec_lookup(s0, key),
    decreases s0.len(),
{
    let s1 = s0.push(e);
    assert(s1.len() == s0.len() + 1);
    if s0.len() == 0 {
        assert(s1[0] == e);
        assert(s1.drop_first() =~= Seq::<(String, F)>::empty());
        assert(spec_lookup(s1.drop_first(), key) is None);
        assert(spec_lookup(s1, key) is None);
    } else {
        assert(s1[0] == s0[0]);
        if s0[0].0@ == key {
        } else {
            assert(s1.drop_first() =~= s0.drop_first().push(e));
            lemma_lookup_push_other(s0.drop_first(), e, key);
        }
    }
}

/// Removing the unique entry keyed `key` unbinds it and no other key.
pub proof fn lemma_lookup_remove<F>(s0: Seq<(String, F)>, s1: Seq<(String, F)>, i: int, key:
    Seq<char>)
    requires
        0 <= i < s0.len(),
        s1 == s0.remove(i),
        s0[i].0@ == key,
        forall|k: int| 0 <= k < i ==> s0[k].0@ != key,
        forall|p: int, q: int| 0 <= p < q < s0.len() ==> s0[p].0@ != s0[q].0@,
    ensures
        spec_lookup(s1, key) is None,
        forall|k2: Seq<char>| k2 != key ==> spec_lookup(s1, k2) == spec_lookup(s0, k2),
        forall|p: int, q: int| 0 <= p < q < s1.len() ==> s1[p].0@ != s1[q].0@,
{
    assert forall|k: int| 0 <= k < s1.len() implies s1[k].0@ != key by {
        if k < i {
        } else {
            assert(s1[k] == s0[k + 1]);
        }
    }
    lemma_lookup_absent(s1, key);
    assert forall|k2: Seq<char>| k2 != key implies spec_lookup(s1, k2) == spec_lookup(
        s0, k2) by {
        lemma_lookup_remove_other(s0, i, k2);
    }
}

/// Removing an entry keyed otherwise leaves a lookup unchanged.
pub proof fn lemma_lookup_remove_other<F>(s0: Seq<(String, F)>, i: int, key: Seq<char>)
    requires
        0 <= i < s0.len(),
        s0[i].0@ != key,
    ensures
        spec_lookup(s0.remove(i), key) == spec_lookup(s0, key),
    decreases s0.len(),
{
    if i == 0 {
        assert(s0.remove(0) =~= s0.drop_first());
    } else {
        assert(s0.remove(i).drop_first() =~= s0.drop_first().remove(i - 1));
        if s0[0].0@ == key {
        } else {
            lemma_lookup_remove_other(s0.drop_first(), i - 1, key);
        }
    }
}

} // verus!
