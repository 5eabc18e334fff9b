//! The in-memory file cache that backs HTTP body delivery, and the
//! delivery package that streams a response head and its cached body.
//!
//! Files are read from disk by the embedder, which hands their bytes and
//! modification times to `insert_file`; eviction and replacement follow
//! the changelog protocol through `apply_diff`.  Every path the router
//! resolves either hits the cache or turns into a 404.

use vstd::prelude::*;
use vstd::string::StringSliceAdditionalSpecFns;

use crate::http::{bytes_eq, slice_to_vec_u8};
use crate::server_G::{ByteSink, IoErr, SendTo};

verus! {

/// Which application protocol a connection speaks.
#[derive(Debug, PartialEq, Eq, Structural, Clone, Copy)]
pub enum Protocol {
    HTTP,
    WEBSOCKET,
}

/// One cached file: its bytes and its modification time, as seconds
/// since the epoch.
#[derive(Debug, Clone)]
pub struct V_file {
    pub data: Vec<u8>,
    pub modified: i64,
}

/// The mathematical content of a cached file.
pub ghost struct VfileView {
    pub data: Seq<u8>,
    pub modified: int,
}

impl View for V_file {
    type V = VfileView;

    open spec fn view(&self) -> VfileView {
        VfileView { data: self.data@, modified: self.modified as int }
    }
}

/// The file cache: relative path to cached file, keys distinct, plus the
/// configured client root directory (held for the embedder, which does
/// the disk reads).
pub struct Vfs {
    pub files: Vec<(Vec<u8>, V_file)>,
    pub client_dir: Vec<u8>,
}

/// The view of the cache's entries.
pub open spec fn spec_files(v: Seq<(Vec<u8>, V_file)>) -> Seq<(Seq<u8>, VfileView)> {
    v.map_values(|p: (Vec<u8>, V_file)| (p.0@, p.1@))
}

/// Look a path up among cache entries: the first with that key.
pub open spec fn spec_file_lookup(fs: Seq<(Seq<u8>, VfileView)>, key: Seq<u8>) -> Option<
    VfileView,
>
    decreases fs.len(),
{
    if fs.len() == 0 {
        None
    } else if fs[0].0 == key {
        Some(fs[0].1)
    } else {
        spec_file_lookup(fs.skip(1), key)
    }
}

/// Insert among cache entries, replacing the first entry with an equal
/// key, else appending.
pub open spec fn spec_file_insert(
    fs: Seq<(Seq<u8>, VfileView)>,
    key: Seq<u8>,
    value: VfileView,
) -> Seq<(Seq<u8>, VfileView)>
    decreases fs.len(),
{
    if fs.len() == 0 {
        seq![(key, value)]
    } else if fs[0].0 == key {
        seq![(key, value)] + fs.skip(1)
    } else {
        seq![fs[0]] + spec_file_insert(fs.skip(1), key, value)
    }
}

/// Remove the first cache entry with this key, if any.
pub open spec fn spec_file_remove(fs: Seq<(Seq<u8>, VfileView)>, key: Seq<u8>) -> Seq<
    (Seq<u8>, VfileView),
>
    decreases fs.len(),
{
    if fs.len() == 0 {
        fs
    } else if fs[0].0 == key {
        fs.skip(1)
    } else {
        seq![fs[0]] + spec_file_remove(fs.skip(1), key)
    }
}

impl Vfs {
    /// An empty cache with no client root configured.
    pub fn new() -> (r: Vfs)
        ensures
            spec_files(r.files@) =~= Seq::<(Seq<u8>, VfileView)>::empty(),
            r.client_dir@ =~= Seq::<u8>::empty(),
    {
        Vfs { files: Vec::new(), client_dir: Vec::new() }
    }

    /// The cached file at a path, if the path hits the cache.
    pub fn get<'a>(&'a self, path: &[u8]) -> (r: Option<&'a V_file>)
        ensures
            match r {
                Some(f) => spec_file_lookup(spec_files(self.files@), path@) == Some(f@),
                None => spec_file_lookup(spec_files(self.files@), path@) is None,
            },
    {
        let n = self.files.len();
        let mut i: usize = 0;
        while i < n
            invariant
                n == self.files@.len(),
                i <= n,
                forall|j: int| 0 <= j < i ==> spec_files(self.files@)[j].0 != path@,
            decreases n - i,
        {
            if bytes_eq(self.files[i].0.as_slice(), path) {
                proof {
                    lemma_file_lookup_found(spec_files(self.files@), path@, i as int);
                }
                return Some(&self.files[i].1);
            }
            i = i + 1;
        }
        proof {
            lemma_file_lookup_missing(spec_files(self.files@), path@);
        }
        None
    }

    /// The size in bytes of the cached file at a path.
    pub fn get_size(&self, path: &[u8]) -> (r: Option<usize>)
        ensures
            match spec_file_lookup(spec_files(self.files@), path@) {
                Some(f) => f.data.len() <= usize::MAX && r == Some(f.data.len() as usize),
                None => r is None,
            },
    {
        match self.get(path) {
            Some(f) => Some(f.data.len()),
            None => None,
        }
    }

    /// Cache a file's bytes under a path, replacing any file already
    /// cached there.
    pub fn insert_file(&mut self, path: Vec<u8>, file: V_file)
        ensures
            spec_files(final(self).files@) == spec_file_insert(
                spec_files(old(self).files@),
                path@,
                file@,
            ),
            final(self).client_dir == old(self).client_dir,
    {
        let n = self.files.len();
        let mut i: usize = 0;
        while i < n
            invariant
                n == self.files@.len(),
                i <= n,
                *self == *old(self),
                forall|j: int| 0 <= j < i ==> spec_files(self.files@)[j].0 != path@,
            decreases n - i,
        {
            if bytes_eq(self.files[i].0.as_slice(), path.as_slice()) {
                proof {
                    lemma_file_insert_found(spec_files(self.files@), path@, file@, i as int);
                }
                self.files.set(i, (path, file));
                proof {
                    assert(spec_files(self.files@) =~= spec_files(old(self).files@).update(
                        i as int,
                        (path@, file@),
                    ));
                }
                return ;
            }
            i = i + 1;
        }
        proof {
            lemma_file_insert_missing(spec_files(self.files@), path@, file@);
        }
        self.files.push((path, file));
        proof {
            assert(spec_files(self.files@) =~= spec_files(old(self).files@).push(
                (path@, file@),
            ));
        }
    }

    /// Evict the file cached at a path, if any.
    pub fn remove(&mut self, path: &[u8])
        ensures
            spec_files(final(self).files@) == spec_file_remove(
                spec_files(old(self).files@),
                path@,
            ),
            final(self).client_dir == old(self).client_dir,
    {
        let n = self.files.len();
        let mut i: usize = 0;
        while i < n
            invariant
                n == self.files@.len(),
                i <= n,
                *self == *old(self),
                forall|j: int| 0 <= j < i ==> spec_files(self.files@)[j].0 != path@,
            decreases n - i,
        {
            if bytes_eq(self.files[i].0.as_slice(), path) {
                proof {
                    lemma_file_remove_found(spec_files(self.files@), path@, i as int);
                }
                let _ = self.files.remove(i);
                proof {
                    assert(spec_files(self.files@) =~= spec_files(old(self).files@).remove(
                        i as int,
                    ));
                }
                return ;
            }
            i = i + 1;
        }
        proof {
            lemma_file_remove_missing(spec_files(self.files@), path@);
        }
    }

    /// One changelog block: `DELETE\t<path>` evicts that path at once
    /// and yields nothing; any other block names a path the embedder
    /// must (re)load from disk and hand back through `insert_file`.
    pub fn apply_diff(&mut self, diff: &[u8]) -> (r: Option<Vec<u8>>)
        ensures
            ({
                let tab = "DELETE\t".spec_bytes();
                if diff@.len() >= tab.len() && diff@.take(tab.len() as int) == tab {
                    r is None && spec_files(final(self).files@) == spec_file_remove(
                        spec_files(old(self).files@),
                        diff@.skip(tab.len() as int),
                    )
                } else {
                    (r matches Some(p) && p@ == diff@) && *final(self) == *old(self)
                }
            }),
    {
        let tab = "DELETE\t".as_bytes();
        if diff.len() >= tab.len() && bytes_eq(
            vstd::slice::slice_subrange(diff, 0, tab.len()),
            tab,
        ) {
            let dl = diff.len();
            let path = vstd::slice::slice_subrange(diff, tab.len(), dl);
            proof {
                assert(path@ =~= diff@.skip("DELETE\t".spec_bytes().len() as int));
            }
            self.remove(path);
            None
        } else {
            Some(slice_to_vec_u8(diff))
        }
    }
}

proof fn lemma_file_lookup_found(fs: Seq<(Seq<u8>, VfileView)>, key: Seq<u8>, i: int)
    requires
        0 <= i < fs.len(),
        fs[i].0 == key,
        forall|j: int| 0 <= j < i ==> fs[j].0 != key,
    ensures
        spec_file_lookup(fs, key) == Some(fs[i].1),
    decreases i,
{
    if i > 0 {
        lemma_file_lookup_found(fs.skip(1), key, i - 1);
    }
}

proof fn lemma_file_lookup_missing(fs: Seq<(Seq<u8>, VfileView)>, key: Seq<u8>)
    requires
        forall|j: int| 0 <= j < fs.len() ==> fs[j].0 != key,
    ensures
        spec_file_lookup(fs, key) is None,
    decreases fs.len(),
{
    if fs.len() > 0 {
        lemma_file_lookup_missing(fs.skip(1), key);
    }
}

proof fn lemma_file_insert_found(fs: Seq<(Seq<u8>, VfileView)>, key: Seq<u8>, v: VfileView, i: int)
    requires
        0 <= i < fs.len(),
        fs[i].0 == key,
        forall|j: int| 0 <= j < i ==> fs[j].0 != key,
    ensures
        spec_file_insert(fs, key, v) == fs.update(i, (key, v)),
    decreases i,
{
    if i == 0 {
        assert(seq![(key, v)] + fs.skip(1) =~= fs.update(0, (key, v)));
    } else {
        lemma_file_insert_found(fs.skip(1), key, v, i - 1);
        assert(seq![fs[0]] + fs.skip(1).update(i - 1, (key, v)) =~= fs.update(i, (key, v)));
    }
}

proof fn lemma_file_insert_missing(fs: Seq<(Seq<u8>, VfileView)>, key: Seq<u8>, v: VfileView)
    requires
        forall|j: int| 0 <= j < fs.len() ==> fs[j].0 != key,
    ensures
        spec_file_insert(fs, key, v) == fs.push((key, v)),
    decreases fs.len(),
{
    if fs.len() == 0 {
        assert(spec_file_insert(fs, key, v) =~= fs.push((key, v)));
    } else {
        lemma_file_insert_missing(fs.skip(1), key, v);
        assert(seq![fs[0]] + fs.skip(1).push((key, v)) =~= fs.push((key, v)));
    }
}

proof fn lemma_file_remove_found(fs: Seq<(Seq<u8>, VfileView)>, key: Seq<u8>, i: int)
    requires
        0 <= i < fs.len(),
        fs[i].0 == key,
        forall|j: int| 0 <= j < i ==> fs[j].0 != key,
    ensures
        spec_file_remove(fs, key) == fs.remove(i),
    decreases i,
{
    if i == 0 {
        assert(fs.skip(1) =~= fs.remove(0));
    } else {
        lemma_file_remove_found(fs.skip(1), key, i - 1);
        assert(seq![fs[0]] + fs.skip(1).remove(i - 1) =~= fs.remove(i));
    }
}

proof fn lemma_file_remove_missing(fs: Seq<(Seq<u8>, VfileView)>, key: Seq<u8>)
    requires
        forall|j: int| 0 <= j < fs.len() ==> fs[j].0 != key,
    ensures
        spec_file_remove(fs, key) == fs,
    decreases fs.len(),
{
    if fs.len() == 0 {
    } else {
        lemma_file_remove_missing(fs.skip(1), key);
        assert(seq![fs[0]] + fs.skip(1) =~= fs);
    }
}

/// The delivery of one HTTP response: the serialized head, then the
/// cached body bytes, streamed through a sink with a single cursor.
#[derive(Debug)]
pub struct Package {
    pub head: Vec<u8>,
    pub body: V_file,
    pub writ: usize,
}

impl Package {
    /// A delivery of the given head and body, nothing sent yet.  The
    /// combined length must fit the machine's address space.
    pub fn new(head: Vec<u8>, body: V_file) -> (r: Package)
        requires
            head@.len() + body@.data.len() <= usize::MAX,
        ensures
            r.head == head,
            r.body == body,
            r.writ == 0,
            r.send_inv(),
    {
        Package { head, body, writ: 0 }
    }
}

impl Default for Package {
    fn default() -> (r: Self)
        ensures
            r.head@.len() == 0,
            r.body@.data.len() == 0,
            r.writ == 0,
    {
        Package { head: Vec::new(), body: V_file { data: Vec::new(), modified: 0 }, writ: 0 }
    }
}

impl Package {
    /// The whole delivery: the head, then the body bytes.
    pub open spec fn wire_bytes(&self) -> Seq<u8> {
        self.head@ + self.body@.data
    }
}

impl SendTo for Package {
    /// The cursor never passes the end of head plus body, which together
    /// fit the machine's address space.
    open spec fn send_inv(&self) -> bool {
        &&& self.writ <= self.wire_bytes().len()
        &&& self.wire_bytes().len() <= usize::MAX
    }

    /// The head-then-body bytes past the cursor.
    open spec fn queued(&self) -> Seq<u8> {
        if self.writ >= self.wire_bytes().len() {
            Seq::empty()
        } else {
            self.wire_bytes().skip(self.writ as int)
        }
    }

    proof fn default_sends(s: Self) {
    }

    /// One chunk — of the head while any of it is pending, then of the
    /// cached body — goes into the sink; the cursor advances by what
    /// the sink accepted.  An exhausted delivery writes nothing and
    /// reports zero.
    fn send_to<W: ByteSink>(&mut self, wr: &mut W) -> (r: Result<usize, IoErr>)
        ensures
            final(self).head == old(self).head,
            final(self).body == old(self).body,
            match r {
                Ok(n) => final(self).writ == old(self).writ + n,
                Err(_) => final(self).writ == old(self).writ,
            },
            old(self).writ >= old(self).wire_bytes().len() ==> r == Ok::<usize, IoErr>(0usize),
    {
        let hl = self.head.len();
        let bl = self.body.data.len();
        if self.writ >= hl + bl {
            proof {
                assert(self.queued() =~= old(self).queued().skip(0));
                assert(wr.sink_taken() =~= old(wr).sink_taken() + old(self).queued().take(0));
            }
            return Ok(0);
        }
        let ghost q0 = self.queued();
        let written = if self.writ < hl {
            let chunk = vstd::slice::slice_subrange(self.head.as_slice(), self.writ, hl);
            proof {
                assert(chunk@ =~= q0.take(hl - self.writ));
                assert forall|n: int| 0 <= n <= chunk@.len() implies chunk@.take(n) =~= q0.take(
                    n,
                ) by {
                    assert(chunk@.take(n) =~= q0.take(hl - self.writ).take(n));
                }
            }
            wr.sink_write(chunk)
        } else {
            let chunk = vstd::slice::slice_subrange(
                self.body.data.as_slice(),
                self.writ - hl,
                bl,
            );
            proof {
                assert(chunk@ =~= q0);
            }
            wr.sink_write(chunk)
        };
        match written {
            Ok(n) => {
                self.writ = self.writ + n;
                proof {
                    assert(self.queued() =~= old(self).queued().skip(n as int));
                }
                Ok(n)
            },
            Err(e) => Err(e),
        }
    }
}

} // verus!
