//! The virtual file system: files under `/tmp/` (and any other path that is
//! not kept in the browser's private file system) live in memory; `/dev/null`,
//! `/dev/zero` and `/dev/random` are emulated; every other path belongs to
//! the persistent store, which the host serves.

use vstd::prelude::*;
use crate::text::{owned, str_eq, views, starts_with_seq};
use crate::table::{Table, entry_keys};
use crate::path::{normalize, resolve, normalize_path, resolve_path_in, has_prefix, is_absolute, lemma_resolve_absolute, lemma_normalize_idempotent};

verus! {

/// Why a file operation of the in-memory layer did not complete.
#[derive(Debug, PartialEq, Eq, Structural)]
pub enum VfsError {
    /// The path names no file in memory.
    NotFound,
    /// The path belongs to the persistent store: the host must serve it.
    Persistent,
}

/// What a virtual file system holds.
pub struct VfsView {
    /// The files in memory, by path.
    pub files: Map<Seq<char>, Seq<u8>>,
    /// The paths known to exist in the persistent store, in the order in
    /// which they were first opened.
    pub stored: Seq<Seq<char>>,
    /// The working directory.
    pub cwd: Seq<char>,
    /// The environment.
    pub env: Map<Seq<char>, Seq<char>>,
    /// When each file in memory was last written (host clock, milliseconds).
    pub times: Map<Seq<char>, u64>,
    /// The host clock as last reported.
    pub clock: u64,
    /// The contents of stored files as the host last read them for the
    /// command at hand, by path.
    pub loaded: Map<Seq<char>, Seq<u8>>,
}

/// What the commands can read, by path: the files in memory, and the stored
/// files that the host has read (memory first).
pub open spec fn readable(v: VfsView) -> Map<Seq<char>, Seq<u8>> {
    v.loaded.union_prefer_right(v.files)
}

/// `v` with `b` as the whole content of the file at `p`, written now.
pub open spec fn put(v: VfsView, p: Seq<char>, b: Seq<u8>) -> VfsView {
    VfsView { files: v.files.insert(p, b), times: v.times.insert(p, v.clock), ..v }
}

/// `v` after writing `content` at `offset` of the (normalised) path `p`
/// (see `written_files`); a file in memory that is written is stamped now.
pub open spec fn written(v: VfsView, p: Seq<char>, content: Seq<u8>, offset: nat) -> VfsView {
    if starts_with_seq(p, "/dev/"@) || is_persistent(p) {
        v
    } else {
        VfsView { files: written_files(v.files, p, content, offset), times: v.times.insert(p, v.clock), ..v }
    }
}

/// Whether `p` belongs to the persistent store: everything but `/tmp/...`
/// and `/dev/...`.
pub open spec fn is_persistent(p: Seq<char>) -> bool {
    !starts_with_seq(p, "/tmp/"@) && !starts_with_seq(p, "/dev/"@)
}

/// `n` zero bytes.
pub open spec fn zeros(n: nat) -> Seq<u8> {
    Seq::new(n, |i: int| 0u8)
}

/// `v` cut or padded with zeros to `n` bytes.
pub open spec fn resized(v: Seq<u8>, n: nat) -> Seq<u8> {
    if n <= v.len() {
        v.take(n as int)
    } else {
        v + zeros((n - v.len()) as nat)
    }
}

/// What `/dev/random` gives at `offset`: the byte `(offset + i) mod 256` at
/// index `i`.
pub open spec fn random_bytes(offset: u64, length: nat) -> Seq<u8> {
    Seq::new(length, |i: int| ((offset + i) % 256) as u8)
}

/// The bytes `[offset, offset + length)` of `v`, cut at its end.
pub open spec fn window(v: Seq<u8>, offset: u64, length: nat) -> Seq<u8> {
    if offset >= v.len() {
        Seq::empty()
    } else if offset + length <= v.len() {
        v.subrange(offset as int, offset + length)
    } else {
        v.subrange(offset as int, v.len() as int)
    }
}

/// The result of reading `length` bytes at `offset` of the (normalised) path
/// `p`, with `loaded` the stored files that the host has read.
pub open spec fn read_result(files: Map<Seq<char>, Seq<u8>>, loaded: Map<Seq<char>, Seq<u8>>, p: Seq<char>, offset: u64, length: nat) -> Result<Seq<u8>, VfsError> {
    if p == "/dev/null"@ {
        Ok(Seq::empty())
    } else if p == "/dev/zero"@ {
        Ok(zeros(length))
    } else if p == "/dev/random"@ {
        Ok(random_bytes(offset, length))
    } else if !is_persistent(p) {
        if files.dom().contains(p) {
            Ok(window(files[p], offset, length))
        } else {
            Err(VfsError::NotFound)
        }
    } else if loaded.dom().contains(p) {
        Ok(window(loaded[p], offset, length))
    } else {
        Err(VfsError::Persistent)
    }
}

/// How many bytes a read of the whole (normalised) path `p` asks for: the
/// size of a file in memory, or of a stored file that the host has read;
/// none of a device or of a missing file.
pub open spec fn whole_length(v: VfsView, p: Seq<char>) -> nat {
    if starts_with_seq(p, "/dev/"@) {
        0
    } else if !is_persistent(p) {
        if v.files.dom().contains(p) { v.files[p].len() } else { 0 }
    } else {
        if v.loaded.dom().contains(p) { v.loaded[p].len() } else { 0 }
    }
}

/// `v` with `content` written at `offset`, zero-padded where it was shorter.
pub open spec fn overwrite(v: Seq<u8>, content: Seq<u8>, offset: nat) -> Seq<u8> {
    let end = offset + content.len();
    let grown = if v.len() < end { v + zeros((end - v.len()) as nat) } else { v };
    grown.take(offset as int) + content + grown.skip(end as int)
}

/// The files after writing `content` at `offset` of the (normalised) path `p`.
pub open spec fn written_files(files: Map<Seq<char>, Seq<u8>>, p: Seq<char>, content: Seq<u8>, offset: nat) -> Map<Seq<char>, Seq<u8>> {
    if starts_with_seq(p, "/dev/"@) || is_persistent(p) {
        files
    } else {
        let old = if files.dom().contains(p) { files[p] } else { Seq::empty() };
        files.insert(p, overwrite(old, content, offset))
    }
}

/// The result of that write.
pub open spec fn write_result(p: Seq<char>, n: nat) -> Result<nat, VfsError> {
    if starts_with_seq(p, "/dev/"@) || !is_persistent(p) {
        Ok(n)
    } else {
        Err(VfsError::Persistent)
    }
}

/// The size reported for the (normalised) path `p`.
pub open spec fn size_of(files: Map<Seq<char>, Seq<u8>>, p: Seq<char>) -> u64 {
    if p == "/dev/null"@ {
        0
    } else if p == "/dev/zero"@ || p == "/dev/random"@ {
        u64::MAX
    } else if !is_persistent(p) && files.dom().contains(p) {
        files[p].len() as u64
    } else {
        0
    }
}

/// When the file at `p` was last written (0 if never recorded).
pub open spec fn time_of(times: Map<Seq<char>, u64>, p: Seq<char>) -> u64 {
    if times.dom().contains(p) { times[p] } else { 0 }
}

/// The paths that a listing shows: the files in memory, then the stored
/// paths that are not also in memory.
pub open spec fn listed(files: Map<Seq<char>, Seq<u8>>, stored: Seq<Seq<char>>) -> Set<Seq<char>> {
    files.dom().union(stored.to_set())
}

/// Whether the stored path `p` stays when `path` is forgotten: it differs
/// from `path`, or (with `under`) does not start with it.
pub open spec fn stays(p: Seq<char>, path: Seq<char>, under: bool) -> bool {
    if under { !starts_with_seq(p, path) } else { p != path }
}

/// The emulated devices all lie under `/dev/`.
proof fn lemma_devices(p: Seq<char>)
    requires
        !starts_with_seq(p, "/dev/"@),
    ensures
        p != "/dev/null"@,
        p != "/dev/zero"@,
        p != "/dev/random"@,
{
    reveal_strlit("/dev/");
    reveal_strlit("/dev/null");
    reveal_strlit("/dev/zero");
    reveal_strlit("/dev/random");
    if p == "/dev/null"@ {
        assert(p.subrange(0, 5) =~= "/dev/"@);
    }
    if p == "/dev/zero"@ {
        assert(p.subrange(0, 5) =~= "/dev/"@);
    }
    if p == "/dev/random"@ {
        assert(p.subrange(0, 5) =~= "/dev/"@);
    }
}

/// What a write puts at `offset` of a file in memory, a read of that range
/// gives back.
pub proof fn lemma_write_then_read(files: Map<Seq<char>, Seq<u8>>, loaded: Map<Seq<char>, Seq<u8>>, p: Seq<char>, content: Seq<u8>, offset: u64)
    requires
        !is_persistent(p),
        !starts_with_seq(p, "/dev/"@),
    ensures
        read_result(written_files(files, p, content, offset as nat), loaded, p, offset, content.len()) == Ok::<Seq<u8>, VfsError>(content),
{
    lemma_devices(p);
    let old = if files.dom().contains(p) { files[p] } else { Seq::empty() };
    let v = overwrite(old, content, offset as nat);
    let end = offset + content.len();
    let grown = if old.len() < end { old + zeros((end - old.len()) as nat) } else { old };
    assert(grown.len() >= end);
    assert(v.len() == grown.len());
    assert(written_files(files, p, content, offset as nat)[p] == v);
    if content.len() == 0 {
        assert(window(v, offset, 0) =~= content);
    } else {
        assert(v.subrange(offset as int, offset + content.len()) =~= content);
    }
}

/// A write changes no file but its own.
pub proof fn lemma_write_keeps_others(files: Map<Seq<char>, Seq<u8>>, p: Seq<char>, content: Seq<u8>, offset: nat)
    ensures
        written_files(files, p, content, offset).remove(p) == files.remove(p),
{
    assert(written_files(files, p, content, offset).remove(p) =~= files.remove(p));
}

/// A file put in memory whole reads back whole.
pub proof fn lemma_put_then_read(files: Map<Seq<char>, Seq<u8>>, loaded: Map<Seq<char>, Seq<u8>>, p: Seq<char>, content: Seq<u8>)
    requires
        !is_persistent(p),
        !starts_with_seq(p, "/dev/"@),
    ensures
        read_result(files.insert(p, content), loaded, p, 0, content.len()) == Ok::<Seq<u8>, VfsError>(content),
{
    lemma_devices(p);
    if content.len() > 0 {
        assert(content.subrange(0, content.len() as int) =~= content);
    } else {
        assert(window(content, 0, 0) =~= content);
    }
}

/// A stored file that the host has read reads back whole.
pub proof fn lemma_loaded_then_read(files: Map<Seq<char>, Seq<u8>>, loaded: Map<Seq<char>, Seq<u8>>, p: Seq<char>, content: Seq<u8>)
    requires
        is_persistent(p),
    ensures
        read_result(files, loaded.insert(p, content), p, 0, content.len()) == Ok::<Seq<u8>, VfsError>(content),
{
    lemma_devices(p);
    if content.len() > 0 {
        assert(content.subrange(0, content.len() as int) =~= content);
    } else {
        assert(window(content, 0, 0) =~= content);
    }
}

/// The devices: `/dev/null` reads empty, `/dev/zero` reads `length` zero
/// bytes and `/dev/random` `length` bytes, whatever the files hold; a write
/// to any of them is taken whole and changes nothing.
pub proof fn lemma_devices_read_write(v: VfsView, files: Map<Seq<char>, Seq<u8>>, loaded: Map<Seq<char>, Seq<u8>>, offset: u64, length: nat, content: Seq<u8>)
    ensures
        read_result(files, loaded, "/dev/null"@, offset, length) == Ok::<Seq<u8>, VfsError>(Seq::empty()),
        read_result(files, loaded, "/dev/zero"@, offset, length) matches Ok(z)
            && z.len() == length && forall|i: int| 0 <= i < z.len() ==> #[trigger] z[i] == 0u8,
        read_result(files, loaded, "/dev/random"@, offset, length) matches Ok(z) && z.len() == length,
        written(v, "/dev/null"@, content, offset as nat) == v,
        written(v, "/dev/zero"@, content, offset as nat) == v,
        write_result("/dev/null"@, content.len()) == Ok::<nat, VfsError>(content.len()),
        write_result("/dev/zero"@, content.len()) == Ok::<nat, VfsError>(content.len()),
{
    reveal_strlit("/dev/");
    reveal_strlit("/dev/null");
    reveal_strlit("/dev/zero");
    reveal_strlit("/dev/random");
    assert("/dev/zero"@ != "/dev/null"@) by {
        assert("/dev/zero"@[5] != "/dev/null"@[5]);
    }
    assert("/dev/random"@ != "/dev/null"@ && "/dev/random"@ != "/dev/zero"@) by {
        assert("/dev/random"@.len() != "/dev/null"@.len());
    }
    assert(starts_with_seq("/dev/null"@, "/dev/"@)) by {
        assert("/dev/null"@.subrange(0, 5) =~= "/dev/"@);
    }
    assert(starts_with_seq("/dev/zero"@, "/dev/"@)) by {
        assert("/dev/zero"@.subrange(0, 5) =~= "/dev/"@);
    }
}

/// A removed file is not found.
pub proof fn lemma_unlink_then_read(files: Map<Seq<char>, Seq<u8>>, loaded: Map<Seq<char>, Seq<u8>>, p: Seq<char>, offset: u64, length: nat)
    requires
        !is_persistent(p),
        !starts_with_seq(p, "/dev/"@),
    ensures
        read_result(files.remove(p), loaded, p, offset, length) == Err::<Seq<u8>, VfsError>(VfsError::NotFound),
{
    lemma_devices(p);
}

/// A file cut or padded to `n` bytes has size `n`.
pub proof fn lemma_truncate_then_size(files: Map<Seq<char>, Seq<u8>>, p: Seq<char>, n: u64)
    requires
        !is_persistent(p),
        !starts_with_seq(p, "/dev/"@),
        files.dom().contains(p),
    ensures
        size_of(files.insert(p, resized(files[p], n as nat)), p) == n,
{
    lemma_devices(p);
    assert(resized(files[p], n as nat).len() == n);
}

/// The virtual file system.
pub struct Vfs {
    memory_files: Table<Vec<u8>>,
    mtimes: Table<u64>,
    clock: u64,
    opfs_files: Vec<String>,
    cwd: String,
    env_vars: Table<String>,
    loaded: Table<Vec<u8>>,
}

impl View for Vfs {
    type V = VfsView;

    closed spec fn view(&self) -> VfsView {
        VfsView {
            files: self.memory_files@,
            stored: views(self.opfs_files@),
            cwd: self.cwd@,
            env: self.env_vars@,
            times: self.mtimes@,
            clock: self.clock,
            loaded: self.loaded@,
        }
    }
}

/// A copy of the bytes `v[from..to]`.
fn copy_bytes(v: &Vec<u8>, from: usize, to: usize) -> (r: Vec<u8>)
    requires
        from <= to <= v.len(),
    ensures
        r@ == v@.subrange(from as int, to as int),
{
    let mut r: Vec<u8> = Vec::new();
    let mut i = from;
    while i < to
        invariant
            from <= i <= to <= v.len(),
            r@ == v@.subrange(from as int, i as int),
        decreases to - i,
    {
        r.push(v[i]);
        i = i + 1;
        assert(r@ =~= v@.subrange(from as int, i as int));
    }
    r
}

/// The bytes of `v` in `[offset, offset + length)`, cut at its end.
fn window_of(v: &Vec<u8>, offset: u64, length: usize) -> (r: Result<Vec<u8>, VfsError>)
    ensures
        r == Ok::<Vec<u8>, VfsError>(r->Ok_0),
        r->Ok_0@ == window(v@, offset, length as nat),
{
    let len = v.len();
    if offset >= len as u64 {
        Ok(Vec::new())
    } else {
        let start = offset as usize;
        let end = if length <= len - start { start + length } else { len };
        Ok(copy_bytes(v, start, end))
    }
}

/// Pads `v` with zeros up to `n` bytes or cuts it to `n` bytes.
fn resize_bytes(v: &mut Vec<u8>, n: usize)
    ensures
        final(v)@ == resized(old(v)@, n as nat),
{
    let ghost v0 = v@;
    if n <= v.len() {
        v.truncate(n);
        assert(v@ =~= resized(v0, n as nat));
        return;
    }
    while v.len() < n
        invariant
            v0.len() <= v.len() <= n,
            v@ == v0 + zeros((v.len() - v0.len()) as nat),
        decreases n - v.len(),
    {
        v.push(0u8);
        assert(v@ =~= v0 + zeros((v.len() - v0.len()) as nat));
    }
}

impl Vfs {
    /// The paths of the files in memory, in the order in which they were
    /// first written.
    pub closed spec fn memory_order(&self) -> Seq<Seq<char>> {
        self.memory_files.key_order()
    }

    /// The memory order holds each file in memory once.
    pub proof fn lemma_memory_order(&self)
        requires
            self.wf(),
        ensures
            self.memory_order().no_duplicates(),
            self.memory_order().to_set() == self@.files.dom(),
    {
        self.memory_files.lemma_key_order();
    }

    /// The order of a listing: the files in memory, then the stored paths
    /// not also in memory, in the order in which they were first opened.
    pub open spec fn listing(&self) -> Seq<Seq<char>> {
        self.memory_order() + self@.stored.filter(|p: Seq<char>| !self@.files.dom().contains(p))
    }

    /// At most one entry per file, and each stored path listed once.
    pub closed spec fn wf(&self) -> bool {
        &&& self.memory_files.wf()
        &&& views(self.opfs_files@).no_duplicates()
        &&& is_absolute(self.cwd@)
    }

    /// The working directory is always absolute.
    pub proof fn lemma_cwd_absolute(&self)
        requires
            self.wf(),
        ensures
            is_absolute(self@.cwd),
    {
    }

    /// An empty file system in `/`, with `HOME=/` and `PATH=/bin`.
    pub fn new() -> (r: Vfs)
        ensures
            r.wf(),
            r@.files == Map::<Seq<char>, Seq<u8>>::empty(),
            r@.stored == Seq::<Seq<char>>::empty(),
            r@.cwd == "/"@,
            r@.env == Map::<Seq<char>, Seq<char>>::empty().insert("HOME"@, "/"@).insert("PATH"@, "/bin"@),
            r@.times == Map::<Seq<char>, u64>::empty(),
            r@.clock == 0,
            r@.loaded == Map::<Seq<char>, Seq<u8>>::empty(),
    {
        let mut env_vars: Table<String> = Table::new();
        env_vars.insert(owned("HOME"), owned("/"));
        env_vars.insert(owned("PATH"), owned("/bin"));
        let r = Vfs { memory_files: Table::new(), mtimes: Table::new(), clock: 0, opfs_files: Vec::new(), cwd: owned("/"), env_vars, loaded: Table::new() };
        assert(views(r.opfs_files@) =~= Seq::<Seq<char>>::empty());
        proof {
            reveal_strlit("/");
        }
        r
    }

    /// Whether `path` belongs to the persistent store.
    pub fn is_opfs_path(&self, path: &str) -> (r: bool)
        ensures
            r == is_persistent(path@),
    {
        !has_prefix(path, "/tmp/") && !has_prefix(path, "/dev/")
    }

    /// The normal form of `path`.
    pub fn normalize_path(path: &str) -> (r: String)
        ensures
            r@ == normalize(path@),
    {
        normalize_path(path)
    }

    /// `path` read from the working directory.
    pub fn resolve_path(&self, path: &str) -> (r: String)
        ensures
            r@ == resolve(self@.cwd, path@),
    {
        resolve_path_in(self.cwd.as_str(), path)
    }

    /// The working directory.
    pub fn get_cwd(&self) -> (r: &str)
        ensures
            r@ == self@.cwd,
    {
        self.cwd.as_str()
    }

    /// The size of the file at `path` (`u64::MAX` for the endless devices,
    /// 0 for a missing or stored file).
    pub fn get_file_size(&self, path: &str) -> (r: u64)
        ensures
            r == size_of(self@.files, normalize(path@)),
    {
        let p = normalize_path(path);
        if str_eq(p.as_str(), "/dev/null") {
            return 0;
        }
        if str_eq(p.as_str(), "/dev/zero") || str_eq(p.as_str(), "/dev/random") {
            return u64::MAX;
        }
        if !self.is_opfs_path(p.as_str()) {
            return match self.memory_files.get(p.as_str()) {
                Some(v) => v.len() as u64,
                None => 0,
            };
        }
        0
    }

    /// Makes `path`, read from the working directory, the working directory.
    pub fn set_cwd(&mut self, path: &str)
        ensures
            old(self).wf() ==> final(self).wf(),
            final(self)@ == (VfsView { cwd: resolve(old(self)@.cwd, path@), ..old(self)@ }),
    {
        let resolved = self.resolve_path(path);
        proof {
            if self.wf() {
                lemma_resolve_absolute(self.cwd@, path@);
            }
        }
        self.cwd = resolved;
    }

    /// Puts `content` in memory under `path`, exactly as written.
    pub fn write_file_mem(&mut self, path: &str, content: Vec<u8>)
        requires
            old(self).wf(),
        ensures
            final(self).wf(),
            final(self)@ == put(old(self)@, path@, content@),
    {
        self.memory_files.insert(owned(path), content);
        self.mtimes.insert(owned(path), self.clock);
    }

    /// The value of the environment variable `name`, if set.
    pub fn env_var(&self, name: &str) -> (r: Option<String>)
        ensures
            r is Some == self@.env.dom().contains(name@),
            r matches Some(v) ==> v@ == self@.env[name@],
    {
        match self.env_vars.get(name) {
            Some(v) => Some(v.clone()),
            None => None,
        }
    }

    /// Sets the environment variable `name` to `value`.
    pub fn set_env_var(&mut self, name: &str, value: &str)
        ensures
            old(self).wf() ==> final(self).wf(),
            final(self)@ == (VfsView { env: old(self)@.env.insert(name@, value@), ..old(self)@ }),
    {
        self.env_vars.insert(owned(name), owned(value));
    }

    /// Unsets the environment variable `name`.
    pub fn remove_env_var(&mut self, name: &str)
        ensures
            old(self).wf() ==> final(self).wf(),
            final(self)@ == (VfsView { env: old(self)@.env.remove(name@), ..old(self)@ }),
    {
        self.env_vars.remove(name);
    }

    /// Takes the host clock (milliseconds) as the time of later writes.
    pub fn set_clock(&mut self, now: u64)
        ensures
            old(self).wf() ==> final(self).wf(),
            final(self)@ == (VfsView { clock: now, ..old(self)@ }),
    {
        self.clock = now;
    }

    /// The size and the last-written time of the file in memory stored
    /// under exactly `path` (0 for a time never recorded).
    pub fn file_info(&self, path: &str) -> (r: Option<(u64, u64)>)
        ensures
            r is Some == self@.files.dom().contains(path@),
            r matches Some((n, t)) ==> n == self@.files[path@].len() && t == time_of(self@.times, path@),
    {
        match self.memory_files.get(path) {
            Some(v) => {
                let t = match self.mtimes.get(path) {
                    Some(t) => *t,
                    None => 0,
                };
                Some((v.len() as u64, t))
            },
            None => None,
        }
    }

    /// The content of the file readable under exactly `path`: the one in
    /// memory, else the stored one that the host has read.
    pub fn read_file(&self, path: &str) -> (r: Option<Vec<u8>>)
        ensures
            r is Some == readable(self@).dom().contains(path@),
            r matches Some(v) ==> v@ == readable(self@)[path@],
    {
        match self.memory_files.get(path) {
            Some(v) => Some(copy_bytes(v, 0, v.len())),
            None => match self.loaded.get(path) {
                Some(v) => Some(copy_bytes(v, 0, v.len())),
                None => None,
            },
        }
    }

    /// Keeps `content` as what the host read of the stored file `path`;
    /// a path outside the persistent store is left alone.
    pub fn load_stored(&mut self, path: &str, content: Vec<u8>)
        requires
            old(self).wf(),
        ensures
            final(self).wf(),
            final(self)@ == (VfsView {
                loaded: if is_persistent(path@) { old(self)@.loaded.insert(path@, content@) } else { old(self)@.loaded },
                ..old(self)@
            }),
    {
        if self.is_opfs_path(path) {
            self.loaded.insert(owned(path), content);
        }
    }

    /// Forgets every stored file that the host has read.
    pub fn clear_loaded(&mut self)
        requires
            old(self).wf(),
        ensures
            final(self).wf(),
            final(self)@ == (VfsView { loaded: Map::<Seq<char>, Seq<u8>>::empty(), ..old(self)@ }),
    {
        self.loaded = Table::new();
    }

    /// Reads `length` bytes at `offset` of `path` (see `read_result`).
    pub fn read_file_sync(&self, path: &str, offset: u64, length: usize) -> (r: Result<Vec<u8>, VfsError>)
        ensures
            match r {
                Ok(v) => read_result(self@.files, self@.loaded, normalize(path@), offset, length as nat) == Ok::<Seq<u8>, VfsError>(v@),
                Err(e) => read_result(self@.files, self@.loaded, normalize(path@), offset, length as nat) == Err::<Seq<u8>, VfsError>(e),
            },
    {
        let p = normalize_path(path);
        if str_eq(p.as_str(), "/dev/null") {
            return Ok(Vec::new());
        }
        if str_eq(p.as_str(), "/dev/zero") {
            let mut z: Vec<u8> = Vec::new();
            resize_bytes(&mut z, length);
            assert(z@ =~= zeros(length as nat));
            return Ok(z);
        }
        if str_eq(p.as_str(), "/dev/random") {
            let mut buf: Vec<u8> = Vec::new();
            let mut i: usize = 0;
            while i < length
                invariant
                    i <= length,
                    buf@ == random_bytes(offset, i as nat),
                decreases length - i,
            {
                let b = ((offset % 256) + ((i as u64) % 256)) % 256;
                proof {
                    vstd::arithmetic::div_mod::lemma_add_mod_noop(offset as int, i as int, 256);
                }
                buf.push(b as u8);
                i = i + 1;
                assert(buf@ =~= random_bytes(offset, i as nat));
            }
            return Ok(buf);
        }
        if !self.is_opfs_path(p.as_str()) {
            return match self.memory_files.get(p.as_str()) {
                Some(v) => window_of(v, offset, length),
                None => Err(VfsError::NotFound),
            };
        }
        match self.loaded.get(p.as_str()) {
            Some(v) => window_of(v, offset, length),
            None => Err(VfsError::Persistent),
        }
    }

    /// Reads the whole file at `path` (see `whole_length`).
    pub fn read_whole(&self, path: &str) -> (r: Result<Vec<u8>, VfsError>)
        ensures
            ({
                let p = normalize(path@);
                let n = whole_length(self@, p);
                match r {
                    Ok(v) => read_result(self@.files, self@.loaded, p, 0, n) == Ok::<Seq<u8>, VfsError>(v@),
                    Err(e) => read_result(self@.files, self@.loaded, p, 0, n) == Err::<Seq<u8>, VfsError>(e),
                }
            }),
    {
        let p = normalize_path(path);
        proof {
            lemma_normalize_idempotent(path@);
        }
        let n: usize = if has_prefix(p.as_str(), "/dev/") {
            0
        } else if !self.is_opfs_path(p.as_str()) {
            match self.memory_files.get(p.as_str()) {
                Some(v) => v.len(),
                None => 0,
            }
        } else {
            match self.loaded.get(p.as_str()) {
                Some(v) => v.len(),
                None => 0,
            }
        };
        self.read_file_sync(p.as_str(), 0, n)
    }

    /// Writes `content` at `offset` of `path` (see `written_files`): devices
    /// swallow it, a file in memory is created or extended as needed.
    pub fn write_file_sync(&mut self, path: &str, content: &[u8], offset: u64) -> (r: Result<usize, VfsError>)
        requires
            old(self).wf(),
            !starts_with_seq(normalize(path@), "/dev/"@) && !is_persistent(normalize(path@))
                ==> offset + content@.len() <= usize::MAX,
        ensures
            final(self).wf(),
            final(self)@ == written(old(self)@, normalize(path@), content@, offset as nat),
            match r {
                Ok(n) => write_result(normalize(path@), content@.len()) == Ok::<nat, VfsError>(n as nat),
                Err(e) => write_result(normalize(path@), content@.len()) == Err::<nat, VfsError>(e),
            },
    {
        let p = normalize_path(path);
        if has_prefix(p.as_str(), "/dev/") {
            return Ok(content.len());
        }
        if !self.is_opfs_path(p.as_str()) {
            let mut entry: Vec<u8> = match self.memory_files.get(p.as_str()) {
                Some(v) => copy_bytes(v, 0, v.len()),
                None => Vec::new(),
            };
            let ghost old_bytes = entry@;
            assert(old_bytes =~= (if self@.files.dom().contains(p@) { self@.files[p@] } else { Seq::<u8>::empty() }));
            let start = offset as usize;
            let end = start + content.len();
            if entry.len() < end {
                resize_bytes(&mut entry, end);
            }
            let ghost grown = entry@;
            let mut i: usize = 0;
            while i < content.len()
                invariant
                    i <= content.len(),
                    end == start + content@.len(),
                    grown.len() >= end,
                    entry@.len() == grown.len(),
                    forall|k: int| 0 <= k < start ==> entry@[k] == grown[k],
                    forall|k: int| start <= k < start + i ==> entry@[k] == content@[k - start],
                    forall|k: int| start + i <= k < grown.len() ==> entry@[k] == grown[k],
                decreases content.len() - i,
            {
                entry.set(start + i, content[i]);
                i = i + 1;
            }
            assert(entry@ =~= overwrite(old_bytes, content@, offset as nat));
            self.mtimes.insert(p.clone(), self.clock);
            self.memory_files.insert(p, entry);
            return Ok(content.len());
        }
        Err(VfsError::Persistent)
    }

    /// Cuts or zero-pads the file in memory at `path` to `size` bytes.
    pub fn truncate(&mut self, path: &str, size: u64) -> (r: Result<(), VfsError>)
        requires
            old(self).wf(),
            size <= usize::MAX,
        ensures
            final(self).wf(),
            ({
                let p = normalize(path@);
                if is_persistent(p) {
                    &&& r == Err::<(), VfsError>(VfsError::Persistent)
                    &&& final(self)@ == old(self)@
                } else if old(self)@.files.dom().contains(p) {
                    &&& r is Ok
                    &&& final(self)@ == put(old(self)@, p, resized(old(self)@.files[p], size as nat))
                } else {
                    &&& r == Err::<(), VfsError>(VfsError::NotFound)
                    &&& final(self)@ == old(self)@
                }
            }),
    {
        let p = normalize_path(path);
        if !self.is_opfs_path(p.as_str()) {
            let mut entry: Vec<u8> = match self.memory_files.get(p.as_str()) {
                Some(v) => copy_bytes(v, 0, v.len()),
                None => {
                    return Err(VfsError::NotFound);
                },
            };
            assert(entry@ =~= self@.files[p@]);
            resize_bytes(&mut entry, size as usize);
            self.mtimes.insert(p.clone(), self.clock);
            self.memory_files.insert(p, entry);
            return Ok(());
        }
        Err(VfsError::Persistent)
    }

    /// Every known path once: the files in memory, then the stored paths
    /// that are not also in memory.
    pub fn list_files(&self) -> (r: Vec<String>)
        requires
            self.wf(),
        ensures
            views(r@) == self.listing(),
            views(r@).no_duplicates(),
            views(r@).to_set() == listed(self@.files, self@.stored),
    {
        let mut files = self.memory_files.keys();
        let ghost mem = views(files@);
        let ghost notmem = |p: Seq<char>| !self.memory_files@.dom().contains(p);
        proof {
            assert(mem =~= files@.map_values(|k: String| k@));
            assert(views(self.opfs_files@).take(0) =~= Seq::<Seq<char>>::empty());
            assert(views(self.opfs_files@).take(0).filter(notmem) =~= Seq::<Seq<char>>::empty());
            assert(views(files@) =~= mem + views(self.opfs_files@).take(0).filter(notmem));
        }
        let mut i: usize = 0;
        while i < self.opfs_files.len()
            invariant
                self.wf(),
                i <= self.opfs_files.len(),
                mem.to_set() == self@.files.dom(),
                mem == self.memory_files.key_order(),
                notmem == (|p: Seq<char>| !self.memory_files@.dom().contains(p)),
                views(files@) == mem + views(self.opfs_files@).take(i as int).filter(notmem),
                mem.no_duplicates(),
                views(files@).no_duplicates(),
                views(files@).to_set() == mem.to_set().union(views(self.opfs_files@).take(i as int).to_set()),
            decreases self.opfs_files.len() - i,
        {
            let ghost before = views(files@);
            let path = &self.opfs_files[i];
            let mut present = false;
            let mut j: usize = 0;
            while j < files.len()
                invariant
                    j <= files.len(),
                    views(files@) == before,
                    present == exists|k: int| 0 <= k < j && before[k] == path@,
                decreases files.len() - j,
            {
                assert(before[j as int] == files@[j as int]@);
                if str_eq(files[j].as_str(), path.as_str()) {
                    present = true;
                }
                j = j + 1;
            }
            assert(views(self.opfs_files@).take(i + 1) =~= views(self.opfs_files@).take(i as int).push(path@));
            let ghost t0 = views(self.opfs_files@).take(i as int);
            proof {
                assert(path@ == views(self.opfs_files@)[i as int]);
                t0.lemma_push_to_set_commute(path@);
                t0.lemma_filter_push(path@, notmem);
                if present {
                    let k = choose|k: int| 0 <= k < j && before[k] == path@;
                    if k >= mem.len() {
                        let q = t0.filter(notmem);
                        assert(before == mem + q);
                        assert(j as int == before.len());
                        assert(before.len() == mem.len() + q.len());
                        assert(0 <= k - mem.len() < q.len());
                        assert(before[k] == q[k - mem.len()]);
                        assert(q[k - mem.len()] == path@);
                        assert(q.contains(path@));
                        t0.lemma_filter_contains_rev(notmem, path@);
                        let m = choose|m: int| 0 <= m < t0.len() && t0[m] == path@;
                        assert(views(self.opfs_files@)[m] == views(self.opfs_files@)[i as int]);
                    }
                    assert(mem[k] == path@);
                    assert(mem.to_set().contains(mem[k]));
                    assert(!notmem(path@));
                } else {
                    assert(j as int == before.len());
                    assert forall|k: int| 0 <= k < mem.len() implies mem[k] != path@ by {
                        assert(before[k] == mem[k]);
                        assert(!(0 <= k < j && before[k] == path@));
                    }
                    assert(!mem.contains(path@));
                    assert(notmem(path@));
                }
            }
            if !present {
                files.push(path.clone());
                proof {
                    assert(views(files@) =~= before.push(path@));
                    assert(views(files@) =~= mem + views(self.opfs_files@).take(i + 1).filter(notmem));
                    assert forall|a: int, b: int| 0 <= a < b < views(files@).len() implies views(files@)[a] != views(files@)[b] by {
                        if b == before.len() {
                            assert(before[a] != path@);
                        }
                    }
                }
            }
            i = i + 1;
            proof {
                let t1 = views(self.opfs_files@).take(i as int);
                assert(t1 =~= t0.push(path@));
                t0.lemma_push_to_set_commute(path@);
                if present {
                    let k = choose|k: int| 0 <= k < before.len() && before[k] == path@;
                    assert(before.to_set().contains(before[k]));
                    assert(views(files@).to_set() =~= mem.to_set().union(t1.to_set()));
                } else {
                    before.lemma_push_to_set_commute(path@);
                    assert(views(files@).to_set() =~= mem.to_set().union(t1.to_set()));
                }
            }
        }
        assert(views(self.opfs_files@).take(self.opfs_files.len() as int) =~= views(self.opfs_files@));
        files
    }

    /// Removes the file in memory at `path`; a stored path is left to the host.
    pub fn unlink(&mut self, path: &str) -> (r: Result<(), VfsError>)
        requires
            old(self).wf(),
        ensures
            final(self).wf(),
            is_persistent(normalize(path@)) ==> r == Err::<(), VfsError>(VfsError::Persistent) && final(self)@ == old(self)@,
            !is_persistent(normalize(path@)) ==> r is Ok
                && final(self)@ == (VfsView { files: old(self)@.files.remove(normalize(path@)), times: old(self)@.times.remove(normalize(path@)), ..old(self)@ }),
    {
        let p = normalize_path(path);
        if !self.is_opfs_path(p.as_str()) {
            self.memory_files.remove(p.as_str());
            self.mtimes.remove(p.as_str());
            return Ok(());
        }
        Err(VfsError::Persistent)
    }

    /// Records that the store holds `path`.
    pub fn remember_stored(&mut self, path: &str)
        requires
            old(self).wf(),
        ensures
            final(self).wf(),
            old(self)@.stored.contains(path@) ==> final(self)@ == old(self)@,
            !old(self)@.stored.contains(path@) ==> final(self)@ == (VfsView { stored: old(self)@.stored.push(path@), ..old(self)@ }),
    {
        let ghost before = views(self.opfs_files@);
        let mut i: usize = 0;
        while i < self.opfs_files.len()
            invariant
                i <= self.opfs_files.len(),
                *self == *old(self),
                self.wf(),
                before == views(self.opfs_files@),
                forall|k: int| 0 <= k < i ==> before[k] != path@,
            decreases self.opfs_files.len() - i,
        {
            if str_eq(self.opfs_files[i].as_str(), path) {
                assert(before[i as int] == path@);
                return;
            }
            i = i + 1;
        }
        self.opfs_files.push(owned(path));
        assert(views(self.opfs_files@) =~= before.push(path@));
    }

    /// Forgets the stored path `path`, or (with `under`) every stored path
    /// that starts with it.
    pub fn forget_stored(&mut self, path: &str, under: bool)
        requires
            old(self).wf(),
        ensures
            final(self).wf(),
            final(self)@ == (VfsView {
                stored: old(self)@.stored.filter(|p: Seq<char>| stays(p, path@, under)),
                ..old(self)@
            }),
    {
        let ghost before = views(self.opfs_files@);
        let ghost keep = |p: Seq<char>| stays(p, path@, under);
        let mut kept: Vec<String> = Vec::new();
        let mut i: usize = 0;
        proof {
            assert(before.take(0) =~= Seq::<Seq<char>>::empty());
            assert(before.take(0).filter(keep) =~= Seq::<Seq<char>>::empty());
        }
        while i < self.opfs_files.len()
            invariant
                i <= self.opfs_files.len(),
                before == views(self.opfs_files@),
                before.no_duplicates(),
                keep == (|p: Seq<char>| stays(p, path@, under)),
                views(kept@) == before.take(i as int).filter(keep),
                views(kept@).no_duplicates(),
                forall|m: int| 0 <= m < kept@.len() ==> exists|k: int| 0 <= k < i && #[trigger] views(kept@)[m] == before[k],
            decreases self.opfs_files.len() - i,
        {
            let p = &self.opfs_files[i];
            let drop = if under { has_prefix(p.as_str(), path) } else { str_eq(p.as_str(), path) };
            assert(before.take(i + 1).drop_last() =~= before.take(i as int));
            assert(before.take(i + 1).last() == p@);
            assert(keep(p@) == !drop);
            proof {
                before.take(i as int).lemma_filter_push(p@, keep);
                assert(before.take(i as int).push(p@) =~= before.take(i + 1));
            }
            if !drop {
                let ghost k0 = views(kept@);
                kept.push(p.clone());
                proof {
                    assert(views(kept@) =~= k0.push(p@));
                    assert forall|m: int| 0 <= m < k0.len() implies k0[m] != p@ by {
                        let k = choose|k: int| 0 <= k < i && #[trigger] views(kept@)[m] == before[k];
                        assert(before[k] != before[i as int]);
                    }
                    assert forall|m: int| 0 <= m < kept@.len() implies exists|k: int| 0 <= k < i + 1 && #[trigger] views(kept@)[m] == before[k] by {
                        if m < k0.len() {
                            let k = choose|k: int| 0 <= k < i && #[trigger] k0[m] == before[k];
                            assert(views(kept@)[m] == before[k]);
                        } else {
                            assert(views(kept@)[m] == before[i as int]);
                        }
                    }
                }
            }
            i = i + 1;
        }
        proof {
            assert(before.take(before.len() as int) =~= before);
        }
        self.opfs_files = kept;
    }
}

} // verus!
