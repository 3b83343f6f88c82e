//! One loaded binary image: a base address, the image bytes, an optional
//! backing path, and a cached signature scanner. Scan results are cached as
//! offsets relative to the base, so a cache entry, once resolved, is never
//! scanned for again.

use crate::memory::{spec_disp_value, ProcessMemory};
use crate::pattern::{
    find_first_match, lemma_find_from_bounds, lemma_find_from_none, lemma_find_from_some,
    parse_pattern, pat_eq, spec_find_from, spec_parse, PatByte,
};
use vstd::bytes::u32_from_le_bytes;
use vstd::prelude::*;
use vstd::string::StringSliceAdditionalSpecFns;

verus! {

/// Why a scan returned no address.
#[derive(Clone, Copy, PartialEq, Eq, Structural, Debug)]
pub enum ScanError {
    /// The pattern string does not follow the signature grammar.
    InvalidPattern,
    /// The pattern matches nowhere in the scanned bytes.
    NotFound,
    /// A resolved address falls outside what the module can address.
    OutOfRange,
}

/// A scan-cache key: the kind of scan and what it was parameterised with.
pub enum CacheKey {
    Regular(Vec<PatByte>),
    RelativeCallsite(Vec<PatByte>, usize),
    AfterPtr(Vec<PatByte>, usize),
}

/// Whether `k` is the `Regular` key for `toks`.
pub open spec fn key_matches_regular(k: CacheKey, toks: Seq<PatByte>) -> bool {
    match k {
        CacheKey::Regular(v) => v@ == toks,
        _ => false,
    }
}

/// Whether `k` is the `RelativeCallsite` key for `toks` and `off`.
pub open spec fn key_matches_relative(k: CacheKey, toks: Seq<PatByte>, off: int) -> bool {
    match k {
        CacheKey::RelativeCallsite(v, o) => v@ == toks && o == off,
        _ => false,
    }
}

/// Whether `k` is the `AfterPtr` key for `toks` and `off`.
pub open spec fn key_matches_after(k: CacheKey, toks: Seq<PatByte>, off: int) -> bool {
    match k {
        CacheKey::AfterPtr(v, o) => v@ == toks && o == off,
        _ => false,
    }
}

/// The cached offset for the first entry accepted by `f`, if any.
pub open spec fn cache_lookup(
    c: Seq<(CacheKey, usize)>,
    f: spec_fn(CacheKey) -> bool,
) -> Option<usize>
    decreases c.len(),
{
    if c.len() == 0 {
        None
    } else if f(c[0].0) {
        Some(c[0].1)
    } else {
        cache_lookup(c.drop_first(), f)
    }
}

/// The predicate accepting the `Regular` key for `toks`.
pub open spec fn regular_pred(toks: Seq<PatByte>) -> spec_fn(CacheKey) -> bool {
    |k: CacheKey| key_matches_regular(k, toks)
}

/// The predicate accepting the `RelativeCallsite` key for `toks` and `off`.
pub open spec fn relative_pred(toks: Seq<PatByte>, off: int) -> spec_fn(CacheKey) -> bool {
    |k: CacheKey| key_matches_relative(k, toks, off)
}

/// The predicate accepting the `AfterPtr` key for `toks` and `off`.
pub open spec fn after_pred(toks: Seq<PatByte>, off: int) -> spec_fn(CacheKey) -> bool {
    |k: CacheKey| key_matches_after(k, toks, off)
}

proof fn lemma_cache_lookup_at(c: Seq<(CacheKey, usize)>, f: spec_fn(CacheKey) -> bool, i: int)
    requires
        0 <= i < c.len(),
        f(c[i].0),
        forall|j: int| 0 <= j < i ==> !f((#[trigger] c[j]).0),
    ensures
        cache_lookup(c, f) == Some(c[i].1),
    decreases i,
{
    if i > 0 {
        lemma_cache_lookup_at(c.drop_first(), f, i - 1);
    }
}

proof fn lemma_cache_lookup_none(c: Seq<(CacheKey, usize)>, f: spec_fn(CacheKey) -> bool)
    requires
        forall|j: int| 0 <= j < c.len() ==> !f((#[trigger] c[j]).0),
    ensures
        cache_lookup(c, f) is None,
    decreases c.len(),
{
    if c.len() > 0 {
        lemma_cache_lookup_none(c.drop_first(), f);
    }
}

proof fn lemma_cache_lookup_is_entry(c: Seq<(CacheKey, usize)>, f: spec_fn(CacheKey) -> bool)
    ensures
        cache_lookup(c, f) matches Some(v) ==> exists|i: int|
            0 <= i < c.len() && (#[trigger] c[i]).1 == v && f(c[i].0),
    decreases c.len(),
{
    if c.len() > 0 && !f(c[0].0) {
        lemma_cache_lookup_is_entry(c.drop_first(), f);
        if let Some(v) = cache_lookup(c.drop_first(), f) {
            let i = choose|i: int|
                0 <= i < c.drop_first().len() && (#[trigger] c.drop_first()[i]).1 == v && f(
                    c.drop_first()[i].0,
                );
            assert(c[i + 1].1 == v && f(c[i + 1].0));
        }
    }
}

/// A search counter bumped by one, held at the ceiling.
pub open spec fn bump(c: u64) -> u64 {
    if c < u64::MAX {
        (c + 1) as u64
    } else {
        c
    }
}

/// The address a relative callsite resolves to: the four displacement bytes
/// at `m + addr_off` in `img`, taken as a signed 32-bit value, added to the
/// address right after them.
pub open spec fn rel_callsite_target(base: int, img: Seq<u8>, m: int, addr_off: int) -> int {
    base + m + addr_off + 4 + spec_disp_value(img.subrange(m + addr_off, m + addr_off + 4))
}


/// A path separator byte.
pub open spec fn is_sep_byte(c: u8) -> bool {
    c == 47 || c == 92
}

/// The start of the raw path segment ending at `e`: the position after the
/// nearest separator to the left.
pub open spec fn seg_start(b: Seq<u8>, e: int) -> int
    decreases e,
{
    if e > 0 && e <= b.len() && !is_sep_byte(b[e - 1]) {
        seg_start(b, e - 1)
    } else {
        e
    }
}

/// The position before the run of separator bytes ending at `e`.
pub open spec fn skip_seps(b: Seq<u8>, e: int) -> int
    decreases e,
{
    if e > 0 && e <= b.len() && is_sep_byte(b[e - 1]) {
        skip_seps(b, e - 1)
    } else {
        e
    }
}

/// The last path component of `b[..e)` as `[start, end)`: trailing
/// separators are ignored and a `.` segment that is not the leading segment
/// stands for the directory itself, so it is skipped. `None` when nothing
/// but separators remains.
pub open spec fn spec_last_component(b: Seq<u8>, e: int) -> Option<(int, int)>
    decreases e,
{
    if e <= 0 || e > b.len() {
        None
    } else if is_sep_byte(b[e - 1]) {
        spec_last_component(b, e - 1)
    } else {
        let s = seg_start(b, e);
        if e - s == 1 && b[s] == 46 && s > 0 {
            spec_last_component(b, s)
        } else {
            Some((s, e))
        }
    }
}

/// Whether the component `[s, e)` of `b` is `.` or `..`, which name a
/// directory rather than a file.
pub open spec fn is_dot_component(b: Seq<u8>, s: int, e: int) -> bool {
    (e - s == 1 && b[s] == 46) || (e - s == 2 && b[s] == 46 && b[s + 1] == 46)
}

/// The final file-name component of the path bytes `b`, if the path has one
/// and it is not `.` or `..`.
pub open spec fn spec_file_name_range(b: Seq<u8>) -> Option<(int, int)> {
    match spec_last_component(b, b.len() as int) {
        None => None,
        Some((s, e)) => if is_dot_component(b, s, e) {
            None
        } else {
            Some((s, e))
        },
    }
}

/// Where the parent of the path bytes `b` ends: the bytes before the final
/// component, without their trailing separators, except that an absolute
/// path keeps its root separator. `None` when the path has no final
/// component to drop.
pub open spec fn spec_parent_end(b: Seq<u8>) -> Option<int> {
    match spec_last_component(b, b.len() as int) {
        None => None,
        Some((s, e)) => {
            let k = skip_seps(b, s);
            if k == 0 && s > 0 {
                Some(1)
            } else {
                Some(k)
            }
        },
    }
}

fn seg_start_exec(bytes: &[u8], e: usize) -> (r: usize)
    requires
        e <= bytes@.len(),
    ensures
        r == seg_start(bytes@, e as int),
        r <= e,
        e > 0 && !is_sep_byte(bytes@[e - 1]) ==> r < e,
    decreases e,
{
    if e > 0 && !(bytes[e - 1] == 47 || bytes[e - 1] == 92) {
        seg_start_exec(bytes, e - 1)
    } else {
        e
    }
}

fn skip_seps_exec(bytes: &[u8], e: usize) -> (r: usize)
    requires
        e <= bytes@.len(),
    ensures
        r == skip_seps(bytes@, e as int),
        r <= e,
    decreases e,
{
    if e > 0 && (bytes[e - 1] == 47 || bytes[e - 1] == 92) {
        skip_seps_exec(bytes, e - 1)
    } else {
        e
    }
}

fn last_component_from(bytes: &[u8], e: usize) -> (r: Option<(usize, usize)>)
    requires
        e <= bytes@.len(),
    ensures
        match r {
            Some(p) => p.0 < p.1 && p.1 <= bytes@.len() && spec_last_component(bytes@, e as int)
                == Some((p.0 as int, p.1 as int)),
            None => spec_last_component(bytes@, e as int) is None,
        },
    decreases e,
{
    if e == 0 {
        None
    } else if bytes[e - 1] == 47 || bytes[e - 1] == 92 {
        last_component_from(bytes, e - 1)
    } else {
        let s = seg_start_exec(bytes, e);
        if e - s == 1 && bytes[s] == 46 && s > 0 {
            last_component_from(bytes, s)
        } else {
            Some((s, e))
        }
    }
}

/// One loaded binary image with its cached signature scanner.
pub struct Module {
    handle: usize,
    path: Option<String>,
    base: usize,
    image: Vec<u8>,
    image_backup: Vec<u8>,
    cache: Vec<(CacheKey, usize)>,
    search_count: u64,
}

impl Module {
    /// The OS handle the module was created from.
    pub closed spec fn spec_handle(self) -> int {
        self.handle as int
    }

    /// The address of the first byte of the mapped image.
    pub closed spec fn spec_base(self) -> int {
        self.base as int
    }

    /// The bytes of the mapped image as they stand in memory.
    pub closed spec fn live_image(self) -> Seq<u8> {
        self.image@
    }

    /// The private snapshot taken by `backup_image`, empty until then.
    pub closed spec fn backup(self) -> Seq<u8> {
        self.image_backup@
    }

    /// The bytes that scans search: the snapshot once one was taken,
    /// otherwise the live image.
    pub open spec fn scan_source(self) -> Seq<u8> {
        if self.backup().len() == 0 {
            self.live_image()
        } else {
            self.backup()
        }
    }

    /// The filesystem path backing the image, if known.
    pub closed spec fn spec_path(self) -> Option<Seq<char>> {
        match self.path {
            Some(p) => Some(p@),
            None => None,
        }
    }

    /// How many byte searches have actually run (cache hits run none).
    pub closed spec fn searches(self) -> u64 {
        self.search_count
    }

    /// The cached offset for a plain signature scan of `toks`.
    pub closed spec fn cached_regular(self, toks: Seq<PatByte>) -> Option<usize> {
        cache_lookup(self.cache@, regular_pred(toks))
    }

    /// The cached offset for a relative-callsite scan of `toks` at `off`.
    pub closed spec fn cached_relative(self, toks: Seq<PatByte>, off: int) -> Option<usize> {
        cache_lookup(self.cache@, relative_pred(toks, off))
    }

    /// The cached offset for a scan of `toks` restricted to start at `off`.
    pub closed spec fn cached_after(self, toks: Seq<PatByte>, off: int) -> Option<usize> {
        cache_lookup(self.cache@, after_pred(toks, off))
    }

    /// Every cached offset stays addressable from the base; plain and
    /// range-restricted scan results also stay inside the image (a resolved
    /// callsite target may point anywhere addressable).
    pub closed spec fn cache_offsets_ok(self) -> bool {
        forall|i: int|
            0 <= i < self.cache@.len() ==> self.spec_base() + (#[trigger] self.cache@[i]).1
                <= usize::MAX && (match self.cache@[i].0 {
                CacheKey::Regular(_) => self.cache@[i].1 <= self.live_image().len(),
                CacheKey::AfterPtr(_, _) => self.cache@[i].1 <= self.live_image().len(),
                CacheKey::RelativeCallsite(_, _) => true,
            })
    }

    pub open spec fn wf(self) -> bool {
        &&& 0 <= self.spec_base()
        &&& self.spec_base() + self.live_image().len() <= usize::MAX
        &&& self.backup().len() == 0 || self.backup().len() == self.live_image().len()
        &&& self.cache_offsets_ok()
    }

    /// The image (base, size, bytes, path) is untouched between `pre` and `post`.
    pub open spec fn same_image(pre: Module, post: Module) -> bool {
        &&& post.spec_handle() == pre.spec_handle()
        &&& post.spec_base() == pre.spec_base()
        &&& post.live_image() == pre.live_image()
        &&& post.backup() == pre.backup()
        &&& post.spec_path() == pre.spec_path()
    }

    /// Every cache entry answers as before.
    pub open spec fn same_cache(pre: Module, post: Module) -> bool {
        &&& forall|t: Seq<PatByte>| #[trigger] post.cached_regular(t) == pre.cached_regular(t)
        &&& forall|t: Seq<PatByte>, o: int| #[trigger] post.cached_relative(t, o)
            == pre.cached_relative(t, o)
        &&& forall|t: Seq<PatByte>, o: int| #[trigger] post.cached_after(t, o)
            == pre.cached_after(t, o)
    }

    /// Wraps an already-resolved image: its handle, base address, optional
    /// backing path, and the mapped bytes.
    pub fn new(handle: usize, base: usize, path: Option<String>, image: Vec<u8>) -> (r: Module)
        requires
            base + image@.len() <= usize::MAX,
        ensures
            r.wf(),
            r.spec_handle() == handle,
            r.spec_base() == base,
            r.live_image() == image@,
            r.backup().len() == 0,
            r.spec_path() == (match path {
                Some(p) => Some::<Seq<char>>(p@),
                None => None::<Seq<char>>,
            }),
            r.searches() == 0,
            forall|t: Seq<PatByte>| (#[trigger] r.cached_regular(t)) is None,
            forall|t: Seq<PatByte>, o: int| (#[trigger] r.cached_relative(t, o)) is None,
            forall|t: Seq<PatByte>, o: int| (#[trigger] r.cached_after(t, o)) is None,
    {
        Module {
            handle,
            path,
            base,
            image,
            image_backup: Vec::new(),
            cache: Vec::new(),
            search_count: 0,
        }
    }

    pub fn handle(&self) -> (r: usize)
        ensures
            r == self.spec_handle(),
    {
        self.handle
    }

    pub fn base(&self) -> (r: usize)
        ensures
            r == self.spec_base(),
    {
        self.base
    }

    /// How many byte searches have actually run.
    pub fn search_count(&self) -> (r: u64)
        ensures
            r == self.searches(),
    {
        self.search_count
    }

    /// Takes a private snapshot of the live image; later scans search the
    /// snapshot instead of live memory until it is refreshed.
    pub fn backup_image(&mut self)
        requires
            old(self).wf(),
        ensures
            final(self).wf(),
            final(self).backup() == old(self).live_image(),
            final(self).spec_handle() == old(self).spec_handle(),
            final(self).spec_base() == old(self).spec_base(),
            final(self).live_image() == old(self).live_image(),
            final(self).spec_path() == old(self).spec_path(),
            final(self).searches() == old(self).searches(),
            Module::same_cache(*old(self), *final(self)),
    {
        let n = self.image.len();
        let mut copy: Vec<u8> = Vec::new();
        let mut k: usize = 0;
        while k < n
            invariant
                n == self.image@.len(),
                k <= n,
                copy@ =~= self.image@.subrange(0, k as int),
            decreases n - k,
        {
            copy.push(self.image[k]);
            proof {
                assert(copy@ =~= self.image@.subrange(0, k + 1));
            }
            k += 1;
        }
        proof {
            assert(copy@ =~= self.image@);
        }
        self.image_backup = copy;
    }

    /// Replaces the live image bytes with a fresh read of the module's span
    /// from process memory, so scans of the live image observe patches
    /// applied there; a snapshot taken with `backup_image` is unaffected and
    /// keeps later scans on the pre-patch bytes.
    pub fn refresh_image(&mut self, mem: &ProcessMemory)
        requires
            old(self).wf(),
            mem.wf(),
            mem.in_range(old(self).spec_base(), old(self).live_image().len() as int),
        ensures
            final(self).wf(),
            final(self).live_image() == mem.contents().subrange(
                old(self).spec_base() - mem.spec_base(),
                old(self).spec_base() - mem.spec_base() + old(self).live_image().len(),
            ),
            final(self).live_image().len() == old(self).live_image().len(),
            final(self).spec_handle() == old(self).spec_handle(),
            final(self).spec_base() == old(self).spec_base(),
            final(self).backup() == old(self).backup(),
            final(self).spec_path() == old(self).spec_path(),
            final(self).searches() == old(self).searches(),
            Module::same_cache(*old(self), *final(self)),
    {
        let len = self.image.len();
        let fresh = mem.read_bytes(self.base, len);
        self.image = fresh;
    }

    /// The bytes that scans search: the snapshot if one was taken, otherwise
    /// the live image.
    pub fn as_bytes(&self) -> (r: &[u8])
        ensures
            r@ == self.scan_source(),
    {
        if self.image_backup.len() == 0 {
            self.image.as_slice()
        } else {
            self.image_backup.as_slice()
        }
    }


    /// The filesystem path backing the image, if known.
    pub fn path(&self) -> (r: Option<&str>)
        ensures
            match r {
                Some(s) => self.spec_path() == Some(s@),
                None => self.spec_path() is None,
            },
    {
        match &self.path {
            Some(p) => Some(p.as_str()),
            None => None,
        }
    }

    /// The final file-name component of the path, by the usual component
    /// rules: trailing separators are ignored, a trailing `.` stands for the
    /// directory itself, and a path ending in `..` (or in nothing but
    /// separators) has no file name. Splitting happens at whole characters
    /// only.
    pub fn filename(&self) -> (r: Option<String>)
        ensures
            match self.spec_path() {
                None => r is None,
                Some(p) => {
                    let b = vstd::utf8::encode_utf8(p);
                    match spec_file_name_range(b) {
                        None => r is None,
                        Some((cs, ce)) => {
                            if vstd::utf8::is_char_boundary(b, cs) && vstd::utf8::is_char_boundary(
                                b.subrange(cs, b.len() as int),
                                ce - cs,
                            ) {
                                r matches Some(f) && vstd::utf8::encode_utf8(f@) == b.subrange(
                                    cs,
                                    ce,
                                )
                            } else {
                                r is None
                            }
                        },
                    }
                },
            },
    {
        let p = match &self.path {
            Some(p) => p,
            None => {
                return None;
            },
        };
        let s = p.as_str();
        let bytes = s.as_bytes();
        let n = bytes.len();
        let (cs, ce) = match last_component_from(bytes, n) {
            None => {
                return None;
            },
            Some(c) => c,
        };
        let dot = ce - cs == 1 && bytes[cs] == 46;
        let dotdot = ce - cs == 2 && bytes[cs] == 46 && bytes[cs + 1] == 46;
        if dot || dotdot {
            return None;
        }
        if !s.is_char_boundary(cs) {
            return None;
        }
        let (_, tail) = s.split_at(cs);
        if !tail.is_char_boundary(ce - cs) {
            return None;
        }
        let (name, _) = tail.split_at(ce - cs);
        proof {
            assert(tail.spec_bytes() == s.spec_bytes().subrange(
                cs as int,
                s.spec_bytes().len() as int,
            ));
            assert(name.spec_bytes() == tail.spec_bytes().subrange(0, ce - cs));
            assert(name.spec_bytes() =~= s.spec_bytes().subrange(cs as int, ce as int));
        }
        Some(name.to_owned())
    }

    /// The directory holding the path's final component: the bytes before
    /// it, without their trailing separators, except that an absolute path
    /// keeps its root separator; the empty string for a bare relative name,
    /// and nothing when the path has no component to drop. Splitting happens
    /// at whole characters only.
    pub fn directory(&self) -> (r: Option<String>)
        ensures
            match self.spec_path() {
                None => r is None,
                Some(p) => {
                    let b = vstd::utf8::encode_utf8(p);
                    match spec_parent_end(b) {
                        None => r is None,
                        Some(k) => {
                            if k == 0 {
                                r matches Some(d) && d@ == Seq::<char>::empty()
                            } else if vstd::utf8::is_char_boundary(b, k) {
                                r matches Some(d) && vstd::utf8::encode_utf8(d@) == b.subrange(0, k)
                            } else {
                                r is None
                            }
                        },
                    }
                },
            },
    {
        let p = match &self.path {
            Some(p) => p,
            None => {
                return None;
            },
        };
        let s = p.as_str();
        let bytes = s.as_bytes();
        let n = bytes.len();
        let (cs, _ce) = match last_component_from(bytes, n) {
            None => {
                return None;
            },
            Some(c) => c,
        };
        let mut k = skip_seps_exec(bytes, cs);
        if k == 0 && cs > 0 {
            k = 1;
        }
        if k == 0 {
            return Some(String::new());
        }
        if !s.is_char_boundary(k) {
            return None;
        }
        let (front, _) = s.split_at(k);
        proof {
            assert(front.spec_bytes() == s.spec_bytes().subrange(0, k as int));
        }
        Some(front.to_owned())
    }

    /// Converts a process-absolute address to an offset from the base.
    pub fn abs_to_rel_addr(&self, p: usize) -> (r: isize)
        requires
            isize::MIN <= p - self.spec_base() <= isize::MAX,
        ensures
            r == p - self.spec_base(),
    {
        let d: i128 = p as i128 - self.base as i128;
        d as isize
    }

    /// Converts an offset from the base to a process-absolute address.
    pub fn rel_to_abs_addr(&self, offset: usize) -> (r: usize)
        requires
            self.spec_base() + offset <= usize::MAX,
        ensures
            r == self.spec_base() + offset,
    {
        self.base + offset
    }

    /// Converts a signed offset from the base to a process-absolute address.
    pub fn rel_to_abs_addr_isize(&self, offset: isize) -> (r: usize)
        requires
            0 <= self.spec_base() + offset <= usize::MAX,
        ensures
            r == self.spec_base() + offset,
    {
        let d: i128 = self.base as i128 + offset as i128;
        d as usize
    }

    /// Cache entries other than the `Regular` entry for `toks` answer as before.
    pub open spec fn cache_preserved_except_regular(
        pre: Module,
        post: Module,
        toks: Seq<PatByte>,
    ) -> bool {
        &&& forall|t: Seq<PatByte>| t != toks ==> #[trigger] post.cached_regular(t)
            == pre.cached_regular(t)
        &&& forall|t: Seq<PatByte>, o: int| #[trigger] post.cached_relative(t, o)
            == pre.cached_relative(t, o)
        &&& forall|t: Seq<PatByte>, o: int| #[trigger] post.cached_after(t, o)
            == pre.cached_after(t, o)
    }

    /// Cache entries other than the `RelativeCallsite` entry for `toks` and
    /// `off` answer as before.
    pub open spec fn cache_preserved_except_relative(
        pre: Module,
        post: Module,
        toks: Seq<PatByte>,
        off: int,
    ) -> bool {
        &&& forall|t: Seq<PatByte>| #[trigger] post.cached_regular(t) == pre.cached_regular(t)
        &&& forall|t: Seq<PatByte>, o: int|
            !(t == toks && o == off) ==> #[trigger] post.cached_relative(t, o)
                == pre.cached_relative(t, o)
        &&& forall|t: Seq<PatByte>, o: int| #[trigger] post.cached_after(t, o)
            == pre.cached_after(t, o)
    }

    /// Cache entries other than the `AfterPtr` entry for `toks` and `off`
    /// answer as before.
    pub open spec fn cache_preserved_except_after(
        pre: Module,
        post: Module,
        toks: Seq<PatByte>,
        off: int,
    ) -> bool {
        &&& forall|t: Seq<PatByte>| #[trigger] post.cached_regular(t) == pre.cached_regular(t)
        &&& forall|t: Seq<PatByte>, o: int| #[trigger] post.cached_relative(t, o)
            == pre.cached_relative(t, o)
        &&& forall|t: Seq<PatByte>, o: int|
            !(t == toks && o == off) ==> #[trigger] post.cached_after(t, o) == pre.cached_after(
                t,
                o,
            )
    }

    fn find_cached_regular(&self, toks: &Vec<PatByte>) -> (r: Option<usize>)
        ensures
            r == self.cached_regular(toks@),
    {
        let n = self.cache.len();
        let mut i: usize = 0;
        while i < n
            invariant
                n == self.cache@.len(),
                i <= n,
                forall|j: int|
                    0 <= j < i ==> !(regular_pred(toks@))((#[trigger] self.cache@[j]).0),
            decreases n - i,
        {
            let hit = match &self.cache[i].0 {
                CacheKey::Regular(t) => pat_eq(t, toks),
                _ => false,
            };
            if hit {
                proof {
                    lemma_cache_lookup_at(self.cache@, regular_pred(toks@), i as int);
                }
                return Some(self.cache[i].1);
            }
            i += 1;
        }
        proof {
            lemma_cache_lookup_none(self.cache@, regular_pred(toks@));
        }
        None
    }

    fn find_cached_relative(&self, toks: &Vec<PatByte>, off: usize) -> (r: Option<usize>)
        ensures
            r == self.cached_relative(toks@, off as int),
    {
        let n = self.cache.len();
        let mut i: usize = 0;
        while i < n
            invariant
                n == self.cache@.len(),
                i <= n,
                forall|j: int|
                    0 <= j < i ==> !(relative_pred(toks@, off as int))(
                        (#[trigger] self.cache@[j]).0,
                    ),
            decreases n - i,
        {
            let hit = match &self.cache[i].0 {
                CacheKey::RelativeCallsite(t, o) => *o == off && pat_eq(t, toks),
                _ => false,
            };
            if hit {
                proof {
                    lemma_cache_lookup_at(self.cache@, relative_pred(toks@, off as int), i as int);
                }
                return Some(self.cache[i].1);
            }
            i += 1;
        }
        proof {
            lemma_cache_lookup_none(self.cache@, relative_pred(toks@, off as int));
        }
        None
    }

    fn find_cached_after(&self, toks: &Vec<PatByte>, off: usize) -> (r: Option<usize>)
        ensures
            r == self.cached_after(toks@, off as int),
    {
        let n = self.cache.len();
        let mut i: usize = 0;
        while i < n
            invariant
                n == self.cache@.len(),
                i <= n,
                forall|j: int|
                    0 <= j < i ==> !(after_pred(toks@, off as int))((#[trigger] self.cache@[j]).0),
            decreases n - i,
        {
            let hit = match &self.cache[i].0 {
                CacheKey::AfterPtr(t, o) => *o == off && pat_eq(t, toks),
                _ => false,
            };
            if hit {
                proof {
                    lemma_cache_lookup_at(self.cache@, after_pred(toks@, off as int), i as int);
                }
                return Some(self.cache[i].1);
            }
            i += 1;
        }
        proof {
            lemma_cache_lookup_none(self.cache@, after_pred(toks@, off as int));
        }
        None
    }

    /// Records a freshly resolved offset under `key`.
    fn cache_insert(&mut self, key: CacheKey, offset: usize)
        requires
            old(self).wf(),
            old(self).spec_base() + offset <= usize::MAX,
            match key {
                CacheKey::Regular(_) => offset <= old(self).live_image().len(),
                CacheKey::AfterPtr(_, _) => offset <= old(self).live_image().len(),
                CacheKey::RelativeCallsite(_, _) => true,
            },
        ensures
            final(self).wf(),
            Module::same_image(*old(self), *final(self)),
            final(self).searches() == old(self).searches(),
            match key {
                CacheKey::Regular(t) => final(self).cached_regular(t@) == Some(offset)
                    && Module::cache_preserved_except_regular(*old(self), *final(self), t@),
                CacheKey::RelativeCallsite(t, o) => final(self).cached_relative(t@, o as int)
                    == Some(offset) && Module::cache_preserved_except_relative(
                    *old(self),
                    *final(self),
                    t@,
                    o as int,
                ),
                CacheKey::AfterPtr(t, o) => final(self).cached_after(t@, o as int) == Some(offset)
                    && Module::cache_preserved_except_after(
                    *old(self),
                    *final(self),
                    t@,
                    o as int,
                ),
            },
    {
        let ghost c0 = self.cache@;
        let ghost e = (key, offset);
        self.cache.insert(0, (key, offset));
        proof {
            assert(self.cache@ =~= seq![e] + c0);
            assert(self.cache@.drop_first() =~= c0);
            assert forall|f: spec_fn(CacheKey) -> bool| true implies #[trigger] cache_lookup(
                self.cache@,
                f,
            ) == (if f(e.0) {
                Some(e.1)
            } else {
                cache_lookup(c0, f)
            }) by {
                assert(self.cache@[0] == e);
                if !f(e.0) {
                    assert(cache_lookup(self.cache@, f) == cache_lookup(
                        self.cache@.drop_first(),
                        f,
                    ));
                }
            }
        }
    }

    fn bump_searches(&mut self)
        ensures
            final(self).searches() == bump(old(self).searches()),
            old(self).wf() ==> final(self).wf(),
            Module::same_image(*old(self), *final(self)),
            Module::same_cache(*old(self), *final(self)),
    {
        if self.search_count < u64::MAX {
            self.search_count = self.search_count + 1;
        }
    }

    /// Everything `scan` promises, relating the module before and after to
    /// the pattern bytes and the result.
    pub open spec fn scan_post(
        pre: Module,
        post: Module,
        pbytes: Seq<u8>,
        r: Result<usize, ScanError>,
    ) -> bool {
        &&& Module::same_image(pre, post)
        &&& match spec_parse(pbytes) {
            None => r == Err::<usize, ScanError>(ScanError::InvalidPattern) && Module::same_cache(
                pre,
                post,
            ) && post.searches() == pre.searches(),
            Some(toks) => match pre.cached_regular(toks) {
                Some(off) => r == Ok::<usize, ScanError>((pre.spec_base() + off) as usize) && off
                    <= pre.scan_source().len() && Module::same_cache(pre, post) && post.searches()
                    == pre.searches(),
                None => {
                    &&& post.searches() == bump(pre.searches())
                    &&& match spec_find_from(pre.scan_source(), toks, 0) {
                        Some(m) => r == Ok::<usize, ScanError>((pre.spec_base() + m) as usize) && 0
                            <= m && m + toks.len() <= pre.scan_source().len()
                            && post.cached_regular(toks) == Some(m as usize)
                            && Module::cache_preserved_except_regular(pre, post, toks),
                        None => r == Err::<usize, ScanError>(ScanError::NotFound)
                            && Module::same_cache(pre, post),
                    }
                },
            },
        }
    }

    /// Resolves a byte-pattern signature to an absolute address: the first
    /// match in the scanned bytes wins. A resolved pattern is cached; a later
    /// scan of the same pattern answers from the cache without searching.
    pub fn scan(&mut self, pattern: &str) -> (r: Result<usize, ScanError>)
        requires
            old(self).wf(),
        ensures
            final(self).wf(),
            Module::scan_post(*old(self), *final(self), pattern.spec_bytes(), r),
    {
        let toks = match parse_pattern(pattern) {
            Some(t) => t,
            None => {
                return Err(ScanError::InvalidPattern);
            },
        };
        if let Some(off) = self.find_cached_regular(&toks) {
            proof {
                lemma_cache_lookup_is_entry(self.cache@, regular_pred(toks@));
            }
            return Ok(self.base + off);
        }
        self.bump_searches();
        let found = find_first_match(self.as_bytes(), &toks, 0);
        match found {
            Some(m) => {
                proof {
                    lemma_find_from_some(self.scan_source(), toks@, 0, m as int);
                }
                self.cache_insert(CacheKey::Regular(toks), m);
                Ok(self.base + m)
            },
            None => {
                proof {
                    lemma_find_from_none(self.scan_source(), toks@, 0);
                }
                Err(ScanError::NotFound)
            },
        }
    }

    /// Everything `scan_for_relative_callsite` promises.
    pub open spec fn relcall_post(
        pre: Module,
        post: Module,
        pbytes: Seq<u8>,
        addr_off: int,
        r: Result<usize, ScanError>,
    ) -> bool {
        &&& Module::same_image(pre, post)
        &&& match spec_parse(pbytes) {
            None => r == Err::<usize, ScanError>(ScanError::InvalidPattern) && Module::same_cache(
                pre,
                post,
            ) && post.searches() == pre.searches(),
            Some(toks) => match pre.cached_relative(toks, addr_off) {
                Some(off) => r == Ok::<usize, ScanError>((pre.spec_base() + off) as usize)
                    && Module::same_cache(pre, post) && post.searches() == pre.searches(),
                None => {
                    &&& post.searches() == bump(pre.searches())
                    &&& match spec_find_from(pre.scan_source(), toks, 0) {
                        Some(m) => {
                            if m + addr_off + 4 > pre.live_image().len() {
                                r == Err::<usize, ScanError>(ScanError::OutOfRange)
                                    && Module::same_cache(pre, post)
                            } else {
                                let tgt = rel_callsite_target(
                                    pre.spec_base(),
                                    pre.live_image(),
                                    m,
                                    addr_off,
                                );
                                if pre.spec_base() <= tgt <= usize::MAX {
                                    r == Ok::<usize, ScanError>(tgt as usize)
                                        && post.cached_relative(toks, addr_off) == Some(
                                        (tgt - pre.spec_base()) as usize,
                                    ) && Module::cache_preserved_except_relative(
                                        pre,
                                        post,
                                        toks,
                                        addr_off,
                                    )
                                } else {
                                    r == Err::<usize, ScanError>(ScanError::OutOfRange)
                                        && Module::same_cache(pre, post)
                                }
                            }
                        },
                        None => r == Err::<usize, ScanError>(ScanError::NotFound)
                            && Module::same_cache(pre, post),
                    }
                },
            },
        }
    }

    /// Finds the pattern, then follows the 32-bit relative displacement
    /// encoded at `match + addr_offset` in the live image to the address it
    /// targets. The resolved target, not the match, is cached.
    pub fn scan_for_relative_callsite(&mut self, pattern: &str, addr_offset: usize) -> (r: Result<
        usize,
        ScanError,
    >)
        requires
            old(self).wf(),
        ensures
            final(self).wf(),
            Module::relcall_post(
                *old(self),
                *final(self),
                pattern.spec_bytes(),
                addr_offset as int,
                r,
            ),
    {
        let toks = match parse_pattern(pattern) {
            Some(t) => t,
            None => {
                return Err(ScanError::InvalidPattern);
            },
        };
        if let Some(off) = self.find_cached_relative(&toks, addr_offset) {
            proof {
                lemma_cache_lookup_is_entry(self.cache@, relative_pred(toks@, addr_offset as int));
            }
            return Ok(self.base + off);
        }
        self.bump_searches();
        let found = find_first_match(self.as_bytes(), &toks, 0);
        let m = match found {
            Some(m) => {
                proof {
                    lemma_find_from_some(self.scan_source(), toks@, 0, m as int);
                }
                m
            },
            None => {
                proof {
                    lemma_find_from_none(self.scan_source(), toks@, 0);
                }
                return Err(ScanError::NotFound);
            },
        };
        let n = self.image.len();
        if addr_offset > n || m > n - addr_offset || n - addr_offset - m < 4 {
            return Err(ScanError::OutOfRange);
        }
        let pos = m + addr_offset;
        let mut dbytes: Vec<u8> = Vec::new();
        dbytes.push(self.image[pos]);
        dbytes.push(self.image[pos + 1]);
        dbytes.push(self.image[pos + 2]);
        dbytes.push(self.image[pos + 3]);
        proof {
            assert(dbytes@ =~= self.live_image().subrange(pos as int, pos + 4));
        }
        let u = u32_from_le_bytes(dbytes.as_slice());
        let d: i128 = if u < 0x8000_0000 {
            u as i128
        } else {
            u as i128 - 0x1_0000_0000
        };
        proof {
            assert(d == spec_disp_value(self.live_image().subrange(pos as int, pos + 4)));
        }
        let tgt: i128 = self.base as i128 + pos as i128 + 4 + d;
        if tgt < self.base as i128 || tgt > usize::MAX as i128 {
            return Err(ScanError::OutOfRange);
        }
        let rel: usize = (tgt - self.base as i128) as usize;
        self.cache_insert(CacheKey::RelativeCallsite(toks, addr_offset), rel);
        Ok(self.base + rel)
    }

    /// Everything `scan_after_ptr` promises.
    pub open spec fn afterptr_post(
        pre: Module,
        post: Module,
        pbytes: Seq<u8>,
        base_off: int,
        r: Result<usize, ScanError>,
    ) -> bool {
        &&& Module::same_image(pre, post)
        &&& match spec_parse(pbytes) {
            None => r == Err::<usize, ScanError>(ScanError::InvalidPattern) && Module::same_cache(
                pre,
                post,
            ) && post.searches() == pre.searches(),
            Some(toks) => match pre.cached_after(toks, base_off) {
                Some(off) => r == Ok::<usize, ScanError>((pre.spec_base() + off) as usize)
                    && Module::same_cache(pre, post) && post.searches() == pre.searches(),
                None => {
                    &&& post.searches() == bump(pre.searches())
                    &&& match spec_find_from(pre.scan_source(), toks, base_off) {
                        Some(m) => r == Ok::<usize, ScanError>((pre.spec_base() + m) as usize)
                            && post.cached_after(toks, base_off) == Some(m as usize)
                            && Module::cache_preserved_except_after(pre, post, toks, base_off),
                        None => r == Err::<usize, ScanError>(ScanError::NotFound)
                            && Module::same_cache(pre, post),
                    }
                },
            },
        }
    }

    /// Resolves a signature, restricting the search to the part of the image
    /// at or after `base_ptr`, so that the same bytes earlier in the image
    /// are not matched.
    pub fn scan_after_ptr(&mut self, base_ptr: usize, pattern: &str) -> (r: Result<
        usize,
        ScanError,
    >)
        requires
            old(self).wf(),
            old(self).spec_base() <= base_ptr,
            base_ptr - old(self).spec_base() <= old(self).scan_source().len(),
        ensures
            final(self).wf(),
            Module::afterptr_post(
                *old(self),
                *final(self),
                pattern.spec_bytes(),
                base_ptr - old(self).spec_base(),
                r,
            ),
    {
        let base_off = base_ptr - self.base;
        let toks = match parse_pattern(pattern) {
            Some(t) => t,
            None => {
                return Err(ScanError::InvalidPattern);
            },
        };
        if let Some(off) = self.find_cached_after(&toks, base_off) {
            proof {
                lemma_cache_lookup_is_entry(self.cache@, after_pred(toks@, base_off as int));
            }
            return Ok(self.base + off);
        }
        self.bump_searches();
        let found = find_first_match(self.as_bytes(), &toks, base_off);
        match found {
            Some(m) => {
                proof {
                    lemma_find_from_some(self.scan_source(), toks@, base_off as int, m as int);
                }
                self.cache_insert(CacheKey::AfterPtr(toks, base_off), m);
                Ok(self.base + m)
            },
            None => {
                proof {
                    lemma_find_from_none(self.scan_source(), toks@, base_off as int);
                }
                Err(ScanError::NotFound)
            },
        }
    }
}

/// Scanning the same pattern a second time returns the same address and runs
/// no byte search: once resolved, the cache answers.
pub proof fn lemma_scan_caching_idempotent(
    m0: Module,
    m1: Module,
    m2: Module,
    p: Seq<u8>,
    r1: Result<usize, ScanError>,
    r2: Result<usize, ScanError>,
)
    requires
        m0.wf(),
        Module::scan_post(m0, m1, p, r1),
        Module::scan_post(m1, m2, p, r2),
        r1 is Ok,
    ensures
        r2 == r1,
        m2.searches() == m1.searches(),
        Module::same_cache(m1, m2),
{
    let toks = spec_parse(p).unwrap();
    match m0.cached_regular(toks) {
        Some(off) => {
            assert(m1.cached_regular(toks) == m0.cached_regular(toks));
        },
        None => {
            match spec_find_from(m0.scan_source(), toks, 0) {
                Some(m) => {
                    lemma_find_from_bounds(m0.scan_source(), toks, 0);
                    assert(m1.cached_regular(toks) == Some(m as usize));
                    assert(0 <= m && m + toks.len() <= m0.scan_source().len());
                    assert((m as usize) as int == m);
                },
                None => {},
            }
        },
    }
}

} // verus!

