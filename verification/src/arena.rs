use vstd::prelude::*;

verus! {

/// Base chunk size. Every chunk is a power-of-two multiple of this size.
pub const PAGE_SIZE: usize = 4096;

/// Largest byte count a single allocation may request. Beyond this the
/// doubling chunk-size computation would overflow address arithmetic,
/// which the arena treats as unrecoverable and rules out up front.
pub open spec fn max_alloc() -> nat {
    (usize::MAX as nat + 1) / 2
}

/// A legal chunk size: `PAGE_SIZE` doubled zero or more times.
pub open spec fn valid_chunk_size(n: nat) -> bool
    decreases n,
{
    if n == PAGE_SIZE as nat {
        true
    } else if n < PAGE_SIZE as nat {
        false
    } else {
        n % 2 == 0 && valid_chunk_size(n / 2)
    }
}

/// A handle to one allocated byte range: which chunk it lives in, where it
/// starts, and how many bytes it covers. Handles stay valid for the life of
/// the arena because chunk contents are only ever appended to, never moved.
#[derive(Debug, Clone, Copy)]
pub struct Span {
    pub chunk: usize,
    pub offset: usize,
    pub len: usize,
}

/// A growable bump allocator over a list of byte chunks. New bytes are
/// appended to the current chunk; when a request does not fit, the current
/// chunk is sealed (its leftover capacity abandoned, the deliberate bump
/// allocator trade-off) and a fresh, larger-or-equal chunk takes its place.
#[derive(Debug)]
pub struct Arena {
    /// Chunks that have been sealed; their contents never change again.
    full: Vec<Vec<u8>>,
    /// Bytes written so far into the current chunk (the bump cursor).
    cur: Vec<u8>,
    /// Capacity of the current chunk (the end cursor). The arena starts
    /// with an empty current chunk of capacity zero.
    cur_size: usize,
}

impl Arena {
    /// Number of chunks, the current one included.
    pub closed spec fn chunk_count(&self) -> nat {
        self.full@.len() + 1
    }

    /// Bytes written so far into chunk `i`. The current chunk has the
    /// highest index.
    pub closed spec fn chunk_data(&self, i: int) -> Seq<u8> {
        if i < self.full@.len() {
            self.full@[i]@
        } else {
            self.cur@
        }
    }

    /// `r` points at bytes that have actually been written.
    pub open spec fn valid_span(&self, r: Span) -> bool {
        &&& (r.chunk as nat) < self.chunk_count()
        &&& r.offset + r.len <= self.chunk_data(r.chunk as int).len()
    }

    /// The bytes that `r` points at.
    pub open spec fn span_bytes(&self, r: Span) -> Seq<u8>
        recommends
            self.valid_span(r),
    {
        self.chunk_data(r.chunk as int).subrange(r.offset as int, r.offset + r.len)
    }

    /// Stability: every span valid in `prev` is valid here and still points
    /// at the same bytes. Every arena operation extends the arena it started
    /// from, so a handle once issued never dangles and never changes content.
    pub open spec fn extends(&self, prev: Self) -> bool {
        forall|r: Span| #[trigger]
            prev.valid_span(r) ==> self.valid_span(r) && self.span_bytes(r) == prev.span_bytes(r)
    }

    /// The cursor lies within the current chunk, and the current chunk has a
    /// legal size (or is the initial empty chunk of capacity zero).
    pub closed spec fn wf(&self) -> bool {
        &&& self.cur@.len() <= self.cur_size
        &&& (self.cur_size == 0 || valid_chunk_size(self.cur_size as nat))
    }

    /// Unwritten bytes left in the current chunk.
    spec fn room(&self) -> int {
        self.cur_size - self.cur@.len()
    }

    pub fn new() -> (a: Arena)
        ensures
            a.wf(),
            a.chunk_count() == 1,
            a.chunk_data(0).len() == 0,
    {
        Arena { full: Vec::new(), cur: Vec::new(), cur_size: 0 }
    }

    /// The smallest legal chunk size that holds `bytes`: `PAGE_SIZE` doubled
    /// until the request fits. Minimality is the last clause: either the base
    /// size already sufficed, or half the result would not have.
    fn chunk_size_for(bytes: usize) -> (size: usize)
        requires
            bytes as nat <= max_alloc(),
        ensures
            valid_chunk_size(size as nat),
            size >= bytes,
            size == PAGE_SIZE || size / 2 < bytes,
    {
        let mut size: usize = PAGE_SIZE;
        while bytes > size
            invariant
                valid_chunk_size(size as nat),
                size >= PAGE_SIZE,
                size == PAGE_SIZE || size / 2 < bytes,
                bytes as nat <= max_alloc(),
            decreases 2 * bytes - size,
        {
            assert(size as nat * 2 <= usize::MAX as nat) by {
                assert((size as nat) < (bytes as nat));
                assert(bytes as nat <= (usize::MAX as nat + 1) / 2);
            };
            let doubled = size * 2;
            size = doubled;
        }
        size
    }

    /// Seal the current chunk and start a fresh, empty one whose size is the
    /// smallest legal chunk size that holds `bytes`. Since the fresh chunk is
    /// empty, its whole size is room, so the last two clauses state that the
    /// size is legal and minimal.
    fn new_chunk(&mut self, bytes: usize)
        requires
            old(self).wf(),
            bytes as nat <= max_alloc(),
        ensures
            final(self).wf(),
            final(self).extends(*old(self)),
            final(self).chunk_count() == old(self).chunk_count() + 1,
            final(self).chunk_data(final(self).chunk_count() - 1 as int).len() == 0,
            final(self).room() >= bytes,
            valid_chunk_size(final(self).room() as nat),
            final(self).room() == PAGE_SIZE || final(self).room() / 2 < bytes,
    {
        let size = Self::chunk_size_for(bytes);
        let mut sealed: Vec<u8> = Vec::with_capacity(size);
        core::mem::swap(&mut self.cur, &mut sealed);
        self.full.push(sealed);
        self.cur_size = size;
        proof {
            assert forall|r: Span| old(self).valid_span(r) implies self.valid_span(r)
                && self.span_bytes(r) == old(self).span_bytes(r) by {
                assert(self.chunk_data(r.chunk as int) == old(self).chunk_data(r.chunk as int));
            };
        }
    }

    /// Claim `bytes` bytes of storage: bump within the current chunk when the
    /// request fits its remaining room, otherwise roll over to exactly one new
    /// chunk, abandoning the old chunk's leftover space. Returns the handle
    /// describing where the bytes will land, at the current cursor.
    fn allocate(&mut self, bytes: usize) -> (r: Span)
        requires
            old(self).wf(),
            bytes as nat <= max_alloc(),
        ensures
            final(self).wf(),
            final(self).extends(*old(self)),
            r.len == bytes,
            r.chunk as nat + 1 == final(self).chunk_count(),
            r.offset == final(self).chunk_data(r.chunk as int).len(),
            final(self).room() >= bytes,
            old(self).room() >= bytes ==> *final(self) == *old(self),
            old(self).room() < bytes ==> final(self).chunk_count() == old(self).chunk_count()
                + 1,
    {
        if bytes > self.cur_size - self.cur.len() {
            self.new_chunk(bytes);
        }
        Span { chunk: self.full.len(), offset: self.cur.len(), len: bytes }
    }

    /// Append `src` to the current chunk, which must have room for it.
    fn append_to_cur(&mut self, src: &[u8])
        requires
            old(self).wf(),
            old(self).room() >= src@.len(),
        ensures
            final(self).wf(),
            final(self).full == old(self).full,
            final(self).cur_size == old(self).cur_size,
            final(self).cur@ == old(self).cur@ + src@,
    {
        let n = src.len();
        let mut i: usize = 0;
        while i < n
            invariant
                i <= n,
                n == src@.len(),
                self.full == old(self).full,
                self.cur_size == old(self).cur_size,
                self.cur@ == old(self).cur@ + src@.subrange(0, i as int),
                old(self).room() >= n,
            decreases n - i,
        {
            let b: u8 = *vstd::slice::slice_index_get(src, i);
            self.cur.push(b);
            proof {
                assert(self.cur@ =~= old(self).cur@ + src@.subrange(0, i as int + 1));
            }
            i += 1;
        }
        proof {
            assert(src@.subrange(0, n as int) =~= src@);
        }
    }

    /// Copy the bytes of `s` into newly claimed arena storage and return a
    /// handle to them. Earlier handles keep their content unchanged, even
    /// when the request forces a new chunk.
    pub fn allocate_string(&mut self, s: &str) -> (r: Span)
        requires
            old(self).wf(),
            s@.len() != 0,
            vstd::utf8::encode_utf8(s@).len() <= max_alloc(),
        ensures
            final(self).wf(),
            final(self).extends(*old(self)),
            final(self).valid_span(r),
            final(self).span_bytes(r) == vstd::utf8::encode_utf8(s@),
            r.len == vstd::utf8::encode_utf8(s@).len(),
    {
        let b: &[u8] = s.as_bytes();
        let r = self.allocate(b.len());
        let ghost mid = *self;
        self.append_to_cur(b);
        proof {
            assert(self.span_bytes(r) =~= b@);
            assert forall|r2: Span| old(self).valid_span(r2) implies self.valid_span(r2)
                && self.span_bytes(r2) == old(self).span_bytes(r2) by {
                assert(mid.valid_span(r2) && mid.span_bytes(r2) == old(self).span_bytes(r2));
                assert(self.chunk_count() == mid.chunk_count());
                if (r2.chunk as nat) + 1 < mid.chunk_count() {
                    assert(self.chunk_data(r2.chunk as int) == mid.chunk_data(r2.chunk as int));
                } else {
                    assert(self.span_bytes(r2) =~= mid.span_bytes(r2));
                }
            };
        }
        r
    }

    /// Borrow the bytes a handle points at.
    pub fn get_bytes(&self, r: Span) -> (b: &[u8])
        requires
            self.valid_span(r),
        ensures
            b@ == self.span_bytes(r),
    {
        let chunk: &Vec<u8> = if r.chunk < self.full.len() {
            &self.full[r.chunk]
        } else {
            &self.cur
        };
        proof {
            assert(chunk@ == self.chunk_data(r.chunk as int));
        }
        let total = chunk.len();
        assert(r.offset + r.len <= total);
        vstd::slice::slice_subrange(chunk.as_slice(), r.offset, r.offset + r.len)
    }
}

} // verus!
