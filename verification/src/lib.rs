//! String interning: mapping strings to small, copyable, comparable
//! identifiers (symbols) such that equal strings always map to the same
//! identifier, and an identifier resolves back to its string without
//! recomputation. An `Interner` owns a growable bump-allocation `Arena`
//! that hands out permanently stable byte storage, plus an id-indexed
//! table of handles into that storage; `Symbol` wraps the integer id.
pub mod arena;

use vstd::prelude::*;
use vstd::utf8::{decode_utf8, encode_utf8, valid_utf8};
use crate::arena::{max_alloc, Arena, Span};

verus! {

broadcast use
    vstd::utf8::encode_utf8_decode_utf8,
    vstd::utf8::decode_utf8_encode_utf8,
    vstd::utf8::encode_utf8_valid_utf8,
;

/// The table already holds an entry whose content is `s`.
pub open spec fn contains_str(m: Seq<Seq<char>>, s: Seq<char>) -> bool {
    exists|i: int| 0 <= i < m.len() && m[i] == s
}

/// The index of the entry whose content is `s`. Unique whenever the
/// entries are distinct.
pub open spec fn id_of(m: Seq<Seq<char>>, s: Seq<char>) -> int {
    choose|i: int| 0 <= i < m.len() && m[i] == s
}

/// No two entries hold the same content.
pub open spec fn distinct_strs(m: Seq<Seq<char>>) -> bool {
    forall|i: int, j: int| 0 <= i < j < m.len() ==> m[i] != m[j]
}

/// What interning `s` does to the table: nothing when the content is
/// already present, otherwise the content is appended.
pub open spec fn spec_intern(m: Seq<Seq<char>>, s: Seq<char>) -> Seq<Seq<char>> {
    if contains_str(m, s) {
        m
    } else {
        m.push(s)
    }
}

/// The id that interning `s` returns: the existing entry's index when the
/// content is already present, otherwise the next sequential id.
pub open spec fn spec_id(m: Seq<Seq<char>>, s: Seq<char>) -> int {
    if contains_str(m, s) {
        id_of(m, s)
    } else {
        m.len() as int
    }
}

/// Integer identifier standing in for a unique interned string. Copyable,
/// comparable by id alone; meaningful only together with the `Interner`
/// that produced it.
#[derive(Debug, Clone, Copy, PartialEq, Eq, Hash, Structural)]
pub struct Symbol(pub u32);

impl Symbol {
    /// Get the internal `u32` representation.
    pub fn as_u32(self) -> (id: u32)
        ensures
            id == self.0,
    {
        self.0
    }

    /// Intern `s` in the given interner and receive the symbol that points
    /// to it. Equivalent to calling the interner directly.
    pub fn intern(interner: &mut Interner, s: &str) -> (sym: Symbol)
        requires
            old(interner).wf(),
            s@.len() != 0,
            encode_utf8(s@).len() <= max_alloc(),
            old(interner)@.len() <= u32::MAX as nat || contains_str(old(interner)@, s@),
        ensures
            final(interner).wf(),
            final(interner)@ == spec_intern(old(interner)@, s@),
            sym.0 as int == spec_id(old(interner)@, s@),
            final(interner)@[sym.0 as int] == s@,
            contains_str(old(interner)@, s@) ==> *final(interner) == *old(interner),
    {
        interner.intern(s)
    }

    /// Get the string content that this symbol points to in the given
    /// interner.
    pub fn as_str<'a>(self, interner: &'a Interner) -> (r: &'a str)
        requires
            interner.wf(),
            (self.0 as nat) < interner@.len(),
        ensures
            r@ == interner@[self.0 as int],
    {
        interner.symbol_to_str(self)
    }
}

/// Deduplicates strings by content and assigns each unique string a stable,
/// dense integer identity, starting at 0 in insertion order. The content
/// lives in an arena the interner exclusively owns, so the handles in the
/// id-indexed table stay valid for the interner's whole lifetime.
#[derive(Debug)]
pub struct Interner {
    /// The id-indexed table: entry `i` points at the content of id `i`.
    strings: Vec<Span>,
    arena: Arena,
}

impl View for Interner {
    type V = Seq<Seq<char>>;

    /// The interned contents, in insertion order: one character sequence
    /// per issued id.
    closed spec fn view(&self) -> Seq<Seq<char>> {
        Seq::new(
            self.strings@.len(),
            |i: int| decode_utf8(self.arena.span_bytes(self.strings@[i])),
        )
    }
}

impl Interner {
    /// Entry `i`'s stored bytes.
    spec fn entry_bytes(&self, i: int) -> Seq<u8> {
        self.arena.span_bytes(self.strings@[i])
    }

    /// The table's internal invariant: every entry points at written arena
    /// bytes that form non-empty, valid UTF-8; no two entries hold the same
    /// bytes; and the number of entries never exceeds the id space.
    pub closed spec fn wf(&self) -> bool {
        &&& self.arena.wf()
        &&& self.strings@.len() <= u32::MAX as nat + 1
        &&& forall|i: int|
            0 <= i < self.strings@.len() ==> self.arena.valid_span(#[trigger] self.strings@[i])
        &&& forall|i: int| 0 <= i < self.strings@.len() ==> valid_utf8(#[trigger] self.entry_bytes(i))
        &&& forall|i: int| 0 <= i < self.strings@.len() ==> (#[trigger] self.entry_bytes(i)).len() != 0
        &&& forall|i: int, j: int|
            0 <= i < j < self.strings@.len() ==> self.entry_bytes(i) != self.entry_bytes(j)
    }

    /// What the invariant guarantees of the visible table: contents are
    /// pairwise distinct and non-empty, and ids fit the identifier range.
    pub proof fn lemma_wf_view(&self)
        requires
            self.wf(),
        ensures
            distinct_strs(self@),
            self@.len() <= u32::MAX as nat + 1,
            forall|i: int| 0 <= i < self@.len() ==> (#[trigger] self@[i]).len() != 0,
    {
        broadcast use vstd::utf8::decode_utf8_encode_utf8;

        assert forall|i: int, j: int| 0 <= i < j < self@.len() implies self@[i] != self@[j] by {
            if self@[i] == self@[j] {
                assert(encode_utf8(decode_utf8(self.entry_bytes(i))) == self.entry_bytes(i));
                assert(encode_utf8(decode_utf8(self.entry_bytes(j))) == self.entry_bytes(j));
            }
        };
        assert forall|i: int| 0 <= i < self@.len() implies (#[trigger] self@[i]).len() != 0 by {
            assert(self@[i] == decode_utf8(self.entry_bytes(i)));
        };
    }

    pub fn new() -> (t: Interner)
        ensures
            t.wf(),
            t@ == Seq::<Seq<char>>::empty(),
    {
        let t = Interner { strings: Vec::new(), arena: Arena::new() };
        proof {
            assert(t@ =~= Seq::<Seq<char>>::empty());
        }
        t
    }

    /// How many distinct strings have been interned so far. Ids are exactly
    /// `0 .. len`.
    pub fn len(&self) -> (n: usize)
        ensures
            n == self@.len(),
    {
        self.strings.len()
    }

    /// Intern `s`: if its content was seen before, return the existing id and
    /// change nothing; otherwise copy the content into the arena, register the
    /// next sequential id for it, and return that id. Exceeding the id space
    /// is unrecoverable capacity exhaustion, excluded up front; so is a
    /// request too large for address arithmetic, and the empty string, which
    /// the arena rejects.
    pub fn intern(&mut self, s: &str) -> (sym: Symbol)
        requires
            old(self).wf(),
            s@.len() != 0,
            encode_utf8(s@).len() <= max_alloc(),
            old(self)@.len() <= u32::MAX as nat || contains_str(old(self)@, s@),
        ensures
            final(self).wf(),
            final(self)@ == spec_intern(old(self)@, s@),
            sym.0 as int == spec_id(old(self)@, s@),
            final(self)@[sym.0 as int] == s@,
            contains_str(old(self)@, s@) ==> *final(self) == *old(self),
    {
        let sb: &[u8] = s.as_bytes();
        let n = self.strings.len();
        let mut i: usize = 0;
        while i < n
            invariant
                *self == *old(self),
                self.wf(),
                i <= n,
                n == self.strings@.len(),
                sb@ == encode_utf8(s@),
                forall|j: int| 0 <= j < i ==> self.entry_bytes(j) != sb@,
            decreases n - i,
        {
            let span = self.strings[i];
            let existing = self.arena.get_bytes(span);
            if bytes_eq(existing, sb) {
                proof {
                    assert(self@[i as int] == decode_utf8(self.entry_bytes(i as int)));
                    assert(self@[i as int] == s@);
                    assert(contains_str(self@, s@));
                    self.lemma_wf_view();
                    let k = id_of(self@, s@);
                    assert(0 <= k < self@.len() && self@[k] == s@);
                    assert(k == i as int);
                }
                return Symbol(i as u32);
            }
            i += 1;
        }
        proof {
            assert forall|j: int| 0 <= j < self@.len() implies self@[j] != s@ by {
                if self@[j] == s@ {
                    assert(encode_utf8(decode_utf8(self.entry_bytes(j))) == self.entry_bytes(j));
                    assert(self.entry_bytes(j) == sb@);
                }
            };
            assert(!contains_str(old(self)@, s@));
        }
        let idx = self.strings.len();
        let span = self.arena.allocate_string(s);
        let ghost prev = *old(self);
        proof {
            assert forall|j: int| 0 <= j < prev.strings@.len() implies self.arena.valid_span(
                #[trigger] prev.strings@[j],
            ) && self.arena.span_bytes(prev.strings@[j]) == prev.entry_bytes(j) by {
                assert(prev.arena.valid_span(prev.strings@[j]));
            };
        }
        self.strings.push(span);
        proof {
            assert(self.strings@ == prev.strings@.push(span));
            assert forall|j: int| 0 <= j < prev.strings@.len() implies self.entry_bytes(j)
                == prev.entry_bytes(j) by {
                assert(self.strings@[j] == prev.strings@[j]);
            };
            assert(self.entry_bytes(idx as int) == encode_utf8(s@));
            assert(self@ =~= prev@.push(s@));
            assert(self@ == spec_intern(prev@, s@));
            assert(self@[idx as int] == s@);
        }
        Symbol(idx as u32)
    }

    /// Resolve a previously issued symbol to its string content. An id this
    /// interner never issued is a caller error, excluded up front.
    pub fn symbol_to_str(&self, symbol: Symbol) -> (r: &str)
        requires
            self.wf(),
            (symbol.0 as nat) < self@.len(),
        ensures
            r@ == self@[symbol.0 as int],
    {
        let span = self.strings[symbol.0 as usize];
        let b = self.arena.get_bytes(span);
        proof {
            assert(span == self.strings@[symbol.0 as int]);
            assert(b@ == self.entry_bytes(symbol.0 as int));
            assert(valid_utf8(b@));
        }
        utf8_to_str(b)
    }
}

/// Relies on `str::from_utf8`: on a byte slice holding valid UTF-8 it
/// returns `Ok` with the borrowed string formed of exactly those bytes.
#[verifier::external_body]
fn utf8_to_str(v: &[u8]) -> (r: &str)
    requires
        valid_utf8(v@),
    ensures
        r@ == decode_utf8(v@),
{
    str::from_utf8(v).unwrap()
}

/// The UTF-8 encoding of a character sequence takes at least one and at
/// most four bytes per character. Lets callers bound a string's byte length
/// by its character count.
pub proof fn lemma_encode_utf8_len(cs: Seq<char>)
    ensures
        cs.len() <= encode_utf8(cs).len() <= 4 * cs.len(),
    decreases cs.len(),
{
    if cs.len() != 0 {
        assert(1 <= vstd::utf8::encode_scalar(cs[0] as u32).len() <= 4);
        lemma_encode_utf8_len(cs.drop_first());
    }
}

/// Law: the id that interning returns always indexes the resulting table,
/// and resolving it yields exactly the interned content — for every table
/// and every string.
pub proof fn lemma_intern_resolve(m: Seq<Seq<char>>, s: Seq<char>)
    ensures
        0 <= spec_id(m, s) < spec_intern(m, s).len(),
        spec_intern(m, s)[spec_id(m, s)] == s,
{
    if contains_str(m, s) {
        let i = choose|i: int| 0 <= i < m.len() && m[i] == s;
        assert(0 <= id_of(m, s) < m.len() && m[id_of(m, s)] == s);
    }
}

/// Law (determinism, idempotence): interning content that the table already
/// holds — in particular, interning the same content a second time — returns
/// the same id again and leaves the table exactly as it was, no matter how
/// often it is repeated.
pub proof fn lemma_intern_idempotent(m: Seq<Seq<char>>, s: Seq<char>)
    ensures
        spec_intern(spec_intern(m, s), s) == spec_intern(m, s),
        spec_id(spec_intern(m, s), s) == spec_id(m, s),
{
    let m1 = spec_intern(m, s);
    lemma_intern_resolve(m, s);
    assert(contains_str(m1, s));
    if !contains_str(m, s) {
        let j = id_of(m1, s);
        assert(0 <= j < m1.len() && m1[j] == s);
        if j < m.len() {
            assert(m[j] == s);
            assert(false);
        }
    }
}

/// Law (distinctness): interning two different contents, one after the
/// other, yields two different ids.
pub proof fn lemma_intern_distinct(m: Seq<Seq<char>>, a: Seq<char>, b: Seq<char>)
    requires
        a != b,
    ensures
        spec_id(m, a) != spec_id(spec_intern(m, a), b),
{
    let m1 = spec_intern(m, a);
    let m2 = spec_intern(m1, b);
    let ia = spec_id(m, a);
    let ib = spec_id(m1, b);
    lemma_intern_resolve(m, a);
    lemma_intern_resolve(m1, b);
    assert(m1[ia] == a);
    assert(m2[ib] == b);
    if ia == ib {
        assert(m2[ia] == m1[ia]);
        assert(a == b);
    }
}

/// Law (stability under growth): interning further content never moves,
/// changes or removes an existing entry — every previously issued id still
/// resolves to its original content, and, in a duplicate-free table, the id
/// of previously interned content stays what it was.
pub proof fn lemma_intern_stable(m: Seq<Seq<char>>, s: Seq<char>, t: Seq<char>)
    ensures
        spec_intern(m, t).len() >= m.len(),
        forall|i: int| 0 <= i < m.len() ==> spec_intern(m, t)[i] == m[i],
        contains_str(m, s) ==> contains_str(spec_intern(m, t), s),
        distinct_strs(m) && contains_str(m, s) ==> spec_id(spec_intern(m, t), s) == spec_id(m, s),
{
    let m1 = spec_intern(m, t);
    if contains_str(m, s) {
        let i0 = id_of(m, s);
        assert(0 <= i0 < m.len() && m[i0] == s);
        assert(m1[i0] == s);
        assert(contains_str(m1, s));
        if distinct_strs(m) && !contains_str(m, t) {
            let j = id_of(m1, s);
            assert(0 <= j < m1.len() && m1[j] == s);
            if j == m.len() {
                assert(m1[j] == t);
                assert(contains_str(m, t));
                assert(false);
            }
            assert(m[j] == s);
            assert(j == i0);
        }
    }
}

/// Law: interning preserves freedom from duplicates, so the invariant that
/// each content owns exactly one id holds in every reachable table.
pub proof fn lemma_intern_preserves_distinct(m: Seq<Seq<char>>, t: Seq<char>)
    requires
        distinct_strs(m),
    ensures
        distinct_strs(spec_intern(m, t)),
{
    let m1 = spec_intern(m, t);
    if !contains_str(m, t) {
        assert forall|i: int, j: int| 0 <= i < j < m1.len() implies m1[i] != m1[j] by {
            if j == m.len() {
                assert(m1[i] == m[i]);
                assert(m1[j] == t);
            }
        };
    }
}

/// Byte-for-byte slice comparison.
fn bytes_eq(a: &[u8], b: &[u8]) -> (eq: bool)
    ensures
        eq == (a@ == b@),
{
    if a.len() != b.len() {
        return false;
    }
    let n = a.len();
    let mut i: usize = 0;
    while i < n
        invariant
            i <= n,
            n == a@.len(),
            a@.len() == b@.len(),
            forall|j: int| 0 <= j < i ==> a@[j] == b@[j],
        decreases n - i,
    {
        if *vstd::slice::slice_index_get(a, i) != *vstd::slice::slice_index_get(b, i) {
            return false;
        }
        i += 1;
    }
    proof {
        assert(a@ =~= b@);
    }
    true
}

} // verus!

