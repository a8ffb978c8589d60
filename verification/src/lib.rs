//! Wand: a functional language with first-class polymorphism and row types.
use vstd::prelude::*;

pub mod dependency_analysis;
pub mod error;
pub mod eval;
pub mod expr;
pub mod interpreter;
pub mod kind_checker;
pub mod lexer;
pub mod parser;
pub mod pools;
pub mod text;
pub mod transpiler;
pub mod type_inference;
pub mod types;

use crate::text::{chars_eq, chars_to_string, str_to_chars};

verus! {

/// A handle on a string held by a [`StringInterner`].
#[derive(Debug, Clone, Copy, PartialEq, Eq, Hash, Ord, PartialOrd, Structural)]
pub struct InternedString(pub u32);

/// Owns the text of every interned string; equal strings get equal handles.
#[derive(Debug, Clone)]
pub struct StringInterner {
    pub strings: Vec<Vec<char>>,
}

impl StringInterner {
    /// The interned texts, by handle.
    pub open spec fn texts(&self) -> Seq<Seq<char>> {
        self.strings@.map_values(|v: Vec<char>| v@)
    }

    /// No text is interned twice.
    pub open spec fn wf(&self) -> bool {
        &&& self.strings.len() <= u32::MAX
        &&& forall|i: int, j: int|
            0 <= i < j < self.strings.len() ==> #[trigger] self.strings@[i]@
                != #[trigger] self.strings@[j]@
    }

    /// The text of a handle, or the empty text for a handle this interner never gave out.
    pub open spec fn text_of(&self, id: InternedString) -> Seq<char> {
        if (id.0 as int) < self.strings.len() {
            self.strings@[id.0 as int]@
        } else {
            Seq::empty()
        }
    }

    pub fn new() -> (r: Self)
        ensures
            r.wf(),
            r.strings@.len() == 0,
    {
        Self { strings: Vec::new() }
    }

    /// The handle of `s`, interning it when it is new.
    pub fn intern_chars(&mut self, s: &Vec<char>) -> (r: InternedString)
        requires
            old(self).wf(),
            old(self).strings.len() < u32::MAX,
        ensures
            final(self).wf(),
            (r.0 as int) < final(self).strings.len(),
            final(self).strings@[r.0 as int]@ == s@,
            (exists|i: int| 0 <= i < old(self).strings.len() && old(self).strings@[i]@ == s@)
                ==> final(self).strings@ == old(self).strings@,
            !(exists|i: int| 0 <= i < old(self).strings.len() && old(self).strings@[i]@ == s@)
                ==> final(self).strings.len() == old(self).strings.len() + 1 && r.0 as int == old(
                self,
            ).strings.len(),
            forall|i: int|
                0 <= i < old(self).strings.len() ==> final(self).strings@[i] == old(
                    self,
                ).strings@[i],
    {
        let mut i: usize = 0;
        while i < self.strings.len()
            invariant
                i <= self.strings.len(),
                self.strings.len() < u32::MAX,
                self.wf(),
                forall|k: int| 0 <= k < i ==> self.strings@[k]@ != s@,
            decreases self.strings.len() - i,
        {
            if chars_eq(&self.strings[i], s) {
                return InternedString(i as u32);
            }
            i = i + 1;
        }
        let ghost old_strings = self.strings@;
        let copy = s.clone();
        assert(copy@ =~= s@);
        let id = self.strings.len() as u32;
        self.strings.push(copy);
        proof {
            assert(forall|k: int| 0 <= k < old_strings.len() ==> self.strings@[k] == old_strings[k]);
        }
        InternedString(id)
    }

    /// The handle of `s`, interning it when it is new.
    pub fn intern(&mut self, s: &str) -> (r: InternedString)
        requires
            old(self).wf(),
            old(self).strings.len() < u32::MAX,
        ensures
            final(self).wf(),
            (r.0 as int) < final(self).strings.len(),
            final(self).strings@[r.0 as int]@ == s@,
            forall|i: int|
                0 <= i < old(self).strings.len() ==> final(self).strings@[i] == old(
                    self,
                ).strings@[i],
            final(self).strings.len() <= old(self).strings.len() + 1,
            final(self).strings.len() >= old(self).strings.len(),
            (exists|i: int| 0 <= i < old(self).strings.len() && old(self).strings@[i]@ == s@)
                ==> final(self).strings@ == old(self).strings@,
            !(exists|i: int| 0 <= i < old(self).strings.len() && old(self).strings@[i]@ == s@)
                ==> final(self).strings.len() == old(self).strings.len() + 1 && r.0 as int == old(self).strings.len(),
    {
        let v = str_to_chars(s);
        self.intern_chars(&v)
    }

    /// The text of a handle (empty for a handle this interner never gave out).
    pub fn resolve_chars(&self, id: InternedString) -> (r: Vec<char>)
        ensures
            r@ == self.text_of(id),
    {
        let k = id.0 as usize;
        if k < self.strings.len() {
            let r = self.strings[k].clone();
            assert(r@ =~= self.strings@[k as int]@);
            r
        } else {
            Vec::new()
        }
    }

    /// The text of a handle as an owned `String`.
    pub fn resolve(&self, id: InternedString) -> (r: String)
        ensures
            r@ == self.text_of(id),
    {
        let v = self.resolve_chars(id);
        chars_to_string(&v)
    }

    /// The handle of `s` if it has been interned.
    pub fn lookup(&self, s: &Vec<char>) -> (r: Option<InternedString>)
        requires
            self.wf(),
        ensures
            r is Some ==> (r.unwrap().0 as int) < self.strings.len() && self.strings@[r.unwrap().0 as int]@
                == s@,
            r is None ==> forall|i: int| 0 <= i < self.strings.len() ==> self.strings@[i]@ != s@,
    {
        let mut i: usize = 0;
        while i < self.strings.len()
            invariant
                i <= self.strings.len(),
                self.strings.len() <= u32::MAX,
                forall|k: int| 0 <= k < i ==> self.strings@[k]@ != s@,
            decreases self.strings.len() - i,
        {
            if chars_eq(&self.strings[i], s) {
                return Some(InternedString(i as u32));
            }
            i = i + 1;
        }
        None
    }

    pub fn len(&self) -> (r: usize)
        ensures
            r == self.strings.len(),
    {
        self.strings.len()
    }
}

/// Interns `s` in `interner`.
pub fn intern_str(interner: &mut StringInterner, s: &str) -> (r: InternedString)
    requires
        old(interner).wf(),
        old(interner).strings.len() < u32::MAX,
    ensures
        final(interner).wf(),
        final(interner).text_of(r) == s@,
        forall|i: int|
            0 <= i < old(interner).strings.len() ==> final(interner).strings@[i] == old(
                interner,
            ).strings@[i],
        final(interner).strings.len() <= old(interner).strings.len() + 1,
{
    interner.intern(s)
}

impl InternedString {
    /// Interns `s` in `interner`.
    pub fn new(interner: &mut StringInterner, s: &str) -> (r: Self)
        requires
            old(interner).wf(),
            old(interner).strings.len() < u32::MAX,
        ensures
            final(interner).wf(),
            final(interner).text_of(r) == s@,
            forall|i: int|
                0 <= i < old(interner).strings.len() ==> final(interner).strings@[i] == old(
                    interner,
                ).strings@[i],
            final(interner).strings.len() <= old(interner).strings.len() + 1,
    {
        interner.intern(s)
    }

    /// The text of this handle.
    pub fn as_str(self, interner: &StringInterner) -> (r: String)
        ensures
            r@ == interner.text_of(self),
    {
        interner.resolve(self)
    }
}

impl StringInterner {
    /// Two handles this interner gave out are equal exactly when their texts are.
    pub proof fn lemma_handles_match_texts(&self, a: InternedString, b: InternedString)
        requires
            self.wf(),
            (a.0 as int) < self.strings@.len(),
            (b.0 as int) < self.strings@.len(),
        ensures
            (self.text_of(a) == self.text_of(b)) == (a == b),
    {
        if a.0 < b.0 {
            assert(self.strings@[a.0 as int]@ != self.strings@[b.0 as int]@);
        } else if b.0 < a.0 {
            assert(self.strings@[b.0 as int]@ != self.strings@[a.0 as int]@);
        }
    }

    /// Interning a text that was already interned gives back its handle and
    /// changes nothing.
    pub proof fn lemma_intern_again(&self, after: &StringInterner, s: Seq<char>, first: InternedString, second: InternedString)
        requires
            self.wf(),
            (first.0 as int) < self.strings@.len(),
            self.text_of(first) == s,
            after.wf(),
            (second.0 as int) < after.strings@.len(),
            after.text_of(second) == s,
            forall|i: int| 0 <= i < self.strings@.len() ==> after.strings@[i] == self.strings@[i],
            self.strings@.len() <= after.strings@.len(),
        ensures
            second == first,
    {
        assert(after.text_of(first) == s);
        after.lemma_handles_match_texts(first, second);
    }
}

} // verus!
