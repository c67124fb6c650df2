//! The raw interner: maps text fragments to small integer handles and back.
//!
//! The storage itself is `string_interner::StringInterner`.  Verus refuses a
//! declaration of that type (its `Symbol` trait bound cannot be stated), so
//! the interner sits in a private field of an opaque struct, behind a small
//! set of trusted wrappers.  Their contracts speak of `interned_texts`, the
//! sequence of interned strings in insertion order; a handle is the position
//! of its text in that sequence.

use string_interner::Symbol;
use vstd::prelude::*;

verus! {

/// Holds the concrete `string_interner` instantiation: bucket backend,
/// `usize`-sized symbols, and the deterministic std hasher.  Opaque to Verus;
/// the trusted wrappers below are its only interface.
#[verifier::external_body]
pub struct StrInterner {
    inner: string_interner::StringInterner<
        string_interner::symbol::SymbolUsize,
        string_interner::DefaultBackend<string_interner::symbol::SymbolUsize>,
        std::hash::BuildHasherDefault<std::collections::hash_map::DefaultHasher>,
    >,
}

/// The texts held by an interner, in the order they were first interned.
/// A symbol produced by the interner is an index into this sequence.
pub uninterp spec fn interned_texts(t: StrInterner) -> Seq<Seq<char>>;

/// Relies on `StringInterner::new`: a fresh interner holds no strings.
#[verifier::external_body]
pub(crate) fn interner_new() -> (r: StrInterner)
    ensures
        interned_texts(r) == Seq::<Seq<char>>::empty(),
{
    StrInterner { inner: string_interner::StringInterner::new() }
}

/// Relies on `StringInterner::get_or_intern`: it returns the symbol of an
/// already interned string unchanged, and interns an unseen string under the
/// next sequential symbol (the bucket backend numbers symbols in insertion
/// order).  It panics only when no further symbol exists, which the
/// `requires` rules out.
#[verifier::external_body]
pub(crate) fn interner_get_or_intern(t: &mut StrInterner, text: &str) -> (r: usize)
    requires
        interned_texts(*old(t)).len() < usize::MAX,
    ensures
        ({
            let m = interned_texts(*old(t));
            &&& (exists|i: int| 0 <= i < m.len() && m[i] == text@) ==> {
                &&& interned_texts(*final(t)) == m
                &&& 0 <= r < m.len()
                &&& m[r as int] == text@
            }
            &&& (forall|i: int| 0 <= i < m.len() ==> m[i] != text@) ==> {
                &&& interned_texts(*final(t)) == m.push(text@)
                &&& r == m.len()
            }
        }),
{
    t.inner.get_or_intern(text).to_usize()
}

/// Relies on `StringInterner::len`: the number of strings interned so far.
#[verifier::external_body]
pub(crate) fn interner_len(t: &StrInterner) -> (r: usize)
    ensures
        r == interned_texts(*t).len(),
{
    t.inner.len()
}

/// Relies on `StringInterner::resolve`: the string first interned under a
/// symbol is returned for that symbol.
#[verifier::external_body]
pub(crate) fn interner_resolve(t: &StrInterner, symbol: usize) -> (r: String)
    requires
        symbol < interned_texts(*t).len(),
        interned_texts(*t).len() <= usize::MAX,
    ensures
        r@ == interned_texts(*t)[symbol as int],
{
    t.inner
        .resolve(string_interner::symbol::SymbolUsize::try_from_usize(symbol).unwrap())
        .unwrap()
        .to_string()
}

} // verus!
