//! Interned strings, backed by the global table of `symbol_table`.
use vstd::prelude::*;

use std::num::NonZeroU32;
use symbol_table::GlobalSymbol;

verus! {

/// An interned string: the index that the global symbol table gave it.
/// Two symbols are equal exactly when they carry the same index. The index
/// is private to this module and only `Symbol::new` makes a symbol, so every
/// symbol carries an index that the table handed out.
#[derive(Debug, Clone, Copy, PartialEq, Eq, Structural, Hash, PartialOrd, Ord)]
pub struct Symbol {
    id: u32,
}

impl Symbol {
    /// Symbols only come out of the table, whose indices are never zero.
    #[verifier::type_invariant]
    spec fn nonzero(self) -> bool {
        self.id != 0
    }

    /// The symbol's index in the table.
    pub closed spec fn key(self) -> u32 {
        self.id
    }

    /// The symbol's index in the table.
    pub fn index_u32(self) -> (r: u32)
        ensures
            r == self.key(),
    {
        self.id
    }

    /// A symbol is determined by its index.
    pub proof fn lemma_key_injective(a: Symbol, b: Symbol)
        ensures
            a.key() == b.key() <==> a == b,
    {
    }

    /// Interns `s` in the global table (`GlobalSymbol::from(&str)`).
    /// The index handed back depends on what the process interned before, so
    /// nothing is stated of it beyond it being a symbol.
    #[verifier::external_body]
    pub fn new(s: &str) -> (r: Symbol) {
        let g = GlobalSymbol::from(s);
        Symbol { id: NonZeroU32::from(g).get() }
    }

    /// The interned text (`GlobalSymbol::as_str`). It is read from the global
    /// table, so nothing is stated of it. The table resolves every index it
    /// handed out, and `Symbol::new` is the only maker of symbols, so the
    /// lookup always finds the text.
    #[verifier::external_body]
    pub fn as_str(self) -> (r: &'static str) {
        GlobalSymbol::from(NonZeroU32::new(self.id).unwrap()).as_str()
    }
}

} // verus!
