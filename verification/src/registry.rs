//! The symbols of the exchange, fixed at startup; each stands for one ladder.

use vstd::prelude::*;
use crate::text::{same_text, to_upper, uppercase};

verus! {

/// `i` is the first place of `key` among `symbols`.
pub open spec fn first_at(symbols: Seq<Seq<char>>, key: Seq<char>, i: int) -> bool {
    &&& 0 <= i < symbols.len()
    &&& symbols[i] == key
    &&& forall|j: int| 0 <= j < i ==> symbols[j] != key
}

/// `key` is none of `symbols`.
pub open spec fn absent(symbols: Seq<Seq<char>>, key: Seq<char>) -> bool {
    forall|j: int| 0 <= j < symbols.len() ==> symbols[j] != key
}

/// The texts of a list of symbols.
pub open spec fn texts(symbols: Seq<String>) -> Seq<Seq<char>> {
    Seq::new(symbols.len(), |i: int| symbols[i]@)
}

/// The list of tradable symbols. A symbol's place in the list is the
/// handle of its ladder.
pub struct SymbolRegistry {
    symbols: Vec<String>,
}

impl View for SymbolRegistry {
    type V = Seq<Seq<char>>;

    closed spec fn view(&self) -> Seq<Seq<char>> {
        texts(self.symbols@)
    }
}

impl SymbolRegistry {
    /// The registry of the given symbols, in their order.
    pub fn new(symbols: Vec<String>) -> (r: Self)
        ensures
            r@ == texts(symbols@),
    {
        SymbolRegistry { symbols }
    }

    /// The number of symbols.
    pub fn len(&self) -> (n: usize)
        ensures
            n == self@.len(),
    {
        self.symbols.len()
    }

    /// The symbol with handle `i`.
    pub fn symbol(&self, i: usize) -> (s: &str)
        requires
            i < self@.len(),
        ensures
            s@ == self@[i as int],
    {
        self.symbols[i].as_str()
    }

    /// The handle of the symbol that is written exactly as `key`.
    pub fn find(&self, key: &str) -> (r: Option<usize>)
        ensures
            match r {
                Some(i) => first_at(self@, key@, i as int),
                None => absent(self@, key@),
            },
    {
        let mut i: usize = 0;
        while i < self.symbols.len()
            invariant
                0 <= i <= self.symbols.len(),
                forall|j: int| 0 <= j < i ==> self@[j] != key@,
            decreases self.symbols.len() - i,
        {
            if same_text(self.symbols[i].as_str(), key) {
                return Some(i);
            }
            i = i + 1;
        }
        None
    }

    /// The handle of `symbol`, which is taken in upper case.
    pub fn lookup(&self, symbol: &str) -> (r: Option<usize>)
        ensures
            match r {
                Some(i) => first_at(self@, uppercase(symbol@), i as int),
                None => absent(self@, uppercase(symbol@)),
            },
    {
        let key = to_upper(symbol);
        self.find(key.as_str())
    }
}

/// A symbol as the exchange keys it: in upper case.
pub fn normalize_symbol(symbol: &str) -> (r: String)
    ensures
        r@ == uppercase(symbol@),
{
    to_upper(symbol)
}

} // verus!
