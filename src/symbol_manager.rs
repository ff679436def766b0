//! The registry of symbols, each with the matcher of its book.
use vstd::prelude::*;
use crate::matcher::{placed, Matcher};
use crate::order::{Order, Trade};
use crate::symbol::{EngineError, Symbol, SymbolStatus};

verus! {

/// A symbol and, until it is delisted, its matcher.
#[derive(Debug)]
pub struct SymbolEntry {
    pub symbol: Symbol,
    pub matcher: Option<Matcher>,
}

/// Symbols in the order they were added; names are unique.
#[derive(Debug)]
pub struct SymbolManager {
    pub entries: Vec<SymbolEntry>,
}

impl SymbolManager {
    pub open spec fn wf(&self) -> bool {
        &&& forall|i: int, j: int| 0 <= i < j < self.entries@.len()
            ==> (#[trigger] self.entries@[i]).symbol.name@ != (#[trigger] self.entries@[j]).symbol.name@
        &&& forall|i: int| 0 <= i < self.entries@.len()
            ==> ((#[trigger] self.entries@[i]).matcher matches Some(m) ==> m.wf())
    }

    /// Whether a symbol of this name is registered.
    pub open spec fn has(&self, name: Seq<char>) -> bool {
        exists|i: int| 0 <= i < self.entries@.len() && (#[trigger] self.entries@[i]).symbol.name@ == name
    }

    /// Position of the symbol of this name (meaningful when `has(name)`).
    pub open spec fn index_of(&self, name: Seq<char>) -> int {
        choose|i: int| 0 <= i < self.entries@.len() && (#[trigger] self.entries@[i]).symbol.name@ == name
    }

    /// The entry of the symbol of this name (meaningful when `has(name)`).
    pub open spec fn entry(&self, name: Seq<char>) -> SymbolEntry {
        self.entries@[self.index_of(name)]
    }

    proof fn lemma_index_of(&self, k: int)
        requires
            self.wf(),
            0 <= k < self.entries@.len(),
        ensures
            self.has(self.entries@[k].symbol.name@),
            self.index_of(self.entries@[k].symbol.name@) == k,
    {
        let name = self.entries@[k].symbol.name@;
        assert(0 <= k < self.entries@.len() && self.entries@[k].symbol.name@ == name);
        let i = self.index_of(name);
        if i != k {
            if i < k {
                assert(self.entries@[i].symbol.name@ != self.entries@[k].symbol.name@);
            } else {
                assert(self.entries@[k].symbol.name@ != self.entries@[i].symbol.name@);
            }
        }
    }

    /// Checks `wf`: unique names and well-formed books.
    pub fn is_well_formed(&self) -> (r: bool)
        ensures
            r == self.wf(),
    {
        let n = self.entries.len();
        let mut i: usize = 0;
        while i < n
            invariant
                n == self.entries@.len(),
                0 <= i <= n,
                forall|a: int| 0 <= a < i ==> ((#[trigger] self.entries@[a]).matcher matches Some(m) ==> m.wf()),
                forall|a: int, b: int| 0 <= a < i && a < b < n
                    ==> (#[trigger] self.entries@[a]).symbol.name@ != (#[trigger] self.entries@[b]).symbol.name@,
            decreases n - i,
        {
            match &self.entries[i].matcher {
                Some(m) => {
                    if !m.orderbook.is_well_formed() {
                        return false;
                    }
                },
                None => {},
            }
            let mut j: usize = i + 1;
            while j < n
                invariant
                    n == self.entries@.len(),
                    0 <= i < n,
                    i < j <= n,
                    forall|b: int| i < b < j ==> self.entries@[i as int].symbol.name@ != (#[trigger] self.entries@[b]).symbol.name@,
                decreases n - j,
            {
                if self.entries[i].symbol.name == self.entries[j].symbol.name {
                    return false;
                }
                j += 1;
            }
            proof {
                assert forall|a: int, b: int| 0 <= a < i + 1 && a < b < n
                    implies (#[trigger] self.entries@[a]).symbol.name@ != (#[trigger] self.entries@[b]).symbol.name@ by {
                    if a == i {
                        assert(self.entries@[i as int].symbol.name@ != self.entries@[b].symbol.name@);
                    }
                }
            }
            i += 1;
        }
        true
    }

    /// An empty registry.
    pub fn new() -> (r: SymbolManager)
        ensures
            r.wf(),
            r.entries@.len() == 0,
    {
        SymbolManager { entries: Vec::new() }
    }

    /// Position of the symbol of this name.
    pub fn find(&self, name: &str) -> (r: Option<usize>)
        requires
            self.wf(),
        ensures
            r.is_none() <==> !self.has(name@),
            r matches Some(k) ==> k == self.index_of(name@) && k < self.entries@.len()
                && self.entries@[k as int].symbol.name@ == name@,
    {
        let key = name.to_owned();
        let n = self.entries.len();
        let mut k: usize = 0;
        while k < n
            invariant
                self.wf(),
                key@ == name@,
                n == self.entries@.len(),
                0 <= k <= n,
                forall|i: int| 0 <= i < k ==> (#[trigger] self.entries@[i]).symbol.name@ != name@,
            decreases n - k,
        {
            if self.entries[k].symbol.name == key {
                proof {
                    self.lemma_index_of(k as int);
                }
                return Some(k);
            }
            k += 1;
        }
        None
    }

    /// Replaces entry `k`, returning the old one.
    fn replace_entry(&mut self, k: usize, e: SymbolEntry) -> (r: SymbolEntry)
        requires
            k < old(self).entries@.len(),
        ensures
            r == old(self).entries@[k as int],
            final(self).entries@ == old(self).entries@.update(k as int, e),
    {
        let r = self.entries.remove(k);
        self.entries.insert(k, e);
        proof {
            assert(self.entries@ =~= old(self).entries@.update(k as int, e));
        }
        r
    }

    /// Registers a new active symbol with an empty book; refused when the
    /// name is taken.
    pub fn add_symbol(&mut self, symbol: Symbol) -> (r: Result<(), EngineError>)
        requires
            old(self).wf(),
        ensures
            final(self).wf(),
            old(self).has(symbol.name@) ==> r == Err::<(), EngineError>(EngineError::SymbolExists(symbol.name))
                && final(self).entries@ == old(self).entries@,
            !old(self).has(symbol.name@) ==> r is Ok && final(self).entries@.len() == old(self).entries@.len() + 1
                && final(self).entries@.drop_last() == old(self).entries@
                && final(self).entries@.last().symbol == symbol
                && (final(self).entries@.last().matcher matches Some(m)
                && m.orderbook.symbol == symbol.name && m.orderbook.bids@.len() == 0
                && m.orderbook.asks@.len() == 0),
    {
        match self.find(symbol.name.as_str()) {
            Some(_) => Err(EngineError::SymbolExists(symbol.name)),
            None => {
                let m = Matcher::new(symbol.name.clone());
                self.entries.push(SymbolEntry { symbol, matcher: Some(m) });
                proof {
                    assert(self.entries@.drop_last() =~= old(self).entries@);
                    assert forall|i: int, j: int| 0 <= i < j < self.entries@.len()
                        implies (#[trigger] self.entries@[i]).symbol.name@ != (#[trigger] self.entries@[j]).symbol.name@ by {
                        if j == self.entries@.len() - 1 {
                            assert(self.entries@[i] == old(self).entries@[i]);
                        } else {
                            assert(old(self).entries@[i].symbol.name@ != old(self).entries@[j].symbol.name@);
                        }
                    }
                }
                Ok(())
            },
        }
    }

    /// Replaces the configuration of a registered symbol; its book is kept.
    pub fn update_symbol(&mut self, symbol: Symbol) -> (r: Result<(), EngineError>)
        requires
            old(self).wf(),
        ensures
            final(self).wf(),
            !old(self).has(symbol.name@) ==> r == Err::<(), EngineError>(EngineError::SymbolNotFound(symbol.name))
                && final(self).entries@ == old(self).entries@,
            old(self).has(symbol.name@) ==> r is Ok && final(self).entries@ == old(self).entries@.update(
                old(self).index_of(symbol.name@),
                SymbolEntry { symbol: symbol, matcher: old(self).entry(symbol.name@).matcher },
            ),
    {
        match self.find(symbol.name.as_str()) {
            None => Err(EngineError::SymbolNotFound(symbol.name)),
            Some(k) => {
                let old_entry = self.entries.remove(k);
                self.entries.insert(k, SymbolEntry { symbol, matcher: old_entry.matcher });
                proof {
                    assert(self.entries@ =~= old(self).entries@.update(k as int, self.entries@[k as int]));
                }
                proof {
                    assert forall|i: int, j: int| 0 <= i < j < self.entries@.len()
                        implies (#[trigger] self.entries@[i]).symbol.name@ != (#[trigger] self.entries@[j]).symbol.name@ by {
                        assert(old(self).entries@[i].symbol.name@ != old(self).entries@[j].symbol.name@);
                    }
                }
                Ok(())
            },
        }
    }

    /// The symbol of this name.
    pub fn get_symbol(&self, name: &str) -> (r: Option<&Symbol>)
        requires
            self.wf(),
        ensures
            r.is_none() <==> !self.has(name@),
            r matches Some(s) ==> *s == self.entry(name@).symbol,
    {
        match self.find(name) {
            Some(k) => Some(&self.entries[k].symbol),
            None => None,
        }
    }

    /// The matcher of the symbol of this name, unless delisted.
    pub fn get_matcher(&self, name: &str) -> (r: Option<&Matcher>)
        requires
            self.wf(),
        ensures
            r.is_none() <==> !self.has(name@) || self.entry(name@).matcher is None,
            r matches Some(m) ==> self.entry(name@).matcher == Some(*m),
    {
        match self.find(name) {
            Some(k) => match &self.entries[k].matcher {
                Some(m) => Some(m),
                None => None,
            },
            None => None,
        }
    }

    /// The symbol of this name together with its matcher, unless delisted.
    pub fn get_symbol_and_matcher(&self, name: &str) -> (r: Option<(&Symbol, &Matcher)>)
        requires
            self.wf(),
        ensures
            r.is_none() <==> !self.has(name@) || self.entry(name@).matcher is None,
            r matches Some((s, m)) ==> *s == self.entry(name@).symbol && self.entry(name@).matcher == Some(*m),
    {
        match self.find(name) {
            Some(k) => match &self.entries[k].matcher {
                Some(m) => Some((&self.entries[k].symbol, m)),
                None => None,
            },
            None => None,
        }
    }

    /// Every registered symbol, in the order of registration.
    pub fn list_symbols(&self) -> (r: Vec<&Symbol>)
        ensures
            r@.len() == self.entries@.len(),
            forall|i: int| 0 <= i < r@.len() ==> *(#[trigger] r@[i]) == self.entries@[i].symbol,
    {
        let mut r: Vec<&Symbol> = Vec::new();
        let n = self.entries.len();
        let mut k: usize = 0;
        while k < n
            invariant
                n == self.entries@.len(),
                0 <= k <= n,
                r@.len() == k,
                forall|i: int| 0 <= i < k ==> *(#[trigger] r@[i]) == self.entries@[i].symbol,
            decreases n - k,
        {
            r.push(&self.entries[k].symbol);
            k += 1;
        }
        r
    }

    /// Sets the status of entry `k`, optionally dropping its matcher.
    fn set_status(&mut self, k: usize, status: SymbolStatus, drop_matcher: bool)
        requires
            old(self).wf(),
            k < old(self).entries@.len(),
        ensures
            final(self).wf(),
            final(self).entries@.len() == old(self).entries@.len(),
            forall|i: int| 0 <= i < old(self).entries@.len() && i != k
                ==> #[trigger] final(self).entries@[i] == old(self).entries@[i],
            final(self).entries@[k as int].symbol == (Symbol { status, ..old(self).entries@[k as int].symbol }),
            final(self).entries@[k as int].matcher == if drop_matcher { None } else { old(self).entries@[k as int].matcher },
    {
        let blank = SymbolEntry {
            symbol: Symbol::new(String::new(), String::new(), String::new(), 0, 0, 0, 0, 0, 0, 0),
            matcher: None,
        };
        let SymbolEntry { symbol, matcher } = self.replace_entry(k, blank);
        let mut symbol = symbol;
        symbol.status = status;
        let matcher = if drop_matcher { None } else { matcher };
        self.replace_entry(k, SymbolEntry { symbol, matcher });
        proof {
            assert forall|i: int, j: int| 0 <= i < j < self.entries@.len()
                implies (#[trigger] self.entries@[i]).symbol.name@ != (#[trigger] self.entries@[j]).symbol.name@ by {
                assert(old(self).entries@[i].symbol.name@ != old(self).entries@[j].symbol.name@);
            }
        }
    }

    /// Marks a symbol inactive; its book is kept.
    pub fn deactivate_symbol(&mut self, name: &str) -> (r: Result<(), EngineError>)
        requires
            old(self).wf(),
        ensures
            final(self).wf(),
            !old(self).has(name@) ==> (r matches Err(EngineError::SymbolNotFound(s)) && s@ == name@)
                && final(self).entries@ == old(self).entries@,
            old(self).has(name@) ==> r is Ok && final(self).entries@ == old(self).entries@.update(
                old(self).index_of(name@),
                SymbolEntry {
                    symbol: Symbol { status: SymbolStatus::Inactive, ..old(self).entry(name@).symbol },
                    matcher: old(self).entry(name@).matcher,
                },
            ),
    {
        match self.find(name) {
            None => Err(EngineError::SymbolNotFound(name.to_owned())),
            Some(k) => {
                self.set_status(k, SymbolStatus::Inactive, false);
                proof {
                    assert(self.entries@ =~= old(self).entries@.update(k as int, self.entries@[k as int]));
                }
                Ok(())
            },
        }
    }

    /// Marks a symbol delisted and drops its book with every resting order.
    pub fn delist_symbol(&mut self, name: &str) -> (r: Result<(), EngineError>)
        requires
            old(self).wf(),
        ensures
            final(self).wf(),
            !old(self).has(name@) ==> (r matches Err(EngineError::SymbolNotFound(s)) && s@ == name@)
                && final(self).entries@ == old(self).entries@,
            old(self).has(name@) ==> r is Ok && final(self).entries@ == old(self).entries@.update(
                old(self).index_of(name@),
                SymbolEntry {
                    symbol: Symbol { status: SymbolStatus::Delisted, ..old(self).entry(name@).symbol },
                    matcher: None,
                },
            ),
    {
        match self.find(name) {
            None => Err(EngineError::SymbolNotFound(name.to_owned())),
            Some(k) => {
                self.set_status(k, SymbolStatus::Delisted, true);
                proof {
                    assert(self.entries@ =~= old(self).entries@.update(k as int, self.entries@[k as int]));
                }
                Ok(())
            },
        }
    }
}

} // verus!
