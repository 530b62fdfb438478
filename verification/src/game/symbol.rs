use vstd::prelude::*;

verus! {

/// The symbols that players can draw with.
#[derive(Debug, Clone, Copy, PartialEq, Eq, Structural)]
pub enum Symbol {
    Cross,
    Nought,
    Thorn,
    Barbeque,
}

/// The plural name of a symbol.
pub open spec fn symbol_name(s: Symbol) -> Seq<char> {
    match s {
        Symbol::Cross => "Crosses"@,
        Symbol::Nought => "Noughts"@,
        Symbol::Thorn => "Thorns"@,
        Symbol::Barbeque => "Barbeques"@,
    }
}

/// The possessive form of the plural name of a symbol.
pub open spec fn symbol_name_apostrophe(s: Symbol) -> Seq<char> {
    match s {
        Symbol::Cross => "Crosses'"@,
        Symbol::Nought => "Noughts'"@,
        Symbol::Thorn => "Thorns'"@,
        Symbol::Barbeque => "Barbeques'"@,
    }
}

/// The symbol after `s` in the cycle Cross, Nought, Thorn, Barbeque.
pub open spec fn symbol_next(s: Symbol) -> Symbol {
    match s {
        Symbol::Cross => Symbol::Nought,
        Symbol::Nought => Symbol::Thorn,
        Symbol::Thorn => Symbol::Barbeque,
        Symbol::Barbeque => Symbol::Cross,
    }
}

/// The symbol before `s` in the cycle Cross, Nought, Thorn, Barbeque.
pub open spec fn symbol_prev(s: Symbol) -> Symbol {
    match s {
        Symbol::Cross => Symbol::Barbeque,
        Symbol::Nought => Symbol::Cross,
        Symbol::Thorn => Symbol::Nought,
        Symbol::Barbeque => Symbol::Thorn,
    }
}

impl Symbol {
    pub fn name(&self) -> (r: String)
        ensures
            r@ == symbol_name(*self),
    {
        match self {
            Symbol::Cross => "Crosses".to_owned(),
            Symbol::Nought => "Noughts".to_owned(),
            Symbol::Thorn => "Thorns".to_owned(),
            Symbol::Barbeque => "Barbeques".to_owned(),
        }
    }

    pub fn name_apostrophe(&self) -> (r: String)
        ensures
            r@ == symbol_name_apostrophe(*self),
    {
        match self {
            Symbol::Cross => "Crosses'".to_owned(),
            Symbol::Nought => "Noughts'".to_owned(),
            Symbol::Thorn => "Thorns'".to_owned(),
            Symbol::Barbeque => "Barbeques'".to_owned(),
        }
    }

    pub fn next(self) -> (r: Symbol)
        ensures
            r == symbol_next(self),
    {
        match self {
            Symbol::Cross => Self::Nought,
            Symbol::Nought => Self::Thorn,
            Symbol::Thorn => Self::Barbeque,
            Symbol::Barbeque => Self::Cross,
        }
    }

    pub fn prev(self) -> (r: Symbol)
        ensures
            r == symbol_prev(self),
    {
        match self {
            Symbol::Cross => Self::Barbeque,
            Symbol::Nought => Self::Cross,
            Symbol::Thorn => Self::Nought,
            Symbol::Barbeque => Self::Thorn,
        }
    }
}

/// Stepping back undoes stepping forward, and stepping forward undoes stepping back.
pub proof fn law_symbol_next_prev(s: Symbol)
    ensures
        symbol_prev(symbol_next(s)) == s,
        symbol_next(symbol_prev(s)) == s,
{
}

/// Four steps forward return to the same symbol, and no fewer do: the cycle holds all
/// four symbols.
pub proof fn law_symbol_cycle(s: Symbol)
    ensures
        symbol_next(symbol_next(symbol_next(symbol_next(s)))) == s,
        symbol_next(s) != s,
        symbol_next(symbol_next(s)) != s,
        symbol_next(symbol_next(symbol_next(s))) != s,
{
}

} // verus!
