//! Small procedures shared by the parts of the program.
use vstd::prelude::*;

use crate::game::symbol::{symbol_name, Symbol};

verus! {

/// The title of the window: "Super " once per level above the first, then the names of
/// the second and the first player's symbols.
pub open spec fn title_of(depth: usize, player_1: Symbol, player_2: Symbol) -> Seq<char> {
    Seq::new((depth - 1) as nat, |i: int| "Super "@).flatten() + symbol_name(player_2) + " and "@
        + symbol_name(player_1)
}

/// The title of the window for a game of the given depth and symbols.
pub fn window_title(depth: usize, player_1: Symbol, player_2: Symbol) -> (r: String)
    requires
        depth >= 1,
    ensures
        r@ == title_of(depth, player_1, player_2),
{
    let mut out = String::new();
    let n = depth - 1;
    for i in 0..n
        invariant
            out@ == Seq::new(i as nat, |k: int| "Super "@).flatten(),
    {
        let ghost before = out@;
        out.append("Super ");
        proof {
            let s1 = Seq::new((i + 1) as nat, |k: int| "Super "@);
            let s0 = Seq::new(i as nat, |k: int| "Super "@);
            assert(s1 =~= s0.push("Super "@));
            s0.lemma_flatten_push("Super "@);
        }
    }
    let n2 = player_2.name();
    let n1 = player_1.name();
    out.append(n2.as_str());
    out.append(" and ");
    out.append(n1.as_str());
    out
}

} // verus!
