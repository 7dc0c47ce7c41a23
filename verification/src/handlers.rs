//! What the front page shows: the newest rates, with the currencies that
//! readers look for first at the head of the list.

use crate::db::Db;
use crate::errors::Error;
use crate::snapshot::currency_views;
use crate::snapshot::Currency;
use crate::snapshot::CurrencyView;
use crate::snapshot::Snapshot;
use crate::sync::current_snapshot;
use crate::sync::pointer_tag;
use vstd::prelude::*;

verus! {

/// The place of a currency in the list: the euro first, then the dollar and
/// the pound, then all others.
pub open spec fn rank(name: Seq<char>) -> int {
    if name == seq!['E', 'U', 'R'] {
        0
    } else if name == seq!['U', 'S', 'D'] || name == seq!['G', 'B', 'P'] {
        1
    } else {
        2
    }
}

/// The currencies of one rank, in the order in which they stood.
pub open spec fn of_rank(currencies: Seq<CurrencyView>, wanted: int) -> Seq<CurrencyView>
    decreases currencies.len(),
{
    if currencies.len() == 0 {
        Seq::empty()
    } else {
        let before = of_rank(currencies.drop_last(), wanted);
        if rank(currencies.last().name) == wanted {
            before.push(currencies.last())
        } else {
            before
        }
    }
}

/// The list as it is shown: by rank, and within a rank in the order in
/// which the currencies stood.
pub open spec fn display_order(currencies: Seq<CurrencyView>) -> Seq<CurrencyView> {
    of_rank(currencies, 0) + of_rank(currencies, 1) + of_rank(currencies, 2)
}

/// The place of a currency of this name in the list.
pub fn rank_of(name: &String) -> (r: u8)
    ensures
        r == rank(name@),
{
    proof {
        reveal_strlit("EUR");
        reveal_strlit("USD");
        reveal_strlit("GBP");
    }
    let euro: String = "EUR".to_owned();
    let dollar: String = "USD".to_owned();
    let pound: String = "GBP".to_owned();
    assert(euro@ =~= seq!['E', 'U', 'R']);
    assert(dollar@ =~= seq!['U', 'S', 'D']);
    assert(pound@ =~= seq!['G', 'B', 'P']);
    if *name == euro {
        0
    } else if *name == dollar || *name == pound {
        1
    } else {
        2
    }
}

/// Appends to `shown` the currencies of one rank.
fn push_rank(shown: &mut Vec<Currency>, currencies: &Vec<Currency>, wanted: u8)
    ensures
        currency_views(final(shown)@) == currency_views(old(shown)@) + of_rank(
            currency_views(currencies@),
            wanted as int,
        ),
{
    let ghost all = currency_views(currencies@);
    let ghost start = currency_views(shown@);
    let mut i: usize = 0;
    assert(currency_views(shown@) =~= start + of_rank(all.take(0), wanted as int));
    while i < currencies.len()
        invariant
            i <= currencies.len(),
            all == currency_views(currencies@),
            currency_views(shown@) == start + of_rank(all.take(i as int), wanted as int),
        decreases currencies.len() - i,
    {
        proof {
            assert(all.take(i + 1).drop_last() =~= all.take(i as int));
            assert(all.take(i + 1).last() == currencies@[i as int]@);
        }
        if rank_of(&currencies[i].name) == wanted {
            let ghost before = currency_views(shown@);
            shown.push(currencies[i].duplicate());
            assert(currency_views(shown@) =~= before.push(currencies@[i as int]@));
            assert(currency_views(shown@) =~= start + of_rank(
                all.take(i + 1),
                wanted as int,
            ));
        }
        i += 1;
    }
    assert(all.take(i as int) =~= all);
}

/// The currencies in the order in which they are shown.
pub fn order_for_display(currencies: &Vec<Currency>) -> (shown: Vec<Currency>)
    ensures
        currency_views(shown@) == display_order(currency_views(currencies@)),
{
    let mut shown: Vec<Currency> = Vec::with_capacity(currencies.len());
    assert(currency_views(shown@) =~= Seq::empty());
    push_rank(&mut shown, currencies, 0);
    push_rank(&mut shown, currencies, 1);
    push_rank(&mut shown, currencies, 2);
    assert(currency_views(shown@) =~= display_order(currency_views(currencies@)));
    shown
}

/// The newest rates as the front page shows them: the snapshot at the
/// pointer with its currencies in the order of display.
pub fn index(db: &Db) -> (r: Result<Snapshot, Error>)
    ensures
        match r {
            Ok(shown) => {
                &&& current_snapshot(db@) matches Some(current)
                &&& shown@.value == current.value
                &&& shown@.currencies == display_order(current.currencies)
            },
            Err(Error::DateNotFound(_)) => !db@.dom().contains(pointer_tag()),
            Err(Error::DatabaseError(_)) => true,
            Err(_) => false,
        },
{
    match db.get_current_rates() {
        Ok(current) => {
            let currencies: Vec<Currency> = order_for_display(&current.currencies);
            Ok(Snapshot { value: current.value, currencies })
        },
        Err(failure) => Err(failure),
    }
}

} // verus!
