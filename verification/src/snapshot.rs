//! A day's exchange rates and the base currency that every stored day
//! carries.

use vstd::prelude::*;

verus! {

/// The bits of the IEEE 754 double 1.0, the rate of the base currency.
pub const BASE_RATE_BITS: u64 = 0x3FF0_0000_0000_0000;

/// One currency of a day: its three-letter code and its rate against the
/// base currency, held as the bits of an IEEE 754 double.
#[derive(Clone, Debug, PartialEq, Eq)]
pub struct Currency {
    pub name: String,
    pub rate_bits: u64,
}

/// A currency as the contracts see it.
pub struct CurrencyView {
    pub name: Seq<char>,
    pub rate_bits: u64,
}

impl View for Currency {
    type V = CurrencyView;

    open spec fn view(&self) -> CurrencyView {
        CurrencyView { name: self.name@, rate_bits: self.rate_bits }
    }
}

/// The rates of one day: the day as text, and the currencies in the order
/// in which the feed gave them.
#[derive(Clone, Debug, PartialEq, Eq)]
pub struct Snapshot {
    pub value: String,
    pub currencies: Vec<Currency>,
}

/// A snapshot as the contracts see it.
pub struct SnapshotView {
    pub value: Seq<char>,
    pub currencies: Seq<CurrencyView>,
}

impl View for Snapshot {
    type V = SnapshotView;

    open spec fn view(&self) -> SnapshotView {
        SnapshotView { value: self.value@, currencies: currency_views(self.currencies@) }
    }
}

/// The currencies as the contracts see them.
pub open spec fn currency_views(currencies: Seq<Currency>) -> Seq<CurrencyView> {
    Seq::new(currencies.len(), |i: int| currencies[i]@)
}

/// The code of the base currency.
pub open spec fn base_name() -> Seq<char> {
    seq!['E', 'U', 'R']
}

/// The entry that stands for the base currency: `EUR` at rate 1.0.
pub open spec fn base_currency() -> CurrencyView {
    CurrencyView { name: base_name(), rate_bits: BASE_RATE_BITS }
}

/// The snapshot as it is stored: with the base currency after the
/// currencies of the feed.
pub open spec fn with_base(snapshot: SnapshotView) -> SnapshotView {
    SnapshotView {
        value: snapshot.value,
        currencies: snapshot.currencies.push(base_currency()),
    }
}

/// No entry of the snapshot is named like the base currency.
pub open spec fn names_no_base(snapshot: SnapshotView) -> bool {
    forall|i: int|
        0 <= i < snapshot.currencies.len() ==> (#[trigger] snapshot.currencies[i]).name
            != base_name()
}

/// Exactly one entry is named like the base currency, and its rate is 1.0.
pub open spec fn has_one_base(snapshot: SnapshotView) -> bool {
    exists|i: int|
        {
            &&& 0 <= i < snapshot.currencies.len()
            &&& #[trigger] snapshot.currencies[i] == base_currency()
            &&& forall|j: int|
                0 <= j < snapshot.currencies.len() && (#[trigger] snapshot.currencies[j]).name
                    == base_name() ==> j == i
        }
}

impl Currency {
    /// A currency of this name at the rate with these bits.
    pub fn new(name: String, rate_bits: u64) -> (r: Currency)
        ensures
            r@ == (CurrencyView { name: name@, rate_bits }),
    {
        Currency { name, rate_bits }
    }

    /// The base currency at rate 1.0.
    pub fn base() -> (r: Currency)
        ensures
            r@ == base_currency(),
    {
        proof {
            reveal_strlit("EUR");
        }
        let name: String = "EUR".to_owned();
        assert(name@ =~= base_name());
        Currency { name, rate_bits: BASE_RATE_BITS }
    }

    /// A copy that owns its name.
    pub fn duplicate(&self) -> (r: Currency)
        ensures
            r@ == self@,
    {
        Currency { name: self.name.clone(), rate_bits: self.rate_bits }
    }
}

impl Snapshot {
    /// The rates of the day written in `value`.
    pub fn new(value: String, currencies: Vec<Currency>) -> (r: Snapshot)
        ensures
            r@ == (SnapshotView { value: value@, currencies: currency_views(currencies@) }),
    {
        Snapshot { value, currencies }
    }

    /// A copy that owns its texts.
    pub fn duplicate(&self) -> (r: Snapshot)
        ensures
            r@ == self@,
    {
        let mut currencies: Vec<Currency> = Vec::with_capacity(self.currencies.len());
        let mut i: usize = 0;
        while i < self.currencies.len()
            invariant
                i <= self.currencies.len(),
                currencies@.len() == i,
                forall|j: int| 0 <= j < i ==> (#[trigger] currencies@[j])@ == self.currencies@[j]@,
            decreases self.currencies.len() - i,
        {
            currencies.push(self.currencies[i].duplicate());
            i += 1;
        }
        assert(currency_views(currencies@) =~= currency_views(self.currencies@));
        Snapshot { value: self.value.clone(), currencies }
    }

    /// Appends the base currency, as every stored snapshot has it.
    pub fn add_base(&mut self)
        ensures
            final(self)@ == with_base(old(self)@),
    {
        self.currencies.push(Currency::base());
        assert(currency_views(self.currencies@) =~= currency_views(old(self).currencies@).push(
            base_currency(),
        ));
    }
}

/// A snapshot of the feed, which does not name the base currency, names it
/// exactly once when it is stored, at rate 1.0.
pub proof fn lemma_with_base_has_one_base(snapshot: SnapshotView)
    requires
        names_no_base(snapshot),
    ensures
        has_one_base(with_base(snapshot)),
{
    let stored = with_base(snapshot);
    let last = snapshot.currencies.len() as int;
    assert(stored.currencies[last] == base_currency());
    assert forall|j: int|
        0 <= j < stored.currencies.len() && (#[trigger] stored.currencies[j]).name
            == base_name() implies j == last by {
        if j < last {
            assert(stored.currencies[j] == snapshot.currencies[j]);
        }
    }
}

} // verus!
