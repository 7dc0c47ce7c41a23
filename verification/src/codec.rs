//! The record of a snapshot in the store.
//!
//! A number is eight bytes, least significant first. A text is the number
//! of its UTF-8 bytes, then those bytes. A currency is its name as a text,
//! then its rate as a number. A snapshot is its day as a text, then the
//! number of its currencies, then the currencies one after another. Bytes
//! after the record are not read.

use crate::snapshot::currency_views;
use crate::snapshot::Currency;
use crate::snapshot::CurrencyView;
use crate::snapshot::Snapshot;
use crate::snapshot::SnapshotView;
use vstd::bytes::*;
use vstd::prelude::*;
use vstd::slice::*;
use vstd::utf8::*;

verus! {

/// The text is short enough for its length to be written down.
pub open spec fn text_fits(text: Seq<char>) -> bool {
    encode_utf8(text).len() <= u64::MAX
}

/// Every length in the snapshot can be written down. This holds of every
/// snapshot in memory.
pub open spec fn encodable(snapshot: SnapshotView) -> bool {
    &&& text_fits(snapshot.value)
    &&& snapshot.currencies.len() <= u64::MAX
    &&& forall|i: int|
        0 <= i < snapshot.currencies.len() ==> text_fits((#[trigger] snapshot.currencies[i]).name)
}

/// A text as it is written: its length in bytes, then its UTF-8 bytes.
pub open spec fn encode_text(text: Seq<char>) -> Seq<u8> {
    spec_u64_to_le_bytes(encode_utf8(text).len() as u64) + encode_utf8(text)
}

/// A currency as it is written: its name, then the bits of its rate.
pub open spec fn encode_currency(currency: CurrencyView) -> Seq<u8> {
    encode_text(currency.name) + spec_u64_to_le_bytes(currency.rate_bits)
}

/// Currencies as they are written: one after another.
pub open spec fn encode_currencies(currencies: Seq<CurrencyView>) -> Seq<u8>
    decreases currencies.len(),
{
    if currencies.len() == 0 {
        Seq::empty()
    } else {
        encode_currency(currencies[0]) + encode_currencies(currencies.drop_first())
    }
}

/// The record of a snapshot.
pub open spec fn encode_snapshot(snapshot: SnapshotView) -> Seq<u8> {
    encode_text(snapshot.value) + spec_u64_to_le_bytes(snapshot.currencies.len() as u64)
        + encode_currencies(snapshot.currencies)
}

/// The number at the head of `bytes`, and what follows it.
pub open spec fn parse_number(bytes: Seq<u8>) -> Option<(u64, Seq<u8>)> {
    if bytes.len() < 8 {
        None
    } else {
        Some((spec_u64_from_le_bytes(bytes.take(8)), bytes.skip(8)))
    }
}

/// The text at the head of `bytes`, and what follows it.
pub open spec fn parse_text(bytes: Seq<u8>) -> Option<(Seq<char>, Seq<u8>)> {
    match parse_number(bytes) {
        Some((length, rest)) => if length <= rest.len() && valid_utf8(rest.take(length as int)) {
            Some((decode_utf8(rest.take(length as int)), rest.skip(length as int)))
        } else {
            None
        },
        None => None,
    }
}

/// The currency at the head of `bytes`, and what follows it.
pub open spec fn parse_currency(bytes: Seq<u8>) -> Option<(CurrencyView, Seq<u8>)> {
    match parse_text(bytes) {
        Some((name, rest)) => match parse_number(rest) {
            Some((rate_bits, rest)) => Some((CurrencyView { name, rate_bits }, rest)),
            None => None,
        },
        None => None,
    }
}

/// The `count` currencies at the head of `bytes`, and what follows them.
pub open spec fn parse_currencies(bytes: Seq<u8>, count: nat) -> Option<
    (Seq<CurrencyView>, Seq<u8>),
>
    decreases count,
{
    if count == 0 {
        Some((Seq::empty(), bytes))
    } else {
        match parse_currency(bytes) {
            Some((first, rest)) => match parse_currencies(rest, (count - 1) as nat) {
                Some((others, rest)) => Some((seq![first] + others, rest)),
                None => None,
            },
            None => None,
        }
    }
}

/// The snapshot whose record stands at the head of `bytes`; `None` where
/// no record stands there.
pub open spec fn decode_snapshot(bytes: Seq<u8>) -> Option<SnapshotView> {
    match parse_text(bytes) {
        Some((value, rest)) => match parse_number(rest) {
            Some((count, rest)) => match parse_currencies(rest, count as nat) {
                Some((currencies, _)) => Some(SnapshotView { value, currencies }),
                None => None,
            },
            None => None,
        },
        None => None,
    }
}

proof fn lemma_number_read_back(n: u64, rest: Seq<u8>)
    ensures
        parse_number(spec_u64_to_le_bytes(n) + rest) == Some((n, rest)),
{
    lemma_auto_spec_u64_to_from_le_bytes();
    let bytes = spec_u64_to_le_bytes(n) + rest;
    assert(bytes.take(8) =~= spec_u64_to_le_bytes(n));
    assert(bytes.skip(8) =~= rest);
}

proof fn lemma_text_read_back(text: Seq<char>, rest: Seq<u8>)
    requires
        text_fits(text),
    ensures
        parse_text(encode_text(text) + rest) == Some((text, rest)),
{
    let utf8 = encode_utf8(text);
    let length = utf8.len() as u64;
    assert(encode_text(text) + rest =~= spec_u64_to_le_bytes(length) + (utf8 + rest));
    lemma_number_read_back(length, utf8 + rest);
    assert((utf8 + rest).take(length as int) =~= utf8);
    assert((utf8 + rest).skip(length as int) =~= rest);
    encode_utf8_valid_utf8(text);
    encode_utf8_decode_utf8(text);
}

proof fn lemma_currency_read_back(currency: CurrencyView, rest: Seq<u8>)
    requires
        text_fits(currency.name),
    ensures
        parse_currency(encode_currency(currency) + rest) == Some((currency, rest)),
{
    let tail = spec_u64_to_le_bytes(currency.rate_bits) + rest;
    assert(encode_currency(currency) + rest =~= encode_text(currency.name) + tail);
    lemma_text_read_back(currency.name, tail);
    lemma_number_read_back(currency.rate_bits, rest);
}

proof fn lemma_currencies_read_back(currencies: Seq<CurrencyView>, rest: Seq<u8>)
    requires
        forall|i: int| 0 <= i < currencies.len() ==> text_fits((#[trigger] currencies[i]).name),
    ensures
        parse_currencies(encode_currencies(currencies) + rest, currencies.len()) == Some(
            (currencies, rest),
        ),
    decreases currencies.len(),
{
    if currencies.len() == 0 {
        assert(encode_currencies(currencies) + rest =~= rest);
        assert(currencies =~= Seq::empty());
    } else {
        let first = currencies[0];
        let others = currencies.drop_first();
        let tail = encode_currencies(others) + rest;
        assert(encode_currencies(currencies) + rest =~= encode_currency(first) + tail);
        lemma_currency_read_back(first, tail);
        assert forall|i: int| 0 <= i < others.len() implies text_fits(
            (#[trigger] others[i]).name,
        ) by {
            assert(others[i] == currencies[i + 1]);
        }
        lemma_currencies_read_back(others, rest);
        assert(seq![first] + others =~= currencies);
    }
}

/// The record of a snapshot decodes to that snapshot, whatever bytes follow
/// the record.
pub proof fn lemma_decode_ignores_rest(snapshot: SnapshotView, rest: Seq<u8>)
    requires
        encodable(snapshot),
    ensures
        decode_snapshot(encode_snapshot(snapshot) + rest) == Some(snapshot),
{
    let count = snapshot.currencies.len() as u64;
    let listed = encode_currencies(snapshot.currencies) + rest;
    let counted = spec_u64_to_le_bytes(count) + listed;
    assert(encode_snapshot(snapshot) + rest =~= encode_text(snapshot.value) + counted);
    lemma_text_read_back(snapshot.value, counted);
    lemma_number_read_back(count, listed);
    lemma_currencies_read_back(snapshot.currencies, rest);
}

/// What is written can be read back: the record of a snapshot decodes to
/// that snapshot.
pub proof fn lemma_decode_encode(snapshot: SnapshotView)
    requires
        encodable(snapshot),
    ensures
        decode_snapshot(encode_snapshot(snapshot)) == Some(snapshot),
{
    lemma_decode_ignores_rest(snapshot, Seq::empty());
    assert(encode_snapshot(snapshot) + Seq::<u8>::empty() =~= encode_snapshot(snapshot));
}

proof fn lemma_number_was_written(bytes: Seq<u8>)
    requires
        parse_number(bytes).is_some(),
    ensures
        bytes == spec_u64_to_le_bytes(parse_number(bytes).unwrap().0) + parse_number(
            bytes,
        ).unwrap().1,
{
    lemma_auto_spec_u64_to_from_le_bytes();
    assert(spec_u64_to_le_bytes(spec_u64_from_le_bytes(bytes.take(8))) == bytes.take(8));
    assert(bytes =~= bytes.take(8) + bytes.skip(8));
}

proof fn lemma_text_was_written(bytes: Seq<u8>)
    requires
        parse_text(bytes).is_some(),
    ensures
        bytes == encode_text(parse_text(bytes).unwrap().0) + parse_text(bytes).unwrap().1,
        text_fits(parse_text(bytes).unwrap().0),
{
    lemma_number_was_written(bytes);
    let (length, rest) = parse_number(bytes).unwrap();
    let utf8 = rest.take(length as int);
    decode_utf8_encode_utf8(utf8);
    assert(rest =~= utf8 + rest.skip(length as int));
    assert(bytes =~= encode_text(decode_utf8(utf8)) + rest.skip(length as int));
}

proof fn lemma_currency_was_written(bytes: Seq<u8>)
    requires
        parse_currency(bytes).is_some(),
    ensures
        bytes == encode_currency(parse_currency(bytes).unwrap().0) + parse_currency(
            bytes,
        ).unwrap().1,
        text_fits(parse_currency(bytes).unwrap().0.name),
{
    lemma_text_was_written(bytes);
    let (name, rest) = parse_text(bytes).unwrap();
    lemma_number_was_written(rest);
    let (rate_bits, last) = parse_number(rest).unwrap();
    assert(bytes =~= encode_currency(CurrencyView { name, rate_bits }) + last);
}

proof fn lemma_currencies_were_written(bytes: Seq<u8>, count: nat)
    requires
        parse_currencies(bytes, count).is_some(),
    ensures
        bytes == encode_currencies(parse_currencies(bytes, count).unwrap().0) + parse_currencies(
            bytes,
            count,
        ).unwrap().1,
        parse_currencies(bytes, count).unwrap().0.len() == count,
        forall|i: int|
            0 <= i < count ==> text_fits(
                (#[trigger] parse_currencies(bytes, count).unwrap().0[i]).name,
            ),
    decreases count,
{
    if count == 0 {
        assert(bytes =~= encode_currencies(Seq::empty()) + bytes);
    } else {
        lemma_currency_was_written(bytes);
        let (first, rest) = parse_currency(bytes).unwrap();
        lemma_currencies_were_written(rest, (count - 1) as nat);
        let (others, last) = parse_currencies(rest, (count - 1) as nat).unwrap();
        let all = seq![first] + others;
        assert(all.drop_first() =~= others);
        assert(all[0] == first);
        assert(bytes =~= encode_currencies(all) + last);
        assert forall|i: int| 0 <= i < count implies text_fits((#[trigger] all[i]).name) by {
            if i > 0 {
                assert(all[i] == others[i - 1]);
            }
        }
    }
}

/// What can be read was written: where bytes decode to a snapshot, they
/// begin with the record of that snapshot.
pub proof fn lemma_encode_decode(bytes: Seq<u8>)
    requires
        decode_snapshot(bytes).is_some(),
    ensures
        encodable(decode_snapshot(bytes).unwrap()),
        encode_snapshot(decode_snapshot(bytes).unwrap()).is_prefix_of(bytes),
{
    lemma_text_was_written(bytes);
    let (value, rest) = parse_text(bytes).unwrap();
    lemma_number_was_written(rest);
    let (count, listed) = parse_number(rest).unwrap();
    lemma_currencies_were_written(listed, count as nat);
    let (currencies, last) = parse_currencies(listed, count as nat).unwrap();
    let snapshot = SnapshotView { value, currencies };
    assert(bytes =~= encode_snapshot(snapshot) + last);
}

/// A record decodes to one snapshot only: bytes that begin with the record
/// of an encodable snapshot decode to it and to no other.
pub proof fn lemma_record_is_unambiguous(bytes: Seq<u8>, snapshot: SnapshotView)
    requires
        encodable(snapshot),
        encode_snapshot(snapshot).is_prefix_of(bytes),
    ensures
        decode_snapshot(bytes) == Some(snapshot),
{
    let record = encode_snapshot(snapshot);
    let rest = bytes.skip(record.len() as int);
    assert(bytes =~= record + rest);
    lemma_decode_ignores_rest(snapshot, rest);
}

/// The record of a list with one more currency at its end.
proof fn lemma_encode_one_more(currencies: Seq<CurrencyView>, last: CurrencyView)
    ensures
        encode_currencies(currencies.push(last)) == encode_currencies(currencies)
            + encode_currency(last),
    decreases currencies.len(),
{
    let longer = currencies.push(last);
    if currencies.len() == 0 {
        reveal_with_fuel(encode_currencies, 2);
        assert(longer.drop_first() =~= Seq::empty());
        assert(encode_currencies(longer) =~= encode_currency(last));
    } else {
        lemma_encode_one_more(currencies.drop_first(), last);
        assert(longer.drop_first() =~= currencies.drop_first().push(last));
        assert(longer[0] == currencies[0]);
        assert(encode_currencies(longer) =~= encode_currencies(currencies) + encode_currency(
            last,
        ));
    }
}

/// What is read after `done` currencies: `done`, then what the rest gives.
pub open spec fn read_on(
    done: Seq<CurrencyView>,
    rest: Option<(Seq<CurrencyView>, Seq<u8>)>,
) -> Option<(Seq<CurrencyView>, Seq<u8>)> {
    match rest {
        Some((others, bytes)) => Some((done + others, bytes)),
        None => None,
    }
}

/// `String::from_utf8` of std: the text that the bytes hold where they are
/// well-formed UTF-8, and `None` where they are not.
#[verifier::external_body]
fn text_from_utf8(bytes: Vec<u8>) -> (r: Option<String>)
    ensures
        match r {
            Some(text) => valid_utf8(bytes@) && text@ == decode_utf8(bytes@),
            None => !valid_utf8(bytes@),
        },
{
    String::from_utf8(bytes).ok()
}

fn write_number(out: &mut Vec<u8>, n: u64)
    ensures
        final(out)@ == old(out)@ + spec_u64_to_le_bytes(n),
{
    let mut bytes: Vec<u8> = u64_to_le_bytes(n);
    out.append(&mut bytes);
}

fn write_text(out: &mut Vec<u8>, text: &str)
    ensures
        final(out)@ == old(out)@ + encode_text(text@),
        text_fits(text@),
{
    let utf8: &[u8] = text.as_bytes();
    write_number(out, utf8.len() as u64);
    let mut copy: Vec<u8> = slice_to_vec(utf8);
    out.append(&mut copy);
    assert(out@ =~= old(out)@ + encode_text(text@));
}

fn write_currency(out: &mut Vec<u8>, currency: &Currency)
    ensures
        final(out)@ == old(out)@ + encode_currency(currency@),
        text_fits(currency@.name),
{
    write_text(out, currency.name.as_str());
    write_number(out, currency.rate_bits);
    assert(out@ =~= old(out)@ + encode_currency(currency@));
}

fn read_number(bytes: &[u8], at: usize) -> (r: Option<(u64, usize)>)
    requires
        at <= bytes@.len(),
    ensures
        match r {
            Some((n, next)) => at <= next <= bytes@.len() && parse_number(bytes@.skip(at as int))
                == Some((n, bytes@.skip(next as int))),
            None => parse_number(bytes@.skip(at as int)).is_none(),
        },
{
    if bytes.len() - at < 8 {
        return None;
    }
    let n: u64 = u64_from_le_bytes(slice_subrange(bytes, at, at + 8));
    proof {
        assert(bytes@.skip(at as int).take(8) =~= bytes@.subrange(at as int, at + 8));
        assert(bytes@.skip(at as int).skip(8) =~= bytes@.skip(at + 8));
    }
    Some((n, at + 8))
}

fn read_text(bytes: &[u8], at: usize) -> (r: Option<(String, usize)>)
    requires
        at <= bytes@.len(),
    ensures
        match r {
            Some((text, next)) => at <= next <= bytes@.len() && parse_text(bytes@.skip(at as int))
                == Some((text@, bytes@.skip(next as int))),
            None => parse_text(bytes@.skip(at as int)).is_none(),
        },
{
    let (length, start) = match read_number(bytes, at) {
        Some(found) => found,
        None => { return None; },
    };
    if length > (bytes.len() - start) as u64 {
        return None;
    }
    let end: usize = start + length as usize;
    let utf8: Vec<u8> = slice_to_vec(slice_subrange(bytes, start, end));
    proof {
        assert(bytes@.skip(start as int).take(length as int) =~= bytes@.subrange(
            start as int,
            end as int,
        ));
        assert(bytes@.skip(start as int).skip(length as int) =~= bytes@.skip(end as int));
    }
    match text_from_utf8(utf8) {
        Some(text) => Some((text, end)),
        None => None,
    }
}

fn read_currency(bytes: &[u8], at: usize) -> (r: Option<(Currency, usize)>)
    requires
        at <= bytes@.len(),
    ensures
        match r {
            Some((currency, next)) => at <= next <= bytes@.len() && parse_currency(
                bytes@.skip(at as int),
            ) == Some((currency@, bytes@.skip(next as int))),
            None => parse_currency(bytes@.skip(at as int)).is_none(),
        },
{
    let (name, after_name) = match read_text(bytes, at) {
        Some(found) => found,
        None => { return None; },
    };
    match read_number(bytes, after_name) {
        Some((rate_bits, next)) => Some((Currency { name, rate_bits }, next)),
        None => None,
    }
}

impl Snapshot {
    /// The record of the snapshot.
    pub fn encode(&self) -> (bytes: Vec<u8>)
        ensures
            bytes@ == encode_snapshot(self@),
            encodable(self@),
    {
        let mut out: Vec<u8> = Vec::new();
        write_text(&mut out, self.value.as_str());
        write_number(&mut out, self.currencies.len() as u64);
        let ghost head = out@;
        assert(head =~= encode_text(self@.value) + spec_u64_to_le_bytes(
            self@.currencies.len() as u64,
        ));
        let mut i: usize = 0;
        while i < self.currencies.len()
            invariant
                i <= self.currencies.len(),
                out@ == head + encode_currencies(self@.currencies.take(i as int)),
                forall|j: int| 0 <= j < i ==> text_fits((#[trigger] self@.currencies[j]).name),
            decreases self.currencies.len() - i,
        {
            write_currency(&mut out, &self.currencies[i]);
            proof {
                let done = self@.currencies.take(i as int);
                lemma_encode_one_more(done, self@.currencies[i as int]);
                assert(done.push(self@.currencies[i as int]) =~= self@.currencies.take(i + 1));
                assert(out@ =~= head + encode_currencies(self@.currencies.take(i + 1)));
            }
            i += 1;
        }
        assert(self@.currencies.take(i as int) =~= self@.currencies);
        assert(out@ =~= encode_snapshot(self@));
        out
    }

    /// The snapshot whose record stands at the head of `bytes`, if one does.
    pub fn decode(bytes: &[u8]) -> (r: Option<Snapshot>)
        ensures
            match r {
                Some(snapshot) => decode_snapshot(bytes@) == Some(snapshot@),
                None => decode_snapshot(bytes@).is_none(),
            },
    {
        let (value, after_value) = match read_text(bytes, 0) {
            Some(found) => found,
            None => {
                assert(bytes@.skip(0) =~= bytes@);
                return None;
            },
        };
        assert(bytes@.skip(0) =~= bytes@);
        let (count, start) = match read_number(bytes, after_value) {
            Some(found) => found,
            None => { return None; },
        };
        let mut currencies: Vec<Currency> = Vec::new();
        let mut at: usize = start;
        let mut i: u64 = 0;
        proof {
            let all = parse_currencies(bytes@.skip(start as int), count as nat);
            if all.is_some() {
                assert(currency_views(currencies@) + all.unwrap().0 =~= all.unwrap().0);
            }
        }
        while i < count
            invariant
                i <= count,
                start <= at <= bytes@.len(),
                parse_text(bytes@) == Some((value@, bytes@.skip(after_value as int))),
                parse_number(bytes@.skip(after_value as int)) == Some(
                    (count, bytes@.skip(start as int)),
                ),
                parse_currencies(bytes@.skip(start as int), count as nat) == read_on(
                    currency_views(currencies@),
                    parse_currencies(bytes@.skip(at as int), (count - i) as nat),
                ),
            decreases count - i,
        {
            let ghost done = currency_views(currencies@);
            match read_currency(bytes, at) {
                Some((currency, next)) => {
                    proof {
                        let others = parse_currencies(
                            bytes@.skip(next as int),
                            (count - i - 1) as nat,
                        );
                        if others.is_some() {
                            assert(done + (seq![currency@] + others.unwrap().0) =~= done.push(
                                currency@,
                            ) + others.unwrap().0);
                        }
                        assert(currency_views(currencies@.push(currency)) =~= done.push(
                            currency@,
                        ));
                    }
                    currencies.push(currency);
                    at = next;
                },
                None => {
                    assert(parse_currencies(bytes@.skip(at as int), (count - i) as nat).is_none());
                    return None;
                },
            }
            i += 1;
        }
        proof {
            assert(currency_views(currencies@) + Seq::<CurrencyView>::empty() =~= currency_views(
                currencies@,
            ));
        }
        Some(Snapshot { value, currencies })
    }
}

} // verus!
