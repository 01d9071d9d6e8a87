//! Which pairs to ask the ticker for, and under which address.

use vstd::prelude::*;
use vstd::string::StringExecFns;
use crate::labels::Strategy;
use crate::model::{Asset, AssetPair, AssetView};
use crate::table::{distinct, lemma_position, position, texts, Table, TableView};
use crate::text::{join, joined};

verus! {

/// The address that lists the tradable pairs.
pub const ASSET_PAIRS: &'static str = "https://api.kraken.com/0/public/AssetPairs";

/// The address that lists the assets.
pub const ASSETS: &'static str = "https://api.kraken.com/0/public/Assets";

/// The address of the ticker, without its query.
pub const TICKER: &'static str = "https://api.kraken.com/0/public/Ticker";

/// How many reference currencies there are.
pub const REFERENCES: usize = 11;

/// The reference currencies against which the assets are tried, in order.
pub open spec fn reference_currency(j: int) -> Seq<char> {
    if j == 0 {
        "AUD"@
    } else if j == 1 {
        "CAD"@
    } else if j == 2 {
        "BTC"@
    } else if j == 3 {
        "ETH"@
    } else if j == 4 {
        "EUR"@
    } else if j == 5 {
        "GBP"@
    } else if j == 6 {
        "JPY"@
    } else if j == 7 {
        "USD"@
    } else if j == 8 {
        "XBT"@
    } else if j == 9 {
        "USDT"@
    } else {
        "USDC"@
    }
}

/// The reference currency at place `j` of the list.
pub fn reference(j: usize) -> (r: &'static str)
    requires
        j < REFERENCES,
    ensures
        r@ == reference_currency(j as int),
{
    match j {
        0 => "AUD",
        1 => "CAD",
        2 => "BTC",
        3 => "ETH",
        4 => "EUR",
        5 => "GBP",
        6 => "JPY",
        7 => "USD",
        8 => "XBT",
        9 => "USDT",
        _ => "USDC",
    }
}

/// The three codes under which the exchange may list an asset against a
/// reference currency: plain, and with the class prefixes `X…X…` and `X…Z…`.
pub open spec fn candidate(altname: Seq<char>, reference: Seq<char>, form: int) -> Seq<char> {
    if form == 0 {
        altname + reference
    } else if form == 1 {
        "X"@ + altname + "X"@ + reference
    } else {
        "X"@ + altname + "Z"@ + reference
    }
}

/// Every candidate code: asset by asset, for each reference currency in
/// order, the three forms.
pub open spec fn candidates(altnames: Seq<Seq<char>>) -> Seq<Seq<char>> {
    Seq::new(
        altnames.len() * 33,
        |n: int| candidate(altnames[n / 33], reference_currency((n % 33) / 3), n % 3),
    )
}

/// The display names of the assets, in the order of the table.
pub open spec fn altnames(assets: TableView<AssetView>) -> Seq<Seq<char>> {
    assets.values.map_values(|a: AssetView| a.altname)
}

/// Those of `codes` that `known` holds, each once, in the order in which they
/// first occur.
pub open spec fn selected(codes: Seq<Seq<char>>, known: Seq<Seq<char>>) -> Seq<Seq<char>>
    decreases codes.len(),
{
    if codes.len() == 0 {
        Seq::empty()
    } else {
        let prior = selected(codes.drop_last(), known);
        let code = codes.last();
        if position(known, code).is_some() && position(prior, code).is_none() {
            prior.push(code)
        } else {
            prior
        }
    }
}

/// The codes to ask the ticker for.
pub open spec fn query_set(
    strategy: Strategy,
    pair_codes: Seq<Seq<char>>,
    altnames: Seq<Seq<char>>,
) -> Seq<Seq<char>> {
    match strategy {
        Strategy::FromPairs => selected(pair_codes, pair_codes),
        Strategy::FromAssets => selected(candidates(altnames), pair_codes),
    }
}

/// The address of the ticker request for `codes`.
pub open spec fn ticker_address(codes: Seq<Seq<char>>) -> Seq<char> {
    TICKER@ + "?pair="@ + joined(codes, ","@)
}

/// No code is selected twice, and every selected code is both one of the
/// codes offered and known.
pub proof fn lemma_selected(codes: Seq<Seq<char>>, known: Seq<Seq<char>>)
    ensures
        distinct(selected(codes, known)),
        forall|i: int|
            0 <= i < selected(codes, known).len() ==> position(
                known,
                #[trigger] selected(codes, known)[i],
            ).is_some() && position(codes, selected(codes, known)[i]).is_some(),
        forall|i: int|
            0 <= i < codes.len() && position(known, #[trigger] codes[i]).is_some() ==> position(
                selected(codes, known),
                codes[i],
            ).is_some(),
    decreases codes.len(),
{
    let all = selected(codes, known);
    if codes.len() > 0 {
        let front = codes.drop_last();
        let prior = selected(front, known);
        let code = codes.last();
        lemma_selected(front, known);
        lemma_position(prior, code);
        assert forall|i: int| 0 <= i < all.len() implies position(
            codes,
            #[trigger] all[i],
        ).is_some() by {
            lemma_position(codes, all[i]);
            if i < prior.len() {
                lemma_position(front, prior[i]);
                let k = position(front, prior[i])->0;
                assert(codes[k] == front[k]);
            } else {
                assert(codes[codes.len() - 1] == code);
            }
        }
        assert forall|i: int|
            0 <= i < codes.len() && position(known, #[trigger] codes[i]).is_some() implies position(
            all,
            codes[i],
        ).is_some() by {
            lemma_position(all, codes[i]);
            if i < front.len() {
                assert(front[i] == codes[i]);
                lemma_position(prior, codes[i]);
                let k = position(prior, codes[i])->0;
                assert(all[k] == prior[k]);
            } else {
                if position(prior, code).is_some() {
                    let k = position(prior, code)->0;
                    assert(all[k] == code);
                } else {
                    assert(all[all.len() - 1] == code);
                }
            }
        }
    }
}

/// Where no code occurs twice, selecting the codes among themselves keeps
/// them all, in their order.
pub proof fn lemma_selected_all(codes: Seq<Seq<char>>)
    requires
        distinct(codes),
    ensures
        selected(codes, codes) == codes,
{
    lemma_selected_prefix(codes, codes.len() as int);
    assert(codes.take(codes.len() as int) == codes);
}

/// The same of the first `n` codes.
proof fn lemma_selected_prefix(codes: Seq<Seq<char>>, n: int)
    requires
        distinct(codes),
        0 <= n <= codes.len(),
    ensures
        selected(codes.take(n), codes) == codes.take(n),
    decreases n,
{
    if n > 0 {
        lemma_selected_prefix(codes, n - 1);
        let front = codes.take(n);
        assert(front.drop_last() == codes.take(n - 1));
        let code = front.last();
        lemma_position(codes, code);
        lemma_position(codes.take(n - 1), code);
        assert(codes.take(n - 1).push(code) == front);
    }
}

/// Whether `list` holds a string with the text of `s`.
pub fn holds(list: &Vec<String>, s: &String) -> (b: bool)
    ensures
        b == position(texts(list@), s@).is_some(),
{
    let ghost all = texts(list@);
    let mut i: usize = 0;
    while i < list.len()
        invariant
            i <= list.len(),
            all == texts(list@),
            forall|j: int| 0 <= j < i ==> all[j] != s@,
        decreases list.len() - i,
    {
        if list[i] == *s {
            proof {
                assert(all[i as int] == s@);
                lemma_position(all, s@);
            }
            return true;
        }
        assert(all[i as int] != s@);
        i += 1;
    }
    proof {
        lemma_position(all, s@);
    }
    false
}

/// Picks from `codes` those that `pairs` lists, each once.
pub fn select(codes: &Vec<String>, pairs: &Table<AssetPair>) -> (r: Vec<String>)
    ensures
        texts(r@) == selected(texts(codes@), pairs.keys()),
{
    let ghost all = texts(codes@);
    let mut out: Vec<String> = Vec::new();
    let mut i: usize = 0;
    assert(texts(out@) == Seq::<Seq<char>>::empty());
    while i < codes.len()
        invariant
            i <= codes.len(),
            all == texts(codes@),
            texts(out@) == selected(all.take(i as int), pairs.keys()),
        decreases codes.len() - i,
    {
        proof {
            assert(all.take(i + 1).drop_last() == all.take(i as int));
            assert(all.take(i + 1).last() == codes@[i as int]@);
        }
        let ghost before = texts(out@);
        if pairs.contains_key(&codes[i]) && !holds(&out, &codes[i]) {
            out.push(codes[i].clone());
            assert(texts(out@) == before.push(codes@[i as int]@));
        }
        i += 1;
    }
    proof {
        assert(all.take(codes.len() as int) == all);
    }
    out
}

/// The codes of all pairs, in the order of the table.
pub fn pair_codes(pairs: &Table<AssetPair>) -> (r: Vec<String>)
    ensures
        texts(r@) == pairs.keys(),
{
    let mut out: Vec<String> = Vec::new();
    let mut i: usize = 0;
    while i < pairs.len()
        invariant
            i <= pairs.keys().len(),
            out.len() == i,
            forall|j: int| 0 <= j < i ==> (#[trigger] out@[j])@ == pairs.keys()[j],
        decreases pairs.keys().len() - i,
    {
        out.push(pairs.key(i).clone());
        i += 1;
    }
    assert(texts(out@) == pairs.keys());
    out
}

/// Spells one candidate code.
fn form(altname: &String, reference: &str, shape: usize) -> (r: String)
    requires
        shape < 3,
    ensures
        r@ == candidate(altname@, reference@, shape as int),
{
    let mut out = String::new();
    if shape == 0 {
        out.append(altname.as_str());
        out.append(reference);
        assert(out@ == altname@ + reference@);
    } else {
        out.append("X");
        out.append(altname.as_str());
        if shape == 1 {
            out.append("X");
        } else {
            out.append("Z");
        }
        out.append(reference);
        assert(out@ == candidate(altname@, reference@, shape as int));
    }
    out
}

/// Forms every candidate code of the assets.
pub fn candidate_codes(assets: &Table<Asset>) -> (r: Vec<String>)
    ensures
        texts(r@) == candidates(altnames(assets@)),
{
    let ghost names = altnames(assets@);
    let mut out: Vec<String> = Vec::new();
    let mut i: usize = 0;
    while i < assets.len()
        invariant
            i <= assets.keys().len(),
            names == altnames(assets@),
            names.len() == assets.values().len(),
            out.len() == i * 33,
            forall|n: int|
                0 <= n < out.len() ==> (#[trigger] out@[n])@ == candidate(
                    names[n / 33],
                    reference_currency((n % 33) / 3),
                    n % 3,
                ),
        decreases assets.keys().len() - i,
    {
        let asset = assets.value(i);
        assert(names[i as int] == asset.altname@);
        let mut j: usize = 0;
        while j < REFERENCES
            invariant
                i < assets.keys().len(),
                    j <= REFERENCES,
                names[i as int] == asset.altname@,
                out.len() == i * 33 + j * 3,
                forall|n: int|
                    0 <= n < out.len() ==> (#[trigger] out@[n])@ == candidate(
                        names[n / 33],
                        reference_currency((n % 33) / 3),
                        n % 3,
                    ),
            decreases REFERENCES - j,
        {
            let r = reference(j);
            let ghost base = out.len() as int;
            let ghost before = out@;
            out.push(form(&asset.altname, r, 0));
            out.push(form(&asset.altname, r, 1));
            out.push(form(&asset.altname, r, 2));
            proof {
                assert(base == i * 33 + j * 3);
                assert forall|n: int| 0 <= n < out.len() implies (#[trigger] out@[n])@
                    == candidate(names[n / 33], reference_currency((n % 33) / 3), n % 3) by {
                    if n < base {
                        assert(out@[n] == before[n]);
                    } else {
                        assert(n / 33 == i as int);
                        assert((n % 33) / 3 == j as int);
                        assert(n % 3 == n - base);
                    }
                }
            }
            j += 1;
        }
        i += 1;
    }
    assert(texts(out@) == candidates(names));
    out
}

/// Finds the codes to ask the ticker for. `assets` is read only where the
/// strategy goes by the assets.
pub fn query(strategy: Strategy, pairs: &Table<AssetPair>, assets: &Table<Asset>) -> (r: Vec<
    String,
>)
    ensures
        texts(r@) == query_set(strategy, pairs.keys(), altnames(assets@)),
{
    match strategy {
        Strategy::FromPairs => select(&pair_codes(pairs), pairs),
        Strategy::FromAssets => select(&candidate_codes(assets), pairs),
    }
}

/// The address of the ticker request for `codes`: the codes as one
/// comma-separated `pair` parameter.
pub fn ticker_url(codes: &Vec<String>) -> (r: String)
    ensures
        r@ == ticker_address(texts(codes@)),
{
    let mut out = String::from_str(TICKER);
    out.append("?pair=");
    let list = join(codes, ",");
    out.append(list.as_str());
    out
}

} // verus!
