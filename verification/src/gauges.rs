//! From tickers to samples: the gauges of a ticker, and what a cycle writes.

use vstd::prelude::*;
use vstd::string::StringExecFns;
use crate::decimal::{accepts, is_gauge_value};
use crate::labels::{
    labels_of,
    lemma_labels_complete,
    resolve,
    Labels,
    LabelsView,
    Strategy,
};
use crate::model::{AssetPair, AssetPairView, Info, InfoView};
use crate::table::{texts, Table, TableView};
use crate::text::{decimal, push_decimal};

verus! {

/// One value of one gauge.
#[derive(Clone, Debug)]
pub struct Sample {
    /// The name of the gauge.
    pub name: String,
    pub labels: Labels,
    /// The value, as a decimal number.
    pub value: String,
}

/// What a `Sample` holds.
pub struct SampleView {
    pub name: Seq<char>,
    pub labels: LabelsView,
    pub value: Seq<char>,
}

impl View for Sample {
    type V = SampleView;

    open spec fn view(&self) -> SampleView {
        SampleView { name: self.name@, labels: self.labels@, value: self.value@ }
    }
}

/// What a sequence of samples holds.
pub open spec fn views(samples: Seq<Sample>) -> Seq<SampleView> {
    samples.map_values(|s: Sample| s@)
}

/// The sample of the gauge `name` for the decimal at place `i` of `values`;
/// none where the place is missing or holds no gauge value.
pub open spec fn decimal_gauge(
    name: Seq<char>,
    labels: LabelsView,
    values: Seq<Seq<char>>,
    i: int,
) -> Seq<SampleView> {
    if i < values.len() && is_gauge_value(values[i]) {
        seq![SampleView { name, labels, value: values[i] }]
    } else {
        Seq::empty()
    }
}

/// The sample of the gauge `name` for the count at place `i` of `counts`;
/// none where the place is missing.
pub open spec fn count_gauge(
    name: Seq<char>,
    labels: LabelsView,
    counts: Seq<u32>,
    i: int,
) -> Seq<SampleView> {
    if i < counts.len() {
        seq![SampleView { name, labels, value: decimal(counts[i] as nat) }]
    } else {
        Seq::empty()
    }
}

/// The samples of one ticker, in the order in which they are written.
pub open spec fn gauges(labels: LabelsView, info: InfoView) -> Seq<SampleView> {
    decimal_gauge("exchange_rate"@, labels, info.c, 0) + decimal_gauge(
        "exchange_volume"@,
        labels,
        info.v,
        0,
    ) + decimal_gauge("exchange_volume_last_day"@, labels, info.v, 1) + decimal_gauge(
        "exchange_volume_daily"@,
        labels,
        info.v,
        1,
    ) + decimal_gauge("exchange_rate_average"@, labels, info.p, 0) + decimal_gauge(
        "exchange_rate_average_last_day"@,
        labels,
        info.p,
        1,
    ) + count_gauge("exchange_trades"@, labels, info.t, 0) + count_gauge(
        "exchange_trades_last_day"@,
        labels,
        info.t,
        1,
    ) + count_gauge("exchange_trades_daily"@, labels, info.t, 1)
}

/// The samples of the ticker of the pair `code`: none where `pairs` does not
/// list the code, or where the pair's labels do not resolve.
pub open spec fn ticker_samples(
    strategy: Strategy,
    pairs: TableView<AssetPairView>,
    code: Seq<char>,
    info: InfoView,
) -> Seq<SampleView> {
    match pairs.lookup(code) {
        Some(pair) => match labels_of(strategy, pair) {
            Some(labels) => gauges(labels, info),
            None => Seq::empty(),
        },
        None => Seq::empty(),
    }
}

/// The samples of the first `n` tickers.
pub open spec fn samples_upto(
    strategy: Strategy,
    pairs: TableView<AssetPairView>,
    tickers: TableView<InfoView>,
    n: int,
) -> Seq<SampleView>
    decreases n,
{
    if n <= 0 {
        Seq::empty()
    } else {
        samples_upto(strategy, pairs, tickers, n - 1) + ticker_samples(
            strategy,
            pairs,
            tickers.keys[n - 1],
            tickers.values[n - 1],
        )
    }
}

/// The samples of all tickers, ticker by ticker.
pub open spec fn samples(
    strategy: Strategy,
    pairs: TableView<AssetPairView>,
    tickers: TableView<InfoView>,
) -> Seq<SampleView> {
    samples_upto(strategy, pairs, tickers, tickers.keys.len() as int)
}

/// How many gauges a ticker has.
pub const GAUGES: usize = 9;

/// The codes of those of the first `n` tickers that do not give all their
/// gauges.
pub open spec fn curtailed_upto(
    strategy: Strategy,
    pairs: TableView<AssetPairView>,
    tickers: TableView<InfoView>,
    n: int,
) -> Seq<Seq<char>>
    decreases n,
{
    if n <= 0 {
        Seq::empty()
    } else if ticker_samples(strategy, pairs, tickers.keys[n - 1], tickers.values[n - 1]).len()
        < GAUGES {
        curtailed_upto(strategy, pairs, tickers, n - 1).push(tickers.keys[n - 1])
    } else {
        curtailed_upto(strategy, pairs, tickers, n - 1)
    }
}

/// The codes of the tickers that do not give all their gauges: because the
/// pair is not listed or lacks a label, or because a value is missing or
/// cannot be shown.
pub open spec fn curtailed(
    strategy: Strategy,
    pairs: TableView<AssetPairView>,
    tickers: TableView<InfoView>,
) -> Seq<Seq<char>> {
    curtailed_upto(strategy, pairs, tickers, tickers.keys.len() as int)
}

/// Every sample of a ticker carries the labels that were resolved for it.
pub proof fn lemma_gauges_labels(labels: LabelsView, info: InfoView)
    ensures
        forall|i: int|
            0 <= i < gauges(labels, info).len() ==> (#[trigger] gauges(labels, info)[i]).labels
                == labels,
{
    let g1 = decimal_gauge("exchange_rate"@, labels, info.c, 0);
    let g2 = decimal_gauge("exchange_volume"@, labels, info.v, 0);
    let g3 = decimal_gauge("exchange_volume_last_day"@, labels, info.v, 1);
    let g4 = decimal_gauge("exchange_volume_daily"@, labels, info.v, 1);
    let g5 = decimal_gauge("exchange_rate_average"@, labels, info.p, 0);
    let g6 = decimal_gauge("exchange_rate_average_last_day"@, labels, info.p, 1);
    let g7 = count_gauge("exchange_trades"@, labels, info.t, 0);
    let g8 = count_gauge("exchange_trades_last_day"@, labels, info.t, 1);
    let g9 = count_gauge("exchange_trades_daily"@, labels, info.t, 1);
    lemma_all_labelled(g1, g2, labels);
    lemma_all_labelled(g1 + g2, g3, labels);
    lemma_all_labelled(g1 + g2 + g3, g4, labels);
    lemma_all_labelled(g1 + g2 + g3 + g4, g5, labels);
    lemma_all_labelled(g1 + g2 + g3 + g4 + g5, g6, labels);
    lemma_all_labelled(g1 + g2 + g3 + g4 + g5 + g6, g7, labels);
    lemma_all_labelled(g1 + g2 + g3 + g4 + g5 + g6 + g7, g8, labels);
    lemma_all_labelled(g1 + g2 + g3 + g4 + g5 + g6 + g7 + g8, g9, labels);
}

/// All samples of `list` carry the labels `labels`.
pub open spec fn all_labelled(list: Seq<SampleView>, labels: LabelsView) -> bool {
    forall|i: int| 0 <= i < list.len() ==> (#[trigger] list[i]).labels == labels
}

/// Two lists that carry the labels carry them in a row.
proof fn lemma_all_labelled(a: Seq<SampleView>, b: Seq<SampleView>, labels: LabelsView)
    requires
        all_labelled(a, labels),
        all_labelled(b, labels),
    ensures
        all_labelled(a + b, labels),
{
    assert forall|i: int| 0 <= i < (a + b).len() implies (#[trigger] (a + b)[i]).labels
        == labels by {
        if i < a.len() {
            assert((a + b)[i] == a[i]);
        } else {
            assert((a + b)[i] == b[i - a.len()]);
        }
    }
}

/// A ticker whose code `pairs` does not list, or whose pair has not all
/// three labels, gives no sample; every sample of another ticker carries
/// the labels of its pair.
pub proof fn lemma_ticker_samples(
    strategy: Strategy,
    pairs: TableView<AssetPairView>,
    code: Seq<char>,
    info: InfoView,
)
    ensures
        match pairs.lookup(code) {
            Some(pair) => match labels_of(strategy, pair) {
                Some(labels) => all_labelled(ticker_samples(strategy, pairs, code, info), labels)
                    && labels.complete(),
                None => ticker_samples(strategy, pairs, code, info).len() == 0,
            },
            None => ticker_samples(strategy, pairs, code, info).len() == 0,
        },
{
    match pairs.lookup(code) {
        Some(pair) => {
            lemma_labels_complete(strategy, pair);
            match labels_of(strategy, pair) {
                Some(labels) => {
                    lemma_gauges_labels(labels, info);
                },
                None => {},
            }
        },
        None => {},
    }
}

/// No sample of a cycle has an empty label.
pub proof fn lemma_samples_complete(
    strategy: Strategy,
    pairs: TableView<AssetPairView>,
    tickers: TableView<InfoView>,
)
    ensures
        forall|i: int|
            0 <= i < samples(strategy, pairs, tickers).len() ==> (#[trigger] samples(
                strategy,
                pairs,
                tickers,
            )[i]).labels.complete(),
{
    lemma_samples_upto_complete(strategy, pairs, tickers, tickers.keys.len() as int);
}

/// The same of the first `n` tickers.
proof fn lemma_samples_upto_complete(
    strategy: Strategy,
    pairs: TableView<AssetPairView>,
    tickers: TableView<InfoView>,
    n: int,
)
    ensures
        forall|i: int|
            0 <= i < samples_upto(strategy, pairs, tickers, n).len() ==> (#[trigger] samples_upto(
                strategy,
                pairs,
                tickers,
                n,
            )[i]).labels.complete(),
    decreases n,
{
    if n > 0 {
        let front = samples_upto(strategy, pairs, tickers, n - 1);
        let last = ticker_samples(strategy, pairs, tickers.keys[n - 1], tickers.values[n - 1]);
        lemma_samples_upto_complete(strategy, pairs, tickers, n - 1);
        lemma_ticker_samples(strategy, pairs, tickers.keys[n - 1], tickers.values[n - 1]);
        let all = samples_upto(strategy, pairs, tickers, n);
        assert forall|i: int| 0 <= i < all.len() implies (#[trigger] all[i]).labels.complete() by {
            if i < front.len() {
                assert(all[i] == front[i]);
            } else {
                assert(all[i] == last[i - front.len()]);
            }
        }
    }
}

/// How many samples of `list` belong to the gauge `name`.
pub open spec fn count_named(list: Seq<SampleView>, name: Seq<char>) -> nat
    decreases list.len(),
{
    if list.len() == 0 {
        0
    } else {
        count_named(list.drop_last(), name) + if list.last().name == name {
            1nat
        } else {
            0nat
        }
    }
}

/// Whether the last trade price of a ticker can be shown.
pub open spec fn rate_shown(info: InfoView) -> bool {
    info.c.len() > 0 && is_gauge_value(info.c[0])
}

/// How many of the first `n` tickers have a last trade price that can be
/// shown.
pub open spec fn rates_shown(tickers: TableView<InfoView>, n: int) -> nat
    decreases n,
{
    if n <= 0 {
        0
    } else {
        rates_shown(tickers, n - 1) + if rate_shown(tickers.values[n - 1]) {
            1nat
        } else {
            0nat
        }
    }
}

/// Every ticker belongs to a listed pair that has its labels.
pub open spec fn resolvable(
    strategy: Strategy,
    pairs: TableView<AssetPairView>,
    tickers: TableView<InfoView>,
) -> bool {
    forall|n: int|
        0 <= n < tickers.keys.len() ==> (pairs.lookup(#[trigger] tickers.keys[n]) matches Some(
            pair,
        ) && labels_of(strategy, pair).is_some())
}

/// Counting goes list by list.
proof fn lemma_count_concat(a: Seq<SampleView>, b: Seq<SampleView>, name: Seq<char>)
    ensures
        count_named(a + b, name) == count_named(a, name) + count_named(b, name),
    decreases b.len(),
{
    if b.len() == 0 {
        assert(a + b == a);
    } else {
        lemma_count_concat(a, b.drop_last(), name);
        assert((a + b).drop_last() == a + b.drop_last());
        assert((a + b).last() == b.last());
    }
}

/// A decimal gauge counts once where it is shown under the wanted name.
proof fn lemma_count_decimal_gauge(
    name: Seq<char>,
    labels: LabelsView,
    values: Seq<Seq<char>>,
    i: int,
    wanted: Seq<char>,
)
    ensures
        count_named(decimal_gauge(name, labels, values, i), wanted) == if name == wanted && i
            < values.len() && is_gauge_value(values[i]) {
            1nat
        } else {
            0nat
        },
{
    let g = decimal_gauge(name, labels, values, i);
    if g.len() > 0 {
        assert(g.drop_last() == Seq::<SampleView>::empty());
        assert(count_named(g.drop_last(), wanted) == 0);
    }
}

/// A count gauge counts once where it is there under the wanted name.
proof fn lemma_count_count_gauge(
    name: Seq<char>,
    labels: LabelsView,
    counts: Seq<u32>,
    i: int,
    wanted: Seq<char>,
)
    ensures
        count_named(count_gauge(name, labels, counts, i), wanted) == if name == wanted && i
            < counts.len() {
            1nat
        } else {
            0nat
        },
{
    let g = count_gauge(name, labels, counts, i);
    if g.len() > 0 {
        assert(g.drop_last() == Seq::<SampleView>::empty());
        assert(count_named(g.drop_last(), wanted) == 0);
    }
}

/// A ticker gives one sample of the gauge `exchange_rate` where its last
/// trade price can be shown, and none where it cannot.
pub proof fn lemma_rate_of_ticker(labels: LabelsView, info: InfoView)
    ensures
        count_named(gauges(labels, info), "exchange_rate"@) == if rate_shown(info) {
            1nat
        } else {
            0nat
        },
{
    let wanted = "exchange_rate"@;
    reveal_strlit("exchange_rate");
    reveal_strlit("exchange_volume");
    reveal_strlit("exchange_volume_last_day");
    reveal_strlit("exchange_volume_daily");
    reveal_strlit("exchange_rate_average");
    reveal_strlit("exchange_rate_average_last_day");
    reveal_strlit("exchange_trades");
    reveal_strlit("exchange_trades_last_day");
    reveal_strlit("exchange_trades_daily");
    assert(wanted.len() == 13);
    assert("exchange_volume"@.len() == 15);
    assert("exchange_volume_last_day"@.len() == 24);
    assert("exchange_volume_daily"@.len() == 21);
    assert("exchange_rate_average"@.len() == 21);
    assert("exchange_rate_average_last_day"@.len() == 30);
    assert("exchange_trades"@.len() == 15);
    assert("exchange_trades_last_day"@.len() == 24);
    assert("exchange_trades_daily"@.len() == 21);
    let g1 = decimal_gauge("exchange_rate"@, labels, info.c, 0);
    let g2 = decimal_gauge("exchange_volume"@, labels, info.v, 0);
    let g3 = decimal_gauge("exchange_volume_last_day"@, labels, info.v, 1);
    let g4 = decimal_gauge("exchange_volume_daily"@, labels, info.v, 1);
    let g5 = decimal_gauge("exchange_rate_average"@, labels, info.p, 0);
    let g6 = decimal_gauge("exchange_rate_average_last_day"@, labels, info.p, 1);
    let g7 = count_gauge("exchange_trades"@, labels, info.t, 0);
    let g8 = count_gauge("exchange_trades_last_day"@, labels, info.t, 1);
    let g9 = count_gauge("exchange_trades_daily"@, labels, info.t, 1);
    lemma_count_decimal_gauge("exchange_rate"@, labels, info.c, 0, wanted);
    lemma_count_decimal_gauge("exchange_volume"@, labels, info.v, 0, wanted);
    lemma_count_decimal_gauge("exchange_volume_last_day"@, labels, info.v, 1, wanted);
    lemma_count_decimal_gauge("exchange_volume_daily"@, labels, info.v, 1, wanted);
    lemma_count_decimal_gauge("exchange_rate_average"@, labels, info.p, 0, wanted);
    lemma_count_decimal_gauge("exchange_rate_average_last_day"@, labels, info.p, 1, wanted);
    lemma_count_count_gauge("exchange_trades"@, labels, info.t, 0, wanted);
    lemma_count_count_gauge("exchange_trades_last_day"@, labels, info.t, 1, wanted);
    lemma_count_count_gauge("exchange_trades_daily"@, labels, info.t, 1, wanted);
    lemma_count_concat(g1, g2, wanted);
    lemma_count_concat(g1 + g2, g3, wanted);
    lemma_count_concat(g1 + g2 + g3, g4, wanted);
    lemma_count_concat(g1 + g2 + g3 + g4, g5, wanted);
    lemma_count_concat(g1 + g2 + g3 + g4 + g5, g6, wanted);
    lemma_count_concat(g1 + g2 + g3 + g4 + g5 + g6, g7, wanted);
    lemma_count_concat(g1 + g2 + g3 + g4 + g5 + g6 + g7, g8, wanted);
    lemma_count_concat(g1 + g2 + g3 + g4 + g5 + g6 + g7 + g8, g9, wanted);
}

/// Where every ticker belongs to a listed pair that has its labels, there
/// are as many samples of the gauge `exchange_rate` as tickers whose last
/// trade price can be shown.
pub proof fn lemma_rate_count(
    strategy: Strategy,
    pairs: TableView<AssetPairView>,
    tickers: TableView<InfoView>,
)
    requires
        resolvable(strategy, pairs, tickers),
    ensures
        count_named(samples(strategy, pairs, tickers), "exchange_rate"@) == rates_shown(
            tickers,
            tickers.keys.len() as int,
        ),
{
    lemma_rate_count_upto(strategy, pairs, tickers, tickers.keys.len() as int);
}

/// The same of the first `n` tickers.
proof fn lemma_rate_count_upto(
    strategy: Strategy,
    pairs: TableView<AssetPairView>,
    tickers: TableView<InfoView>,
    n: int,
)
    requires
        resolvable(strategy, pairs, tickers),
        0 <= n <= tickers.keys.len(),
    ensures
        count_named(samples_upto(strategy, pairs, tickers, n), "exchange_rate"@) == rates_shown(
            tickers,
            n,
        ),
    decreases n,
{
    if n > 0 {
        lemma_rate_count_upto(strategy, pairs, tickers, n - 1);
        let code = tickers.keys[n - 1];
        let info = tickers.values[n - 1];
        let pair = pairs.lookup(code)->0;
        let labels = labels_of(strategy, pair)->0;
        lemma_rate_of_ticker(labels, info);
        lemma_count_concat(
            samples_upto(strategy, pairs, tickers, n - 1),
            ticker_samples(strategy, pairs, code, info),
            "exchange_rate"@,
        );
    }
}

impl Labels {
    /// Labels with the same texts.
    pub fn duplicate(&self) -> (r: Labels)
        ensures
            r@ == self@,
    {
        Labels {
            currency: self.currency.clone(),
            reference_currency: self.reference_currency.clone(),
            pair: self.pair.clone(),
        }
    }
}

/// Writes the sample of a decimal gauge behind `out`, if it has one.
fn push_decimal_gauge(
    out: &mut Vec<Sample>,
    name: &str,
    labels: &Labels,
    values: &Vec<String>,
    i: usize,
)
    ensures
        views(final(out)@) == views(old(out)@) + decimal_gauge(
            name@,
            labels@,
            texts(values@),
            i as int,
        ),
{
    if i < values.len() && accepts(values[i].as_str()) {
        let sample = Sample {
            name: String::from_str(name),
            labels: labels.duplicate(),
            value: values[i].clone(),
        };
        out.push(sample);
        assert(views(out@) == views(old(out)@).push(sample@));
        assert(views(old(out)@).push(sample@) == views(old(out)@) + seq![sample@]);
    } else {
        assert(views(out@) == views(old(out)@) + Seq::<SampleView>::empty());
    }
}

/// Writes the sample of a count gauge behind `out`, if it has one.
fn push_count_gauge(out: &mut Vec<Sample>, name: &str, labels: &Labels, counts: &Vec<u32>, i: usize)
    ensures
        views(final(out)@) == views(old(out)@) + count_gauge(name@, labels@, counts@, i as int),
{
    if i < counts.len() {
        let mut value = String::new();
        push_decimal(&mut value, counts[i]);
        assert(value@ == decimal(counts@[i as int] as nat));
        let sample = Sample { name: String::from_str(name), labels: labels.duplicate(), value };
        out.push(sample);
        assert(views(out@) == views(old(out)@).push(sample@));
        assert(views(old(out)@).push(sample@) == views(old(out)@) + seq![sample@]);
    } else {
        assert(views(out@) == views(old(out)@) + Seq::<SampleView>::empty());
    }
}

/// Writes the samples of one ticker behind `out`.
pub fn push_gauges(out: &mut Vec<Sample>, labels: &Labels, info: &Info)
    ensures
        views(final(out)@) == views(old(out)@) + gauges(labels@, info@),
{
    let ghost l = labels@;
    let ghost i = info@;
    push_decimal_gauge(out, "exchange_rate", labels, &info.c, 0);
    push_decimal_gauge(out, "exchange_volume", labels, &info.v, 0);
    push_decimal_gauge(out, "exchange_volume_last_day", labels, &info.v, 1);
    push_decimal_gauge(out, "exchange_volume_daily", labels, &info.v, 1);
    push_decimal_gauge(out, "exchange_rate_average", labels, &info.p, 0);
    push_decimal_gauge(out, "exchange_rate_average_last_day", labels, &info.p, 1);
    push_count_gauge(out, "exchange_trades", labels, &info.t, 0);
    push_count_gauge(out, "exchange_trades_last_day", labels, &info.t, 1);
    push_count_gauge(out, "exchange_trades_daily", labels, &info.t, 1);
    assert(views(out@) == views(old(out)@) + gauges(l, i)) by {
        let a = views(old(out)@);
        let g1 = decimal_gauge("exchange_rate"@, l, i.c, 0);
        let g2 = decimal_gauge("exchange_volume"@, l, i.v, 0);
        let g3 = decimal_gauge("exchange_volume_last_day"@, l, i.v, 1);
        let g4 = decimal_gauge("exchange_volume_daily"@, l, i.v, 1);
        let g5 = decimal_gauge("exchange_rate_average"@, l, i.p, 0);
        let g6 = decimal_gauge("exchange_rate_average_last_day"@, l, i.p, 1);
        let g7 = count_gauge("exchange_trades"@, l, i.t, 0);
        let g8 = count_gauge("exchange_trades_last_day"@, l, i.t, 1);
        let g9 = count_gauge("exchange_trades_daily"@, l, i.t, 1);
        assert(a + g1 + g2 + g3 + g4 + g5 + g6 + g7 + g8 + g9 == a + (g1 + g2 + g3 + g4 + g5 + g6
            + g7 + g8 + g9));
    }
}

/// The samples that one cycle writes: for every ticker whose pair is listed
/// and has its labels, the gauges whose values can be shown. With them come
/// the codes of the tickers that did not give all their gauges.
pub fn collect(strategy: Strategy, pairs: &Table<AssetPair>, tickers: &Table<Info>) -> (r: (
    Vec<Sample>,
    Vec<String>,
))
    ensures
        views(r.0@) == samples(strategy, pairs@, tickers@),
        texts(r.1@) == curtailed(strategy, pairs@, tickers@),
        forall|i: int| 0 <= i < r.0.len() ==> (#[trigger] r.0@[i])@.labels.complete(),
{
    let mut out: Vec<Sample> = Vec::new();
    let mut short: Vec<String> = Vec::new();
    let mut n: usize = 0;
    assert(views(out@) == Seq::<SampleView>::empty());
    assert(texts(short@) == Seq::<Seq<char>>::empty());
    while n < tickers.len()
        invariant
            n <= tickers.keys().len(),
            views(out@) == samples_upto(strategy, pairs@, tickers@, n as int),
            texts(short@) == curtailed_upto(strategy, pairs@, tickers@, n as int),
        decreases tickers.keys().len() - n,
    {
        let code = tickers.key(n);
        let info = tickers.value(n);
        let ghost before = views(out@);
        let ghost short_before = texts(short@);
        let count = out.len();
        assert(tickers@.keys[n as int] == code@);
        assert(tickers@.values[n as int] == info@);
        match pairs.get(code) {
            Some(pair) => {
                proof {
                    pairs.lemma_lookup(code@);
                }
                match resolve(strategy, pair) {
                    Some(labels) => {
                        push_gauges(&mut out, &labels, info);
                    },
                    None => {
                        assert(views(out@) == before + Seq::<SampleView>::empty());
                    },
                }
            },
            None => {
                proof {
                    pairs.lemma_lookup(code@);
                }
                assert(views(out@) == before + Seq::<SampleView>::empty());
            },
        }
        assert(views(out@).len() == before.len() + ticker_samples(
            strategy,
            pairs@,
            code@,
            info@,
        ).len());
        if out.len() - count < GAUGES {
            short.push(code.clone());
            assert(texts(short@) == short_before.push(code@));
        }
        n += 1;
    }
    assert forall|i: int| 0 <= i < out.len() implies (#[trigger] out@[i])@.labels.complete() by {
        lemma_samples_complete(strategy, pairs@, tickers@);
        assert(samples(strategy, pairs@, tickers@)[i] == out@[i]@);
    }
    (out, short)
}

} // verus!
