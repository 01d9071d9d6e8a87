//! Reading an exposition back, and the proof that what was rendered is
//! read back as it was.

use vstd::prelude::*;
use crate::exposition::{
    escape,
    escaped,
    exposition,
    exposition_upto,
    family_block,
    family_lines,
    family_text,
    sample_line,
    sample_text,
};
use crate::exposition::push_char;
use crate::decimal::{is_number_char, lemma_well_formed_chars};
use crate::gauges::{
    count_gauge,
    decimal_gauge,
    gauges,
    samples,
    samples_upto,
    ticker_samples,
    views,
    Sample,
    SampleView,
};
use crate::labels::{labels_of, Labels, LabelsView, Strategy};
use crate::model::{AssetPairView, InfoView};
use crate::registry::{
    lemma_enrolled_all_keeps,
    lemma_set_all_parts,
    lemma_stored_all_keeps,
    RegistryView,
};
use crate::table::{distinct, lemma_position, position, TableView};
use crate::text::{chars_of, decimal, find_char, is_digit, lemma_decimal_digits};

verus! {

/// The character that stands for `c` behind a backslash.
pub open spec fn unescape(c: char) -> Option<char> {
    if c == '\\' {
        Some('\\')
    } else if c == '"' {
        Some('"')
    } else if c == 'n' {
        Some('\n')
    } else {
        None
    }
}

/// Reads a label value from the front of `s`, up to the quote that closes it:
/// the value, and what follows it from the quote on.
pub open spec fn quoted(s: Seq<char>) -> Option<(Seq<char>, Seq<char>)>
    decreases s.len(),
{
    if s.len() == 0 {
        None
    } else if s[0] == '"' {
        Some((Seq::empty(), s))
    } else if s[0] == '\\' {
        if s.len() < 2 {
            None
        } else {
            match (unescape(s[1]), quoted(s.skip(2))) {
                (Some(c), Some((value, rest))) => Some((seq![c] + value, rest)),
                _ => None,
            }
        }
    } else {
        match quoted(s.skip(1)) {
            Some((value, rest)) => Some((seq![s[0]] + value, rest)),
            None => None,
        }
    }
}

/// What follows `prefix` in `s`, where `s` begins with it.
pub open spec fn after(s: Seq<char>, prefix: Seq<char>) -> Option<Seq<char>> {
    if prefix.len() <= s.len() && s.take(prefix.len() as int) == prefix {
        Some(s.skip(prefix.len() as int))
    } else {
        None
    }
}

/// The three label values that stand at the front of `s`, and what follows
/// the brace that closes them.
pub open spec fn parsed_labels(s: Seq<char>) -> Option<(LabelsView, Seq<char>)> {
    match after(s, "{currency=\""@) {
        Some(r1) => match quoted(r1) {
            Some((currency, r2)) => match after(r2, "\",reference_currency=\""@) {
                Some(r3) => match quoted(r3) {
                    Some((reference_currency, r4)) => match after(r4, "\",pair=\""@) {
                        Some(r5) => match quoted(r5) {
                            Some((pair, r6)) => match after(r6, "\"} "@) {
                                Some(value) => Some(
                                    (LabelsView { currency, reference_currency, pair }, value),
                                ),
                                None => None,
                            },
                            None => None,
                        },
                        None => None,
                    },
                    None => None,
                },
                None => None,
            },
            None => None,
        },
        None => None,
    }
}

/// The sample that a line without its end spells.
pub open spec fn parsed_line(line: Seq<char>) -> Option<SampleView> {
    match position(line, '{') {
        Some(b) => match parsed_labels(line.skip(b)) {
            Some((labels, value)) => Some(SampleView { name: line.take(b), labels, value }),
            None => None,
        },
        None => None,
    }
}

/// The samples that an exposition spells, line by line. Empty lines and
/// lines that begin with `#` say nothing; every line ends with a newline.
pub open spec fn parsed(text: Seq<char>) -> Option<Seq<SampleView>>
    decreases text.len(),
{
    if text.len() == 0 {
        Some(Seq::empty())
    } else {
        match position(text, '\n') {
            Some(k) => if 0 <= k < text.len() {
                let line = text.take(k);
                let rest = text.skip(k + 1);
                if line.len() == 0 || line[0] == '#' {
                    parsed(rest)
                } else {
                    match (parsed_line(line), parsed(rest)) {
                        (Some(sample), Some(more)) => Some(seq![sample] + more),
                        _ => None,
                    }
                }
            } else {
                None
            },
            None => None,
        }
    }
}

/// The character `c` stands nowhere in `s`.
pub open spec fn free_of(s: Seq<char>, c: char) -> bool {
    forall|i: int| 0 <= i < s.len() ==> s[i] != c
}

/// A name that can be read back: without a brace or a newline, and not
/// beginning like a comment.
pub open spec fn clean_name(name: Seq<char>) -> bool {
    &&& free_of(name, '{')
    &&& free_of(name, '\n')
    &&& name.len() == 0 || name[0] != '#'
}

/// A sample that can be read back.
pub open spec fn clean_sample(sample: SampleView) -> bool {
    clean_name(sample.name) && free_of(sample.value, '\n')
}

/// Escaping goes part by part.
pub proof fn lemma_escaped_concat(a: Seq<char>, b: Seq<char>)
    ensures
        escaped(a + b) == escaped(a) + escaped(b),
    decreases b.len(),
{
    if b.len() == 0 {
        assert(a + b == a);
        assert(escaped(a) + escaped(b) == escaped(a));
    } else {
        lemma_escaped_concat(a, b.drop_last());
        assert((a + b).drop_last() == a + b.drop_last());
        assert((a + b).last() == b.last());
        assert(escaped(a) + escaped(b.drop_last()) + escape(b.last()) == escaped(a) + (escaped(
            b.drop_last(),
        ) + escape(b.last())));
    }
}

/// Escaping goes character by character from the front.
proof fn lemma_escaped_front(value: Seq<char>)
    requires
        value.len() > 0,
    ensures
        escaped(value) == escape(value[0]) + escaped(value.skip(1)),
{
    let head = seq![value[0]];
    assert(value == head + value.skip(1));
    lemma_escaped_concat(head, value.skip(1));
    assert(head.drop_last() == Seq::<char>::empty());
    assert(head.last() == value[0]);
    assert(escaped(Seq::<char>::empty()) == Seq::<char>::empty());
    assert(escaped(head) == Seq::<char>::empty() + escape(value[0]));
    assert(Seq::<char>::empty() + escape(value[0]) == escape(value[0]));
}

/// What was written between quotes is read back as it was.
pub proof fn lemma_quoted(value: Seq<char>, rest: Seq<char>)
    requires
        rest.len() > 0,
        rest[0] == '"',
    ensures
        quoted(escaped(value) + rest) == Some((value, rest)),
    decreases value.len(),
{
    if value.len() == 0 {
        assert(escaped(value) + rest == rest);
    } else {
        let c = value[0];
        let tail = value.skip(1);
        lemma_escaped_front(value);
        lemma_quoted(tail, rest);
        let s = escaped(value) + rest;
        let next = escaped(tail) + rest;
        assert(s == escape(c) + next);
        reveal_strlit("\\\\");
        reveal_strlit("\\\"");
        reveal_strlit("\\n");
        if c == '\\' || c == '"' || c == '\n' {
            assert(escape(c).len() == 2);
            assert(s[0] == '\\');
            assert(s.skip(2) == next);
            assert(unescape(s[1]) == Some(c));
        } else {
            assert(s[0] == c);
            assert(s.skip(1) == next);
        }
        assert(seq![c] + tail == value);
    }
}

/// What is written between quotes holds no newline.
pub proof fn lemma_escaped_one_line(value: Seq<char>)
    ensures
        free_of(escaped(value), '\n'),
    decreases value.len(),
{
    if value.len() > 0 {
        lemma_escaped_one_line(value.drop_last());
        reveal_strlit("\\\\");
        reveal_strlit("\\\"");
        reveal_strlit("\\n");
        let front = escaped(value.drop_last());
        let last = escape(value.last());
        assert forall|i: int| 0 <= i < (front + last).len() implies (front + last)[i] != '\n' by {
            if i >= front.len() {
                assert((front + last)[i] == last[i - front.len()]);
            }
        }
    }
}

/// What follows a prefix is what was put behind it.
proof fn lemma_after(prefix: Seq<char>, rest: Seq<char>)
    ensures
        after(prefix + rest, prefix) == Some(rest),
{
    assert((prefix + rest).take(prefix.len() as int) == prefix);
    assert((prefix + rest).skip(prefix.len() as int) == rest);
}

/// Two texts without a character are without it in a row.
proof fn lemma_free_concat(a: Seq<char>, b: Seq<char>, c: char)
    requires
        free_of(a, c),
        free_of(b, c),
    ensures
        free_of(a + b, c),
{
    assert forall|i: int| 0 <= i < (a + b).len() implies (a + b)[i] != c by {
        if i >= a.len() {
            assert((a + b)[i] == b[i - a.len()]);
        }
    }
}

/// The labels that were written are read back as they were.
proof fn lemma_parsed_labels(labels: LabelsView, value: Seq<char>)
    ensures
        parsed_labels(
            "{currency=\""@ + escaped(labels.currency) + "\",reference_currency=\""@ + escaped(
                labels.reference_currency,
            ) + "\",pair=\""@ + escaped(labels.pair) + "\"} "@ + value,
        ) == Some((labels, value)),
{
    let a = "{currency=\""@;
    let b = "\",reference_currency=\""@;
    let c = "\",pair=\""@;
    let d = "\"} "@;
    reveal_strlit("\",reference_currency=\"");
    reveal_strlit("\",pair=\"");
    reveal_strlit("\"} ");
    let t6 = d + value;
    let t5 = escaped(labels.pair) + t6;
    let t4 = c + t5;
    let t3 = escaped(labels.reference_currency) + t4;
    let t2 = b + t3;
    let t1 = escaped(labels.currency) + t2;
    let all = a + escaped(labels.currency) + b + escaped(labels.reference_currency) + c + escaped(
        labels.pair,
    ) + d + value;
    assert(all == a + t1);
    lemma_after(a, t1);
    assert(t2[0] == '"');
    lemma_quoted(labels.currency, t2);
    lemma_after(b, t3);
    assert(t4[0] == '"');
    lemma_quoted(labels.reference_currency, t4);
    lemma_after(c, t5);
    assert(t6[0] == '"');
    lemma_quoted(labels.pair, t6);
    lemma_after(d, value);
}

/// The text of a sample that can be read back is one line, is no comment,
/// and spells the sample.
pub proof fn lemma_parsed_line(sample: SampleView)
    requires
        clean_sample(sample),
    ensures
        parsed_line(sample_text(sample)) == Some(sample),
        free_of(sample_text(sample), '\n'),
        sample_text(sample).len() > 0,
        sample_text(sample)[0] != '#',
{
    let a = "{currency=\""@;
    let b = "\",reference_currency=\""@;
    let c = "\",pair=\""@;
    let d = "\"} "@;
    reveal_strlit("{currency=\"");
    reveal_strlit("\",reference_currency=\"");
    reveal_strlit("\",pair=\"");
    reveal_strlit("\"} ");
    let labels = sample.labels;
    let tail = a + escaped(labels.currency) + b + escaped(labels.reference_currency) + c + escaped(
        labels.pair,
    ) + d + sample.value;
    let text = sample_text(sample);
    assert(text == sample.name + tail);
    assert(tail[0] == '{');
    lemma_position(text, '{');
    assert(text[sample.name.len() as int] == '{');
    assert(position(text, '{') == Some(sample.name.len() as int));
    assert(text.skip(sample.name.len() as int) == tail);
    assert(text.take(sample.name.len() as int) == sample.name);
    lemma_parsed_labels(labels, sample.value);
    lemma_escaped_one_line(labels.currency);
    lemma_escaped_one_line(labels.reference_currency);
    lemma_escaped_one_line(labels.pair);
    lemma_free_concat(sample.name, a, '\n');
    lemma_free_concat(sample.name + a, escaped(labels.currency), '\n');
    lemma_free_concat(sample.name + a + escaped(labels.currency), b, '\n');
    lemma_free_concat(
        sample.name + a + escaped(labels.currency) + b,
        escaped(labels.reference_currency),
        '\n',
    );
    lemma_free_concat(
        sample.name + a + escaped(labels.currency) + b + escaped(labels.reference_currency),
        c,
        '\n',
    );
    lemma_free_concat(
        sample.name + a + escaped(labels.currency) + b + escaped(labels.reference_currency) + c,
        escaped(labels.pair),
        '\n',
    );
    lemma_free_concat(
        sample.name + a + escaped(labels.currency) + b + escaped(labels.reference_currency) + c
            + escaped(labels.pair),
        d,
        '\n',
    );
    lemma_free_concat(
        sample.name + a + escaped(labels.currency) + b + escaped(labels.reference_currency) + c
            + escaped(labels.pair) + d,
        sample.value,
        '\n',
    );
    if sample.name.len() > 0 {
        assert(text[0] == sample.name[0]);
    } else {
        assert(text[0] == tail[0]);
    }
}

/// Those of the first `n` samples that belong to the family, in order.
pub open spec fn family_samples(samples: Seq<SampleView>, family: Seq<char>, n: int) -> Seq<
    SampleView,
>
    decreases n,
{
    if n <= 0 {
        Seq::empty()
    } else if samples[n - 1].name == family {
        family_samples(samples, family, n - 1).push(samples[n - 1])
    } else {
        family_samples(samples, family, n - 1)
    }
}

/// The samples of the first `n` families, family by family.
pub open spec fn grouped_upto(registry: RegistryView, n: int) -> Seq<SampleView>
    decreases n,
{
    if n <= 0 {
        Seq::empty()
    } else {
        grouped_upto(registry, n - 1) + family_samples(
            registry.samples,
            registry.families[n - 1],
            registry.samples.len() as int,
        )
    }
}

/// The samples of a registry in the order in which they are rendered.
pub open spec fn grouped(registry: RegistryView) -> Seq<SampleView> {
    grouped_upto(registry, registry.families.len() as int)
}

impl RegistryView {
    /// Every sample can be read back, and no family has a newline in its
    /// name.
    pub open spec fn clean(self) -> bool {
        &&& forall|i: int| 0 <= i < self.samples.len() ==> clean_sample(#[trigger] self.samples[i])
        &&& forall|j: int|
            0 <= j < self.families.len() ==> free_of(#[trigger] self.families[j], '\n')
    }
}

/// A line at the front of a text is read first: it says nothing where it is
/// empty or a comment, and else gives the first sample.
proof fn lemma_parsed_step(line: Seq<char>, rest: Seq<char>)
    requires
        free_of(line, '\n'),
    ensures
        parsed(line + "\n"@ + rest) == if line.len() == 0 || line[0] == '#' {
            parsed(rest)
        } else {
            match (parsed_line(line), parsed(rest)) {
                (Some(sample), Some(more)) => Some(seq![sample] + more),
                _ => None,
            }
        },
{
    reveal_strlit("\n");
    let text = line + "\n"@ + rest;
    let k = line.len() as int;
    assert(text[k] == '\n');
    assert forall|j: int| 0 <= j < k implies text[j] != '\n' by {
        assert(text[j] == line[j]);
    }
    lemma_position(text, '\n');
    assert(position(text, '\n') == Some(k));
    assert(text.take(k) == line);
    assert(text.skip(k + 1) == rest);
}

/// The lines of a family at the front of a text give the samples of the
/// family, then what the rest of the text gives.
proof fn lemma_parsed_family_lines(
    samples: Seq<SampleView>,
    family: Seq<char>,
    n: int,
    rest: Seq<char>,
    more: Seq<SampleView>,
)
    requires
        0 <= n <= samples.len(),
        forall|i: int| 0 <= i < samples.len() ==> clean_sample(#[trigger] samples[i]),
        parsed(rest) == Some(more),
    ensures
        parsed(family_lines(samples, family, n) + rest) == Some(
            family_samples(samples, family, n) + more,
        ),
    decreases n,
{
    if n <= 0 {
        assert(family_lines(samples, family, n) + rest == rest);
        assert(family_samples(samples, family, n) + more == more);
    } else if samples[n - 1].name == family {
        let sample = samples[n - 1];
        let line = sample_text(sample);
        let front = family_lines(samples, family, n - 1);
        lemma_parsed_line(sample);
        lemma_parsed_step(line, rest);
        let next = line + "\n"@ + rest;
        lemma_parsed_family_lines(samples, family, n - 1, next, seq![sample] + more);
        assert(front + sample_line(sample) + rest == front + next);
        assert(family_samples(samples, family, n - 1) + (seq![sample] + more) == family_samples(
            samples,
            family,
            n,
        ) + more);
    } else {
        lemma_parsed_family_lines(samples, family, n - 1, rest, more);
    }
}

/// The parts of the first `n` families at the front of a text give their
/// samples, then what the rest of the text gives.
proof fn lemma_parsed_upto(
    registry: RegistryView,
    n: int,
    rest: Seq<char>,
    more: Seq<SampleView>,
)
    requires
        registry.clean(),
        0 <= n <= registry.families.len(),
        parsed(rest) == Some(more),
    ensures
        parsed(exposition_upto(registry, n) + rest) == Some(grouped_upto(registry, n) + more),
    decreases n,
{
    if n <= 0 {
        assert(exposition_upto(registry, n) + rest == rest);
        assert(grouped_upto(registry, n) + more == more);
    } else {
        let family = registry.families[n - 1];
        let count = registry.samples.len() as int;
        let lines = family_lines(registry.samples, family, count);
        let found = family_samples(registry.samples, family, count);
        let head = family_text(family);
        reveal_strlit("# TYPE ");
        reveal_strlit(" gauge");
        lemma_free_concat("# TYPE "@, family, '\n');
        lemma_free_concat("# TYPE "@ + family, " gauge"@, '\n');
        assert(head[0] == '#');
        lemma_parsed_family_lines(registry.samples, family, count, rest, more);
        lemma_parsed_step(head, lines + rest);
        let next = head + "\n"@ + (lines + rest);
        assert(parsed(next) == Some(found + more));
        lemma_parsed_upto(registry, n - 1, next, found + more);
        assert(exposition_upto(registry, n) + rest == exposition_upto(registry, n - 1) + next);
        assert(grouped_upto(registry, n - 1) + (found + more) == grouped_upto(registry, n) + more);
    }
}

/// Reading the exposition of a registry gives its samples back, family by
/// family.
pub proof fn lemma_parsed_exposition(registry: RegistryView)
    requires
        registry.clean(),
    ensures
        parsed(exposition(registry)) == Some(grouped(registry)),
{
    let n = registry.families.len() as int;
    let none = Seq::<char>::empty();
    lemma_parsed_upto(registry, n, none, Seq::empty());
    assert(exposition_upto(registry, n) + none == exposition_upto(registry, n));
    assert(grouped_upto(registry, n) + Seq::<SampleView>::empty() == grouped_upto(registry, n));
}

/// A sample occurs among those of its family as often as among all, and
/// not among those of another family.
proof fn lemma_family_count(
    samples: Seq<SampleView>,
    family: Seq<char>,
    n: int,
    sample: SampleView,
)
    requires
        0 <= n <= samples.len(),
    ensures
        family_samples(samples, family, n).to_multiset().count(sample) == if sample.name
            == family {
            samples.take(n).to_multiset().count(sample)
        } else {
            0
        },
    decreases n,
{
    broadcast use vstd::multiset::group_multiset_axioms;

    if n <= 0 {
        assert(samples.take(n) == Seq::<SampleView>::empty());
        assert(family_samples(samples, family, n) == Seq::<SampleView>::empty());
        Seq::<SampleView>::empty().to_multiset_ensures();
        assert(Seq::<SampleView>::empty().to_multiset().len() == 0);
    } else {
        lemma_family_count(samples, family, n - 1, sample);
        let last = samples[n - 1];
        assert(samples.take(n) == samples.take(n - 1).push(last));
        vstd::seq_lib::to_multiset_build(samples.take(n - 1), last);
        if last.name == family {
            vstd::seq_lib::to_multiset_build(family_samples(samples, family, n - 1), last);
        }
    }
}

/// A sample occurs among those of the first `n` families as often as among
/// all where its family is one of them, and else not.
proof fn lemma_grouped_count(registry: RegistryView, n: int, sample: SampleView)
    requires
        0 <= n <= registry.families.len(),
        distinct(registry.families),
    ensures
        grouped_upto(registry, n).to_multiset().count(sample) == if position(
            registry.families.take(n),
            sample.name,
        ).is_some() {
            registry.samples.to_multiset().count(sample)
        } else {
            0
        },
    decreases n,
{
    broadcast use vstd::multiset::group_multiset_axioms;

    if n <= 0 {
        assert(grouped_upto(registry, n) == Seq::<SampleView>::empty());
        Seq::<SampleView>::empty().to_multiset_ensures();
        assert(Seq::<SampleView>::empty().to_multiset().len() == 0);
        assert(registry.families.take(n) == Seq::<Seq<char>>::empty());
    } else {
        let family = registry.families[n - 1];
        let count = registry.samples.len() as int;
        let found = family_samples(registry.samples, family, count);
        let front = registry.families.take(n - 1);
        lemma_grouped_count(registry, n - 1, sample);
        lemma_family_count(registry.samples, family, count, sample);
        assert(registry.samples.take(count) == registry.samples);
        vstd::seq_lib::lemma_multiset_commutative(grouped_upto(registry, n - 1), found);
        lemma_position(front, sample.name);
        lemma_position(registry.families.take(n), sample.name);
        assert(registry.families.take(n) == front.push(family));
        if sample.name == family {
            assert(registry.families.take(n)[n - 1] == sample.name);
            if position(front, sample.name).is_some() {
                let k = position(front, sample.name)->0;
                assert(front[k] == registry.families[k]);
            }
        } else {
            if position(front, sample.name).is_some() {
                let k = position(front, sample.name)->0;
                assert(registry.families.take(n)[k] == front[k]);
            }
            if position(registry.families.take(n), sample.name).is_some() {
                let k = position(registry.families.take(n), sample.name)->0;
                assert(front[k] == registry.families.take(n)[k]);
            }
        }
    }
}

/// The samples in the order in which they are rendered are the samples of
/// the registry, each as often as there.
pub proof fn lemma_grouped(registry: RegistryView)
    requires
        registry.wf(),
    ensures
        grouped(registry).to_multiset() == registry.samples.to_multiset(),
{
    broadcast use vstd::multiset::group_multiset_axioms;

    let n = registry.families.len() as int;
    assert(registry.families.take(n) == registry.families);
    assert forall|sample: SampleView|
        grouped(registry).to_multiset().count(sample) == registry.samples.to_multiset().count(
            sample,
        ) by {
        lemma_grouped_count(registry, n, sample);
        registry.samples.to_multiset_ensures();
        if registry.samples.to_multiset().count(sample) > 0 {
            assert(registry.samples.contains(sample));
            let i = choose|i: int| 0 <= i < registry.samples.len() && registry.samples[i] == sample;
            assert(position(registry.families, registry.samples[i].name).is_some());
        }
    }
    assert(grouped(registry).to_multiset() =~= registry.samples.to_multiset());
}

/// Rendering a registry and reading the exposition back gives the samples of
/// the registry, each as often as there.
pub proof fn lemma_round_trip(registry: RegistryView)
    requires
        registry.wf(),
        registry.clean(),
    ensures
        parsed(exposition(registry)) matches Some(read) && read.to_multiset()
            == registry.samples.to_multiset(),
{
    lemma_parsed_exposition(registry);
    lemma_grouped(registry);
}

/// The name of a gauge of the exporter can be read back.
proof fn lemma_gauge_names_clean()
    ensures
        clean_name("exchange_rate"@),
        clean_name("exchange_volume"@),
        clean_name("exchange_volume_last_day"@),
        clean_name("exchange_volume_daily"@),
        clean_name("exchange_rate_average"@),
        clean_name("exchange_rate_average_last_day"@),
        clean_name("exchange_trades"@),
        clean_name("exchange_trades_last_day"@),
        clean_name("exchange_trades_daily"@),
{
    reveal_strlit("exchange_rate");
    reveal_strlit("exchange_volume");
    reveal_strlit("exchange_volume_last_day");
    reveal_strlit("exchange_volume_daily");
    reveal_strlit("exchange_rate_average");
    reveal_strlit("exchange_rate_average_last_day");
    reveal_strlit("exchange_trades");
    reveal_strlit("exchange_trades_last_day");
    reveal_strlit("exchange_trades_daily");
}

/// A text that holds nothing but what a number holds has no newline.
proof fn lemma_number_one_line(text: Seq<char>)
    requires
        forall|i: int| 0 <= i < text.len() ==> is_number_char(#[trigger] text[i]),
    ensures
        free_of(text, '\n'),
{
    assert forall|i: int| 0 <= i < text.len() implies text[i] != '\n' by {
        assert(is_number_char(text[i]));
    }
}

/// The sample of a decimal gauge with a clean name can be read back.
proof fn lemma_decimal_gauge_clean(
    name: Seq<char>,
    labels: LabelsView,
    values: Seq<Seq<char>>,
    i: int,
)
    requires
        clean_name(name),
    ensures
        all_clean(decimal_gauge(name, labels, values, i)),
{
    let g = decimal_gauge(name, labels, values, i);
    if g.len() > 0 {
        lemma_well_formed_chars(values[i]);
        lemma_number_one_line(values[i]);
    }
}

/// The sample of a count gauge with a clean name can be read back.
proof fn lemma_count_gauge_clean(name: Seq<char>, labels: LabelsView, counts: Seq<u32>, i: int)
    requires
        clean_name(name),
    ensures
        all_clean(count_gauge(name, labels, counts, i)),
{
    let g = count_gauge(name, labels, counts, i);
    if g.len() > 0 {
        lemma_decimal_digits(counts[i] as nat);
        let text = decimal(counts[i] as nat);
        assert forall|j: int| 0 <= j < text.len() implies text[j] != '\n' by {
            assert(is_digit(text[j]));
        }
    }
}

/// All samples of `list` can be read back.
pub open spec fn all_clean(list: Seq<SampleView>) -> bool {
    forall|i: int| 0 <= i < list.len() ==> clean_sample(#[trigger] list[i])
}

/// Two lists that can be read back can be read back in a row.
proof fn lemma_all_clean_concat(a: Seq<SampleView>, b: Seq<SampleView>)
    requires
        all_clean(a),
        all_clean(b),
    ensures
        all_clean(a + b),
{
    assert forall|i: int| 0 <= i < (a + b).len() implies clean_sample(#[trigger] (a + b)[i]) by {
        if i < a.len() {
            assert((a + b)[i] == a[i]);
        } else {
            assert((a + b)[i] == b[i - a.len()]);
        }
    }
}

/// The samples of a ticker can be read back.
pub proof fn lemma_gauges_clean(labels: LabelsView, info: InfoView)
    ensures
        all_clean(gauges(labels, info)),
{
    lemma_gauge_names_clean();
    let g1 = decimal_gauge("exchange_rate"@, labels, info.c, 0);
    let g2 = decimal_gauge("exchange_volume"@, labels, info.v, 0);
    let g3 = decimal_gauge("exchange_volume_last_day"@, labels, info.v, 1);
    let g4 = decimal_gauge("exchange_volume_daily"@, labels, info.v, 1);
    let g5 = decimal_gauge("exchange_rate_average"@, labels, info.p, 0);
    let g6 = decimal_gauge("exchange_rate_average_last_day"@, labels, info.p, 1);
    let g7 = count_gauge("exchange_trades"@, labels, info.t, 0);
    let g8 = count_gauge("exchange_trades_last_day"@, labels, info.t, 1);
    let g9 = count_gauge("exchange_trades_daily"@, labels, info.t, 1);
    lemma_decimal_gauge_clean("exchange_rate"@, labels, info.c, 0);
    lemma_decimal_gauge_clean("exchange_volume"@, labels, info.v, 0);
    lemma_decimal_gauge_clean("exchange_volume_last_day"@, labels, info.v, 1);
    lemma_decimal_gauge_clean("exchange_volume_daily"@, labels, info.v, 1);
    lemma_decimal_gauge_clean("exchange_rate_average"@, labels, info.p, 0);
    lemma_decimal_gauge_clean("exchange_rate_average_last_day"@, labels, info.p, 1);
    lemma_count_gauge_clean("exchange_trades"@, labels, info.t, 0);
    lemma_count_gauge_clean("exchange_trades_last_day"@, labels, info.t, 1);
    lemma_count_gauge_clean("exchange_trades_daily"@, labels, info.t, 1);
    lemma_all_clean_concat(g1, g2);
    lemma_all_clean_concat(g1 + g2, g3);
    lemma_all_clean_concat(g1 + g2 + g3, g4);
    lemma_all_clean_concat(g1 + g2 + g3 + g4, g5);
    lemma_all_clean_concat(g1 + g2 + g3 + g4 + g5, g6);
    lemma_all_clean_concat(g1 + g2 + g3 + g4 + g5 + g6, g7);
    lemma_all_clean_concat(g1 + g2 + g3 + g4 + g5 + g6 + g7, g8);
    lemma_all_clean_concat(g1 + g2 + g3 + g4 + g5 + g6 + g7 + g8, g9);
}

/// The samples of a cycle can be read back.
pub proof fn lemma_samples_clean(
    strategy: Strategy,
    pairs: TableView<AssetPairView>,
    tickers: TableView<InfoView>,
)
    ensures
        all_clean(samples(strategy, pairs, tickers)),
{
    lemma_samples_upto_clean(strategy, pairs, tickers, tickers.keys.len() as int);
}

/// The same of the first `n` tickers.
proof fn lemma_samples_upto_clean(
    strategy: Strategy,
    pairs: TableView<AssetPairView>,
    tickers: TableView<InfoView>,
    n: int,
)
    ensures
        all_clean(samples_upto(strategy, pairs, tickers, n)),
    decreases n,
{
    if n > 0 {
        lemma_samples_upto_clean(strategy, pairs, tickers, n - 1);
        let code = tickers.keys[n - 1];
        let info = tickers.values[n - 1];
        match pairs.lookup(code) {
            Some(pair) => match labels_of(strategy, pair) {
                Some(labels) => {
                    lemma_gauges_clean(labels, info);
                },
                None => {},
            },
            None => {},
        }
        lemma_all_clean_concat(
            samples_upto(strategy, pairs, tickers, n - 1),
            ticker_samples(strategy, pairs, code, info),
        );
    }
}

/// A registry whose samples can be read back stays so when samples that can
/// be read back are set.
pub proof fn lemma_set_all_clean(registry: RegistryView, list: Seq<SampleView>)
    requires
        registry.clean(),
        all_clean(list),
    ensures
        registry.set_all(list).clean(),
{
    lemma_set_all_parts(registry, list);
    lemma_stored_all_keeps(
        registry.samples,
        list,
        |s: SampleView| clean_sample(s),
    );
    lemma_enrolled_all_keeps(
        registry.families,
        list,
        |f: Seq<char>| free_of(f, '\n'),
    );
}

/// In a part of a sequence from its front, a character is found first
/// where it is found first in the whole, if that place is in the part.
proof fn lemma_position_take(s: Seq<char>, m: int, c: char)
    requires
        0 <= m <= s.len(),
    ensures
        position(s.take(m), c) == match position(s, c) {
            Some(k) => if k < m {
                Some(k)
            } else {
                None
            },
            None => None,
        },
{
    lemma_position(s, c);
    lemma_position(s.take(m), c);
    match position(s.take(m), c) {
        Some(k) => {
            assert(s.take(m)[k] == s[k]);
            match position(s, c) {
                Some(j) => {
                    if j < k {
                        assert(s.take(m)[j] == s[j]);
                    }
                },
                None => {},
            }
        },
        None => {
            match position(s, c) {
                Some(j) => {
                    if j < m {
                        assert(s.take(m)[j] == s[j]);
                    }
                },
                None => {},
            }
        },
    }
}

/// The characters from `from` to `to` as a string.
fn string_of(chars: &Vec<char>, from: usize, to: usize) -> (r: String)
    requires
        from <= to <= chars.len(),
    ensures
        r@ == chars@.subrange(from as int, to as int),
{
    let mut out = String::new();
    let mut i: usize = from;
    assert(out@ == chars@.subrange(from as int, i as int));
    while i < to
        invariant
            from <= i <= to <= chars.len(),
            out@ == chars@.subrange(from as int, i as int),
        decreases to - i,
    {
        push_char(&mut out, chars[i]);
        assert(chars@.subrange(from as int, i as int).push(chars@[i as int]) == chars@.subrange(
            from as int,
            i + 1,
        ));
        i += 1;
    }
    out
}

/// Steps over `word` where it stands at `pos`: the place behind it.
fn expect(chars: &Vec<char>, pos: usize, to: usize, word: &str) -> (r: Option<usize>)
    requires
        pos <= to <= chars.len(),
    ensures
        match r {
            Some(p) => pos <= p <= to && after(chars@.subrange(pos as int, to as int), word@)
                == Some(chars@.subrange(p as int, to as int)),
            None => after(chars@.subrange(pos as int, to as int), word@).is_none(),
        },
{
    let wanted = chars_of(word);
    let ghost part = chars@.subrange(pos as int, to as int);
    if wanted.len() > to - pos {
        return None;
    }
    let mut i: usize = 0;
    while i < wanted.len()
        invariant
            i <= wanted.len() <= to - pos,
            pos <= to <= chars.len(),
            wanted@ == word@,
            part == chars@.subrange(pos as int, to as int),
            forall|j: int| 0 <= j < i ==> part[j] == wanted@[j],
        decreases wanted.len() - i,
    {
        if chars[pos + i] != wanted[i] {
            assert(part[i as int] != wanted@[i as int]);
            assert(part.take(wanted.len() as int)[i as int] != wanted@[i as int]);
            return None;
        }
        assert(part[i as int] == chars@[pos + i]);
        i += 1;
    }
    assert(part.take(wanted.len() as int) == wanted@);
    assert(part.skip(wanted.len() as int) == chars@.subrange(pos + wanted.len(), to as int));
    Some(pos + wanted.len())
}

/// What `quoted` makes of a text whose front has been read already.
spec fn quoted_behind(front: Seq<char>, s: Seq<char>) -> Option<(Seq<char>, Seq<char>)> {
    match quoted(s) {
        Some((value, rest)) => Some((front + value, rest)),
        None => None,
    }
}

/// Reads a label value that begins at `pos`: the value, and the place of the
/// quote that closes it.
fn read_quoted(chars: &Vec<char>, pos: usize, to: usize) -> (r: Option<(String, usize)>)
    requires
        pos <= to <= chars.len(),
    ensures
        match r {
            Some((value, p)) => pos <= p <= to && quoted(chars@.subrange(pos as int, to as int))
                == Some((value@, chars@.subrange(p as int, to as int))),
            None => quoted(chars@.subrange(pos as int, to as int)).is_none(),
        },
{
    let ghost whole = chars@.subrange(pos as int, to as int);
    let mut value = String::new();
    let mut i: usize = pos;
    assert(quoted_behind(value@, chars@.subrange(i as int, to as int)) == quoted(whole)) by {
        match quoted(whole) {
            Some((v, r)) => {
                assert(Seq::<char>::empty() + v == v);
            },
            None => {},
        }
    }
    while i < to
        invariant
            pos <= i <= to <= chars.len(),
            whole == chars@.subrange(pos as int, to as int),
            quoted_behind(value@, chars@.subrange(i as int, to as int)) == quoted(whole),
        decreases to - i,
    {
        let ghost s = chars@.subrange(i as int, to as int);
        let ghost before = value@;
        let c = chars[i];
        assert(s[0] == c);
        if c == '"' {
            assert(before + Seq::<char>::empty() == before);
            return Some((value, i));
        } else if c == '\\' {
            if to - i < 2 {
                return None;
            }
            let e = chars[i + 1];
            assert(s[1] == e);
            let plain = if e == '\\' {
                '\\'
            } else if e == '"' {
                '"'
            } else if e == 'n' {
                '\n'
            } else {
                return None;
            };
            push_char(&mut value, plain);
            assert(s.skip(2) == chars@.subrange(i + 2, to as int));
            proof {
                match quoted(s.skip(2)) {
                    Some((v, r)) => {
                        assert(before + (seq![plain] + v) == before.push(plain) + v);
                    },
                    None => {},
                }
            }
            i += 2;
        } else {
            push_char(&mut value, c);
            assert(s.skip(1) == chars@.subrange(i + 1, to as int));
            proof {
                match quoted(s.skip(1)) {
                    Some((v, r)) => {
                        assert(before + (seq![c] + v) == before.push(c) + v);
                    },
                    None => {},
                }
            }
            i += 1;
        }
    }
    assert(chars@.subrange(i as int, to as int).len() == 0);
    None
}

/// Reads the labels and the value that stand from `pos` on.
fn read_labels(chars: &Vec<char>, pos: usize, to: usize) -> (r: Option<(Labels, String)>)
    requires
        pos <= to <= chars.len(),
    ensures
        match r {
            Some((labels, value)) => parsed_labels(chars@.subrange(pos as int, to as int))
                == Some((labels@, value@)),
            None => parsed_labels(chars@.subrange(pos as int, to as int)).is_none(),
        },
{
    let p1 = expect(chars, pos, to, "{currency=\"")?;
    let (currency, p2) = read_quoted(chars, p1, to)?;
    let p3 = expect(chars, p2, to, "\",reference_currency=\"")?;
    let (reference_currency, p4) = read_quoted(chars, p3, to)?;
    let p5 = expect(chars, p4, to, "\",pair=\"")?;
    let (pair, p6) = read_quoted(chars, p5, to)?;
    let p7 = expect(chars, p6, to, "\"} ")?;
    let value = string_of(chars, p7, to);
    Some((Labels { currency, reference_currency, pair }, value))
}

/// Reads the sample that the line from `from` to `to` spells.
fn read_line(chars: &Vec<char>, from: usize, to: usize) -> (r: Option<Sample>)
    requires
        from <= to <= chars.len(),
    ensures
        match r {
            Some(sample) => parsed_line(chars@.subrange(from as int, to as int)) == Some(
                sample@,
            ),
            None => parsed_line(chars@.subrange(from as int, to as int)).is_none(),
        },
{
    let ghost line = chars@.subrange(from as int, to as int);
    proof {
        lemma_position_take(chars@.skip(from as int), to - from, '{');
        assert(chars@.skip(from as int).take(to - from) == line);
    }
    match find_char(chars, from, '{') {
        Some(b) => {
            if b >= to {
                return None;
            }
            assert(line.skip(b - from) == chars@.subrange(b as int, to as int));
            assert(line.take(b - from) == chars@.subrange(from as int, b as int));
            match read_labels(chars, b, to) {
                Some((labels, value)) => Some(
                    Sample { name: string_of(chars, from, b), labels, value },
                ),
                None => None,
            }
        },
        None => None,
    }
}

/// What `parsed` makes of a text whose front has been read already.
spec fn parsed_behind(front: Seq<SampleView>, text: Seq<char>) -> Option<Seq<SampleView>> {
    match parsed(text) {
        Some(more) => Some(front + more),
        None => None,
    }
}

/// Reads the samples of an exposition. A text that is no exposition of
/// gauges with the three labels gives nothing.
pub fn read(text: &str) -> (r: Option<Vec<Sample>>)
    ensures
        match r {
            Some(samples) => parsed(text@) == Some(views(samples@)),
            None => parsed(text@).is_none(),
        },
{
    let chars = chars_of(text);
    let mut out: Vec<Sample> = Vec::new();
    let mut i: usize = 0;
    assert(parsed_behind(views(out@), chars@.skip(0)) == parsed(text@)) by {
        assert(chars@.skip(0) == text@);
        match parsed(text@) {
            Some(more) => {
                assert(views(out@) + more == more);
            },
            None => {},
        }
    }
    while i < chars.len()
        invariant
            i <= chars.len(),
            chars@ == text@,
            parsed_behind(views(out@), chars@.skip(i as int)) == parsed(text@),
        decreases chars.len() - i,
    {
        let ghost s = chars@.skip(i as int);
        let ghost before = views(out@);
        match find_char(&chars, i, '\n') {
            Some(k) => {
                proof {
                    assert(s.take(k - i) == chars@.subrange(i as int, k as int));
                    assert(s.skip(k - i + 1) == chars@.skip(k + 1));
                    if k > i {
                        assert(s.take(k - i)[0] == chars@[i as int]);
                    }
                }
                if k > i && chars[i] != '#' {
                    match read_line(&chars, i, k) {
                        Some(sample) => {
                            out.push(sample);
                            proof {
                                assert(views(out@) == before.push(sample@));
                                match parsed(chars@.skip(k + 1)) {
                                    Some(more) => {
                                        assert(before + (seq![sample@] + more) == before.push(
                                            sample@,
                                        ) + more);
                                    },
                                    None => {},
                                }
                            }
                        },
                        None => {
                            return None;
                        },
                    }
                }
                i = k + 1;
            },
            None => {
                return None;
            },
        }
    }
    proof {
        assert(chars@.skip(i as int).len() == 0);
        assert(views(out@) + Seq::<SampleView>::empty() == views(out@));
    }
    Some(out)
}

} // verus!
