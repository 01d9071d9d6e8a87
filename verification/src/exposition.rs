//! The registry in the text format of Prometheus.

use vstd::prelude::*;
use vstd::std_specs::iter::IteratorSpec;
use vstd::string::StringExecFns;
use crate::gauges::{views, Sample, SampleView};
use crate::registry::{Registry, RegistryView};
use crate::table::texts;

verus! {

/// `String::push`: the string is as before, with `c` behind it.
#[verifier::external_body]
pub(crate) fn push_char(out: &mut String, c: char)
    ensures
        final(out)@ == old(out)@.push(c),
{
    out.push(c)
}

/// How a character of a label value is written between the quotes.
pub open spec fn escape(c: char) -> Seq<char> {
    if c == '\\' {
        "\\\\"@
    } else if c == '"' {
        "\\\""@
    } else if c == '\n' {
        "\\n"@
    } else {
        seq![c]
    }
}

/// How a label value is written between the quotes.
pub open spec fn escaped(value: Seq<char>) -> Seq<char>
    decreases value.len(),
{
    if value.len() == 0 {
        Seq::empty()
    } else {
        escaped(value.drop_last()) + escape(value.last())
    }
}

/// The text of a sample: its name, its labels between braces, and its value.
pub open spec fn sample_text(sample: SampleView) -> Seq<char> {
    sample.name + "{currency=\""@ + escaped(sample.labels.currency)
        + "\",reference_currency=\""@ + escaped(sample.labels.reference_currency) + "\",pair=\""@
        + escaped(sample.labels.pair) + "\"} "@ + sample.value
}

/// The line of a sample.
pub open spec fn sample_line(sample: SampleView) -> Seq<char> {
    sample_text(sample) + "\n"@
}

/// The text of the line that gives the type of a family.
pub open spec fn family_text(family: Seq<char>) -> Seq<char> {
    "# TYPE "@ + family + " gauge"@
}

/// The lines of those of the first `n` samples that belong to the family.
pub open spec fn family_lines(samples: Seq<SampleView>, family: Seq<char>, n: int) -> Seq<char>
    decreases n,
{
    if n <= 0 {
        Seq::empty()
    } else if samples[n - 1].name == family {
        family_lines(samples, family, n - 1) + sample_line(samples[n - 1])
    } else {
        family_lines(samples, family, n - 1)
    }
}

/// The part of the exposition that belongs to one family: the line that
/// gives its type, then its samples in the order of the registry.
pub open spec fn family_block(samples: Seq<SampleView>, family: Seq<char>) -> Seq<char> {
    family_text(family) + "\n"@ + family_lines(samples, family, samples.len() as int)
}

/// The parts of the first `n` families.
pub open spec fn exposition_upto(registry: RegistryView, n: int) -> Seq<char>
    decreases n,
{
    if n <= 0 {
        Seq::empty()
    } else {
        exposition_upto(registry, n - 1) + family_block(
            registry.samples,
            registry.families[n - 1],
        )
    }
}

/// The registry in the text format of Prometheus: family by family in the
/// order of registration.
pub open spec fn exposition(registry: RegistryView) -> Seq<char> {
    exposition_upto(registry, registry.families.len() as int)
}

/// Writes a label value behind `out` as it stands between quotes.
fn push_escaped(out: &mut String, value: &str)
    ensures
        final(out)@ == old(out)@ + escaped(value@),
{
    let it = value.chars();
    assert(out@ == old(out)@ + escaped(value@.take(0)));
    for c in iter: it
        invariant
            iter.seq() == value@,
            out@ == old(out)@ + escaped(value@.take(iter.index() as int)),
    {
        let ghost k = iter.index() as int;
        let ghost before = out@;
        proof {
            assert(value@.take(k + 1).drop_last() == value@.take(k));
            assert(value@.take(k + 1).last() == c);
        }
        if c == '\\' {
            out.append("\\\\");
        } else if c == '"' {
            out.append("\\\"");
        } else if c == '\n' {
            out.append("\\n");
        } else {
            push_char(out, c);
            assert(before.push(c) == before + seq![c]);
        }
        assert(out@ == before + escape(c));
        assert(old(out)@ + escaped(value@.take(k)) + escape(c) == old(out)@ + (escaped(
            value@.take(k),
        ) + escape(c)));
    }
    assert(value@.take(value@.len() as int) == value@);
}

/// Spells the line of a sample.
fn line(sample: &Sample) -> (r: String)
    ensures
        r@ == sample_line(sample@),
{
    let mut out = String::new();
    out.append(sample.name.as_str());
    assert(out@ == sample.name@);
    out.append("{currency=\"");
    push_escaped(&mut out, sample.labels.currency.as_str());
    out.append("\",reference_currency=\"");
    push_escaped(&mut out, sample.labels.reference_currency.as_str());
    out.append("\",pair=\"");
    push_escaped(&mut out, sample.labels.pair.as_str());
    out.append("\"} ");
    out.append(sample.value.as_str());
    out.append("\n");
    out
}

/// Spells the part of the exposition that belongs to one family.
fn block(samples: &Vec<Sample>, family: &String) -> (r: String)
    ensures
        r@ == family_block(views(samples@), family@),
{
    let ghost all = views(samples@);
    let mut out = String::new();
    out.append("# TYPE ");
    out.append(family.as_str());
    out.append(" gauge");
    out.append("\n");
    let ghost head = out@;
    assert(head == family_text(family@) + "\n"@);
    let mut i: usize = 0;
    assert(out@ == head + family_lines(all, family@, 0));
    while i < samples.len()
        invariant
            i <= samples.len(),
            all == views(samples@),
            out@ == head + family_lines(all, family@, i as int),
        decreases samples.len() - i,
    {
        assert(all[i as int] == samples@[i as int]@);
        if samples[i].name == *family {
            let l = line(&samples[i]);
            out.append(l.as_str());
            assert(head + family_lines(all, family@, i as int) + l@ == head + (family_lines(
                all,
                family@,
                i as int,
            ) + l@));
        }
        i += 1;
    }
    out
}

impl Registry {
    /// Renders the registry in the text format of Prometheus.
    pub fn render(&self) -> (r: String)
        ensures
            r@ == exposition(self@),
    {
        let mut out = String::new();
        let mut n: usize = 0;
        assert(out@ == exposition_upto(self@, 0));
        while n < self.families.len()
            invariant
                n <= self.families.len(),
                out@ == exposition_upto(self@, n as int),
            decreases self.families.len() - n,
        {
            assert(self@.families[n as int] == self.families@[n as int]@);
            let b = block(&self.samples, &self.families[n]);
            out.append(b.as_str());
            n += 1;
        }
        out
    }
}

} // verus!
