//! The registry of gauges: for each time series its last value.

use vstd::prelude::*;
use vstd::std_specs::iter::IteratorSpec;
use vstd::string::StringExecFns;
use crate::discovery::holds;
use crate::gauges::{views, Sample, SampleView};
use crate::labels::{Labels, LabelsView};
use crate::table::{distinct, lemma_position, position, texts};
use crate::text::chars_of;

verus! {

impl SampleView {
    /// What tells one time series from another: the gauge and the labels.
    pub open spec fn key(self) -> (Seq<char>, LabelsView) {
        (self.name, self.labels)
    }
}

/// The keys of a sequence of samples.
pub open spec fn keys(samples: Seq<SampleView>) -> Seq<(Seq<char>, LabelsView)> {
    samples.map_values(|s: SampleView| s.key())
}

/// The families with `name` among them: behind the others where it is new.
pub open spec fn enrolled(families: Seq<Seq<char>>, name: Seq<char>) -> Seq<Seq<char>> {
    if position(families, name).is_some() {
        families
    } else {
        families.push(name)
    }
}

/// The samples with `sample` among them: in the place of the sample of the
/// same key, or behind the others where the key is new.
pub open spec fn stored(samples: Seq<SampleView>, sample: SampleView) -> Seq<SampleView> {
    match position(keys(samples), sample.key()) {
        Some(i) => samples.update(i, sample),
        None => samples.push(sample),
    }
}

/// What a registry holds.
pub struct RegistryView {
    /// The names of the gauge families, in the order of their registration.
    pub families: Seq<Seq<char>>,
    /// The current samples, in the order in which their keys first came.
    pub samples: Seq<SampleView>,
}

impl RegistryView {
    /// No family and no key occurs twice, and the family of every sample is
    /// registered.
    pub open spec fn wf(self) -> bool {
        &&& distinct(self.families)
        &&& distinct(keys(self.samples))
        &&& forall|i: int|
            0 <= i < self.samples.len() ==> position(
                self.families,
                (#[trigger] self.samples[i]).name,
            ).is_some()
    }

    /// The registry with the family `name` registered.
    pub open spec fn register(self, name: Seq<char>) -> RegistryView {
        RegistryView { families: enrolled(self.families, name), samples: self.samples }
    }

    /// The registry with `sample` set, and its family registered.
    pub open spec fn set(self, sample: SampleView) -> RegistryView {
        RegistryView {
            families: enrolled(self.families, sample.name),
            samples: stored(self.samples, sample),
        }
    }

    /// The registry after the samples of `list` were set one after another.
    pub open spec fn set_all(self, list: Seq<SampleView>) -> RegistryView
        decreases list.len(),
    {
        if list.len() == 0 {
            self
        } else {
            self.set_all(list.drop_last()).set(list.last())
        }
    }

    /// The value of the time series `key`, if the registry has it.
    pub open spec fn value(self, key: (Seq<char>, LabelsView)) -> Option<Seq<char>> {
        match position(keys(self.samples), key) {
            Some(i) => Some(self.samples[i].value),
            None => None,
        }
    }
}

/// The last sample of `list` with the key `key`, if there is one.
pub open spec fn last_with(list: Seq<SampleView>, key: (Seq<char>, LabelsView)) -> Option<
    SampleView,
>
    decreases list.len(),
{
    if list.len() == 0 {
        None
    } else if list.last().key() == key {
        Some(list.last())
    } else {
        last_with(list.drop_last(), key)
    }
}

/// The samples after those of `list` were stored one after another.
pub open spec fn stored_all(samples: Seq<SampleView>, list: Seq<SampleView>) -> Seq<SampleView>
    decreases list.len(),
{
    if list.len() == 0 {
        samples
    } else {
        stored(stored_all(samples, list.drop_last()), list.last())
    }
}

/// The families after those of `list` were enrolled one after another.
pub open spec fn enrolled_all(families: Seq<Seq<char>>, list: Seq<SampleView>) -> Seq<Seq<char>>
    decreases list.len(),
{
    if list.len() == 0 {
        families
    } else {
        enrolled(enrolled_all(families, list.drop_last()), list.last().name)
    }
}

/// Setting samples one after another stores the samples and enrolls their
/// families.
pub proof fn lemma_set_all_parts(registry: RegistryView, list: Seq<SampleView>)
    ensures
        registry.set_all(list).samples == stored_all(registry.samples, list),
        registry.set_all(list).families == enrolled_all(registry.families, list),
    decreases list.len(),
{
    if list.len() > 0 {
        lemma_set_all_parts(registry, list.drop_last());
    }
}

/// What holds of all samples that were there and of all samples of the
/// list holds of all samples after the list was stored.
pub proof fn lemma_stored_all_keeps(
    samples: Seq<SampleView>,
    list: Seq<SampleView>,
    holds: spec_fn(SampleView) -> bool,
)
    requires
        forall|i: int| 0 <= i < samples.len() ==> holds(#[trigger] samples[i]),
        forall|j: int| 0 <= j < list.len() ==> holds(#[trigger] list[j]),
    ensures
        forall|i: int|
            0 <= i < stored_all(samples, list).len() ==> holds(
                #[trigger] stored_all(samples, list)[i],
            ),
    decreases list.len(),
{
    if list.len() > 0 {
        let front = list.drop_last();
        let x = list.last();
        assert forall|j: int| 0 <= j < front.len() implies holds(#[trigger] front[j]) by {
            assert(front[j] == list[j]);
        }
        lemma_stored_all_keeps(samples, front, holds);
        let before = stored_all(samples, front);
        let after = stored_all(samples, list);
        lemma_position(keys(before), x.key());
        assert(holds(list[list.len() - 1]));
        assert forall|i: int| 0 <= i < after.len() implies holds(#[trigger] after[i]) by {
            if i < before.len() && after[i] != x {
                assert(after[i] == before[i]);
            }
        }
    }
}

/// What holds of all families that were there and of the families of all
/// samples of the list holds of all families after the list was enrolled.
pub proof fn lemma_enrolled_all_keeps(
    families: Seq<Seq<char>>,
    list: Seq<SampleView>,
    holds: spec_fn(Seq<char>) -> bool,
)
    requires
        forall|i: int| 0 <= i < families.len() ==> holds(#[trigger] families[i]),
        forall|j: int| 0 <= j < list.len() ==> holds((#[trigger] list[j]).name),
    ensures
        forall|i: int|
            0 <= i < enrolled_all(families, list).len() ==> holds(
                #[trigger] enrolled_all(families, list)[i],
            ),
    decreases list.len(),
{
    if list.len() > 0 {
        let front = list.drop_last();
        let x = list.last();
        assert forall|j: int| 0 <= j < front.len() implies holds((#[trigger] front[j]).name) by {
            assert(front[j] == list[j]);
        }
        lemma_enrolled_all_keeps(families, front, holds);
        let before = enrolled_all(families, front);
        let after = enrolled_all(families, list);
        assert(holds(list[list.len() - 1].name));
        assert forall|i: int| 0 <= i < after.len() implies holds(#[trigger] after[i]) by {
            if i < before.len() {
                assert(after[i] == before[i]);
            }
        }
    }
}

/// What the samples are after a list was stored: the keys that were there
/// are where they were; new keys stand behind them, each once; and every
/// time series has the value that the list gave it last, or else the value
/// that it had.
pub proof fn lemma_stored_all(samples: Seq<SampleView>, list: Seq<SampleView>)
    requires
        distinct(keys(samples)),
    ensures
        distinct(keys(stored_all(samples, list))),
        stored_all(samples, list).len() >= samples.len(),
        forall|i: int|
            0 <= i < samples.len() ==> (#[trigger] stored_all(samples, list)[i]).key()
                == samples[i].key(),
        forall|i: int|
            0 <= i < stored_all(samples, list).len() ==> #[trigger] stored_all(samples, list)[i]
                == match last_with(list, stored_all(samples, list)[i].key()) {
                Some(x) => x,
                None => samples[i],
            },
        forall|i: int|
            samples.len() <= i < stored_all(samples, list).len() ==> last_with(
                list,
                (#[trigger] stored_all(samples, list)[i]).key(),
            ).is_some(),
        forall|j: int|
            0 <= j < list.len() ==> position(
                keys(stored_all(samples, list)),
                (#[trigger] list[j]).key(),
            ).is_some(),
        (forall|j: int|
            0 <= j < list.len() ==> position(keys(samples), (#[trigger] list[j]).key()).is_some())
            ==> stored_all(samples, list).len() == samples.len(),
    decreases list.len(),
{
    let g = stored_all(samples, list);
    if list.len() > 0 {
        let front = list.drop_last();
        let x = list.last();
        let before = stored_all(samples, front);
        lemma_stored_all(samples, front);
        lemma_position(keys(before), x.key());
        assert forall|i: int| 0 <= i < g.len() implies #[trigger] g[i] == match last_with(
            list,
            g[i].key(),
        ) {
            Some(y) => y,
            None => samples[i],
        } && (samples.len() <= i ==> last_with(list, g[i].key()).is_some()) && (i
            < samples.len() ==> g[i].key() == samples[i].key()) by {
            match position(keys(before), x.key()) {
                Some(k) => {
                    assert(keys(before)[k] == before[k].key());
                    if i != k {
                        assert(keys(before)[i] == before[i].key());
                        assert(g[i] == before[i]);
                        assert(before[i].key() != x.key());
                    }
                },
                None => {
                    if i < before.len() {
                        assert(keys(before)[i] == before[i].key());
                        assert(g[i] == before[i]);
                    }
                },
            }
        }
        assert(distinct(keys(g))) by {
            assert forall|i: int, j: int| 0 <= i < j < keys(g).len() implies keys(g)[i] != keys(
                g,
            )[j] by {
                match position(keys(before), x.key()) {
                    Some(k) => {
                        assert(keys(before)[k] == before[k].key());
                        assert(keys(g) == keys(before));
                    },
                    None => {
                        assert(keys(g) == keys(before).push(x.key()));
                        if j < before.len() {
                            assert(keys(g)[i] == keys(before)[i]);
                            assert(keys(g)[j] == keys(before)[j]);
                        } else {
                            assert(keys(g)[i] == keys(before)[i]);
                        }
                    },
                }
            }
        }
        assert forall|j: int| 0 <= j < list.len() implies position(
            keys(g),
            (#[trigger] list[j]).key(),
        ).is_some() by {
            lemma_position(keys(g), list[j].key());
            if j < front.len() {
                assert(front[j] == list[j]);
                lemma_position(keys(before), list[j].key());
                let k = position(keys(before), list[j].key())->0;
                assert(keys(before)[k] == before[k].key());
                assert(keys(g)[k] == g[k].key());
                match position(keys(before), x.key()) {
                    Some(m) => {
                        assert(keys(before)[m] == before[m].key());
                    },
                    None => {},
                }
                assert(keys(g)[k] == list[j].key());
            } else {
                match position(keys(before), x.key()) {
                    Some(m) => {
                        assert(keys(g)[m] == g[m].key());
                    },
                    None => {
                        assert(keys(g)[g.len() - 1] == g[g.len() - 1].key());
                    },
                }
            }
        }
        if forall|j: int|
            0 <= j < list.len() ==> position(keys(samples), (#[trigger] list[j]).key()).is_some() {
            assert forall|j: int| 0 <= j < front.len() implies position(
                keys(samples),
                (#[trigger] front[j]).key(),
            ).is_some() by {
                assert(front[j] == list[j]);
            }
            assert(before.len() == samples.len());
            assert(list[list.len() - 1] == x);
            lemma_position(keys(samples), x.key());
            let m = position(keys(samples), x.key())->0;
            assert(keys(samples)[m] == samples[m].key());
            assert(keys(before)[m] == before[m].key());
        }
    }
}

/// Storing the same samples a second time changes nothing.
pub proof fn lemma_stored_all_twice(samples: Seq<SampleView>, list: Seq<SampleView>)
    requires
        distinct(keys(samples)),
    ensures
        stored_all(stored_all(samples, list), list) == stored_all(samples, list),
{
    let g = stored_all(samples, list);
    let h = stored_all(g, list);
    lemma_stored_all(samples, list);
    lemma_stored_all(g, list);
    assert(h.len() == g.len());
    assert forall|i: int| 0 <= i < g.len() implies h[i] == g[i] by {
        assert(h[i].key() == g[i].key());
    }
    assert(h == g);
}

/// What the families are after a list was enrolled: those that were there
/// are where they were, none occurs twice, and every family of the list is
/// among them.
pub proof fn lemma_enrolled_all(families: Seq<Seq<char>>, list: Seq<SampleView>)
    requires
        distinct(families),
    ensures
        distinct(enrolled_all(families, list)),
        enrolled_all(families, list).len() >= families.len(),
        forall|i: int|
            0 <= i < families.len() ==> #[trigger] enrolled_all(families, list)[i] == families[i],
        forall|j: int|
            0 <= j < list.len() ==> position(
                enrolled_all(families, list),
                (#[trigger] list[j]).name,
            ).is_some(),
        (forall|j: int|
            0 <= j < list.len() ==> position(families, (#[trigger] list[j]).name).is_some())
            ==> enrolled_all(families, list) == families,
    decreases list.len(),
{
    let g = enrolled_all(families, list);
    if list.len() > 0 {
        let front = list.drop_last();
        let x = list.last();
        let before = enrolled_all(families, front);
        lemma_enrolled_all(families, front);
        lemma_position(before, x.name);
        assert forall|j: int| 0 <= j < list.len() implies position(
            g,
            (#[trigger] list[j]).name,
        ).is_some() by {
            lemma_position(g, list[j].name);
            if j < front.len() {
                assert(front[j] == list[j]);
                lemma_position(before, list[j].name);
                let k = position(before, list[j].name)->0;
                assert(g[k] == before[k]);
            } else {
                match position(before, x.name) {
                    Some(m) => {
                        assert(g[m] == x.name);
                    },
                    None => {
                        assert(g[g.len() - 1] == x.name);
                    },
                }
            }
        }
        if forall|j: int|
            0 <= j < list.len() ==> position(families, (#[trigger] list[j]).name).is_some() {
            assert forall|j: int| 0 <= j < front.len() implies position(
                families,
                (#[trigger] front[j]).name,
            ).is_some() by {
                assert(front[j] == list[j]);
            }
            assert(list[list.len() - 1] == x);
        }
    }
}

/// Enrolling the families of the same samples a second time changes
/// nothing.
pub proof fn lemma_enrolled_all_twice(families: Seq<Seq<char>>, list: Seq<SampleView>)
    requires
        distinct(families),
    ensures
        enrolled_all(enrolled_all(families, list), list) == enrolled_all(families, list),
{
    lemma_enrolled_all(families, list);
    lemma_enrolled_all(enrolled_all(families, list), list);
}

/// Setting the same samples a second time leaves the registry as the first
/// time left it.
pub proof fn lemma_set_all_twice(registry: RegistryView, list: Seq<SampleView>)
    requires
        registry.wf(),
    ensures
        registry.set_all(list).set_all(list) == registry.set_all(list),
{
    let once = registry.set_all(list);
    lemma_set_all_parts(registry, list);
    lemma_set_all_parts(once, list);
    lemma_stored_all_twice(registry.samples, list);
    lemma_enrolled_all_twice(registry.families, list);
}

/// A registry stays well formed when a sample is set.
pub proof fn lemma_set_wf(registry: RegistryView, sample: SampleView)
    requires
        registry.wf(),
    ensures
        registry.set(sample).wf(),
{
    let after = registry.set(sample);
    let list = seq![sample];
    assert(list.drop_last() == Seq::<SampleView>::empty());
    assert(list.last() == sample);
    assert(stored_all(registry.samples, list.drop_last()) == registry.samples);
    assert(enrolled_all(registry.families, list.drop_last()) == registry.families);
    assert(stored_all(registry.samples, list) == after.samples);
    assert(enrolled_all(registry.families, list) == after.families);
    lemma_stored_all(registry.samples, list);
    lemma_enrolled_all(registry.families, list);
    assert forall|i: int| 0 <= i < after.samples.len() implies position(
        after.families,
        (#[trigger] after.samples[i]).name,
    ).is_some() by {
        lemma_position(after.families, after.samples[i].name);
        assert(last_with(list.drop_last(), after.samples[i].key()).is_none());
        if last_with(list, after.samples[i].key()).is_some() {
            assert(after.samples[i] == sample);
            assert(list[0] == sample);
            lemma_position(after.families, sample.name);
        } else {
            assert(after.samples[i] == registry.samples[i]);
            lemma_position(registry.families, registry.samples[i].name);
            let k = position(registry.families, registry.samples[i].name)->0;
            assert(after.families[k] == registry.families[k]);
        }
    }
}

/// A registry stays well formed when samples are set.
pub proof fn lemma_set_all_wf(registry: RegistryView, list: Seq<SampleView>)
    requires
        registry.wf(),
    ensures
        registry.set_all(list).wf(),
    decreases list.len(),
{
    if list.len() > 0 {
        lemma_set_all_wf(registry, list.drop_last());
        lemma_set_wf(registry.set_all(list.drop_last()), list.last());
    }
}

/// A registry stays well formed when a family is registered.
pub proof fn lemma_register_wf(registry: RegistryView, name: Seq<char>)
    requires
        registry.wf(),
    ensures
        registry.register(name).wf(),
{
    let after = registry.register(name);
    lemma_position(registry.families, name);
    assert forall|i: int| 0 <= i < after.samples.len() implies position(
        after.families,
        (#[trigger] after.samples[i]).name,
    ).is_some() by {
        lemma_position(after.families, after.samples[i].name);
        lemma_position(registry.families, registry.samples[i].name);
        let k = position(registry.families, registry.samples[i].name)->0;
        assert(after.families[k] == registry.families[k]);
    }
}

/// Registering a family a second time changes nothing.
pub proof fn lemma_register_twice(registry: RegistryView, name: Seq<char>)
    ensures
        registry.register(name).register(name) == registry.register(name),
{
    let once = registry.register(name);
    lemma_position(registry.families, name);
    lemma_position(once.families, name);
    if position(registry.families, name).is_none() {
        assert(once.families[once.families.len() - 1] == name);
    }
}

/// The gauges of the process: for each time series its last value.
#[derive(Clone, Debug)]
pub struct Registry {
    pub(crate) families: Vec<String>,
    pub(crate) samples: Vec<Sample>,
}

impl View for Registry {
    type V = RegistryView;

    open(crate) spec fn view(&self) -> RegistryView {
        RegistryView { families: texts(self.families@), samples: views(self.samples@) }
    }
}

/// Whether two samples belong to the same time series.
fn same_series(a: &Sample, b: &Sample) -> (r: bool)
    ensures
        r == (a@.key() == b@.key()),
{
    a.name == b.name && a.labels.currency == b.labels.currency && a.labels.reference_currency
        == b.labels.reference_currency && a.labels.pair == b.labels.pair
}

impl Registry {
    /// A registry without families and samples.
    pub fn new() -> (r: Registry)
        ensures
            r@.families == Seq::<Seq<char>>::empty(),
            r@.samples == Seq::<SampleView>::empty(),
            r@.wf(),
    {
        let r = Registry { families: Vec::new(), samples: Vec::new() };
        assert(r@.families == Seq::<Seq<char>>::empty());
        assert(r@.samples == Seq::<SampleView>::empty());
        r
    }

    /// Registers the gauge family `name`. Registering it again changes
    /// nothing.
    pub fn register(&mut self, name: &str)
        ensures
            final(self)@ == old(self)@.register(name@),
            old(self)@.wf() ==> final(self)@.wf(),
    {
        proof {
            if self@.wf() {
                lemma_register_wf(self@, name@);
            }
        }
        let name = String::from_str(name);
        if !holds(&self.families, &name) {
            self.families.push(name);
            assert(texts(self.families@) == texts(old(self).families@).push(name@));
        }
    }

    /// The place of the time series of `sample`, if the registry has it.
    fn find(&self, sample: &Sample) -> (r: Option<usize>)
        ensures
            match r {
                Some(i) => position(keys(self@.samples), sample@.key()) == Some(i as int) && i
                    < self.samples.len(),
                None => position(keys(self@.samples), sample@.key()).is_none(),
            },
    {
        let ghost all = keys(self@.samples);
        let mut i: usize = 0;
        while i < self.samples.len()
            invariant
                i <= self.samples.len(),
                all == keys(self@.samples),
                forall|j: int| 0 <= j < i ==> all[j] != sample@.key(),
            decreases self.samples.len() - i,
        {
            if same_series(&self.samples[i], sample) {
                proof {
                    assert(all[i as int] == sample@.key());
                    lemma_position(all, sample@.key());
                }
                return Some(i);
            }
            assert(all[i as int] != sample@.key());
            i += 1;
        }
        proof {
            lemma_position(all, sample@.key());
        }
        None
    }

    /// Sets the value of a time series; the last writer wins. The family of
    /// the sample is registered if it was not.
    pub fn set(&mut self, sample: Sample)
        ensures
            final(self)@ == old(self)@.set(sample@),
            old(self)@.wf() ==> final(self)@.wf(),
    {
        proof {
            if self@.wf() {
                lemma_set_wf(self@, sample@);
            }
        }
        if !holds(&self.families, &sample.name) {
            self.families.push(sample.name.clone());
            assert(texts(self.families@) == texts(old(self).families@).push(sample.name@));
        }
        match self.find(&sample) {
            Some(i) => {
                self.samples.set(i, sample);
                assert(views(self.samples@) == views(old(self).samples@).update(
                    i as int,
                    sample@,
                ));
            },
            None => {
                self.samples.push(sample);
                assert(views(self.samples@) == views(old(self).samples@).push(sample@));
            },
        }
    }

    /// Sets the samples of `list`, one after another.
    pub fn set_all(&mut self, list: Vec<Sample>)
        ensures
            final(self)@ == old(self)@.set_all(views(list@)),
            old(self)@.wf() ==> final(self)@.wf(),
    {
        proof {
            if self@.wf() {
                lemma_set_all_wf(self@, views(list@));
            }
        }
        let ghost all = views(list@);
        for sample in iter: list
            invariant
                all == views(iter.seq()),
                self@ == old(self)@.set_all(all.take(iter.index() as int)),
        {
            assert(all.take(iter.index() + 1).drop_last() == all.take(iter.index() as int));
            self.set(sample);
        }
        assert(all.take(all.len() as int) == all);
    }

    /// The current value of the gauge `name` with the labels `labels`.
    pub fn value(&self, name: &str, labels: &Labels) -> (r: Option<String>)
        ensures
            match r {
                Some(v) => self@.value((name@, labels@)) == Some(v@),
                None => self@.value((name@, labels@)).is_none(),
            },
    {
        let probe = Sample {
            name: String::from_str(name),
            labels: labels.duplicate(),
            value: String::new(),
        };
        match self.find(&probe) {
            Some(i) => Some(self.samples[i].value.clone()),
            None => None,
        }
    }

    /// How many time series the registry has.
    pub fn len(&self) -> (n: usize)
        ensures
            n == self@.samples.len(),
    {
        self.samples.len()
    }
}

} // verus!
