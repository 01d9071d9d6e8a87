//! The labels of a pair, and the two ways to derive them.

use vstd::prelude::*;
use vstd::string::StrSliceExecFns;
use vstd::string::StringExecFns;
use crate::model::{AssetPair, AssetPairView};
use crate::table::{lemma_position, position};
use crate::text::{chars_of, find_char};

verus! {

/// The three labels that every gauge of a pair carries.
#[derive(Clone, Debug)]
pub struct Labels {
    pub currency: String,
    pub reference_currency: String,
    pub pair: String,
}

/// What a `Labels` holds.
pub struct LabelsView {
    pub currency: Seq<char>,
    pub reference_currency: Seq<char>,
    pub pair: Seq<char>,
}

impl View for Labels {
    type V = LabelsView;

    open spec fn view(&self) -> LabelsView {
        LabelsView {
            currency: self.currency@,
            reference_currency: self.reference_currency@,
            pair: self.pair@,
        }
    }
}

impl LabelsView {
    /// No label is empty.
    pub open spec fn complete(self) -> bool {
        &&& self.currency.len() > 0
        &&& self.reference_currency.len() > 0
        &&& self.pair.len() > 0
    }
}

/// How the pairs to ask for are found, and how a pair's labels are derived.
#[derive(Clone, Copy, Debug, PartialEq, Eq, Structural)]
pub enum Strategy {
    /// Ask for every pair that `AssetPairs` lists; take the labels from the
    /// pair's currency codes.
    FromPairs,
    /// Ask for the pairs that the assets form with a fixed list of reference
    /// currencies; take the labels from the two halves of the pair's name.
    FromAssets,
}

/// The labels by the pair's codes: the base code as it is, the quote code
/// without its first character, which marks the class, and the pair's name.
pub open spec fn labels_from_codes(pair: AssetPairView) -> Option<LabelsView> {
    if pair.base.len() > 0 && pair.quote.len() > 1 && pair.wsname.len() > 0 {
        Some(
            LabelsView {
                currency: pair.base,
                reference_currency: pair.quote.skip(1),
                pair: pair.wsname,
            },
        )
    } else {
        None
    }
}

/// The labels by the pair's name: what stands before and behind its one `/`.
pub open spec fn labels_from_name(pair: AssetPairView) -> Option<LabelsView> {
    match position(pair.wsname, '/') {
        Some(k) => if 0 < k && k + 1 < pair.wsname.len() && position(
            pair.wsname.skip(k + 1),
            '/',
        ).is_none() {
            Some(
                LabelsView {
                    currency: pair.wsname.take(k),
                    reference_currency: pair.wsname.skip(k + 1),
                    pair: pair.wsname,
                },
            )
        } else {
            None
        },
        None => None,
    }
}

/// The labels of a pair, where it has all three.
pub open spec fn labels_of(strategy: Strategy, pair: AssetPairView) -> Option<LabelsView> {
    match strategy {
        Strategy::FromPairs => labels_from_codes(pair),
        Strategy::FromAssets => labels_from_name(pair),
    }
}

/// Labels that resolve are complete: none of the three is empty.
pub proof fn lemma_labels_complete(strategy: Strategy, pair: AssetPairView)
    ensures
        labels_of(strategy, pair) matches Some(labels) ==> labels.complete(),
{
    if strategy == Strategy::FromAssets {
        lemma_position(pair.wsname, '/');
    }
}

/// Derives the labels from the pair's codes.
fn resolve_from_codes(pair: &AssetPair) -> (r: Option<Labels>)
    ensures
        match r {
            Some(labels) => labels_from_codes(pair@) == Some(labels@),
            None => labels_from_codes(pair@).is_none(),
        },
{
    let quote_len = pair.quote.as_str().unicode_len();
    if pair.base.as_str().is_empty() || quote_len <= 1 || pair.wsname.as_str().is_empty() {
        return None;
    }
    let reference = pair.quote.as_str().substring_char(1, quote_len);
    assert(reference@ == pair.quote@.skip(1));
    Some(
        Labels {
            currency: pair.base.clone(),
            reference_currency: String::from_str(reference),
            pair: pair.wsname.clone(),
        },
    )
}

/// Derives the labels from the pair's name.
fn resolve_from_name(pair: &AssetPair) -> (r: Option<Labels>)
    ensures
        match r {
            Some(labels) => labels_from_name(pair@) == Some(labels@),
            None => labels_from_name(pair@).is_none(),
        },
{
    let name = pair.wsname.as_str();
    let chars = chars_of(name);
    assert(chars@.skip(0) == chars@);
    match find_char(&chars, 0, '/') {
        Some(k) => {
            if k == 0 || k + 1 >= chars.len() {
                return None;
            }
            if find_char(&chars, k + 1, '/').is_some() {
                return None;
            }
            let currency = name.substring_char(0, k);
            let reference = name.substring_char(k + 1, chars.len());
            assert(currency@ == pair.wsname@.take(k as int));
            assert(reference@ == pair.wsname@.skip(k + 1));
            Some(
                Labels {
                    currency: String::from_str(currency),
                    reference_currency: String::from_str(reference),
                    pair: pair.wsname.clone(),
                },
            )
        },
        None => None,
    }
}

/// Derives the labels of a pair. A pair for which a label would be empty, or
/// whose name is not of the shape `BASE/QUOTE`, has none.
pub fn resolve(strategy: Strategy, pair: &AssetPair) -> (r: Option<Labels>)
    ensures
        match r {
            Some(labels) => labels_of(strategy, pair@) == Some(labels@) && labels@.complete(),
            None => labels_of(strategy, pair@).is_none(),
        },
{
    proof {
        lemma_labels_complete(strategy, pair@);
    }
    match strategy {
        Strategy::FromPairs => resolve_from_codes(pair),
        Strategy::FromAssets => resolve_from_name(pair),
    }
}

} // verus!
