//! Preview features: parts of the language that a file uses only once they
//! are enabled.

use crate::diagnostic::{fresh, Diagnostic, Level};
use crate::source::Span;
use vstd::prelude::*;
use vstd::string::StringExecFns;

verus! {

/// A part of the language that must be enabled before it is used.
#[derive(Clone, Copy, Debug, PartialEq, Eq, Structural)]
pub enum Feature {
    LogicalData,
    HeapViews,
    LogicalSplit,
    NamedProps,
}

impl Feature {
    /// The name a feature is enabled by.
    pub open spec fn spelled(self) -> &'static str {
        match self {
            Feature::LogicalData => "logical_data",
            Feature::HeapViews => "heap_views",
            Feature::LogicalSplit => "logical_split",
            Feature::NamedProps => "named_props",
        }
    }

    pub fn name(self) -> (result: &'static str)
        ensures
            result == self.spelled(),
    {
        match self {
            Feature::LogicalData => "logical_data",
            Feature::HeapViews => "heap_views",
            Feature::LogicalSplit => "logical_split",
            Feature::NamedProps => "named_props",
        }
    }
}

/// The preview features enabled for a compilation.
pub struct Previews {
    pub enabled: Vec<Feature>,
}

impl Previews {
    /// None enabled.
    pub fn new() -> (result: Previews)
        ensures
            result.enabled@.len() == 0,
    {
        Previews { enabled: Vec::new() }
    }

    /// Enables a feature.
    pub fn enable(&mut self, feature: Feature)
        ensures
            forall|other: Feature| final(self).enabled@.contains(other) <==> (old(self).enabled@.contains(other)
                || other == feature),
    {
        let ghost before = self.enabled@;
        if !self.contains(feature) {
            self.enabled.push(feature);
            assert(self.enabled@[self.enabled@.len() - 1] == feature);
        }
        assert forall|other: Feature| self.enabled@.contains(other) <==> (before.contains(other) || other == feature) by {
            if before.contains(other) {
                let i = choose|i: int| 0 <= i < before.len() && before[i] == other;
                assert(self.enabled@[i] == other);
            }
            if self.enabled@.contains(other) && other != feature {
                let i = choose|i: int| 0 <= i < self.enabled@.len() && self.enabled@[i] == other;
                assert(before[i] == other);
            }
        }
    }

    /// Whether a feature is enabled.
    pub fn contains(&self, feature: Feature) -> (result: bool)
        ensures
            result == self.enabled@.contains(feature),
    {
        let mut index: usize = 0;
        while index < self.enabled.len()
            invariant
                index <= self.enabled@.len(),
                forall|j: int| 0 <= j < index ==> self.enabled@[j] != feature,
            decreases self.enabled.len() - index,
        {
            if self.enabled[index] == feature {
                assert(self.enabled@[index as int] == feature);
                return true;
            }
            index += 1;
        }
        false
    }

    /// Nothing when the feature is enabled; otherwise the error that `what`
    /// at `span` needs it.
    pub fn require(&self, feature: Feature, what: &str, span: Span) -> (result: Result<(), Diagnostic>)
        ensures
            match result {
                Ok(()) => self.enabled@.contains(feature),
                Err(diagnostic) => !self.enabled@.contains(feature) && diagnostic.level == Level::Error
                    && diagnostic.code == "L0280" && diagnostic.labels@.len() == 1 && diagnostic.labels@[0].span
                    == span,
            },
    {
        if self.contains(feature) {
            return Ok(());
        }
        let mut message = String::from_str(what);
        message.append(" needs the preview feature `");
        message.append(feature.name());
        message.append("`");
        Err(Diagnostic::error("L0280", message, span))
    }
}

} // verus!
