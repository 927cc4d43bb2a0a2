//! Request vocabulary of the visual-intelligence boundary.
use vstd::prelude::*;

verus! {

/// The aspect of an artwork an insight is about.
#[derive(Debug, Clone, Copy, PartialEq, Eq, Structural)]
pub enum InsightKind {
    Perspective,
    Composition,
    Proportion,
    Anatomy,
    Value,
    Color,
    Edge,
    Material,
    Style,
    Context,
    Fashion,
    Learning,
}

/// What an analysis is asked to look at.
#[derive(Debug, Clone)]
pub struct AnalysisRequest {
    pub goal: String,
    pub enabled_kinds: Vec<InsightKind>,
}

/// The deterministic development engine of the analysis boundary.
#[derive(Debug, Default, Clone, Copy)]
pub struct MockVisualIntelligence;

} // verus!
