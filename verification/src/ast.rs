//! The layered syntax tree of an STTP node: the source text and byte range of
//! each layer that was found.
use vstd::prelude::*;
use crate::lexicon::LayerKind;

verus! {

#[derive(Debug, Clone)]
pub struct AstLayer {
    pub kind: LayerKind,
    pub source: String,
    pub start: usize,
    pub end: usize,
}

#[derive(Debug, Clone)]
pub struct SttpAst {
    pub provenance: Option<AstLayer>,
    pub envelope: Option<AstLayer>,
    pub content: Option<AstLayer>,
    pub metrics: Option<AstLayer>,
    pub strict_spine: bool,
}

impl Default for SttpAst {
    fn default() -> (r: Self)
        ensures
            r.provenance is None,
            r.envelope is None,
            r.content is None,
            r.metrics is None,
            !r.strict_spine,
    {
        SttpAst { provenance: None, envelope: None, content: None, metrics: None, strict_spine: false }
    }
}

impl SttpAst {
    /// The same tree with its strict-spine flag set to `strict_spine`.
    pub fn with_strict_spine(self, strict_spine: bool) -> (r: Self)
        ensures
            r == (SttpAst { strict_spine, ..self }),
    {
        let mut s = self;
        s.strict_spine = strict_spine;
        s
    }
}

} // verus!
