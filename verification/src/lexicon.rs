//! The structural vocabulary of STTP: the four layer markers, the layer stop
//! marker and the AVEC block keys.
use vstd::prelude::*;

verus! {

pub const PROVENANCE_MARKER: &'static str = "⊕⟨";
pub const ENVELOPE_MARKER: &'static str = "⦿⟨";
pub const CONTENT_MARKER: &'static str = "◈⟨";
pub const METRICS_MARKER: &'static str = "⍉⟨";
pub const LAYER_STOP_MARKER: &'static str = "⟩";

pub const AVEC_USER_KEY: &'static str = "user_avec";
pub const AVEC_MODEL_KEY: &'static str = "model_avec";
pub const AVEC_COMPRESSION_KEY: &'static str = "compression_avec";

/// The four layers of an STTP node, in spine order.
#[derive(Debug, Clone, Copy, PartialEq, Eq, Structural)]
pub enum LayerKind {
    Provenance,
    Envelope,
    Content,
    Metrics,
}

/// First character of a layer's opening marker.
pub open spec fn marker_head(kind: LayerKind) -> char {
    match kind {
        LayerKind::Provenance => '⊕',
        LayerKind::Envelope => '⦿',
        LayerKind::Content => '◈',
        LayerKind::Metrics => '⍉',
    }
}

/// The opening character shared by all layer markers.
pub open spec fn marker_open() -> char {
    '⟨'
}

/// The layer stop character.
pub open spec fn stop_char() -> char {
    '⟩'
}

/// The characters of a layer's opening marker.
pub open spec fn marker_chars(kind: LayerKind) -> Seq<char> {
    seq![marker_head(kind), marker_open()]
}

/// The characters of the layer stop marker.
pub open spec fn stop_marker() -> Seq<char> {
    seq![stop_char()]
}

/// The layers in spine order: provenance, envelope, content, metrics.
pub open spec fn layer_order() -> Seq<LayerKind> {
    seq![LayerKind::Provenance, LayerKind::Envelope, LayerKind::Content, LayerKind::Metrics]
}

impl LayerKind {
    /// The opening marker of this layer.
    pub fn marker(self) -> (r: &'static str)
        ensures
            r@ == marker_chars(self),
    {
        match self {
            LayerKind::Provenance => {
                proof {
                    reveal_strlit("⊕⟨");
                }
                "⊕⟨"
            },
            LayerKind::Envelope => {
                proof {
                    reveal_strlit("⦿⟨");
                }
                "⦿⟨"
            },
            LayerKind::Content => {
                proof {
                    reveal_strlit("◈⟨");
                }
                "◈⟨"
            },
            LayerKind::Metrics => {
                proof {
                    reveal_strlit("⍉⟨");
                }
                "⍉⟨"
            },
        }
    }
}

/// The opening marker of a layer, as characters.
pub fn marker_vec(kind: LayerKind) -> (r: Vec<char>)
    ensures
        r@ == marker_chars(kind),
{
    let head = match kind {
        LayerKind::Provenance => '⊕',
        LayerKind::Envelope => '⦿',
        LayerKind::Content => '◈',
        LayerKind::Metrics => '⍉',
    };
    let r = vec![head, '⟨'];
    assert(r@ =~= marker_chars(kind));
    r
}

/// The layer stop marker, as characters.
pub fn stop_marker_vec() -> (r: Vec<char>)
    ensures
        r@ == stop_marker(),
{
    let r = vec!['⟩'];
    assert(r@ =~= stop_marker());
    r
}

/// The layers in spine order.
pub fn layer_order_vec() -> (r: Vec<LayerKind>)
    ensures
        r@ == layer_order(),
{
    let r = vec![LayerKind::Provenance, LayerKind::Envelope, LayerKind::Content, LayerKind::Metrics];
    assert(r@ =~= layer_order());
    r
}

} // verus!
