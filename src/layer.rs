use vstd::prelude::*;

use crate::token::{opt_view, FeatureError};

verus! {

/// Tagging layer: which annotation slot of a token is read or written.
#[derive(Clone, Debug)]
pub enum Layer {
    UPos,
    XPos,
    /// A specific morphological feature, with a value used when it is absent.
    Feature { feature: String, default: Option<String> },
    /// All morphological features represented as one string.
    FeatureString,
    /// A miscellaneous feature, with a value used when it is absent.
    Misc { feature: String, default: Option<String> },
}

impl Layer {
    /// Construct a feature layer.
    pub fn feature(feature: String, default: Option<String>) -> (r: Self)
        ensures
            r == (Layer::Feature { feature, default }),
    {
        Layer::Feature { feature, default }
    }

    /// Construct a miscellaneous feature layer.
    pub fn misc(feature: String, default: Option<String>) -> (r: Self)
        ensures
            r == (Layer::Misc { feature, default }),
    {
        Layer::Misc { feature, default }
    }
}

/// Layers are equal where they name the same slot with the same default.
pub open spec fn layer_eq(a: Layer, b: Layer) -> bool {
    match (a, b) {
        (Layer::UPos, Layer::UPos) => true,
        (Layer::XPos, Layer::XPos) => true,
        (Layer::FeatureString, Layer::FeatureString) => true,
        (Layer::Feature { feature: f, default: d }, Layer::Feature { feature: g, default: e }) => f@
            == g@ && opt_view(d) == opt_view(e),
        (Layer::Misc { feature: f, default: d }, Layer::Misc { feature: g, default: e }) => f@
            == g@ && opt_view(d) == opt_view(e),
        _ => false,
    }
}

fn opt_string_eq(a: &Option<String>, b: &Option<String>) -> (r: bool)
    ensures
        r == (opt_view(*a) == opt_view(*b)),
{
    match (a, b) {
        (Some(x), Some(y)) => *x == *y,
        (None, None) => true,
        _ => false,
    }
}

impl PartialEq for Layer {
    fn eq(&self, o: &Layer) -> (r: bool) {
        match (self, o) {
            (Layer::UPos, Layer::UPos) => true,
            (Layer::XPos, Layer::XPos) => true,
            (Layer::FeatureString, Layer::FeatureString) => true,
            (Layer::Feature { feature: f, default: d }, Layer::Feature { feature: g, default: e }) =>
                *f == *g && opt_string_eq(d, e),
            (Layer::Misc { feature: f, default: d }, Layer::Misc { feature: g, default: e }) => *f
                == *g && opt_string_eq(d, e),
            _ => false,
        }
    }
}

impl vstd::std_specs::cmp::PartialEqSpecImpl for Layer {
    open spec fn obeys_eq_spec() -> bool {
        true
    }

    open spec fn eq_spec(&self, o: &Layer) -> bool {
        layer_eq(*self, *o)
    }
}

impl Eq for Layer {

}

/// Layers `a` and `b` name the same slot, whatever their defaults.
pub open spec fn same_slot(a: Layer, b: Layer) -> bool {
    match (a, b) {
        (Layer::UPos, Layer::UPos) => true,
        (Layer::XPos, Layer::XPos) => true,
        (Layer::FeatureString, Layer::FeatureString) => true,
        (Layer::Feature { feature: f, .. }, Layer::Feature { feature: g, .. }) => f@ == g@,
        (Layer::Misc { feature: f, .. }, Layer::Misc { feature: g, .. }) => f@ == g@,
        _ => false,
    }
}

/// Writing to layer `a` can change what layer `b` reads: they name the same slot,
/// or one is a feature and the other the whole feature string.
pub open spec fn touches(a: Layer, b: Layer) -> bool {
    same_slot(a, b) || (a is Feature && b is FeatureString) || (a is FeatureString && b is Feature)
}

/// Layer values of a sentence: node 0 is the root, nodes `1..len()` are tokens.
pub trait LayerValue: Sized {
    /// The sentence is well formed.
    spec fn inv(&self) -> bool;

    /// The number of nodes, the root included.
    spec fn spec_len(&self) -> nat;

    /// The form of token `idx`.
    spec fn spec_form(&self, idx: int) -> Seq<char>;

    /// What `layer` reads at token `idx`.
    spec fn spec_value(&self, idx: int, layer: Layer) -> Option<Seq<char>>;

    /// What the feature-string layer reads after `value` was written to it, or
    /// `None` where `value` is not the text of a feature map.
    spec fn spec_feature_string(value: Seq<char>) -> Option<Seq<char>>;

    /// What a node holds.
    type Node;

    /// The node at `idx`.
    spec fn spec_node(&self, idx: int) -> Self::Node;

    /// Node `after` is node `before` with `value` written to the slot that `layer`
    /// names, every other slot kept.
    spec fn spec_written(before: Self::Node, after: Self::Node, layer: Layer, value: Seq<char>) -> bool;

    /// Get the form.
    fn form(&self, idx: usize) -> (r: &str)
        requires
            self.inv(),
            1 <= idx < self.spec_len(),
        ensures
            r@ == self.spec_form(idx as int),
    ;

    /// The number of nodes, the root included.
    fn len(&self) -> (r: usize)
        requires
            self.inv(),
        ensures
            r == self.spec_len(),
            r >= 1,
    ;

    /// Set a layer value.
    fn set_value(&mut self, idx: usize, layer: &Layer, value: &str) -> (r: Result<(), FeatureError>)
        requires
            old(self).inv(),
            1 <= idx < old(self).spec_len(),
        ensures
            final(self).inv(),
            r is Ok <==> (*layer is FeatureString ==> Self::spec_feature_string(value@) is Some),
            final(self).spec_len() == old(self).spec_len(),
            forall|j: int| #[trigger] final(self).spec_form(j) == old(self).spec_form(j),
            forall|j: int, l: Layer|
                (j != idx || r is Err) ==> #[trigger] final(self).spec_value(j, l) == old(self).spec_value(j, l),
            forall|j: int|
                (j != idx || r is Err) ==> #[trigger] final(self).spec_node(j) == old(self).spec_node(j),
            r is Ok ==> Self::spec_written(
                old(self).spec_node(idx as int),
                final(self).spec_node(idx as int),
                *layer,
                value@,
            ),
            r is Ok ==> forall|l: Layer|
                same_slot(*layer, l) ==> #[trigger] final(self).spec_value(idx as int, l) == match *layer {
                    Layer::FeatureString => Self::spec_feature_string(value@),
                    _ => Some(value@),
                },
            r is Ok ==> forall|l: Layer|
                !touches(*layer, l) ==> #[trigger] final(self).spec_value(idx as int, l) == old(self).spec_value(
                    idx as int,
                    l,
                ),
    ;

    /// Get a layer value.
    fn value(&self, idx: usize, layer: &Layer) -> (r: Option<String>)
        requires
            self.inv(),
            1 <= idx < self.spec_len(),
        ensures
            opt_view(r) == self.spec_value(idx as int, *layer),
    ;
}

/// Whether `value` can be written to `layer`: always, but for a feature string
/// that is not the text of a feature map.
pub open spec fn writable<L: LayerValue>(layer: Layer, value: Seq<char>) -> bool {
    layer is FeatureString ==> L::spec_feature_string(value) is Some
}

/// What `layer` reads after `value` was written to it.
pub open spec fn read_back<L: LayerValue>(layer: Layer, value: Seq<char>) -> Option<Seq<char>> {
    match layer {
        Layer::FeatureString => L::spec_feature_string(value),
        _ => Some(value),
    }
}

/// Encoding failed.
#[derive(Debug)]
pub enum EncodeError {
    /// A token has no value in the layer; it is named by its form.
    MissingLabel { form: String },
}

/// Every token of `sentence` has a value in `layer`.
pub open spec fn all_labeled<L: LayerValue>(sentence: L, layer: Layer) -> bool {
    forall|j: int| 1 <= j < sentence.spec_len() ==> (#[trigger] sentence.spec_value(j, layer)) is Some
}

/// The top-ranked candidate of each position, if it has any.
pub open spec fn top_candidates(labels: Seq<Vec<String>>) -> Seq<Option<Seq<char>>> {
    labels.map_values(|c: Vec<String>| if c.len() > 0 { Some(c[0]@) } else { None })
}

/// Every top-ranked candidate can be written to `layer`.
pub open spec fn all_writable<L: LayerValue>(top: Seq<Option<Seq<char>>>, layer: Layer) -> bool {
    forall|i: int| 0 <= i < top.len() && (#[trigger] top[i]) is Some ==> writable::<L>(layer, top[i]->0)
}

/// `after` is `before` with the first `n` of the candidates `top` written to
/// `layer`: a position with a candidate reads it back, one without is untouched.
pub open spec fn decoded_upto<L: LayerValue>(
    before: L,
    after: L,
    top: Seq<Option<Seq<char>>>,
    layer: Layer,
    n: int,
) -> bool {
    &&& after.spec_len() == before.spec_len()
    &&& forall|j: int| #[trigger] after.spec_form(j) == before.spec_form(j)
    &&& forall|i: int|
        0 <= i < n && (#[trigger] top[i]) is Some ==> after.spec_value(i + 1, layer) == read_back::<L>(
            layer,
            top[i]->0,
        )
    &&& forall|i: int, l: Layer|
        0 <= i < n && top[i] is None ==> #[trigger] after.spec_value(i + 1, l) == before.spec_value(
            i + 1,
            l,
        )
    &&& forall|i: int|
        0 <= i < n && (#[trigger] top[i]) is Some ==> L::spec_written(
            before.spec_node(i + 1),
            after.spec_node(i + 1),
            layer,
            top[i]->0,
        )
    &&& forall|i: int|
        0 <= i < n && top[i] is None ==> #[trigger] after.spec_node(i + 1) == before.spec_node(i + 1)
}

/// Decoding stopped at position `i0`, whose candidate `layer` cannot take: the
/// positions before it are decoded, the nodes from it on are as they were.
pub open spec fn failed_at<L: LayerValue>(
    before: L,
    after: L,
    top: Seq<Option<Seq<char>>>,
    layer: Layer,
    i0: int,
) -> bool {
    &&& 0 <= i0 < top.len()
    &&& top[i0] is Some
    &&& !writable::<L>(layer, top[i0]->0)
    &&& decoded_upto(before, after, top, layer, i0)
    &&& untouched_beyond(before, after, i0)
}

/// Every node outside `1..=n` holds and reads as before.
pub open spec fn untouched_beyond<L: LayerValue>(before: L, after: L, n: int) -> bool {
    &&& forall|j: int| (j < 1 || j > n) ==> #[trigger] after.spec_node(j) == before.spec_node(j)
    &&& forall|j: int, l: Layer|
        (j < 1 || j > n) ==> #[trigger] after.spec_value(j, l) == before.spec_value(j, l)
}

/// Encode sentences using a layer.
#[derive(Clone, Debug)]
pub struct LayerEncoder {
    layer: Layer,
}

impl PartialEq for LayerEncoder {
    fn eq(&self, o: &LayerEncoder) -> (r: bool) {
        self.layer == o.layer
    }
}

impl vstd::std_specs::cmp::PartialEqSpecImpl for LayerEncoder {
    open spec fn obeys_eq_spec() -> bool {
        true
    }

    open spec fn eq_spec(&self, o: &LayerEncoder) -> bool {
        layer_eq(self.spec_layer(), o.spec_layer())
    }
}

impl Eq for LayerEncoder {

}

impl LayerEncoder {
    /// The layer that is encoded.
    pub closed spec fn spec_layer(&self) -> Layer {
        self.layer
    }

    /// Construct a new layer encoder of the given layer.
    pub fn new(layer: Layer) -> (r: Self)
        ensures
            r.spec_layer() == layer,
    {
        LayerEncoder { layer }
    }

    /// The layer that is encoded.
    pub fn layer(&self) -> (r: &Layer)
        ensures
            *r == self.spec_layer(),
    {
        &self.layer
    }

    /// One label per token, in order: the value that the layer reads there. Fails
    /// at the first token without one, naming its form.
    pub fn encode<L: LayerValue>(&self, sentence: &L) -> (r: Result<Vec<String>, EncodeError>)
        requires
            sentence.inv(),
        ensures
            r is Ok <==> all_labeled(*sentence, self.spec_layer()),
            r matches Ok(labels) ==> labels.len() == sentence.spec_len() - 1 && forall|i: int|
                0 <= i < labels.len() ==> Some(#[trigger] labels[i]@) == sentence.spec_value(
                    i + 1,
                    self.spec_layer(),
                ),
            r matches Err(EncodeError::MissingLabel { form }) ==> exists|idx: int|
                1 <= idx < sentence.spec_len() && sentence.spec_value(idx, self.spec_layer()) is None
                    && form@ == sentence.spec_form(idx) && forall|j: int|
                    1 <= j < idx ==> (#[trigger] sentence.spec_value(j, self.spec_layer())) is Some,
    {
        let n = sentence.len();
        let mut encoding: Vec<String> = Vec::with_capacity(n - 1);
        let mut idx: usize = 1;
        while idx < n
            invariant
                sentence.inv(),
                n == sentence.spec_len(),
                1 <= idx <= n,
                encoding.len() == idx - 1,
                forall|i: int|
                    0 <= i < encoding.len() ==> Some(#[trigger] encoding[i]@) == sentence.spec_value(
                        i + 1,
                        self.spec_layer(),
                    ),
            decreases n - idx,
        {
            match sentence.value(idx, &self.layer) {
                Some(label) => {
                    encoding.push(label);
                },
                None => {
                    let form = sentence.form(idx).to_owned();
                    assert forall|j: int|
                        1 <= j < idx implies (#[trigger] sentence.spec_value(j, self.spec_layer())) is Some by {
                        assert(Some(encoding[j - 1]@) == sentence.spec_value(j, self.spec_layer()));
                    }
                    return Err(EncodeError::MissingLabel { form });
                },
            }
            idx += 1;
        }
        assert forall|j: int|
            1 <= j < sentence.spec_len() implies (#[trigger] sentence.spec_value(j, self.spec_layer())) is Some by {
            assert(Some(encoding[j - 1]@) == sentence.spec_value(j, self.spec_layer()));
        }
        Ok(encoding)
    }

    /// Write the top-ranked candidate of each position into its token; a position
    /// without candidates is left as it was. There must be one position per token.
    /// Fails at the first candidate that the layer cannot take; the positions before
    /// it are written, it and those after it are left as they were.
    pub fn decode<L: LayerValue>(&self, labels: &[Vec<String>], sentence: &mut L) -> (r: Result<(), FeatureError>)
        requires
            old(sentence).inv(),
            labels@.len() == old(sentence).spec_len() - 1,
        ensures
            final(sentence).inv(),
            r is Ok <==> all_writable::<L>(top_candidates(labels@), self.spec_layer()),
            r is Ok ==> decoded_upto(
                *old(sentence),
                *final(sentence),
                top_candidates(labels@),
                self.spec_layer(),
                labels@.len() as int,
            ) && untouched_beyond(*old(sentence), *final(sentence), labels@.len() as int),
            r is Err ==> self.spec_layer() is FeatureString,
            r is Err ==> exists|i0: int|
                failed_at(
                    *old(sentence),
                    *final(sentence),
                    top_candidates(labels@),
                    self.spec_layer(),
                    i0,
                ),
    {
        let ghost before = *sentence;
        let ghost top = top_candidates(labels@);
        let ghost layer = self.spec_layer();
        let mut i: usize = 0;
        while i < labels.len()
            invariant
                sentence.inv(),
                before == *old(sentence),
                top == top_candidates(labels@),
                layer == self.spec_layer(),
                labels@.len() == before.spec_len() - 1,
                0 <= i <= labels@.len(),
                decoded_upto(before, *sentence, top, layer, i as int),
                untouched_beyond(before, *sentence, i as int),
                forall|k: int| 0 <= k < i && (#[trigger] top[k]) is Some ==> writable::<L>(layer, top[k]->0),
            decreases labels@.len() - i,
        {
            if labels[i].len() > 0 {
                assert(top[i as int] == Some(labels@[i as int]@[0]@));
                let ghost mid = *sentence;
                match sentence.set_value(i + 1, &self.layer, labels[i][0].as_str()) {
                    Ok(()) => {
                        assert forall|j: int|
                            #[trigger] sentence.spec_form(j) == before.spec_form(j) by {
                            assert(mid.spec_form(j) == before.spec_form(j));
                        }
                        assert forall|k: int|
                            0 <= k < i + 1 && (#[trigger] top[k]) is Some implies sentence.spec_value(
                                k + 1,
                                layer,
                            ) == read_back::<L>(layer, top[k]->0) && L::spec_written(
                                before.spec_node(k + 1),
                                sentence.spec_node(k + 1),
                                layer,
                                top[k]->0,
                            ) by {
                            if k < i {
                                assert(mid.spec_value(k + 1, layer) == read_back::<L>(layer, top[k]->0));
                                assert(mid.spec_node(k + 1) == sentence.spec_node(k + 1));
                            } else {
                                assert(mid.spec_node(k + 1) == before.spec_node(k + 1));
                            }
                        }
                        assert forall|k: int, l: Layer|
                            0 <= k < i + 1 && top[k] is None implies #[trigger] sentence.spec_value(
                                k + 1,
                                l,
                            ) == before.spec_value(k + 1, l) by {
                            assert(mid.spec_value(k + 1, l) == before.spec_value(k + 1, l));
                        }
                        assert forall|k: int|
                            0 <= k < i + 1 && top[k] is None implies #[trigger] sentence.spec_node(k + 1)
                                == before.spec_node(k + 1) by {
                            assert(mid.spec_node(k + 1) == before.spec_node(k + 1));
                        }
                        assert forall|j: int| (j < 1 || j > i + 1) implies #[trigger] sentence.spec_node(j)
                            == before.spec_node(j) by {
                            assert(mid.spec_node(j) == before.spec_node(j));
                        }
                        assert forall|j: int, l: Layer|
                            (j < 1 || j > i + 1) implies #[trigger] sentence.spec_value(j, l)
                                == before.spec_value(j, l) by {
                            assert(mid.spec_value(j, l) == before.spec_value(j, l));
                        }
                    },
                    Err(e) => {
                        assert(!all_writable::<L>(top, layer));
                        assert forall|j: int| #[trigger] sentence.spec_form(j) == before.spec_form(j) by {
                            assert(mid.spec_form(j) == before.spec_form(j));
                        }
                        assert forall|k: int|
                            0 <= k < i && (#[trigger] top[k]) is Some implies sentence.spec_value(k + 1, layer)
                                == read_back::<L>(layer, top[k]->0) && L::spec_written(
                                before.spec_node(k + 1),
                                sentence.spec_node(k + 1),
                                layer,
                                top[k]->0,
                            ) by {
                            assert(mid.spec_value(k + 1, layer) == read_back::<L>(layer, top[k]->0));
                            assert(mid.spec_node(k + 1) == sentence.spec_node(k + 1));
                        }
                        assert forall|k: int, l: Layer|
                            0 <= k < i && top[k] is None implies #[trigger] sentence.spec_value(k + 1, l)
                                == before.spec_value(k + 1, l) by {
                            assert(mid.spec_value(k + 1, l) == before.spec_value(k + 1, l));
                        }
                        assert forall|k: int|
                            0 <= k < i && top[k] is None implies #[trigger] sentence.spec_node(k + 1)
                                == before.spec_node(k + 1) by {
                            assert(mid.spec_node(k + 1) == before.spec_node(k + 1));
                        }
                        assert forall|j: int| (j < 1 || j > i) implies #[trigger] sentence.spec_node(j)
                            == before.spec_node(j) by {
                            assert(mid.spec_node(j) == before.spec_node(j));
                        }
                        assert forall|j: int, l: Layer|
                            (j < 1 || j > i) implies #[trigger] sentence.spec_value(j, l) == before.spec_value(j, l) by {
                            assert(mid.spec_value(j, l) == before.spec_value(j, l));
                        }
                        assert(top[i as int] is Some && !writable::<L>(layer, top[i as int]->0));
                        assert(decoded_upto(before, *sentence, top, layer, i as int));
                        assert(untouched_beyond(before, *sentence, i as int));
                        assert(layer is FeatureString);
                        assert(top_candidates(labels@)[i as int] is Some);
                        assert(failed_at(before, *sentence, top, layer, i as int));
                        return Err(e);
                    },
                }
            } else {
                assert(top[i as int] is None);
            }
            i += 1;
        }
        Ok(())
    }
}

} // verus!
