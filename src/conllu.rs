use vstd::prelude::*;

use crate::feature_text::lemma_feature_string_stable;
use crate::layer::{decoded_upto, same_slot, touches, untouched_beyond, Layer, LayerValue};
use crate::token::{
    feature_string_after, features_text_ok, lemma_token_written_values, lemma_write_determined, lemma_write_idempotent,
    reads_alike, token_value, token_written, FeatureError, Token,
};

verus! {

/// A sentence: node 0 is the root, node `i` for `i >= 1` is token `i - 1` of `tokens`.
pub struct ConlluSentence {
    pub tokens: Vec<Token>,
}

impl ConlluSentence {
    pub open spec fn wf(&self) -> bool {
        &&& self.tokens@.len() < usize::MAX
        &&& forall|i: int| 0 <= i < self.tokens@.len() ==> (#[trigger] self.tokens@[i]).wf()
    }

    /// The token at node `idx`.
    pub open spec fn token_at(&self, idx: int) -> Token {
        if 1 <= idx <= self.tokens@.len() {
            self.tokens@[idx - 1]
        } else {
            arbitrary()
        }
    }

    /// A sentence of the given tokens, after the root.
    pub fn from_tokens(tokens: Vec<Token>) -> (r: Self)
        requires
            tokens@.len() < usize::MAX,
            forall|i: int| 0 <= i < tokens@.len() ==> (#[trigger] tokens@[i]).wf(),
        ensures
            r.wf(),
            r.tokens@ == tokens@,
    {
        ConlluSentence { tokens }
    }

    /// The lemma of the token at `idx`.
    pub fn lemma(&self, idx: usize) -> (r: Option<&str>)
        requires
            1 <= idx <= self.tokens@.len(),
        ensures
            match r {
                Some(l) => self.token_at(idx as int).lemma matches Some(m) && l@ == m@,
                None => self.token_at(idx as int).lemma is None,
            },
    {
        match &self.tokens[idx - 1].lemma {
            Some(l) => Some(l.as_str()),
            None => None,
        }
    }

    /// Set the lemma of the token at `idx`.
    pub fn set_lemma(&mut self, idx: usize, lemma: String)
        requires
            old(self).wf(),
            1 <= idx <= old(self).tokens@.len(),
        ensures
            final(self).wf(),
            final(self).tokens@.len() == old(self).tokens@.len(),
            final(self).token_at(idx as int) == (Token { lemma: Some(lemma), ..old(self).token_at(idx as int) }),
            forall|j: int| 1 <= j <= old(self).tokens@.len() && j != idx ==> #[trigger] final(self).token_at(j) == old(self).token_at(j),
    {
        self.tokens[idx - 1].lemma = Some(lemma);
    }
}

impl LayerValue for ConlluSentence {
    open spec fn inv(&self) -> bool {
        self.wf()
    }

    open spec fn spec_len(&self) -> nat {
        self.tokens@.len() + 1
    }

    open spec fn spec_form(&self, idx: int) -> Seq<char> {
        self.token_at(idx).form@
    }

    open spec fn spec_value(&self, idx: int, layer: Layer) -> Option<Seq<char>> {
        token_value(self.token_at(idx), layer)
    }

    open spec fn spec_feature_string(value: Seq<char>) -> Option<Seq<char>> {
        feature_string_after(value)
    }

    type Node = Token;

    open spec fn spec_node(&self, idx: int) -> Token {
        self.token_at(idx)
    }

    open spec fn spec_written(before: Token, after: Token, layer: Layer, value: Seq<char>) -> bool {
        token_written(before, after, layer, value)
    }

    fn form(&self, idx: usize) -> (r: &str) {
        self.tokens[idx - 1].form.as_str()
    }

    fn len(&self) -> (r: usize) {
        self.tokens.len() + 1
    }

    fn set_value(&mut self, idx: usize, layer: &Layer, value: &str) -> (r: Result<(), FeatureError>) {
        let ghost before = self.tokens@;
        assert(before[idx - 1].wf());
        let r = self.tokens[idx - 1].set_value(layer, value);
        assert(self.tokens@.len() == before.len());
        assert(forall|j: int| 0 <= j < before.len() && j != idx - 1 ==> self.tokens@[j] == before[j]);
        proof {
            if r is Ok {
                lemma_token_written_values(before[idx - 1], self.tokens@[idx - 1], *layer, value@);
            }
        }
        r
    }

    fn value(&self, idx: usize, layer: &Layer) -> (r: Option<String>) {
        self.tokens[idx - 1].value(layer)
    }
}

/// Writing a value to a layer of a token and reading that slot back, under any
/// default, gives the value itself; for the feature-string layer it gives the text
/// of the feature map that the value denotes, and writing that text again reads
/// back the same text. Layers that name other slots read as before.
pub proof fn lemma_set_then_get(before: Token, after: Token, layer: Layer, value: Seq<char>)
    requires
        before.wf(),
        layer is FeatureString ==> features_text_ok(value),
        token_written(before, after, layer, value),
    ensures
        forall|l: Layer|
            same_slot(layer, l) && !(layer is FeatureString) ==> #[trigger] token_value(after, l) == Some(value),
        layer is FeatureString ==> token_value(after, layer) == feature_string_after(value),
        layer is FeatureString ==> token_value(after, layer) is Some && feature_string_after(
            token_value(after, layer).unwrap(),
        ) == token_value(after, layer),
        forall|l: Layer| !touches(layer, l) ==> #[trigger] token_value(after, l) == token_value(before, l),
{
    lemma_token_written_values(before, after, layer, value);
    if layer is FeatureString {
        assert(same_slot(layer, layer));
        lemma_feature_string_stable(value);
    }
}

/// Every token of `a` holds the same annotations as the token at its index in `b`.
pub open spec fn sentences_alike(a: ConlluSentence, b: ConlluSentence) -> bool {
    &&& a.tokens@.len() == b.tokens@.len()
    &&& forall|j: int| 1 <= j <= a.tokens@.len() ==> reads_alike(#[trigger] a.token_at(j), b.token_at(j))
}

/// Decoding depends on the top-ranked candidates alone: decoding the same top
/// candidates into sentences that hold the same annotations gives sentences that
/// hold the same annotations.
pub proof fn lemma_decode_determined(
    b1: ConlluSentence,
    a1: ConlluSentence,
    b2: ConlluSentence,
    a2: ConlluSentence,
    top: Seq<Option<Seq<char>>>,
    layer: Layer,
)
    requires
        b1.wf(),
        b2.wf(),
        sentences_alike(b1, b2),
        top.len() == b1.tokens@.len(),
        decoded_upto(b1, a1, top, layer, top.len() as int),
        untouched_beyond(b1, a1, top.len() as int),
        decoded_upto(b2, a2, top, layer, top.len() as int),
        untouched_beyond(b2, a2, top.len() as int),
    ensures
        sentences_alike(a1, a2),
{
    assert(a1.spec_len() == b1.spec_len() && a2.spec_len() == b2.spec_len());
    assert forall|j: int| 1 <= j <= a1.tokens@.len() implies reads_alike(#[trigger] a1.token_at(j), a2.token_at(j)) by {
        assert(reads_alike(b1.token_at(j), b2.token_at(j)));
        assert(b1.tokens@[j - 1].wf() && b2.tokens@[j - 1].wf());
        if top[j - 1] is Some {
            assert(token_written(b1.token_at(j), a1.token_at(j), layer, top[j - 1]->0));
            assert(token_written(b2.token_at(j), a2.token_at(j), layer, top[j - 1]->0));
            lemma_write_determined(b1.token_at(j), a1.token_at(j), b2.token_at(j), a2.token_at(j), layer, top[j - 1]->0);
        } else {
            assert(a1.spec_node(j) == b1.spec_node(j));
            assert(a2.spec_node(j) == b2.spec_node(j));
        }
    }
}

/// Decoding the same candidates a second time changes no annotation.
pub proof fn lemma_decode_idempotent(
    b: ConlluSentence,
    a: ConlluSentence,
    a2: ConlluSentence,
    top: Seq<Option<Seq<char>>>,
    layer: Layer,
)
    requires
        b.wf(),
        top.len() == b.tokens@.len(),
        decoded_upto(b, a, top, layer, top.len() as int),
        untouched_beyond(b, a, top.len() as int),
        decoded_upto(a, a2, top, layer, top.len() as int),
        untouched_beyond(a, a2, top.len() as int),
    ensures
        sentences_alike(a, a2),
{
    assert(a.spec_len() == b.spec_len() && a2.spec_len() == a.spec_len());
    assert forall|j: int| 1 <= j <= a.tokens@.len() implies reads_alike(#[trigger] a.token_at(j), a2.token_at(j)) by {
        assert(b.tokens@[j - 1].wf());
        if top[j - 1] is Some {
            assert(token_written(b.token_at(j), a.token_at(j), layer, top[j - 1]->0));
            assert(token_written(a.token_at(j), a2.token_at(j), layer, top[j - 1]->0));
            lemma_write_idempotent(b.token_at(j), a.token_at(j), a2.token_at(j), layer, top[j - 1]->0);
        } else {
            assert(a2.spec_node(j) == a.spec_node(j));
        }
    }
}

} // verus!
