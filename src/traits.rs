use vstd::prelude::*;

use crate::conllu::ConlluSentence;
use crate::token::{opt_view, Token};

verus! {

/// A sentence of nodes: node 0 is the root, the others are tokens.
pub trait Sentence {
    type Token;

    /// The number of nodes, the root included.
    spec fn node_count(&self) -> nat;

    /// The token at node `idx`, or `None` for the root.
    spec fn spec_token(&self, idx: int) -> Option<Self::Token>;

    fn len(&self) -> (r: usize)
        requires
            self.node_count() <= usize::MAX,
        ensures
            r == self.node_count(),
    ;

    fn token(&self, idx: usize) -> (r: Option<&Self::Token>)
        requires
            idx < self.node_count(),
        ensures
            match r {
                Some(t) => self.spec_token(idx as int) == Some(*t),
                None => self.spec_token(idx as int) is None,
            },
    ;

    fn token_mut(&mut self, idx: usize) -> (r: Option<&mut Self::Token>)
        requires
            idx < old(self).node_count(),
        ensures
            r is None <==> old(self).spec_token(idx as int) is None,
            r matches Some(t) ==> old(self).spec_token(idx as int) == Some(*t),
    ;
}

impl Sentence for ConlluSentence {
    type Token = Token;

    open spec fn node_count(&self) -> nat {
        self.tokens@.len() + 1
    }

    open spec fn spec_token(&self, idx: int) -> Option<Token> {
        if 1 <= idx <= self.tokens@.len() {
            Some(self.tokens@[idx - 1])
        } else {
            None
        }
    }

    fn len(&self) -> (r: usize) {
        self.tokens.len() + 1
    }

    fn token(&self, idx: usize) -> (r: Option<&Token>) {
        if idx == 0 {
            None
        } else {
            Some(&self.tokens[idx - 1])
        }
    }

    fn token_mut(&mut self, idx: usize) -> (r: Option<&mut Token>) {
        if idx == 0 {
            None
        } else {
            Some(&mut self.tokens[idx - 1])
        }
    }
}

/// Access to the form of a token.
pub trait Form {
    spec fn form_view(&self) -> Seq<char>;

    fn form(&self) -> (r: &str)
        ensures
            r@ == self.form_view(),
    ;
}

impl Form for Token {
    open spec fn form_view(&self) -> Seq<char> {
        self.form@
    }

    fn form(&self) -> (r: &str) {
        self.form.as_str()
    }
}

/// Access to the lemma of a token.
pub trait Lemma {
    spec fn lemma_view(&self) -> Option<Seq<char>>;

    /// `self` and `other` agree on everything but the lemma.
    spec fn same_but_lemma(&self, other: &Self) -> bool;

    fn lemma(&self) -> (r: Option<&str>)
        ensures
            match r {
                Some(l) => self.lemma_view() == Some(l@),
                None => self.lemma_view() is None,
            },
    ;

    fn set_lemma(&mut self, lemma: String)
        ensures
            final(self).lemma_view() == Some(lemma@),
            old(self).same_but_lemma(&*final(self)),
    ;
}

impl Lemma for Token {
    open spec fn lemma_view(&self) -> Option<Seq<char>> {
        opt_view(self.lemma)
    }

    open spec fn same_but_lemma(&self, other: &Token) -> bool {
        &&& self.form == other.form
        &&& self.upos == other.upos
        &&& self.xpos == other.xpos
        &&& self.features == other.features
        &&& self.misc == other.misc
    }

    fn lemma(&self) -> (r: Option<&str>) {
        match &self.lemma {
            Some(l) => Some(l.as_str()),
            None => None,
        }
    }

    fn set_lemma(&mut self, lemma: String) {
        self.lemma = Some(lemma);
    }
}

} // verus!
