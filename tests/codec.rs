use sticker::conllu::ConlluSentence;
use sticker::layer::{EncodeError, Layer, LayerEncoder, LayerValue};
use sticker::token::{FeatureError, Features, Misc, Token};
use sticker::traits::{Form, Lemma, Sentence};

fn tagged(form: &str, upos: Option<&str>) -> Token {
    let mut token = Token::new(form);
    token.set_upos(upos.map(|t| t.to_string()));
    token
}

#[test]
fn encode_yields_one_label_per_token_in_order() {
    let sent = ConlluSentence::from_tokens(vec![
        tagged("a", Some("DET")),
        tagged("dog", Some("NOUN")),
        tagged("barks", Some("VERB")),
    ]);
    let encoder = LayerEncoder::new(Layer::UPos);
    let labels = encoder.encode(&sent).unwrap();
    assert_eq!(labels, vec!["DET".to_string(), "NOUN".to_string(), "VERB".to_string()]);
}

#[test]
fn encode_empty_sentence() {
    let sent = ConlluSentence::from_tokens(vec![]);
    let encoder = LayerEncoder::new(Layer::XPos);
    assert_eq!(encoder.encode(&sent).unwrap(), Vec::<String>::new());
}

#[test]
fn encode_missing_label_names_form() {
    let sent = ConlluSentence::from_tokens(vec![
        tagged("a", Some("DET")),
        tagged("dog", None),
        tagged("cat", None),
    ]);
    let encoder = LayerEncoder::new(Layer::UPos);
    match encoder.encode(&sent) {
        Err(EncodeError::MissingLabel { form }) => assert_eq!(form, "dog"),
        other => panic!("unexpected result {:?}", other),
    }
}

#[test]
fn encode_missing_feature_without_default_fails() {
    let sent = ConlluSentence::from_tokens(vec![Token::new("word")]);
    let encoder = LayerEncoder::new(Layer::feature("Case".to_string(), None));
    assert!(matches!(
        encoder.encode(&sent),
        Err(EncodeError::MissingLabel { form }) if form == "word"
    ));
    let encoder = LayerEncoder::new(Layer::feature("Case".to_string(), Some("Nom".to_string())));
    assert_eq!(encoder.encode(&sent).unwrap(), vec!["Nom".to_string()]);
}

#[test]
fn decode_writes_top_candidate() {
    let mut sent = ConlluSentence::from_tokens(vec![Token::new("a"), Token::new("b")]);
    let encoder = LayerEncoder::new(Layer::XPos);
    let labels = vec![
        vec!["X1".to_string(), "X2".to_string()],
        vec!["Y1".to_string()],
    ];
    encoder.decode(&labels, &mut sent).unwrap();
    assert_eq!(sent.value(1, &Layer::XPos), Some("X1".to_string()));
    assert_eq!(sent.value(2, &Layer::XPos), Some("Y1".to_string()));
}

#[test]
fn decode_empty_candidates_leave_token_unchanged() {
    let mut sent = ConlluSentence::from_tokens(vec![tagged("a", Some("DET")), tagged("b", Some("NOUN"))]);
    let encoder = LayerEncoder::new(Layer::UPos);
    let labels = vec![vec![], vec!["VERB".to_string()]];
    encoder.decode(&labels, &mut sent).unwrap();
    assert_eq!(sent.value(1, &Layer::UPos), Some("DET".to_string()));
    assert_eq!(sent.value(2, &Layer::UPos), Some("VERB".to_string()));
}

#[test]
fn decode_feature_string() {
    let mut sent = ConlluSentence::from_tokens(vec![Token::new("a")]);
    let encoder = LayerEncoder::new(Layer::FeatureString);
    encoder.decode(&[vec!["b=2|a=1".to_string()]], &mut sent).unwrap();
    assert_eq!(sent.value(1, &Layer::FeatureString), Some("a=1|b=2".to_string()));
    assert_eq!(sent.value(1, &Layer::feature("b".to_string(), None)), Some("2".to_string()));
}

#[test]
fn decode_malformed_feature_string_fails() {
    let mut sent = ConlluSentence::from_tokens(vec![Token::new("a")]);
    let encoder = LayerEncoder::new(Layer::FeatureString);
    let r = encoder.decode(&[vec!["noequals".to_string()]], &mut sent);
    assert!(matches!(r, Err(FeatureError::MissingSeparator)));
    assert_eq!(sent.value(1, &Layer::FeatureString), Some("_".to_string()));
}

#[test]
fn set_then_get_round_trip() {
    let mut sent = ConlluSentence::from_tokens(vec![Token::new("a")]);
    for layer in [
        Layer::UPos,
        Layer::XPos,
        Layer::feature("Num".to_string(), None),
        Layer::misc("SpaceAfter".to_string(), Some("Yes".to_string())),
    ] {
        sent.set_value(1, &layer, "val").unwrap();
        assert_eq!(sent.value(1, &layer), Some("val".to_string()));
    }
    sent.set_value(1, &Layer::FeatureString, "z=1|y=2").unwrap();
    let shown = sent.value(1, &Layer::FeatureString).unwrap();
    assert_eq!(shown, "y=2|z=1");
    sent.set_value(1, &Layer::FeatureString, &shown).unwrap();
    assert_eq!(sent.value(1, &Layer::FeatureString), Some(shown));
}

#[test]
fn misc_three_states() {
    let mut token = Token::new("t");
    token.set_misc(Misc::parse("u=v|x=y|flag"));
    let sent = ConlluSentence::from_tokens(vec![token]);
    assert_eq!(sent.value(1, &Layer::misc("u".to_string(), None)), Some("v".to_string()));
    assert_eq!(sent.value(1, &Layer::misc("z".to_string(), None)), None);
    assert_eq!(
        sent.value(1, &Layer::misc("z".to_string(), Some("dflt".to_string()))),
        Some("dflt".to_string())
    );
    assert_eq!(
        sent.value(1, &Layer::misc("flag".to_string(), Some("dflt".to_string()))),
        None
    );
}

#[test]
fn feature_default_fallback() {
    let mut token = Token::new("t");
    token.set_features(Features::parse("a=b|c=d").unwrap());
    let sent = ConlluSentence::from_tokens(vec![token]);
    assert_eq!(
        sent.value(1, &Layer::feature("e".to_string(), Some("dflt".to_string()))),
        Some("dflt".to_string())
    );
    assert_eq!(sent.value(1, &Layer::feature("e".to_string(), None)), None);
    assert_eq!(sent.value(1, &Layer::feature("a".to_string(), None)), Some("b".to_string()));
}

#[test]
fn empty_features_render_and_parse() {
    let f = Features::new();
    assert_eq!(f.render(), "_");
    let g = Features::parse("_").unwrap();
    assert!(g.entries.is_empty());
    assert_eq!(g.render(), "_");
}

#[test]
fn features_parse_and_render() {
    let f = Features::parse("c=d|a=b=x|c=e").unwrap();
    assert_eq!(f.render(), "a=b=x|c=e");
    assert_eq!(f.get("a"), Some("b=x".to_string()));
    assert_eq!(f.get("q"), None);
    assert!(matches!(Features::parse("a=b|c"), Err(FeatureError::MissingSeparator)));
    assert!(matches!(Features::parse(""), Err(FeatureError::MissingSeparator)));
}

#[test]
fn features_insert_keeps_order() {
    let mut f = Features::new();
    f.insert("m".to_string(), "1".to_string());
    f.insert("b".to_string(), "2".to_string());
    f.insert("z".to_string(), "3".to_string());
    f.insert("m".to_string(), "4".to_string());
    assert_eq!(f.render(), "b=2|m=4|z=3");
}

#[test]
fn misc_insert_and_get() {
    let mut m = Misc::new();
    m.insert("k".to_string(), None);
    assert_eq!(m.get("k"), Some(None));
    m.insert("k".to_string(), Some("v".to_string()));
    assert_eq!(m.get("k"), Some(Some("v".to_string())));
    assert_eq!(m.get("other"), None);
}

#[test]
fn layer_equality() {
    assert!(Layer::UPos == Layer::UPos);
    assert!(Layer::UPos != Layer::XPos);
    assert!(Layer::feature("a".to_string(), None) == Layer::feature("a".to_string(), None));
    assert!(Layer::feature("a".to_string(), None) != Layer::feature("a".to_string(), Some("d".to_string())));
    assert!(Layer::feature("a".to_string(), None) != Layer::misc("a".to_string(), None));
    let encoder = LayerEncoder::new(Layer::FeatureString);
    assert!(*encoder.layer() == Layer::FeatureString);
}

#[test]
fn sentence_tokens_and_lemmas() {
    let mut sent = ConlluSentence::from_tokens(vec![Token::new("dogs")]);
    assert_eq!(Sentence::len(&sent), 2);
    assert!(sent.token(0).is_none());
    assert_eq!(sent.token(1).unwrap().form(), "dogs");
    assert_eq!(LayerValue::form(&sent, 1), "dogs");
    assert_eq!(sent.lemma(1), None);
    sent.set_lemma(1, "dog".to_string());
    assert_eq!(sent.lemma(1), Some("dog"));
    let token = sent.token_mut(1).unwrap();
    token.set_lemma("hound".to_string());
    assert_eq!(Lemma::lemma(token), Some("hound"));
    assert!(sent.token_mut(0).is_none());
}

#[test]
fn set_value_keeps_other_slots() {
    let mut token = Token::new("t");
    token.set_upos(Some("NOUN".to_string()));
    token.set_xpos(Some("NN".to_string()));
    token.set_features(Features::parse("Num=Sg|Case=Nom").unwrap());
    token.set_misc(Misc::parse("SpaceAfter=No|flag"));
    let mut sent = ConlluSentence::from_tokens(vec![token, Token::new("u")]);
    sent.set_lemma(2, "lemma".to_string());

    sent.set_value(1, &Layer::feature("Num".to_string(), Some("Pl".to_string())), "Pl").unwrap();
    assert_eq!(sent.value(1, &Layer::feature("Num".to_string(), None)), Some("Pl".to_string()));
    assert_eq!(sent.value(1, &Layer::feature("Case".to_string(), None)), Some("Nom".to_string()));
    assert_eq!(sent.value(1, &Layer::UPos), Some("NOUN".to_string()));
    assert_eq!(sent.value(1, &Layer::XPos), Some("NN".to_string()));
    assert_eq!(sent.value(1, &Layer::misc("SpaceAfter".to_string(), None)), Some("No".to_string()));
    assert_eq!(sent.value(1, &Layer::misc("flag".to_string(), Some("d".to_string()))), None);

    sent.set_value(1, &Layer::misc("flag".to_string(), None), "yes").unwrap();
    assert_eq!(sent.value(1, &Layer::misc("flag".to_string(), Some("d".to_string()))), Some("yes".to_string()));
    assert_eq!(sent.value(1, &Layer::FeatureString), Some("Case=Nom|Num=Pl".to_string()));
    assert_eq!(sent.lemma(2), Some("lemma"));
    assert_eq!(sent.value(2, &Layer::UPos), None);
}

#[test]
fn decode_error_leaves_later_positions() {
    let mut sent = ConlluSentence::from_tokens(vec![Token::new("a"), Token::new("b"), Token::new("c")]);
    let encoder = LayerEncoder::new(Layer::FeatureString);
    let labels = vec![
        vec!["x=1".to_string()],
        vec!["broken".to_string()],
        vec!["y=2".to_string()],
    ];
    assert!(matches!(encoder.decode(&labels, &mut sent), Err(FeatureError::MissingSeparator)));
    assert_eq!(sent.value(1, &Layer::FeatureString), Some("x=1".to_string()));
    assert_eq!(sent.value(2, &Layer::FeatureString), Some("_".to_string()));
    assert_eq!(sent.value(3, &Layer::FeatureString), Some("_".to_string()));
}

#[test]
fn decode_twice_is_stable() {
    let mut sent = ConlluSentence::from_tokens(vec![Token::new("a"), Token::new("b")]);
    let encoder = LayerEncoder::new(Layer::misc("Tag".to_string(), None));
    let labels = vec![vec!["p".to_string(), "q".to_string()], vec![]];
    encoder.decode(&labels, &mut sent).unwrap();
    let first = encoder.encode(&sent);
    encoder.decode(&labels, &mut sent).unwrap();
    assert_eq!(sent.value(1, &Layer::misc("Tag".to_string(), None)), Some("p".to_string()));
    assert_eq!(sent.value(2, &Layer::misc("Tag".to_string(), None)), None);
    assert!(matches!(first, Err(EncodeError::MissingLabel { form }) if form == "b"));
}

#[test]
fn encoder_equality_follows_layer() {
    assert!(LayerEncoder::new(Layer::UPos) == LayerEncoder::new(Layer::UPos));
    assert!(LayerEncoder::new(Layer::UPos) != LayerEncoder::new(Layer::XPos));
    assert!(
        LayerEncoder::new(Layer::misc("a".to_string(), None))
            == LayerEncoder::new(Layer::misc("a".to_string(), None))
    );
}
