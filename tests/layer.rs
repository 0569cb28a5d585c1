use sticker::conllu::ConlluSentence;
use sticker::layer::{Layer, LayerValue};
use sticker::token::{Features, Misc, Token};

fn sentence_of(token: Token) -> ConlluSentence {
    ConlluSentence::from_tokens(vec![token])
}

#[test]
fn layer() {
    let mut token = Token::new("test");
    token.set_upos(Some("CP".to_string()));
    token.set_xpos(Some("P".to_string()));
    token.set_features(Features::parse("c=d|a=b").unwrap());
    token.set_misc(Misc::parse("u=v|x=y"));

    let sent = sentence_of(token);

    assert_eq!(sent.value(1, &Layer::UPos), Some("CP".to_string()));
    assert_eq!(sent.value(1, &Layer::XPos), Some("P".to_string()));
    assert_eq!(
        sent.value(1, &Layer::feature("a".to_owned(), None)),
        Some("b".to_string())
    );
    assert_eq!(
        sent.value(1, &Layer::feature("c".to_owned(), None)),
        Some("d".to_string())
    );
    assert_eq!(sent.value(1, &Layer::feature("e".to_owned(), None)), None);
    assert_eq!(
        sent.value(
            1,
            &Layer::feature("e".to_owned(), Some("some_default".to_string()))
        ),
        Some("some_default".to_string())
    );
    assert_eq!(
        sent.value(1, &Layer::FeatureString),
        Some("a=b|c=d".to_string())
    );

    assert_eq!(
        sent.value(1, &Layer::misc("u".to_owned(), None)),
        Some("v".to_string())
    );
    assert_eq!(
        sent.value(1, &Layer::misc("x".to_owned(), None)),
        Some("y".to_string())
    );
    assert_eq!(sent.value(1, &Layer::misc("z".to_owned(), None)), None);
    assert_eq!(
        sent.value(
            1,
            &Layer::misc("z".to_owned(), Some("some_default".to_string()))
        ),
        Some("some_default".to_string())
    );
}

#[test]
fn set_layer() {
    let token = Token::new("test");
    let mut sent = sentence_of(token);

    assert_eq!(sent.value(1, &Layer::FeatureString), Some("_".to_string()));

    sent.set_value(1, &Layer::UPos, "CP").unwrap();
    sent.set_value(1, &Layer::XPos, "P").unwrap();
    sent.set_value(1, &Layer::feature("a".to_owned(), None), "b")
        .unwrap();
    sent.set_value(1, &Layer::misc("u".to_owned(), None), "v")
        .unwrap();

    assert_eq!(sent.value(1, &Layer::UPos), Some("CP".to_string()));
    assert_eq!(sent.value(1, &Layer::XPos), Some("P".to_string()));
    assert_eq!(
        sent.value(1, &Layer::feature("a".to_owned(), None)),
        Some("b".to_string())
    );
    assert_eq!(sent.value(1, &Layer::feature("c".to_owned(), None)), None);
    assert_eq!(
        sent.value(1, &Layer::FeatureString),
        Some("a=b".to_string())
    );

    assert_eq!(
        sent.value(1, &Layer::misc("u".to_owned(), None)),
        Some("v".to_string())
    );
    assert_eq!(sent.value(1, &Layer::misc("x".to_owned(), None)), None);
}
