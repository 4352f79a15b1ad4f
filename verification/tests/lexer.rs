use playlist_modify_rs::attribute::AttributePairs;

fn lex(s: &str) -> Vec<(String, String)> {
    let mut pairs = AttributePairs::new(s);
    let mut out = Vec::new();
    while let Some((k, v)) = pairs.next() {
        out.push((k.to_string(), v.to_string()));
    }
    out
}

fn owned(pairs: &[(&str, &str)]) -> Vec<(String, String)> {
    pairs.iter().map(|(k, v)| (k.to_string(), v.to_string())).collect()
}

#[test]
fn quoted_comma_does_not_split() {
    let got = lex("CODECS=\"avc1.640028,mp4a.40.2\",BANDWIDTH=100");
    assert_eq!(
        got,
        owned(&[("CODECS", "\"avc1.640028,mp4a.40.2\""), ("BANDWIDTH", "100")])
    );
}

#[test]
fn size_hint_counts_the_pairs() {
    let pairs = AttributePairs::new("CODECS=\"avc1.640028,mp4a.40.2\",BANDWIDTH=100");
    assert_eq!(pairs.size_hint(), (2, Some(2)));
    assert_eq!(
        lex("CODECS=\"avc1.640028,mp4a.40.2\",BANDWIDTH=100").len(),
        2
    );
}

#[test]
fn size_hint_shrinks_with_each_pair() {
    let mut pairs = AttributePairs::new("A=1,B=2,C=3");
    assert_eq!(pairs.size_hint(), (3, Some(3)));
    assert_eq!(pairs.next(), Some(("A", "1")));
    assert_eq!(pairs.size_hint(), (2, Some(2)));
    assert_eq!(pairs.next(), Some(("B", "2")));
    assert_eq!(pairs.size_hint(), (1, Some(1)));
    assert_eq!(pairs.next(), Some(("C", "3")));
    assert_eq!(pairs.size_hint(), (0, Some(0)));
    assert_eq!(pairs.next(), None);
    assert_eq!(pairs.next(), None);
}

#[test]
fn size_hint_ignores_quoted_equals() {
    let pairs = AttributePairs::new("URI=\"a=b\",N=1");
    assert_eq!(pairs.size_hint(), (2, Some(2)));
    assert_eq!(
        lex("URI=\"a=b\",N=1"),
        owned(&[("URI", "\"a=b\""), ("N", "1")])
    );
}

#[test]
fn keys_and_values_are_trimmed() {
    assert_eq!(
        lex("  A = 1 ,\tB =  \"x y\"  "),
        owned(&[("A", "1"), ("B", "\"x y\"")])
    );
}

#[test]
fn trailing_pair_without_comma_is_kept() {
    assert_eq!(lex("A=1,B="), owned(&[("A", "1"), ("B", "")]));
    assert_eq!(lex("A=1,"), owned(&[("A", "1")]));
}

#[test]
fn short_or_empty_input_is_exhausted() {
    assert_eq!(lex(""), owned(&[]));
    assert_eq!(lex("A"), owned(&[]));
    assert_eq!(lex("="), owned(&[]));
    assert_eq!(lex("A="), owned(&[("A", "")]));
}

#[test]
fn missing_equals_ends_the_list() {
    assert_eq!(lex("A=1,BROKEN"), owned(&[("A", "1")]));
    assert_eq!(lex("NOTHING HERE"), owned(&[]));
}

#[test]
fn open_quote_runs_to_the_end() {
    assert_eq!(lex("A=\"x,B=2"), owned(&[("A", "\"x,B=2")]));
}

#[test]
fn equals_inside_a_quoted_key_is_no_key_end() {
    assert_eq!(lex("\"A=B\"=1"), owned(&[("\"A=B\"", "1")]));
    assert_eq!(lex("X=1,\"B=C\""), owned(&[("X", "1")]));
}

#[test]
fn lexer_is_restartable() {
    let text = "A=1,B=2";
    assert_eq!(lex(text), lex(text));
    let first = AttributePairs::new(text);
    let mut second = first.clone();
    assert_eq!(second.next(), Some(("A", "1")));
    assert_eq!(first.size_hint(), (2, Some(2)));
}

#[test]
fn non_ascii_text_is_kept() {
    assert_eq!(
        lex("NAME=\"Fran\u{e7}ais, \u{65e5}\u{672c}\",\u{a0}K\u{3000}=v"),
        owned(&[("NAME", "\"Fran\u{e7}ais, \u{65e5}\u{672c}\""), ("K", "v")])
    );
}

#[test]
fn rejoined_pairs_lex_alike() {
    let text = " CODECS = \"a,b\" , BANDWIDTH=100 ,X=";
    let pairs = lex(text);
    let joined = pairs
        .iter()
        .map(|(k, v)| format!("{}={}", k, v))
        .collect::<Vec<_>>()
        .join(",");
    assert_eq!(joined, "CODECS=\"a,b\",BANDWIDTH=100,X=");
    assert_eq!(lex(&joined), pairs);
}

#[test]
fn size_hint_is_exact_on_regular_lists_only() {
    for text in ["", "A", "A=1", "A=1,B=\"x=y\",C=", "A=1,B,C=3", "A=\"1,B=2", " K = v , L = w "] {
        assert_eq!(
            AttributePairs::new(text).size_hint().0,
            lex(text).len(),
            "{:?}",
            text
        );
    }
    for text in ["=", "A=B=C", "A=1,=", "A=1,B=2=3,C=4"] {
        assert!(
            AttributePairs::new(text).size_hint().0 > lex(text).len(),
            "{:?}",
            text
        );
    }
    assert_eq!(AttributePairs::new("A=B=C").size_hint(), (2, Some(2)));
    assert_eq!(lex("A=B=C"), owned(&[("A", "B=C")]));
}

#[test]
fn a_last_pair_that_is_empty_is_lost_when_rejoined() {
    assert_eq!(lex("A=1,=,"), owned(&[("A", "1"), ("", "")]));
    assert_eq!(lex("A=1,="), owned(&[("A", "1")]));
    assert_eq!(lex("=,"), owned(&[("", "")]));
    assert_eq!(lex("=,A=1"), owned(&[("", ""), ("A", "1")]));
}
