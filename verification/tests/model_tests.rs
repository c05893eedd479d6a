use dazeus_karma::codec::{decode_karma, encode_karma};
use dazeus_karma::karma::{
    canonicalize_term, store_key, Aliases, Karma, KarmaAmount, KarmaChange, KarmaStyle,
};
use dazeus_karma::text::{i64_to_string, sat_add, u64_to_string};

fn record(term: &str, up: i64, down: i64, aliases: Option<Aliases>) -> Karma {
    Karma {
        term: term.to_owned(),
        original_term: term.to_owned(),
        votes: KarmaAmount { up, down },
        first_vote: Some("2015-03-14T09:26:53+01:00".to_owned()),
        last_vote: Some("2016-01-02T03:04:05+01:00".to_owned()),
        aliases,
    }
}

#[test]
fn canonicalize_lowercases_ascii() {
    assert_eq!(canonicalize_term("FooBar"), "foobar");
    assert_eq!(canonicalize_term("foobar"), "foobar");
    assert_eq!(canonicalize_term("MiXeD 123 :-)"), "mixed 123 :-)");
}

#[test]
fn canonicalize_is_idempotent_and_case_insensitive() {
    for t in ["Foo", "FOO", "foo", "A-B_c9", "\u{e9}t\u{e9}"] {
        let once = canonicalize_term(t);
        let twice = canonicalize_term(&once);
        assert_eq!(once, twice);
    }
    assert_eq!(canonicalize_term("FOO"), canonicalize_term("foo"));
    assert_eq!(canonicalize_term("fOo"), canonicalize_term("FoO"));
}

#[test]
fn store_key_prefixes_the_canonical_term() {
    assert_eq!(store_key("FooBar"), "dazeus_karma.foobar");
}

#[test]
fn codec_round_trips_a_plain_record() {
    let k = record("foo", 4, 1, None);
    let encoded = encode_karma(&k);
    let decoded = decode_karma(&encoded).unwrap();
    assert_eq!(decoded, k);
}

#[test]
fn codec_round_trips_a_satellite_record() {
    let k = record("foo", 0, 0, Some(Aliases::To("bar".to_owned())));
    let decoded = decode_karma(&encode_karma(&k)).unwrap();
    assert_eq!(decoded, k);
}

#[test]
fn codec_round_trips_a_main_record() {
    let k = record(
        "foo",
        10,
        3,
        Some(Aliases::FromOther(vec!["bar".to_owned(), "baz qux".to_owned()])),
    );
    let decoded = decode_karma(&encode_karma(&k)).unwrap();
    assert_eq!(decoded, k);
}

#[test]
fn codec_round_trips_awkward_text() {
    let mut k = record("foo \"quoted\" \u{1f600}", 1, 2, None);
    k.term = canonicalize_term(&k.term);
    k.original_term = "Foo \"Quoted\" \u{1f600}".to_owned();
    k.first_vote = None;
    let decoded = decode_karma(&encode_karma(&k)).unwrap();
    assert_eq!(decoded, k);
}

#[test]
fn decode_rejects_garbage() {
    assert!(decode_karma("").is_none());
    assert!(decode_karma("not a record").is_none());
    assert!(decode_karma("3:foo").is_none());
}

#[test]
fn decode_rejects_trailing_noise() {
    let k = record("foo", 1, 0, None);
    let mut encoded = encode_karma(&k);
    encoded.push('x');
    assert!(decode_karma(&encoded).is_none());
}

#[test]
fn decode_rejects_a_non_canonical_term() {
    let k = record("foo", 1, 0, None);
    let encoded = encode_karma(&k).replace("3:foo", "3:Foo");
    assert!(decode_karma(&encoded).is_none());
}

#[test]
fn total_is_up_minus_down() {
    assert_eq!(KarmaAmount { up: 4, down: 1 }.total(), 3);
    assert_eq!(KarmaAmount { up: 2, down: 2 }.total(), 0);
    assert_eq!(KarmaAmount { up: 0, down: 5 }.total(), -5);
}

#[test]
fn plus_adds_componentwise() {
    let a = KarmaAmount { up: 1, down: 2 };
    let b = KarmaAmount { up: 10, down: 20 };
    assert_eq!(a.plus(b), KarmaAmount { up: 11, down: 22 });
}

#[test]
fn sat_add_clamps_at_the_ends() {
    assert_eq!(sat_add(1, 2), 3);
    assert_eq!(sat_add(i64::MAX, 1), i64::MAX);
    assert_eq!(sat_add(i64::MIN, -1), i64::MIN);
}

#[test]
fn most_explicit_is_commutative_and_idempotent() {
    let styles = [KarmaStyle::Implicit, KarmaStyle::Silent, KarmaStyle::Notify];
    for a in styles {
        assert_eq!(KarmaStyle::most_explicit(a, a), a);
        for b in styles {
            assert_eq!(KarmaStyle::most_explicit(a, b), KarmaStyle::most_explicit(b, a));
        }
    }
    assert_eq!(
        KarmaStyle::most_explicit(KarmaStyle::Implicit, KarmaStyle::Notify),
        KarmaStyle::Notify
    );
    assert_eq!(
        KarmaStyle::most_explicit(KarmaStyle::Silent, KarmaStyle::Implicit),
        KarmaStyle::Silent
    );
}

#[test]
fn change_constructor_keeps_the_term_verbatim() {
    let c = KarmaChange::new("FooBar", KarmaAmount { up: 1, down: 0 }, KarmaStyle::Implicit);
    assert_eq!(c.term, "FooBar");
}

#[test]
fn new_records_start_clean() {
    let k = Karma::new("FooBar");
    assert_eq!(k.term, "foobar");
    assert_eq!(k.original_term, "FooBar");
    assert_eq!(k.votes, KarmaAmount { up: 0, down: 0 });
    assert!(k.aliases.is_none());
    assert!(k.first_vote.is_some());
    assert_eq!(k.first_vote, k.last_vote);
}

#[test]
fn voting_accumulates() {
    let mut k = Karma::new("foo");
    k.vote(&KarmaAmount { up: 1, down: 0 });
    k.vote(&KarmaAmount { up: 2, down: 1 });
    assert_eq!(k.votes, KarmaAmount { up: 3, down: 1 });
    assert!(k.last_vote.is_some());
}

#[test]
fn number_rendering() {
    assert_eq!(u64_to_string(0), "0");
    assert_eq!(u64_to_string(7), "7");
    assert_eq!(u64_to_string(1234), "1234");
    assert_eq!(u64_to_string(u64::MAX), "18446744073709551615");
    assert_eq!(i64_to_string(-42), "-42");
    assert_eq!(i64_to_string(0), "0");
    assert_eq!(i64_to_string(i64::MIN), "-9223372036854775808");
}
