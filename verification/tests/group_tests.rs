use dazeus_karma::group::{fetch_karma, fetch_or_create, save_karma, GroupResolver, KarmaGroup};
use dazeus_karma::handler::{
    aggregate, any_group_contains, fight_reply, find_highest_karma, notify_replies,
    parse_link_command, register_votes, unlink_reply, already_linked_reply, link_usage_reply,
    linked_reply, LinkCommand,
};
use dazeus_karma::karma::{Aliases, Karma, KarmaAmount, KarmaChange, KarmaStyle};
use dazeus_karma::ops::{link_terms, plan_unlink, unlink_term, LinkOutcome, UnlinkOutcome};
use dazeus_karma::store::MemStore;

fn record(term: &str, up: i64, down: i64, aliases: Option<Aliases>) -> Karma {
    Karma {
        term: term.to_owned(),
        original_term: term.to_owned(),
        votes: KarmaAmount { up, down },
        first_vote: Some("2015-03-14T09:26:53+01:00".to_owned()),
        last_vote: Some("2016-01-02T03:04:05+01:00".to_owned()),
        aliases,
    }
}

fn change(term: &str, up: i64, down: i64, style: KarmaStyle) -> KarmaChange {
    KarmaChange { term: term.to_owned(), votes: KarmaAmount { up, down }, style }
}

fn terms_of(group: &KarmaGroup) -> Vec<String> {
    let mut ts: Vec<String> = group.karmas.iter().map(|k| k.term.clone()).collect();
    ts.sort();
    ts
}

#[test]
fn store_get_and_set() {
    let mut store = MemStore::new();
    assert!(store.get(&"k".to_owned()).is_none());
    store.set("k".to_owned(), "v1".to_owned());
    assert_eq!(store.get(&"k".to_owned()).unwrap(), "v1");
    store.set("k".to_owned(), "v2".to_owned());
    assert_eq!(store.get(&"k".to_owned()).unwrap(), "v2");
    assert_eq!(store.size(), 1);
}

#[test]
fn fetch_round_trips_through_the_store() {
    let mut store = MemStore::new();
    save_karma(&mut store, &record("foo", 4, 1, None));
    let k = fetch_karma(&store, "FOO").unwrap();
    assert_eq!(k.term, "foo");
    assert_eq!(k.original_term, "FOO");
    assert_eq!(k.votes, KarmaAmount { up: 4, down: 1 });
    assert!(fetch_karma(&store, "bar").is_none());
}

#[test]
fn fetch_or_create_falls_back_to_fresh() {
    let store = MemStore::new();
    let k = fetch_or_create(&store, "Fresh");
    assert_eq!(k.term, "fresh");
    assert_eq!(k.original_term, "Fresh");
    assert_eq!(k.votes, KarmaAmount { up: 0, down: 0 });
}

#[test]
fn resolver_finds_the_same_group_from_either_end() {
    let mut store = MemStore::new();
    save_karma(&mut store, &record("a", 1, 0, Some(Aliases::To("b".to_owned()))));
    save_karma(
        &mut store,
        &record("b", 2, 0, Some(Aliases::FromOther(vec!["a".to_owned()]))),
    );
    let from_a = KarmaGroup::resolve(&store, "A").unwrap();
    let from_b = KarmaGroup::resolve(&store, "b").unwrap();
    assert_eq!(from_a.main, "b");
    assert_eq!(from_b.main, "b");
    assert_eq!(terms_of(&from_a), vec!["a".to_owned(), "b".to_owned()]);
    assert_eq!(terms_of(&from_b), vec!["a".to_owned(), "b".to_owned()]);
    assert_eq!(from_a.votes(), KarmaAmount { up: 3, down: 0 });
}

#[test]
fn resolver_keeps_the_first_main_candidate_it_meets() {
    let mut store = MemStore::new();
    save_karma(
        &mut store,
        &record("a", 1, 0, Some(Aliases::FromOther(vec!["b".to_owned()]))),
    );
    save_karma(
        &mut store,
        &record("b", 2, 0, Some(Aliases::FromOther(vec!["a".to_owned()]))),
    );
    let from_a = KarmaGroup::resolve(&store, "a").unwrap();
    let from_b = KarmaGroup::resolve(&store, "b").unwrap();
    assert_eq!(from_a.karmas.len(), 2);
    assert_eq!(from_a.main, "a");
    assert_eq!(from_b.main, "b");
}

#[test]
fn resolver_errors_only_on_a_missing_start_term() {
    let store = MemStore::new();
    let err = KarmaGroup::resolve(&store, "ghost").unwrap_err();
    assert_eq!(err.description(), "karma term not found");
    let group = KarmaGroup::resolve_or_new(&store, "Ghost");
    assert_eq!(group.main, "ghost");
    assert_eq!(group.karmas.len(), 1);
}

#[test]
fn resolver_drops_dangling_aliases() {
    let mut store = MemStore::new();
    save_karma(
        &mut store,
        &record("b", 2, 0, Some(Aliases::FromOther(vec!["gone".to_owned()]))),
    );
    let group = KarmaGroup::resolve(&store, "b").unwrap();
    assert_eq!(group.karmas.len(), 1);
    assert_eq!(group.main, "b");
}

#[test]
fn group_report_strings() {
    let mut store = MemStore::new();
    save_karma(&mut store, &record("foo", 4, 1, None));
    let group = KarmaGroup::resolve(&store, "foo").unwrap();
    assert_eq!(group.report(), "foo has a karma of 3 (+4, -1)");
    let mut store = MemStore::new();
    save_karma(&mut store, &record("bar", 2, 2, None));
    let group = KarmaGroup::resolve(&store, "bar").unwrap();
    assert_eq!(group.report(), "bar has neutral karma (+2, -2)");
}

#[test]
fn describe_structure_strings() {
    let store = {
        let mut s = MemStore::new();
        save_karma(&mut s, &record("a", 0, 0, Some(Aliases::To("b".to_owned()))));
        save_karma(
            &mut s,
            &record("b", 0, 0, Some(Aliases::FromOther(vec!["a".to_owned()]))),
        );
        s
    };
    let group = KarmaGroup::resolve(&store, "b").unwrap();
    assert_eq!(group.describe_structure(), "'a' redirects to b");
    let lone = KarmaGroup::new("solo");
    assert_eq!(lone.describe_structure(), "solo is not linked");
}

#[test]
fn aggregation_merges_terms_and_styles() {
    let changes = vec![
        change("foo", 1, 0, KarmaStyle::Implicit),
        change("foo", 1, 0, KarmaStyle::Notify),
    ];
    let agg = aggregate(&changes);
    assert_eq!(agg.len(), 1);
    assert_eq!(agg[0].term, "foo");
    assert_eq!(agg[0].votes, KarmaAmount { up: 2, down: 0 });
    assert_eq!(agg[0].style, KarmaStyle::Notify);
}

#[test]
fn aggregation_canonicalizes_and_keeps_first_occurrence_order() {
    let changes = vec![
        change("Foo", 1, 0, KarmaStyle::Implicit),
        change("bar", 0, 1, KarmaStyle::Silent),
        change("FOO", 1, 1, KarmaStyle::Implicit),
    ];
    let agg = aggregate(&changes);
    assert_eq!(agg.len(), 2);
    assert_eq!(agg[0].term, "foo");
    assert_eq!(agg[0].votes, KarmaAmount { up: 2, down: 1 });
    assert_eq!(agg[1].term, "bar");
    assert_eq!(agg[1].votes, KarmaAmount { up: 0, down: 1 });
}

#[test]
fn register_votes_applies_and_groups() {
    let mut store = MemStore::new();
    let changes = vec![
        change("foo", 1, 0, KarmaStyle::Notify),
        change("foo", 1, 0, KarmaStyle::Implicit),
    ];
    let group_changes = register_votes(&mut store, &changes);
    assert_eq!(group_changes.len(), 1);
    assert_eq!(group_changes[0].increase, 2);
    assert_eq!(group_changes[0].style, KarmaStyle::Notify);
    let k = fetch_karma(&store, "foo").unwrap();
    assert_eq!(k.votes, KarmaAmount { up: 2, down: 0 });
    let replies = notify_replies("alice", &group_changes);
    assert_eq!(replies, vec!["alice increased the karma of foo to 2".to_owned()]);
}

#[test]
fn register_votes_is_silent_without_notify() {
    let mut store = MemStore::new();
    let changes = vec![change("foo", 0, 1, KarmaStyle::Silent)];
    let group_changes = register_votes(&mut store, &changes);
    let replies = notify_replies("bob", &group_changes);
    assert!(replies.is_empty());
    let k = fetch_karma(&store, "foo").unwrap();
    assert_eq!(k.votes, KarmaAmount { up: 0, down: 1 });
}

#[test]
fn register_votes_merges_changes_of_one_group() {
    let mut store = MemStore::new();
    save_karma(&mut store, &record("a", 0, 0, Some(Aliases::To("b".to_owned()))));
    save_karma(
        &mut store,
        &record("b", 0, 0, Some(Aliases::FromOther(vec!["a".to_owned()]))),
    );
    let changes = vec![
        change("a", 1, 0, KarmaStyle::Notify),
        change("b", 1, 0, KarmaStyle::Implicit),
    ];
    let group_changes = register_votes(&mut store, &changes);
    assert_eq!(group_changes.len(), 1);
    assert_eq!(group_changes[0].increase, 2);
    assert_eq!(group_changes[0].group.main, "b");
}

#[test]
fn link_rejects_already_linked_terms() {
    let mut store = MemStore::new();
    save_karma(&mut store, &record("a", 1, 0, Some(Aliases::To("b".to_owned()))));
    save_karma(
        &mut store,
        &record("b", 2, 0, Some(Aliases::FromOther(vec!["a".to_owned()]))),
    );
    let before_a = store.get(&"dazeus_karma.a".to_owned()).unwrap().clone();
    let before_b = store.get(&"dazeus_karma.b".to_owned()).unwrap().clone();
    let outcome = link_terms(&mut store, &vec!["a".to_owned()], "c");
    match outcome {
        LinkOutcome::AlreadyLinked(ls) => assert_eq!(ls, vec!["a".to_owned()]),
        LinkOutcome::Linked(_) => panic!("link should have been refused"),
    }
    assert_eq!(store.get(&"dazeus_karma.a".to_owned()).unwrap(), &before_a);
    assert_eq!(store.get(&"dazeus_karma.b".to_owned()).unwrap(), &before_b);
    assert!(store.get(&"dazeus_karma.c".to_owned()).is_none());
}

#[test]
fn link_rejects_a_satellite_main() {
    let mut store = MemStore::new();
    save_karma(&mut store, &record("a", 1, 0, Some(Aliases::To("b".to_owned()))));
    save_karma(
        &mut store,
        &record("b", 2, 0, Some(Aliases::FromOther(vec!["a".to_owned()]))),
    );
    let before_a = store.get(&"dazeus_karma.a".to_owned()).unwrap().clone();
    let outcome = link_terms(&mut store, &vec!["c".to_owned()], "a");
    assert_eq!(outcome, LinkOutcome::AlreadyLinked(vec!["a".to_owned()]));
    assert_eq!(store.get(&"dazeus_karma.a".to_owned()).unwrap(), &before_a);
    assert!(store.get(&"dazeus_karma.c".to_owned()).is_none());
    let a = fetch_karma(&store, "a").unwrap();
    assert_eq!(a.aliases, Some(Aliases::To("b".to_owned())));
}

#[test]
fn resolver_walk_reports_corrupt_alias_data() {
    let mut with_two_mains = GroupResolver::new("a");
    assert_eq!(with_two_mains.next_term(), Some("a".to_owned()));
    with_two_mains.absorb(record("a", 0, 0, Some(Aliases::FromOther(vec!["b".to_owned()]))));
    assert_eq!(with_two_mains.next_term(), Some("b".to_owned()));
    with_two_mains.absorb(record("b", 0, 0, Some(Aliases::FromOther(vec!["a".to_owned()]))));
    assert!(with_two_mains.next_term().is_none());
    assert!(with_two_mains.found_extra_main());
    assert!(!with_two_mains.missing_main());

    let mut without_main = GroupResolver::new("x");
    assert_eq!(without_main.next_term(), Some("x".to_owned()));
    without_main.absorb(record("x", 0, 0, Some(Aliases::To("y".to_owned()))));
    assert_eq!(without_main.next_term(), Some("y".to_owned()));
    without_main.absorb(record("y", 0, 0, Some(Aliases::To("x".to_owned()))));
    assert!(without_main.next_term().is_none());
    assert!(!without_main.found_extra_main());
    assert!(without_main.missing_main());
    let group = without_main.finish("x");
    assert_eq!(group.main, "x");
    assert_eq!(group.karmas.len(), 2);
}

#[test]
fn karmafight_with_no_groups_has_no_winner() {
    let highest = find_highest_karma(Vec::new());
    assert!(highest.is_empty());
}

#[test]
fn link_allows_the_main_to_absorb_more_terms() {
    let mut store = MemStore::new();
    save_karma(&mut store, &record("a", 0, 0, Some(Aliases::To("b".to_owned()))));
    save_karma(
        &mut store,
        &record("b", 0, 0, Some(Aliases::FromOther(vec!["a".to_owned()]))),
    );
    let outcome = link_terms(&mut store, &vec!["c".to_owned()], "b");
    assert_eq!(outcome, LinkOutcome::Linked(2));
    let group = KarmaGroup::resolve(&store, "b").unwrap();
    assert_eq!(group.main, "b");
    assert_eq!(
        terms_of(&group),
        vec!["a".to_owned(), "b".to_owned(), "c".to_owned()]
    );
}

#[test]
fn link_builds_a_group_from_scratch() {
    let mut store = MemStore::new();
    save_karma(&mut store, &record("x", 3, 0, None));
    let outcome = link_terms(&mut store, &vec!["x".to_owned(), "y".to_owned()], "Z");
    assert_eq!(outcome, LinkOutcome::Linked(2));
    let x = fetch_karma(&store, "x").unwrap();
    assert_eq!(x.aliases, Some(Aliases::To("z".to_owned())));
    assert_eq!(x.votes, KarmaAmount { up: 3, down: 0 });
    let z = fetch_karma(&store, "z").unwrap();
    assert_eq!(
        z.aliases,
        Some(Aliases::FromOther(vec!["x".to_owned(), "y".to_owned()]))
    );
    let group = KarmaGroup::resolve(&store, "y").unwrap();
    assert_eq!(group.main, "z");
    assert_eq!(group.karmas.len(), 3);
    assert_eq!(group.votes(), KarmaAmount { up: 3, down: 0 });
}

#[test]
fn unlink_splits_a_three_member_group() {
    let mut store = MemStore::new();
    save_karma(&mut store, &record("a", 1, 0, Some(Aliases::To("b".to_owned()))));
    save_karma(
        &mut store,
        &record(
            "b",
            2,
            1,
            Some(Aliases::FromOther(vec!["a".to_owned(), "c".to_owned()])),
        ),
    );
    save_karma(&mut store, &record("c", 0, 3, Some(Aliases::To("b".to_owned()))));
    let outcome = unlink_term(&mut store, "a");
    match &outcome {
        UnlinkOutcome::Unlinked(ts) => assert_eq!(ts.len(), 3),
        UnlinkOutcome::NotLinked(_) => panic!("the group should have been split"),
    }
    for (term, up, down) in [("a", 1, 0), ("b", 2, 1), ("c", 0, 3)] {
        let k = fetch_karma(&store, term).unwrap();
        assert!(k.aliases.is_none());
        assert_eq!(k.votes, KarmaAmount { up, down });
        let group = KarmaGroup::resolve(&store, term).unwrap();
        assert_eq!(group.karmas.len(), 1);
        assert_eq!(group.main, term);
    }
}

#[test]
fn unlink_of_a_singleton_is_a_no_op() {
    let mut store = MemStore::new();
    save_karma(&mut store, &record("solo", 5, 0, None));
    let before = store.get(&"dazeus_karma.solo".to_owned()).unwrap().clone();
    let outcome = unlink_term(&mut store, "SOLO");
    assert_eq!(outcome, UnlinkOutcome::NotLinked("solo".to_owned()));
    assert_eq!(unlink_reply(&outcome), "solo is not linked");
    assert_eq!(store.get(&"dazeus_karma.solo".to_owned()).unwrap(), &before);
}

#[test]
fn plan_unlink_clears_aliases_only() {
    let group = KarmaGroup {
        karmas: vec![
            record("a", 1, 0, Some(Aliases::To("b".to_owned()))),
            record("b", 2, 0, Some(Aliases::FromOther(vec!["a".to_owned()]))),
        ],
        main: "b".to_owned(),
    };
    let cleared = plan_unlink(&group).unwrap();
    assert_eq!(cleared.len(), 2);
    for (c, o) in cleared.iter().zip(group.karmas.iter()) {
        assert!(c.aliases.is_none());
        assert_eq!(c.term, o.term);
        assert_eq!(c.votes, o.votes);
        assert_eq!(c.first_vote, o.first_vote);
        assert_eq!(c.last_vote, o.last_vote);
    }
    assert!(plan_unlink(&KarmaGroup::new("solo")).is_none());
}

#[test]
fn unlink_reply_lists_the_freed_terms() {
    let outcome = UnlinkOutcome::Unlinked(vec!["a".to_owned(), "b".to_owned()]);
    assert_eq!(unlink_reply(&outcome), "Ack, unlinked 'a', 'b'");
}

#[test]
fn karmafight_reports_tied_groups_sorted_by_up_votes() {
    let mut store = MemStore::new();
    save_karma(&mut store, &record("y", 4, 1, None));
    save_karma(&mut store, &record("x", 3, 0, None));
    let groups = vec![
        KarmaGroup::resolve(&store, "y").unwrap(),
        KarmaGroup::resolve(&store, "x").unwrap(),
    ];
    let highest = find_highest_karma(groups);
    assert_eq!(highest.len(), 2);
    assert_eq!(highest[0].main, "x");
    assert_eq!(highest[1].main, "y");
    assert_eq!(fight_reply(&highest), "x, y all have the same karma: 3");
}

#[test]
fn karmafight_single_winner_reply() {
    let mut store = MemStore::new();
    save_karma(&mut store, &record("big", 7, 2, None));
    save_karma(&mut store, &record("small", 1, 0, None));
    let groups = vec![
        KarmaGroup::resolve(&store, "big").unwrap(),
        KarmaGroup::resolve(&store, "small").unwrap(),
    ];
    let highest = find_highest_karma(groups);
    assert_eq!(highest.len(), 1);
    assert_eq!(fight_reply(&highest), "big wins with 5 (+7, -2)");
}

#[test]
fn karmafight_marks_grouped_winners() {
    let mut store = MemStore::new();
    save_karma(&mut store, &record("a", 9, 0, Some(Aliases::To("b".to_owned()))));
    save_karma(
        &mut store,
        &record("b", 1, 0, Some(Aliases::FromOther(vec!["a".to_owned()]))),
    );
    save_karma(&mut store, &record("lone", 1, 0, None));
    let groups = vec![
        KarmaGroup::resolve(&store, "b").unwrap(),
        KarmaGroup::resolve(&store, "lone").unwrap(),
    ];
    let highest = find_highest_karma(groups);
    assert_eq!(highest.len(), 1);
    assert_eq!(fight_reply(&highest), "b (+) wins with 10 (+10, -0)");
}

#[test]
fn group_membership_check_spans_all_groups() {
    let groups = vec![KarmaGroup::new("a"), KarmaGroup::new("b")];
    assert!(any_group_contains(&groups, &"a".to_owned()));
    assert!(any_group_contains(&groups, &"b".to_owned()));
    assert!(!any_group_contains(&groups, &"c".to_owned()));
}

#[test]
fn link_command_parsing() {
    let stat = parse_link_command(&vec!["foo".to_owned()]);
    assert_eq!(stat, LinkCommand::Stat("foo".to_owned()));
    let usage = parse_link_command(&vec!["a".to_owned(), "b".to_owned()]);
    assert_eq!(usage, LinkCommand::Usage);
    let usage = parse_link_command(&vec!["a".to_owned(), "b".to_owned(), "c".to_owned()]);
    assert_eq!(usage, LinkCommand::Usage);
    let link = parse_link_command(&vec![
        "a".to_owned(),
        "b".to_owned(),
        "into".to_owned(),
        "c".to_owned(),
    ]);
    assert_eq!(
        link,
        LinkCommand::Link(vec!["a".to_owned(), "b".to_owned()], "c".to_owned())
    );
}

#[test]
fn link_replies() {
    assert_eq!(
        already_linked_reply(&vec!["a".to_owned(), "b".to_owned()], "}"),
        "'a', 'b' are already linked. Split first using }karmaunlink X"
    );
    assert_eq!(link_usage_reply("}"), "Usage: }karmalink X Y into Z");
    assert_eq!(linked_reply(2, "main"), "Linked 2 terms together into main");
}
