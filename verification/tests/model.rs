use indexmap::IndexSet;
use joebot_markov_chain::append::{intern_words, source_has_name, word_ends_sentence};
use joebot_markov_chain::date::{datestamp_of, parse_datestamp};
use joebot_markov_chain::message::{absorb_event, append_message};
use joebot_markov_chain::tokenize::split_words;
use joebot_markov_chain::vocabulary::{intern, resolve};
use joebot_markov_chain::{
    AppendError, ChainPrefix, ChainSuffix, Datestamp, ExtractedMessage, MarkovChain,
    MessageEvent, TextSource, NGRAM_CNT,
};

#[test]
fn suffix_keeps_the_low_bits_and_the_flag() {
    let s = ChainSuffix::terminal(5);
    assert_eq!(s.word_idx(), 5);
    assert!(s.is_terminal());
    let s = ChainSuffix::nonterminal(5);
    assert_eq!(s.word_idx(), 5);
    assert!(!s.is_terminal());
    assert_eq!(ChainSuffix::terminal(0x8000_0005), ChainSuffix::terminal(5));
    assert_eq!(ChainSuffix::nonterminal(0xffff_ffff).word_idx(), 0x7fff_ffff);
    assert!(!ChainSuffix::nonterminal(0xffff_ffff).is_terminal());
    assert_eq!(ChainSuffix::terminal(0x7fff_ffff).word_idx(), 0x7fff_ffff);
    assert!(ChainSuffix::terminal(0).is_terminal());
    assert_ne!(ChainSuffix::terminal(0), ChainSuffix::nonterminal(0));
}

#[test]
fn suffix_is_described_by_flag_and_word() {
    assert_eq!(ChainSuffix::terminal(5).describe(), "Terminal(5)");
    assert_eq!(ChainSuffix::nonterminal(0).describe(), "NonTerminal(0)");
    assert_eq!(ChainSuffix::nonterminal(10).describe(), "NonTerminal(10)");
    assert_eq!(
        ChainSuffix::terminal(0xffff_ffff).describe(),
        "Terminal(2147483647)"
    );
    assert_eq!(ChainSuffix::terminal(1090).describe(), "Terminal(1090)");
}

#[test]
fn prefix_carries_the_words_and_the_flag() {
    assert_eq!(NGRAM_CNT, 2);
    let p = ChainPrefix::starting([3, 4]);
    assert_eq!(p.words, [3, 4]);
    assert!(p.starting);
    let q = ChainPrefix::nonstarting([3, 4]);
    assert_eq!(q.words, [3, 4]);
    assert!(!q.starting);
    assert_ne!(p, q);
}

#[test]
fn datestamps_are_ordered_by_year_then_day() {
    let d = |year, day| Datestamp { year, day };
    assert!(d(2018, 21).le(&d(2018, 21)));
    assert!(d(2018, 21).le(&d(2018, 22)));
    assert!(!d(2018, 22).le(&d(2018, 21)));
    assert!(d(2017, 366).le(&d(2018, 0)));
    assert!(!d(2018, 0).le(&d(2017, 366)));
    assert!(d(-1, 5).le(&d(0, 0)));
    assert!(d(2018, 21).within(&d(2018, 21), &d(2018, 21)));
    assert!(d(2018, 21).within(&d(2018, 10), &d(2018, 21)));
    assert!(d(2018, 10).within(&d(2018, 10), &d(2018, 21)));
    assert!(!d(2018, 22).within(&d(2018, 10), &d(2018, 21)));
    assert!(!d(2018, 9).within(&d(2018, 10), &d(2018, 21)));
    assert!(!d(2018, 15).within(&d(2018, 21), &d(2018, 10)));
    assert!(d(2018, 400).within(&d(2017, 500), &d(2019, 0)));
    assert_eq!(Datestamp::default(), d(0, 0));
    assert!(d(2018, 21) < d(2018, 22));
}

#[test]
fn timestamps_give_the_year_and_the_day_of_the_year() {
    let d = |year, day| Datestamp { year, day };
    assert_eq!(parse_datestamp("2018.01.21 18:05:31"), Ok(d(2018, 21)));
    assert_eq!(parse_datestamp("2020.12.31 23:59:59"), Ok(d(2020, 366)));
    assert_eq!(parse_datestamp("2019.12.31 00:00:00"), Ok(d(2019, 365)));
    assert_eq!(parse_datestamp("2019.03.01 00:00:00"), Ok(d(2019, 60)));
    assert_eq!(parse_datestamp("0001.01.01 00:00:00"), Ok(d(1, 1)));
    assert_eq!(parse_datestamp(""), Err(AppendError::MalformedDate));
    assert_eq!(
        parse_datestamp("2018-01-21 18:05:31"),
        Err(AppendError::MalformedDate)
    );
    assert_eq!(
        parse_datestamp("2019.02.29 00:00:00"),
        Err(AppendError::MalformedDate)
    );
    assert_eq!(
        parse_datestamp("2018.01.21 24:00:00"),
        Err(AppendError::MalformedDate)
    );
    assert_eq!(
        parse_datestamp("2018.01.21"),
        Err(AppendError::MalformedDate)
    );
    assert_eq!(
        parse_datestamp("2018.01.21 18:05:31 and more"),
        Err(AppendError::MalformedDate)
    );
}

#[test]
fn datestamps_keep_sixteen_bits() {
    let d = |year, day| Datestamp { year, day };
    assert_eq!(datestamp_of(2018, 21), d(2018, 21));
    assert_eq!(datestamp_of(-5, 366), d(-5, 366));
    assert_eq!(datestamp_of(32767, 65535), d(32767, 65535));
    assert_eq!(datestamp_of(-32768, 0), d(-32768, 0));
    assert_eq!(datestamp_of(70000, 70000), d(4464, 4464));
    assert_eq!(datestamp_of(32768, 65536), d(-32768, 0));
}

#[test]
fn interning_gives_ids_in_order_of_first_occurrence() {
    let mut words = IndexSet::new();
    assert_eq!(intern(&mut words, "b".into()), 0);
    assert_eq!(intern(&mut words, "a".into()), 1);
    assert_eq!(intern(&mut words, "b".into()), 0);
    assert_eq!(intern(&mut words, "b".into()), 0);
    assert_eq!(intern(&mut words, "c".into()), 2);
    assert_eq!(intern(&mut words, "a".into()), 1);
    assert_eq!(words.len(), 3);
    assert_eq!(resolve(&words, 0), Some(&"b".to_string()));
    assert_eq!(resolve(&words, 1), Some(&"a".to_string()));
    assert_eq!(resolve(&words, 2), Some(&"c".to_string()));
    assert_eq!(resolve(&words, 3), None);
    assert_eq!(resolve(&words, u32::MAX), None);
    assert_eq!(resolve(&IndexSet::new(), 0), None);
    let ids = intern_words(
        &mut words,
        vec!["d".into(), "a".into(), "d".into(), "e".into(), "b".into()],
    );
    assert_eq!(ids, vec![3, 1, 3, 4, 0]);
    assert_eq!(intern_words(&mut words, vec![]), Vec::<u32>::new());
    assert_eq!(words.len(), 5);
}

#[test]
fn text_is_split_on_spaces_and_line_feeds() {
    let split = |text: &str| split_words(text);
    assert_eq!(split("a b c"), vec!["a", "b", "c"]);
    assert_eq!(split("  a \n\n b\nc \n"), vec!["a", "b", "c"]);
    assert_eq!(split("one"), vec!["one"]);
    assert_eq!(split(""), Vec::<String>::new());
    assert_eq!(split(" \n "), Vec::<String>::new());
    assert_eq!(split("a\tb\r\nc"), vec!["a\tb\r", "c"]);
    assert_eq!(split("чай? 🤔🤔🤔\n(´･ω･`)"), vec!["чай?", "🤔🤔🤔", "(´･ω･`)"]);
    assert_eq!(split("a\u{a0}b c"), vec!["a\u{a0}b", "c"]);
}

#[test]
fn sentences_end_with_a_stop_or_a_mark() {
    assert!(word_ends_sentence("red."));
    assert!(word_ends_sentence("чай?"));
    assert!(word_ends_sentence("no!"));
    assert!(word_ends_sentence("."));
    assert!(word_ends_sentence("what?!"));
    assert!(!word_ends_sentence(""));
    assert!(!word_ends_sentence("red"));
    assert!(!word_ends_sentence(".red"));
    assert!(!word_ends_sentence("red.)"));
    assert!(!word_ends_sentence("red,"));
    assert!(!word_ends_sentence("red…"));
    assert!(!word_ends_sentence("🤔🤔🤔"));
}

#[test]
fn a_new_model_is_empty() {
    let chain = MarkovChain::new();
    assert!(chain.words.is_empty());
    assert!(chain.sources.is_empty());
    let chain = MarkovChain::default();
    assert!(chain.words.is_empty());
    assert!(chain.sources.is_empty());
    let source = TextSource::default();
    assert!(source.names.is_empty());
    assert!(source.entries.is_empty());
    let message = ExtractedMessage::default();
    assert!(message.names.is_empty());
    assert!(message.body.is_empty());
    assert_eq!(message.datestamp, Datestamp { year: 0, day: 0 });
}

#[test]
fn a_source_is_found_by_any_of_its_names() {
    let mut source = TextSource::default();
    source.names.insert("ann".into());
    source.names.insert("annie".into());
    assert!(source_has_name(&source, &vec!["annie".into()]));
    assert!(source_has_name(&source, &vec!["bob".into(), "ann".into()]));
    assert!(!source_has_name(&source, &vec!["bob".into(), "an".into()]));
    assert!(!source_has_name(&source, &vec![]));
    assert!(!source_has_name(&TextSource::default(), &vec!["ann".into()]));
}

#[test]
fn events_fill_the_message_in_flight() {
    let mut chain = MarkovChain::new();
    let mut message = ExtractedMessage::default();
    for event in [
        MessageEvent::Start(3),
        MessageEvent::FullNameExtracted("Ann Lee".into()),
        MessageEvent::ShortNameExtracted("ann".into()),
        MessageEvent::DateExtracted("2018.02.01 10:00:00".into()),
        MessageEvent::BodyPartExtracted("one two".into()),
        MessageEvent::Other,
        MessageEvent::BodyPartExtracted(" three.".into()),
    ] {
        message = absorb_event(&mut chain, message, event).unwrap();
    }
    assert_eq!(message.names, vec!["Ann Lee", "ann"]);
    assert_eq!(message.datestamp, Datestamp { year: 2018, day: 32 });
    assert_eq!(message.body, "one two three.");
    assert!(chain.sources.is_empty());
    assert!(chain.words.is_empty());

    let failed = absorb_event(
        &mut chain,
        ExtractedMessage::default(),
        MessageEvent::DateExtracted("yesterday".into()),
    );
    assert_eq!(failed.err(), Some(AppendError::MalformedDate));

    let message = absorb_event(&mut chain, message, MessageEvent::Start(0)).unwrap();
    assert!(message.names.is_empty());
    assert!(message.body.is_empty());
    assert_eq!(message.datestamp, Datestamp { year: 0, day: 0 });
    assert_eq!(chain.sources.len(), 1);
    assert_eq!(chain.sources[0].entries.len(), 1);
    assert!(chain.sources[0].entries[0].suffix.is_terminal());
    assert_eq!(
        chain.sources[0].entries[0].datestamp,
        Datestamp { year: 2018, day: 32 }
    );

    let message = absorb_event(&mut chain, message, MessageEvent::Start(0)).unwrap();
    assert!(message.body.is_empty());
    assert_eq!(chain.sources.len(), 1);

    append_message(
        &mut chain,
        ExtractedMessage {
            names: vec!["ann".into()],
            datestamp: Datestamp { year: 1, day: 1 },
            body: "three. two one".into(),
        },
    );
    assert_eq!(chain.sources.len(), 1);
    assert_eq!(chain.sources[0].entries.len(), 2);
    assert!(!chain.sources[0].entries[1].suffix.is_terminal());
    assert_eq!(chain.sources[0].entries[1].prefix.words, [2, 1]);
}
