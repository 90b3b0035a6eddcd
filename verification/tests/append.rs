use indexmap::IndexSet;
use joebot_markov_chain::append::{append_entries, push_text_entries, source_by_names};
use joebot_markov_chain::{
    AppendError, ChainAppend, ChainEntry, ChainPrefix, ChainSuffix, Datestamp, MarkovChain,
    MessageEvent,
};

fn set_of(items: &[&str]) -> IndexSet<String> {
    let mut set = IndexSet::new();
    for item in items {
        set.insert(item.to_string());
    }
    set
}

fn messages() -> Vec<MessageEvent> {
    vec![
        MessageEvent::Start(0),
        MessageEvent::FullNameExtracted("Sota Sota".into()),
        MessageEvent::ShortNameExtracted("sota".into()),
        MessageEvent::DateExtracted("2018.01.21 18:05:31".into()),
        MessageEvent::BodyPartExtracted("Привет Denko\n".into()),
        MessageEvent::BodyPartExtracted("Пью жасминовый чай (´･ω･`)".into()),
        MessageEvent::Other,
        MessageEvent::Start(0),
        MessageEvent::FullNameExtracted("Denko Denko".into()),
        MessageEvent::ShortNameExtracted("denko".into()),
        MessageEvent::DateExtracted("2018.01.22 09:10:11".into()),
        MessageEvent::BodyPartExtracted("Привет Sota".into()),
        MessageEvent::BodyPartExtracted(" Я тоже пью жасминовый чай? 🤔🤔🤔".into()),
    ]
}

const TEXT: &str = "useless unreliable\nheavily distorted probe.\nflashing red.\n";

#[test]
fn append_test_authors() {
    let mut chain = MarkovChain::new();
    chain.append_message_dump(messages()).unwrap();
    assert_eq!(chain.sources[0].names, set_of(&["Sota Sota", "sota"]));
    assert_eq!(chain.sources[1].names, set_of(&["Denko Denko", "denko"]));
}

#[test]
fn append_test_word_nodes() {
    let mut chain = MarkovChain::new();
    chain.append_message_dump(messages()).unwrap();
    assert_eq!(chain.words.get_index(0), Some(&"Привет".into()));
    assert_eq!(chain.words.get_index(1), Some(&"Denko".into()));
    assert_eq!(chain.words.get_index(2), Some(&"Пью".into()));

    assert_eq!(
        chain.sources[0].entries[0],
        ChainEntry {
            prefix: ChainPrefix::starting([0, 1]),
            suffix: ChainSuffix::nonterminal(2),
            datestamp: Datestamp {
                year: 2018,
                day: 21
            }
        }
    );
    assert_eq!(
        chain.sources[0].entries.last(),
        Some(&ChainEntry {
            prefix: ChainPrefix::nonstarting([3, 4]),
            suffix: ChainSuffix::nonterminal(5),
            datestamp: Datestamp {
                year: 2018,
                day: 21
            }
        })
    );
}

#[test]
fn append_test_no_empty_words() {
    let mut chain = MarkovChain::new();
    chain.append_message_dump(messages()).unwrap();
    let enumerated_words = chain.words.iter().enumerate();
    let empty_words =
        enumerated_words.filter_map(|(i, w)| if w.is_empty() { Some(i) } else { None });
    assert_eq!(empty_words.collect::<Vec<_>>(), vec![0usize; 0]);
}

#[test]
fn append_test_text() {
    let mut chain = MarkovChain::new();
    chain.append_text(
        TEXT,
        vec!["angus".into(), "sol onset".into()],
        Datestamp { year: 0, day: 0 },
    );
    assert_eq!(
        chain.words,
        set_of(&[
            "useless",
            "unreliable",
            "heavily",
            "distorted",
            "probe.",
            "flashing",
            "red."
        ])
    );
    assert_eq!(chain.sources[0].names, set_of(&["angus", "sol onset"]));
    assert_eq!(
        chain.sources[0].entries,
        vec![
            ChainEntry {
                prefix: ChainPrefix::starting([0, 1]),
                suffix: ChainSuffix::nonterminal(2),
                datestamp: Datestamp { year: 0, day: 0 }
            },
            ChainEntry {
                prefix: ChainPrefix::nonstarting([1, 2]),
                suffix: ChainSuffix::nonterminal(3),
                datestamp: Datestamp { year: 0, day: 0 }
            },
            ChainEntry {
                prefix: ChainPrefix::nonstarting([2, 3]),
                suffix: ChainSuffix::nonterminal(4),
                datestamp: Datestamp { year: 0, day: 0 }
            },
            ChainEntry {
                prefix: ChainPrefix::nonstarting([3, 4]),
                suffix: ChainSuffix::nonterminal(5),
                datestamp: Datestamp { year: 0, day: 0 }
            },
            ChainEntry {
                prefix: ChainPrefix::nonstarting([4, 5]),
                suffix: ChainSuffix::terminal(6),
                datestamp: Datestamp { year: 0, day: 0 }
            }
        ]
    );
}

#[test]
fn punctuation_marks_the_ends_of_sentences() {
    let mut chain = MarkovChain::new();
    append_entries(
        &mut chain,
        TEXT,
        vec!["angus".into(), "sol onset".into()],
        Datestamp { year: 0, day: 0 },
        true,
    );
    assert_eq!(
        chain.sources[0].entries,
        vec![
            ChainEntry {
                prefix: ChainPrefix::starting([0, 1]),
                suffix: ChainSuffix::nonterminal(2),
                datestamp: Datestamp { year: 0, day: 0 }
            },
            ChainEntry {
                prefix: ChainPrefix::nonstarting([1, 2]),
                suffix: ChainSuffix::nonterminal(3),
                datestamp: Datestamp { year: 0, day: 0 }
            },
            ChainEntry {
                prefix: ChainPrefix::nonstarting([2, 3]),
                suffix: ChainSuffix::terminal(4),
                datestamp: Datestamp { year: 0, day: 0 }
            },
            ChainEntry {
                prefix: ChainPrefix::starting([3, 4]),
                suffix: ChainSuffix::nonterminal(5),
                datestamp: Datestamp { year: 0, day: 0 }
            },
            ChainEntry {
                prefix: ChainPrefix::nonstarting([4, 5]),
                suffix: ChainSuffix::terminal(6),
                datestamp: Datestamp { year: 0, day: 0 }
            }
        ]
    );
}

#[test]
fn message_records_end_where_a_word_ends_a_sentence() {
    let mut chain = MarkovChain::new();
    chain.append_message_dump(messages()).unwrap();
    let denko = &chain.sources[1].entries;
    assert_eq!(denko.len(), 6);
    for entry in denko {
        let word = chain.words.get_index(entry.suffix.word_idx() as usize).unwrap();
        let ends = word.ends_with('.') || word.ends_with('!') || word.ends_with('?');
        assert_eq!(entry.suffix.is_terminal(), ends);
        assert_eq!(entry.datestamp, Datestamp { year: 2018, day: 22 });
    }
    assert_eq!(denko.iter().filter(|e| e.suffix.is_terminal()).count(), 1);
    assert!(denko[4].suffix.is_terminal());
    assert!(denko[5].prefix.starting);
    assert!(chain.sources[0].entries.iter().all(|e| !e.suffix.is_terminal()));
}

#[test]
fn short_text_leaves_no_record() {
    let mut chain = MarkovChain::new();
    chain.append_text("only two", vec!["a".into()], Datestamp { year: 1, day: 2 });
    assert_eq!(chain.words, set_of(&["only", "two"]));
    assert_eq!(chain.sources.len(), 1);
    assert_eq!(chain.sources[0].names, set_of(&["a"]));
    assert!(chain.sources[0].entries.is_empty());
    chain.append_text("", vec!["a".into()], Datestamp { year: 1, day: 2 });
    chain.append_text(" \n \n", vec!["a".into()], Datestamp { year: 1, day: 2 });
    assert_eq!(chain.words.len(), 2);
    assert_eq!(chain.sources.len(), 1);
    assert!(chain.sources[0].entries.is_empty());
}

#[test]
fn three_words_leave_one_terminal_record() {
    let mut chain = MarkovChain::new();
    chain.append_text("a b c", vec!["x".into()], Datestamp { year: 3, day: 4 });
    assert_eq!(
        chain.sources[0].entries,
        vec![ChainEntry {
            prefix: ChainPrefix::starting([0, 1]),
            suffix: ChainSuffix::terminal(2),
            datestamp: Datestamp { year: 3, day: 4 }
        }]
    );
}

#[test]
fn windows_cover_the_text_in_order() {
    let mut chain = MarkovChain::new();
    let text = "one two three four five six seven";
    chain.append_text(text, vec!["x".into()], Datestamp { year: 0, day: 0 });
    let tokens: Vec<&str> = text.split(' ').collect();
    let entries = &chain.sources[0].entries;
    assert_eq!(entries.len(), tokens.len() - 2);
    for (i, entry) in entries.iter().enumerate() {
        let word = |id: u32| chain.words.get_index(id as usize).unwrap().as_str();
        assert_eq!(word(entry.prefix.words[0]), tokens[i]);
        assert_eq!(word(entry.prefix.words[1]), tokens[i + 1]);
        assert_eq!(word(entry.suffix.word_idx()), tokens[i + 2]);
        assert_eq!(entry.suffix.is_terminal(), i == entries.len() - 1);
        assert_eq!(entry.prefix.starting, i == 0);
    }
}

#[test]
fn a_window_equal_to_the_last_is_terminal_too() {
    let mut chain = MarkovChain::new();
    chain.append_text("a b c a b c", vec!["x".into()], Datestamp { year: 0, day: 0 });
    let flags: Vec<bool> = chain.sources[0]
        .entries
        .iter()
        .map(|e| e.suffix.is_terminal())
        .collect();
    assert_eq!(flags, vec![true, false, false, true]);
    let starts: Vec<bool> = chain.sources[0]
        .entries
        .iter()
        .map(|e| e.prefix.starting)
        .collect();
    assert_eq!(starts, vec![true, true, false, false]);
}

#[test]
fn repeated_words_keep_their_ids() {
    let mut chain = MarkovChain::new();
    chain.append_text("b a b a c", vec!["x".into()], Datestamp { year: 0, day: 0 });
    assert_eq!(chain.words, set_of(&["b", "a", "c"]));
    let prefixes: Vec<[u32; 2]> = chain.sources[0]
        .entries
        .iter()
        .map(|e| e.prefix.words)
        .collect();
    assert_eq!(prefixes, vec![[0, 1], [1, 0], [0, 1]]);
    chain.append_text("c a d", vec!["x".into()], Datestamp { year: 0, day: 0 });
    assert_eq!(chain.words, set_of(&["b", "a", "c", "d"]));
    assert_eq!(
        chain.sources[0].entries[3],
        ChainEntry {
            prefix: ChainPrefix::starting([2, 1]),
            suffix: ChainSuffix::terminal(3),
            datestamp: Datestamp { year: 0, day: 0 }
        }
    );
}

#[test]
fn names_in_common_share_a_source() {
    let mut chain = MarkovChain::new();
    let date = Datestamp { year: 0, day: 0 };
    chain.append_text("a b c", vec!["ann".into(), "annie".into()], date);
    chain.append_text("d e f g", vec!["annie".into(), "anna".into()], date);
    assert_eq!(chain.sources.len(), 1);
    assert_eq!(chain.sources[0].names, set_of(&["ann", "annie"]));
    assert_eq!(chain.sources[0].entries.len(), 3);
    chain.append_text("h i j", vec!["anna".into()], date);
    assert_eq!(chain.sources.len(), 2);
    assert_eq!(chain.sources[1].names, set_of(&["anna"]));
    assert_eq!(chain.sources[1].entries.len(), 1);
    assert_eq!(chain.sources[0].entries.len(), 3);
}

#[test]
fn the_first_source_that_shares_a_name_is_picked() {
    let mut chain = MarkovChain::new();
    assert_eq!(source_by_names(&mut chain.sources, vec!["a".into()]), 0);
    assert_eq!(source_by_names(&mut chain.sources, vec!["b".into(), "b".into()]), 1);
    assert_eq!(chain.sources[1].names, set_of(&["b"]));
    assert_eq!(source_by_names(&mut chain.sources, vec!["c".into(), "b".into(), "a".into()]), 0);
    assert_eq!(source_by_names(&mut chain.sources, vec!["c".into(), "b".into()]), 1);
    assert_eq!(chain.sources.len(), 2);
    assert_eq!(source_by_names(&mut chain.sources, vec![]), 2);
    assert_eq!(source_by_names(&mut chain.sources, vec![]), 3);
    assert!(chain.sources[3].names.is_empty());
}

#[test]
fn records_are_appended_after_those_present() {
    let mut words = IndexSet::new();
    let date = Datestamp { year: 7, day: 8 };
    let kept = ChainEntry {
        prefix: ChainPrefix::nonstarting([9, 9]),
        suffix: ChainSuffix::nonterminal(9),
        datestamp: date,
    };
    let mut entries = vec![kept];
    push_text_entries("x y! z w", date, &mut entries, &mut words, true);
    assert_eq!(
        entries,
        vec![
            kept,
            ChainEntry {
                prefix: ChainPrefix::starting([0, 1]),
                suffix: ChainSuffix::nonterminal(2),
                datestamp: date
            },
            ChainEntry {
                prefix: ChainPrefix::nonstarting([1, 2]),
                suffix: ChainSuffix::nonterminal(3),
                datestamp: date
            },
        ]
    );
    push_text_entries("w x y!", date, &mut entries, &mut words, true);
    assert_eq!(
        entries[3],
        ChainEntry {
            prefix: ChainPrefix::starting([3, 0]),
            suffix: ChainSuffix::terminal(1),
            datestamp: date
        }
    );
}

#[test]
fn a_malformed_date_stops_the_dump() {
    let mut chain = MarkovChain::new();
    let events = vec![
        MessageEvent::Start(0),
        MessageEvent::FullNameExtracted("a".into()),
        MessageEvent::DateExtracted("2020.02.29 00:00:00".into()),
        MessageEvent::BodyPartExtracted("one two three.".into()),
        MessageEvent::Start(0),
        MessageEvent::FullNameExtracted("b".into()),
        MessageEvent::DateExtracted("21.01.2018".into()),
        MessageEvent::BodyPartExtracted("four five six.".into()),
        MessageEvent::Start(0),
    ];
    assert_eq!(chain.append_message_dump(events), Err(AppendError::MalformedDate));
    assert_eq!(chain.sources.len(), 1);
    assert_eq!(chain.words, set_of(&["one", "two", "three."]));
    assert_eq!(
        chain.sources[0].entries,
        vec![ChainEntry {
            prefix: ChainPrefix::starting([0, 1]),
            suffix: ChainSuffix::terminal(2),
            datestamp: Datestamp { year: 2020, day: 60 }
        }]
    );
}

#[test]
fn nested_messages_and_empty_bodies_are_not_flushed() {
    let mut chain = MarkovChain::new();
    let events = vec![
        MessageEvent::Start(0),
        MessageEvent::FullNameExtracted("a".into()),
        MessageEvent::DateExtracted("2019.12.31 23:59:59".into()),
        MessageEvent::Start(0),
        MessageEvent::FullNameExtracted("b".into()),
        MessageEvent::BodyPartExtracted("one two ".into()),
        MessageEvent::Start(1),
        MessageEvent::BodyPartExtracted("three four!".into()),
    ];
    assert_eq!(chain.append_message_dump(events), Ok(()));
    assert_eq!(chain.sources.len(), 1);
    assert_eq!(chain.sources[0].names, set_of(&["b"]));
    assert_eq!(chain.sources[0].entries.len(), 2);
    assert_eq!(chain.sources[0].entries[0].datestamp, Datestamp { year: 0, day: 0 });
    assert!(chain.sources[0].entries[1].suffix.is_terminal());
}
