use crispy_code::dur::Dur;
use crispy_code::lex::DEFAULT_OCTAVE;
use crispy_code::pattern::{Event, EventType, NamedPattern, Note};
use crispy_code::scales::{find_key, get_key, scale, scale_named, scales, scali};

#[test]
fn test_get_key() {
    assert_eq!(get_key("C"), 0);
    assert_eq!(get_key("C'"), 1);
    assert_eq!(get_key("D"), 2);
    assert_eq!(get_key("D'"), 3);
    assert_eq!(get_key("E"), 4);
    assert_eq!(get_key("F"), 5);
    assert_eq!(get_key("F'"), 6);
    assert_eq!(get_key("G"), 7);
    assert_eq!(get_key("G'"), 8);
    assert_eq!(get_key("A"), 9);
    assert_eq!(get_key("A'"), 10);
    assert_eq!(get_key("B"), 11);
}

#[test]
fn test_all_the_scales() {
    for entry in scales() {
        let scl = entry.classes;
        let key = "D";
        let pitch_classes = scl.clone();
        let pat = pitch_classes
            .clone()
            .into_iter()
            .map(|_| "x")
            .collect::<Vec<&str>>()
            .as_slice()
            .join(" ");
        let actual_pattern = scale(key, pat.as_str(), scl.clone()).unwrap().named("foo");
        let note_nums = pitch_classes
            .clone()
            .into_iter()
            .map(|pc| (pc as u8) + get_key(key) + (((DEFAULT_OCTAVE as u8) + 2) * 12))
            .collect::<Vec<u8>>();
        assert_eq!(
            actual_pattern,
            NamedPattern {
                channel: 1,
                events: note_nums
                    .into_iter()
                    .map(|note_num| Event {
                        action: EventType::NoteEvent(Note {
                            note_num: note_num,
                            velocity: 89,
                            dur: Dur::new(1, 2),
                        }),
                        dur: Dur::new(1, pitch_classes.len() as i64),
                    })
                    .collect(),
                length_bars: Dur::new(1, 1),
                name: String::from("foo"),
            },
        );
    }
}

#[test]
fn test_scale_with_custom_index() {
    let key = "G";
    let pattern = scali(
        key,
        "x e t [f p]",
        scale_named("hirajoshi").unwrap().clone(),
        // hirajoshi is 0, 4, 6, 7, 11
        vec![1, 3, 2, 0, 3],
    )
    .unwrap()
    .named("foo");
    assert_eq!(
        pattern,
        NamedPattern {
            channel: 1,
            events: vec![
                (71, 89, 4),
                (74, 19, 4),
                (73, 74, 4),
                (67, 22, 8),
                (74, 59, 8)
            ]
            .into_iter()
            .map(|t| Event {
                action: EventType::NoteEvent(Note {
                    note_num: t.0,
                    velocity: t.1,
                    dur: Dur::new(1, 2),
                }),
                dur: Dur::new(1, t.2),
            })
            .collect(),
            length_bars: Dur::new(1, 1),
            name: String::from("foo"),
        }
    );
}

#[test]
fn test_scale_with_custom_index_and_not_default_octave_values() {
    let key = "G";
    let pattern = scali(
        key,
        "0x 1e 5t [2f 6p]",
        scale_named("hirajoshi").unwrap().clone(),
        // hirajoshi is 0, 4, 6, 7, 11
        vec![1, 3, 2, 0, 3],
    )
    .unwrap()
    .named("foo");
    assert_eq!(
        pattern,
        NamedPattern {
            channel: 1,
            events: vec![
                (71 - (12 * 3), 89, 4),
                (74 - (12 * 2), 19, 4),
                (73 + (12 * 2), 74, 4),
                (67 - 12, 22, 8),
                (74 + (12 * 3), 59, 8)
            ]
            .into_iter()
            .map(|t| Event {
                action: EventType::NoteEvent(Note {
                    note_num: t.0,
                    velocity: t.1,
                    dur: Dur::new(1, 2),
                }),
                dur: Dur::new(1, t.2),
            })
            .collect(),
            length_bars: Dur::new(1, 1),
            name: String::from("foo"),
        }
    );
}

#[test]
fn scales_are_named_once_and_found_by_name() {
    let table = scales();
    assert_eq!(table.len(), 44);
    for (i, entry) in table.iter().enumerate() {
        assert_eq!(scale_named(&entry.name), Some(entry.classes.clone()));
        for other in table.iter().skip(i + 1) {
            assert_ne!(entry.name, other.name);
        }
    }
    assert_eq!(scale_named("maj"), Some(vec![0, 2, 4, 5, 7, 9, 11]));
    assert_eq!(scale_named("blues"), Some(vec![0, 3, 5, 6, 7, 10]));
    assert_eq!(scale_named("no such scale"), None);
}

#[test]
fn keys_are_found_or_not() {
    assert_eq!(find_key("F'"), Some(6));
    assert_eq!(find_key("B"), Some(11));
    assert_eq!(find_key("E'"), None);
    assert_eq!(find_key("B'"), None);
    assert_eq!(find_key("X"), None);
    assert_eq!(find_key(""), None);
    assert_eq!(find_key("C''"), None);
}
