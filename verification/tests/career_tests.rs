use gamedata_codec::career::{all_tables, can_mark, can_modify, is_late, modify, set_flag_in_each, try_modify};
use gamedata_codec::envelope::File;
use gamedata_codec::value::Data;

fn stage<'d>(complete: Option<bool>) -> Data<'d> {
    let mut pairs = vec![(Data::String("score"), Data::Uint32(10))];
    if let Some(flag) = complete {
        pairs.push((Data::String("bComplete"), Data::Boolean(flag)));
    }
    Data::Table(pairs)
}

fn challenge<'d>(stages: Vec<Data<'d>>) -> Data<'d> {
    Data::Table(
        stages
            .into_iter()
            .map(|s| (Data::String("Stage"), s))
            .collect(),
    )
}

fn save<'d>(challenges: Vec<(Data<'d>, Data<'d>)>) -> File<'d> {
    File {
        data: Data::Table(vec![
            (Data::String("Version"), Data::Uint16(3)),
            (
                Data::String("Data"),
                Data::Table(vec![(
                    Data::String("Career"),
                    Data::Table(vec![
                        (Data::String("Money"), Data::Uint64(5)),
                        (Data::String("Progress"), Data::Table(challenges)),
                    ]),
                )]),
            ),
        ]),
    }
}

#[test]
fn is_late_knows_the_four_late_challenges() {
    assert!(is_late(&Data::String("Challenge_06")));
    assert!(is_late(&Data::String("Challenge_07")));
    assert!(is_late(&Data::String("Challenge_08")));
    assert!(is_late(&Data::String("Challenge_09")));
    assert!(!is_late(&Data::String("Challenge_05")));
    assert!(!is_late(&Data::String("Challenge_10")));
    assert!(!is_late(&Data::String("challenge_06")));
    assert!(!is_late(&Data::String("")));
    assert!(!is_late(&Data::Uint16(6)));
}

#[test]
fn set_flag_in_each_sets_or_appends_the_field() {
    let mut table = challenge(vec![stage(None), stage(Some(false)), stage(Some(true))]);
    set_flag_in_each(&mut table, "bComplete", true);
    assert_eq!(
        table,
        challenge(vec![stage(Some(true)), stage(Some(true)), stage(Some(true))])
    );
    let mut empty = Data::Table(vec![]);
    set_flag_in_each(&mut empty, "bComplete", true);
    assert_eq!(empty, Data::Table(vec![]));
}

#[test]
fn modify_marks_the_stages_of_the_late_challenges() {
    let mut file = save(vec![
        (Data::String("Challenge_05"), challenge(vec![stage(Some(false))])),
        (
            Data::String("Challenge_06"),
            challenge(vec![stage(Some(false)), stage(None)]),
        ),
        (Data::String("Challenge_07"), challenge(vec![])),
        (Data::String("Challenge_08"), challenge(vec![stage(Some(true))])),
        (Data::String("Challenge_09"), challenge(vec![stage(None)])),
        (Data::String("Challenge_10"), Data::Uint16(0)),
    ]);
    assert!(can_modify(&file));
    modify(&mut file);
    assert_eq!(
        file,
        save(vec![
            (Data::String("Challenge_05"), challenge(vec![stage(Some(false))])),
            (
                Data::String("Challenge_06"),
                challenge(vec![stage(Some(true)), stage(Some(true))]),
            ),
            (Data::String("Challenge_07"), challenge(vec![])),
            (Data::String("Challenge_08"), challenge(vec![stage(Some(true))])),
            (Data::String("Challenge_09"), challenge(vec![stage(Some(true))])),
            (Data::String("Challenge_10"), Data::Uint16(0)),
        ])
    );
}

#[test]
fn modify_twice_is_modify_once() {
    let mut once = save(vec![(
        Data::String("Challenge_06"),
        challenge(vec![stage(Some(false)), stage(None)]),
    )]);
    modify(&mut once);
    let mut twice = save(vec![(
        Data::String("Challenge_06"),
        challenge(vec![stage(Some(false)), stage(None)]),
    )]);
    modify(&mut twice);
    assert!(can_modify(&twice));
    modify(&mut twice);
    assert_eq!(once, twice);
}

#[test]
fn can_modify_wants_the_table_of_challenges() {
    assert!(can_modify(&save(vec![])));
    assert!(!can_modify(&File {
        data: Data::Table(vec![])
    }));
    assert!(!can_modify(&File {
        data: Data::Uint16(1)
    }));
    assert!(!can_modify(&File {
        data: Data::Table(vec![(
            Data::String("Data"),
            Data::Table(vec![(Data::String("Career"), Data::Table(vec![]))]),
        )]),
    }));
    assert!(!can_modify(&File {
        data: Data::Table(vec![(
            Data::String("Data"),
            Data::Table(vec![(
                Data::String("Career"),
                Data::Table(vec![(Data::String("Progress"), Data::Boolean(true))]),
            )]),
        )]),
    }));
}

#[test]
fn can_modify_wants_challenges_named_by_strings() {
    assert!(!can_modify(&save(vec![(
        Data::Uint16(6),
        challenge(vec![])
    )])));
    assert!(!can_modify(&save(vec![
        (Data::String("Challenge_01"), Data::Uint16(0)),
        (Data::Boolean(true), Data::Uint16(0)),
    ])));
}

#[test]
fn can_modify_wants_late_challenges_to_be_tables_of_tables() {
    assert!(!can_modify(&save(vec![(
        Data::String("Challenge_06"),
        Data::Uint16(0)
    )])));
    assert!(!can_modify(&save(vec![(
        Data::String("Challenge_09"),
        Data::Table(vec![
            (Data::String("Stage"), stage(None)),
            (Data::String("Stage"), Data::Boolean(false)),
        ]),
    )])));
    assert!(can_modify(&save(vec![(
        Data::String("Challenge_01"),
        Data::Table(vec![(Data::String("Stage"), Data::Boolean(false))]),
    )])));
}

#[test]
fn can_mark_looks_at_one_challenge() {
    assert!(can_mark(&(Data::String("Challenge_06"), challenge(vec![stage(None)]))));
    assert!(can_mark(&(Data::String("Other"), Data::Uint16(1))));
    assert!(!can_mark(&(Data::String("Challenge_06"), Data::Uint16(1))));
    assert!(!can_mark(&(Data::Uint16(1), challenge(vec![]))));
}

#[test]
fn all_tables_looks_at_every_value() {
    assert!(all_tables(&vec![]));
    assert!(all_tables(&vec![
        (Data::Uint16(1), Data::Table(vec![])),
        (Data::Uint16(2), stage(None)),
    ]));
    assert!(!all_tables(&vec![
        (Data::Uint16(1), Data::Table(vec![])),
        (Data::Table(vec![]), Data::Uint16(2)),
    ]));
}

#[test]
fn try_modify_leaves_alone_what_it_cannot_edit() {
    let mut file = save(vec![
        (Data::String("Challenge_06"), challenge(vec![stage(None)])),
        (Data::String("Challenge_07"), Data::Uint16(0)),
    ]);
    assert!(!try_modify(&mut file));
    assert_eq!(
        file,
        save(vec![
            (Data::String("Challenge_06"), challenge(vec![stage(None)])),
            (Data::String("Challenge_07"), Data::Uint16(0)),
        ])
    );
    let mut file = save(vec![(
        Data::String("Challenge_06"),
        challenge(vec![stage(None)]),
    )]);
    assert!(try_modify(&mut file));
    assert_eq!(
        file,
        save(vec![(
            Data::String("Challenge_06"),
            challenge(vec![stage(Some(true))]),
        )])
    );
}
