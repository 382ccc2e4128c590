use hint_resolver::resolve::{get_steps, get_unnamed_for_direction, unnamed_in_steps};
use hint_resolver::{
    get_hints_for_direction, resolve_steps, HintIndex, HintName, HintStep, RawName, RawStep,
    RawTable,
};

fn name(en: &str) -> HintName {
    HintName {
        de: format!("{en} (de)"),
        en: en.to_string(),
        es: format!("{en} (es)"),
        fr: format!("{en} (fr)"),
        it: format!("{en} (it)"),
        pt: format!("{en} (pt)"),
    }
}

fn named(id: &str, en: &str) -> RawName {
    RawName { key: id.to_string(), names: name(en) }
}

fn step(d: u32, x: i32, y: i32, ids: &[u64]) -> RawStep {
    RawStep { d, x, y, ids: ids.iter().map(|id| Some(*id)).collect() }
}

fn cell(key: &str, directions: Vec<Option<Vec<RawStep>>>) -> RawTable {
    RawTable { key: key.to_string(), directions }
}

fn index(tables: Vec<RawTable>, names: Vec<RawName>) -> HintIndex {
    match HintIndex::build(&tables, &names) {
        Ok(index) => index,
        Err(error) => panic!("the records were refused: {error:?}"),
    }
}

/// One cell, (2, 3), with hints to the north and to the east.
fn small_index() -> HintIndex {
    index(
        vec![cell(
            "2,3",
            vec![
                Some(vec![step(1, 2, 2, &[10]), step(2, 2, 1, &[10, 11])]),
                Some(vec![step(4, 6, 3, &[11])]),
                None,
                Some(vec![]),
            ],
        )],
        vec![named("10", "Fountain"), named("11", "Statue")],
    )
}

#[test]
fn fountain_and_statue_north_of_two_three() {
    let index = small_index();
    let found = get_hints_for_direction(&index, 2, 3, 0);
    assert_eq!(found.len(), 2);
    let fountain = &found[&10];
    assert_eq!(fountain.names.en, "Fountain");
    assert_eq!((fountain.dist, fountain.x, fountain.y), (1, 2, 2));
    let statue = &found[&11];
    assert_eq!(statue.names.en, "Statue");
    assert_eq!((statue.dist, statue.x, statue.y), (2, 2, 1));
}

#[test]
fn the_whole_name_record_comes_with_a_hint() {
    let index = small_index();
    let found = get_hints_for_direction(&index, 2, 3, 1);
    assert_eq!(found.len(), 1);
    assert_eq!(*found[&11].names, name("Statue"));
    assert_eq!((found[&11].dist, found[&11].x, found[&11].y), (4, 6, 3));
}

#[test]
fn a_direction_outside_the_four_finds_nothing() {
    let index = small_index();
    for direction in [-128i8, -2, -1, 4, 5, 100, 127] {
        assert!(get_hints_for_direction(&index, 2, 3, direction).is_empty());
        assert!(get_hints_for_direction(&index, 9, 9, direction).is_empty());
        assert!(get_steps(&index, 2, 3, direction).is_empty());
    }
}

#[test]
fn a_cell_without_a_table_finds_nothing() {
    let index = small_index();
    for direction in 0i8..4 {
        assert!(get_hints_for_direction(&index, 3, 2, direction).is_empty());
        assert!(get_hints_for_direction(&index, -2, 3, direction).is_empty());
        assert!(get_hints_for_direction(&index, 0, 0, direction).is_empty());
    }
}

#[test]
fn an_absent_slot_finds_nothing() {
    let index = small_index();
    assert!(get_hints_for_direction(&index, 2, 3, 2).is_empty());
    assert!(get_steps(&index, 2, 3, 2).is_empty());
}

#[test]
fn a_slot_without_steps_finds_nothing() {
    let index = small_index();
    assert!(get_hints_for_direction(&index, 2, 3, 3).is_empty());
}

#[test]
fn an_index_without_records_finds_nothing() {
    let index = index(vec![], vec![]);
    for direction in -1i8..5 {
        assert!(get_hints_for_direction(&index, 0, 0, direction).is_empty());
    }
}

#[test]
fn asking_twice_gives_the_same_answer() {
    let index = small_index();
    for direction in -1i8..5 {
        let first = get_hints_for_direction(&index, 2, 3, direction);
        let second = get_hints_for_direction(&index, 2, 3, direction);
        assert_eq!(first, second);
    }
}

#[test]
fn the_closer_of_two_steps_wins_though_it_comes_later() {
    let index = index(
        vec![cell(
            "0,0",
            vec![None, None, Some(vec![step(5, 0, 5, &[7]), step(3, 0, 3, &[7])]), None],
        )],
        vec![named("7", "Well")],
    );
    let found = get_hints_for_direction(&index, 0, 0, 2);
    assert_eq!(found.len(), 1);
    assert_eq!((found[&7].dist, found[&7].x, found[&7].y), (3, 0, 3));
}

#[test]
fn the_closer_of_two_steps_wins_when_it_comes_first() {
    let index = index(
        vec![cell(
            "0,0",
            vec![None, None, Some(vec![step(3, 0, 3, &[7]), step(5, 0, 5, &[7])]), None],
        )],
        vec![named("7", "Well")],
    );
    let found = get_hints_for_direction(&index, 0, 0, 2);
    assert_eq!((found[&7].dist, found[&7].x, found[&7].y), (3, 0, 3));
}

#[test]
fn of_two_equally_close_steps_the_first_wins() {
    let index = index(
        vec![cell(
            "0,0",
            vec![
                Some(vec![step(4, 1, -4, &[7]), step(4, 2, -4, &[7]), step(9, 3, -9, &[7])]),
                None,
                None,
                None,
            ],
        )],
        vec![named("7", "Well")],
    );
    let found = get_hints_for_direction(&index, 0, 0, 0);
    assert_eq!((found[&7].dist, found[&7].x, found[&7].y), (4, 1, -4));
}

#[test]
fn a_tie_after_a_farther_step_keeps_the_first_of_the_closest() {
    let index = index(
        vec![cell(
            "0,0",
            vec![
                Some(vec![step(6, 0, -6, &[7]), step(2, 5, -2, &[7]), step(2, 8, -2, &[7])]),
                None,
                None,
                None,
            ],
        )],
        vec![named("7", "Well")],
    );
    let found = get_hints_for_direction(&index, 0, 0, 0);
    assert_eq!((found[&7].dist, found[&7].x, found[&7].y), (2, 5, -2));
}

#[test]
fn a_hint_without_a_name_is_left_out_and_its_neighbours_stay() {
    let index = index(
        vec![cell("1,1", vec![None, Some(vec![step(2, 3, 1, &[21, 99, 22])]), None, None])],
        vec![named("21", "Bridge"), named("22", "Mill")],
    );
    let found = get_hints_for_direction(&index, 1, 1, 1);
    assert_eq!(found.len(), 2);
    assert!(!found.contains_key(&99));
    assert_eq!(found[&21].names.en, "Bridge");
    assert_eq!(found[&22].names.en, "Mill");
    assert_eq!((found[&21].dist, found[&21].x, found[&21].y), (2, 3, 1));
    assert_eq!((found[&22].dist, found[&22].x, found[&22].y), (2, 3, 1));
}

#[test]
fn the_hints_passed_over_are_told_once_per_meeting() {
    let index = index(
        vec![cell(
            "1,1",
            vec![
                None,
                Some(vec![
                    step(2, 3, 1, &[21, 99, 22]),
                    step(3, 4, 1, &[98, 99]),
                    step(5, 6, 1, &[21]),
                ]),
                None,
                None,
            ],
        )],
        vec![named("21", "Bridge"), named("22", "Mill")],
    );
    assert_eq!(get_unnamed_for_direction(&index, 1, 1, 1), vec![99, 98, 99]);
    assert_eq!(get_unnamed_for_direction(&index, 1, 1, 0), Vec::<u32>::new());
    assert_eq!(get_unnamed_for_direction(&index, 1, 1, 7), Vec::<u32>::new());
    assert_eq!(get_unnamed_for_direction(&index, 5, 5, 1), Vec::<u32>::new());
}

#[test]
fn a_hint_twice_on_one_step_is_found_once() {
    let index = index(
        vec![cell(
            "0,0",
            vec![Some(vec![step(1, 0, -1, &[7, 7]), step(1, 9, 9, &[7])]), None, None, None],
        )],
        vec![named("7", "Well")],
    );
    let found = get_hints_for_direction(&index, 0, 0, 0);
    assert_eq!(found.len(), 1);
    assert_eq!((found[&7].dist, found[&7].x, found[&7].y), (1, 0, -1));
}

#[test]
fn steps_given_by_hand_are_walked_like_stored_ones() {
    let index = small_index();
    let steps = vec![
        HintStep { dist: 8, x: 1, y: 1, hint_ids: vec![11, 12] },
        HintStep { dist: 7, x: 2, y: 2, hint_ids: vec![10] },
        HintStep { dist: 7, x: 3, y: 3, hint_ids: vec![11, 10] },
    ];
    let found = resolve_steps(&index, &steps);
    assert_eq!(found.len(), 2);
    assert_eq!((found[&10].dist, found[&10].x, found[&10].y), (7, 2, 2));
    assert_eq!((found[&11].dist, found[&11].x, found[&11].y), (7, 3, 3));
    assert_eq!(unnamed_in_steps(&index, &steps), vec![12]);
    assert!(resolve_steps(&index, &[]).is_empty());
}

#[test]
fn the_steps_of_a_ray_come_in_stored_order() {
    let index = small_index();
    let steps = get_steps(&index, 2, 3, 0);
    assert_eq!(
        steps,
        &[
            HintStep { dist: 1, x: 2, y: 2, hint_ids: vec![10] },
            HintStep { dist: 2, x: 2, y: 1, hint_ids: vec![10, 11] },
        ]
    );
}

#[test]
fn a_key_that_no_cell_writes_is_never_found() {
    let index = index(
        vec![
            cell("02,3", vec![Some(vec![step(1, 2, 2, &[10])]), None, None, None]),
            cell("+2,3", vec![Some(vec![step(1, 2, 2, &[10])]), None, None, None]),
            cell("2, 3", vec![Some(vec![step(1, 2, 2, &[10])]), None, None, None]),
            cell("-0,3", vec![Some(vec![step(1, 2, 2, &[10])]), None, None, None]),
        ],
        vec![named("10", "Fountain")],
    );
    assert!(get_hints_for_direction(&index, 2, 3, 0).is_empty());
    assert!(get_hints_for_direction(&index, 0, 3, 0).is_empty());
}

#[test]
fn cells_with_negative_coordinates_are_found() {
    let index = index(
        vec![
            cell("-2,3", vec![Some(vec![step(1, -2, 2, &[10])]), None, None, None]),
            cell("2,-3", vec![Some(vec![step(2, 2, -4, &[10])]), None, None, None]),
            cell(
                "-2147483648,2147483647",
                vec![None, None, None, Some(vec![step(3, 0, 0, &[10])])],
            ),
        ],
        vec![named("10", "Fountain")],
    );
    assert_eq!(get_hints_for_direction(&index, -2, 3, 0)[&10].dist, 1);
    assert_eq!(get_hints_for_direction(&index, 2, -3, 0)[&10].dist, 2);
    assert_eq!(get_hints_for_direction(&index, i32::MIN, i32::MAX, 3)[&10].dist, 3);
    assert!(get_hints_for_direction(&index, 2, 3, 0).is_empty());
}
