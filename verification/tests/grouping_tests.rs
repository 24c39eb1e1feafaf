use rand::Rng;

use save_retention::grouping::{group_by_character, group_saves, sort_map_saves, GroupTable};
use save_retention::save_information::SaveInformation;
use save_retention::save_type::SaveType;

fn new_random(save_type: SaveType, character_name: String) -> SaveInformation {
    let save_number = rand::thread_rng().gen_range(u16::MIN..=u16::MAX);

    match save_type {
        SaveType::Quick => SaveInformation::new(
            format!("{}-123456789__QuickSave_{}", character_name, save_number),
            character_name,
            save_type,
            save_number,
        ),
        SaveType::Auto => SaveInformation::new(
            format!("{}-123456789__AutoSave_{}", character_name, save_number),
            character_name,
            save_type,
            save_number,
        ),
        _ => panic!("Not a randomizable save pattern"),
    }
}

#[test]
fn create_and_assign_new_character_quicksave() {
    let map = GroupTable::new();
    let character_name = "First Last".to_string();
    let save_information = new_random(SaveType::Quick, character_name.to_string());
    let expected = save_information.clone();

    let map = group_by_character(map, save_information);

    let save_by_type = map.get(&character_name).unwrap();
    assert_eq!(save_by_type.quick_saves.len(), 1);
    assert_eq!(save_by_type.quick_saves.first().unwrap(), &expected);
}

#[test]
fn create_and_assign_new_character_autosave() {
    let map = GroupTable::new();
    let character_name = "First Last".to_string();
    let save_information = new_random(SaveType::Auto, character_name.clone());
    let expected = save_information.clone();

    let map = group_by_character(map, save_information);

    let save_by_type = map.get(&character_name).unwrap();
    assert_eq!(save_by_type.auto_saves.len(), 1);
    assert_eq!(save_by_type.auto_saves.first().unwrap(), &expected);
}

#[test]
fn multiple_saves_of_single_character() {
    let map = GroupTable::new();
    let character_name = "First Last".to_string();

    let save_informations = vec![
        new_random(SaveType::Quick, character_name.clone()),
        new_random(SaveType::Quick, character_name.clone()),
        new_random(SaveType::Quick, character_name.clone()),
    ];

    let map = group_by_character(map, save_informations.first().unwrap().clone());
    assert_eq!(map.get(&character_name).unwrap().quick_saves.len(), 1);
    assert_eq!(
        map.get(&character_name)
            .unwrap()
            .quick_saves
            .first()
            .unwrap(),
        save_informations.first().unwrap()
    );

    let map = group_by_character(map, save_informations.iter().nth(1).unwrap().clone());
    assert_eq!(map.get(&character_name).unwrap().quick_saves.len(), 2);
    assert_eq!(
        map.get(&character_name)
            .unwrap()
            .quick_saves
            .last()
            .unwrap(),
        save_informations.iter().nth(1).unwrap()
    );

    let map = group_by_character(map, save_informations.last().unwrap().clone());
    assert_eq!(map.get(&character_name).unwrap().quick_saves.len(), 3);
    assert_eq!(
        map.get(&character_name)
            .unwrap()
            .quick_saves
            .last()
            .unwrap(),
        save_informations.last().unwrap()
    );
}

#[test]
fn multiple_saves_of_multiple_characters() {
    let (fl, some) = ("First Last".to_string(), "Some'me".to_string());

    let fl_save_information = vec![
        new_random(SaveType::Quick, fl.clone()),
        new_random(SaveType::Auto, fl.clone()),
        new_random(SaveType::Quick, fl.clone()),
        new_random(SaveType::Auto, fl.clone()),
    ];

    let some_save_information = vec![
        new_random(SaveType::Quick, some.clone()),
        new_random(SaveType::Auto, some.clone()),
        new_random(SaveType::Quick, some.clone()),
        new_random(SaveType::Auto, some.clone()),
    ];

    let map = group_saves(
        fl_save_information
            .clone()
            .into_iter()
            .chain(some_save_information.clone().into_iter())
            .collect(),
    );

    assert_eq!(map.len(), 2);
    assert!(map.contains_key(&"First Last".to_string()));
    assert!(map.contains_key(&"Some'me".to_string()));

    let fl_saves = map.get(&fl).unwrap();
    let some_saves = map.get(&some).unwrap();

    for save in fl_save_information.into_iter() {
        assert!(
            match &save.save_type {
                SaveType::Quick => fl_saves
                    .quick_saves
                    .iter()
                    .any(|quick_save| quick_save.eq(&save)),
                SaveType::Auto => fl_saves
                    .auto_saves
                    .iter()
                    .any(|auto_save| auto_save.eq(&save)),
                SaveType::Unrecognized => panic!("Unrecognized save type was not removed"),
            },
            "Failed to match save"
        );
    }

    for save in some_save_information.into_iter() {
        assert!(
            match &save.save_type {
                SaveType::Quick => some_saves
                    .quick_saves
                    .iter()
                    .any(|quick_save| quick_save.eq(&save)),
                SaveType::Auto => some_saves
                    .auto_saves
                    .iter()
                    .any(|auto_save| auto_save.eq(&save)),
                SaveType::Unrecognized => panic!("Unrecognized save type was not removed"),
            },
            "Failed to match save"
        );
    }
}

#[test]
fn sorts_quick_saves() {
    let mut saves = vec![
        new_random(SaveType::Quick, "First Last".to_string()),
        new_random(SaveType::Quick, "First Last".to_string()),
    ];
    // Force ascending order
    saves.sort_by(|save_a, save_b| save_a.save_number.partial_cmp(&save_b.save_number).unwrap());

    let map = group_saves(saves.clone());
    let map = sort_map_saves(map);
    let fl_saves = map.get(&"First Last".to_string()).unwrap();

    assert_eq!(fl_saves.quick_saves.first().unwrap(), saves.last().unwrap());
    assert_eq!(fl_saves.quick_saves.last().unwrap(), saves.first().unwrap());
}

#[test]
fn sorts_auto_saves() {
    let mut saves = vec![
        new_random(SaveType::Auto, "First Last".to_string()),
        new_random(SaveType::Auto, "First Last".to_string()),
    ];
    // Force ascending order
    saves.sort_by(|save_a, save_b| save_a.save_number.partial_cmp(&save_b.save_number).unwrap());

    let map = group_saves(saves.clone());
    let map = sort_map_saves(map);
    let fl_saves = map.get(&"First Last".to_string()).unwrap();

    assert_eq!(fl_saves.auto_saves.first().unwrap(), saves.last().unwrap());
    assert_eq!(fl_saves.auto_saves.last().unwrap(), saves.first().unwrap());
}

// ---------------------------------------------------------------------------
// Further grouping and sorting behaviour
// ---------------------------------------------------------------------------
#[test]
fn group_lengths_sum_and_members_match() {
    let name = "Hero".to_string();
    let records = vec![
        SaveInformation::new("a_1".to_string(), name.clone(), SaveType::Quick, 1),
        SaveInformation::new("a_2".to_string(), name.clone(), SaveType::Auto, 2),
        SaveInformation::new("a_3".to_string(), name.clone(), SaveType::Quick, 3),
        SaveInformation::new("a_4".to_string(), name.clone(), SaveType::Unrecognized, 4),
        SaveInformation::new("a_5".to_string(), name.clone(), SaveType::Auto, 5),
    ];

    let map = group_saves(records.clone());
    let group = map.get(&name).unwrap();
    // 4 recognised records split 2 + 2; the Unrecognized one is gone
    assert_eq!(group.quick_saves.len() + group.auto_saves.len(), 4);
    assert_eq!(group.quick_saves, vec![records[0].clone(), records[2].clone()]);
    assert_eq!(group.auto_saves, vec![records[1].clone(), records[4].clone()]);
    assert!(group
        .quick_saves
        .iter()
        .chain(group.auto_saves.iter())
        .all(|r| r.save_type != SaveType::Unrecognized));
}

#[test]
fn unrecognized_only_character_gets_empty_group() {
    let name = "Loner".to_string();
    let record = SaveInformation::new("x_9".to_string(), name.clone(), SaveType::Unrecognized, 9);

    let map = group_saves(vec![record]);
    assert!(map.contains_key(&name));
    let group = map.get(&name).unwrap();
    assert!(group.quick_saves.is_empty());
    assert!(group.auto_saves.is_empty());
}

#[test]
fn sort_is_strictly_descending_for_distinct_numbers() {
    let name = "Hero".to_string();
    let records = vec![
        SaveInformation::new("f_2".to_string(), name.clone(), SaveType::Quick, 2),
        SaveInformation::new("f_9".to_string(), name.clone(), SaveType::Quick, 9),
        SaveInformation::new("f_5".to_string(), name.clone(), SaveType::Quick, 5),
        SaveInformation::new("f_7".to_string(), name.clone(), SaveType::Quick, 7),
    ];

    let map = sort_map_saves(group_saves(records));
    let sorted = &map.get(&name).unwrap().quick_saves;
    let numbers: Vec<u16> = sorted.iter().map(|r| r.save_number).collect();
    assert_eq!(numbers, vec![9, 7, 5, 2]);
    for pair in numbers.windows(2) {
        assert!(pair[0] > pair[1]);
    }
}

#[test]
fn sort_keeps_input_order_of_equal_numbers() {
    let name = "Hero".to_string();
    let records = vec![
        SaveInformation::new("first_5".to_string(), name.clone(), SaveType::Quick, 5),
        SaveInformation::new("second_5".to_string(), name.clone(), SaveType::Quick, 5),
        SaveInformation::new("third_9".to_string(), name.clone(), SaveType::Quick, 9),
        SaveInformation::new("fourth_5".to_string(), name.clone(), SaveType::Quick, 5),
    ];

    let map = sort_map_saves(group_saves(records.clone()));
    let sorted = &map.get(&name).unwrap().quick_saves;
    assert_eq!(sorted[0], records[2]);
    // the three fives keep their relative input order
    assert_eq!(sorted[1], records[0]);
    assert_eq!(sorted[2], records[1]);
    assert_eq!(sorted[3], records[3]);
}
