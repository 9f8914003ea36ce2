use hc_multitool::organiser::{
    deduplicate_emails, files_beside, furn_label_cmp, handler, needs_save_dir, sort_cosmetics,
    sort_furniture, FurnLabel, Ops,
};
use hc_multitool::utils::{DirFacts, SaveDirError, SaveDirHandler};
use hc_multitool::wardrobe::{all_parts, Part};
use std::cmp::Ordering;

fn label(name: &str) -> FurnLabel {
    FurnLabel(name.to_string())
}

fn labels(names: &[&str]) -> Vec<FurnLabel> {
    names.iter().map(|name| label(name)).collect()
}

fn strings(names: &[&str]) -> Vec<String> {
    names.iter().map(|name| name.to_string()).collect()
}

fn dir_facts() -> DirFacts {
    DirFacts { override_is_dir: true, default_dir: None, default_is_dir: false }
}

#[test]
fn cosmetics_are_sorted_by_their_names() {
    assert_eq!(sort_cosmetics(strings(&["b", "a", "c"])), strings(&["a", "b", "c"]));
    assert_eq!(sort_cosmetics(strings(&[])), strings(&[]));
    assert_eq!(sort_cosmetics(strings(&["x"])), strings(&["x"]));
}

#[test]
fn cosmetics_are_sorted_by_bytes() {
    assert_eq!(
        sort_cosmetics(strings(&["b", "B", "a", "ab", "", "é", "z", "a"])),
        strings(&["", "B", "a", "a", "ab", "b", "z", "é"])
    );
}

#[test]
fn furniture_with_a_fixed_place_comes_first() {
    assert_eq!(furn_label_cmp(&label("computer1"), &label("hc_journal")), Ordering::Less);
    assert_eq!(furn_label_cmp(&label("hc_journal"), &label("computer1")), Ordering::Greater);
    assert_eq!(furn_label_cmp(&label("computer1"), &label("computer1")), Ordering::Equal);
    assert_eq!(furn_label_cmp(&label("hc_journal"), &label("hc_journal")), Ordering::Equal);
    assert_eq!(furn_label_cmp(&label("computer1"), &label("a")), Ordering::Less);
    assert_eq!(furn_label_cmp(&label("hc_journal"), &label("a")), Ordering::Less);
    assert_eq!(furn_label_cmp(&label("a"), &label("computer1")), Ordering::Greater);
    assert_eq!(furn_label_cmp(&label("a"), &label("hc_journal")), Ordering::Greater);
}

#[test]
fn other_furniture_is_ordered_by_its_name() {
    assert_eq!(furn_label_cmp(&label("bed"), &label("chair")), Ordering::Less);
    assert_eq!(furn_label_cmp(&label("chair"), &label("bed")), Ordering::Greater);
    assert_eq!(furn_label_cmp(&label("bed"), &label("bed")), Ordering::Equal);
    assert_eq!(furn_label_cmp(&label("bed"), &label("bed2")), Ordering::Less);
    assert_eq!(furn_label_cmp(&label("computer0"), &label("computer2")), Ordering::Less);
    assert_eq!(furn_label_cmp(&label(""), &label("a")), Ordering::Less);
}

#[test]
fn furniture_is_put_in_order() {
    let order = sort_furniture(labels(&["sofa", "hc_journal", "bed", "computer1", "lamp"]));
    assert_eq!(order, vec![3, 1, 2, 4, 0]);
}

#[test]
fn furniture_of_one_name_keeps_its_order() {
    let order = sort_furniture(labels(&["b", "a", "b", "computer1", "a", "computer1", "b"]));
    assert_eq!(order, vec![3, 5, 1, 4, 0, 2, 6]);
}

#[test]
fn no_furniture_is_in_order() {
    assert_eq!(sort_furniture(vec![]), Vec::<usize>::new());
    assert_eq!(sort_furniture(labels(&["only"])), vec![0]);
}

#[test]
fn of_emails_with_one_id_the_last_stays() {
    let lists = deduplicate_emails(vec![1, 2, 1, 3], vec![]);
    assert_eq!(lists.read, vec![2, 1, 3]);
    assert_eq!(lists.unread, Vec::<i64>::new());
    assert_eq!(lists.removed_read, 1);
    assert_eq!(lists.removed_unread, 0);
}

#[test]
fn emails_that_were_read_are_dropped_from_the_unread() {
    let lists = deduplicate_emails(vec![1, 2, 1, 3], vec![3, 4, 4, 5]);
    assert_eq!(lists.read, vec![2, 1, 3]);
    assert_eq!(lists.unread, vec![4, 5]);
    assert_eq!(lists.removed_read, 1);
    assert_eq!(lists.removed_unread, 2);
}

#[test]
fn emails_without_doubles_stay_as_they_are() {
    let lists = deduplicate_emails(vec![5, -1, 0], vec![7, i64::MIN, i64::MAX]);
    assert_eq!(lists.read, vec![5, -1, 0]);
    assert_eq!(lists.unread, vec![7, i64::MIN, i64::MAX]);
    assert_eq!(lists.removed_read, 0);
    assert_eq!(lists.removed_unread, 0);
}

#[test]
fn emails_that_are_all_the_same_leave_one() {
    let lists = deduplicate_emails(vec![9, 9, 9], vec![9, 9]);
    assert_eq!(lists.read, vec![9]);
    assert_eq!(lists.unread, Vec::<i64>::new());
    assert_eq!(lists.removed_read, 2);
    assert_eq!(lists.removed_unread, 2);
}

#[test]
fn tidying_names_the_save_and_the_files_beside_it() {
    let mut save_dir = SaveDirHandler::new_override(Some("/saves".to_string()));
    let plan = handler(Ops { save_slot: 2 }, &mut save_dir, &dir_facts()).ok().unwrap();
    assert_eq!(plan.save_file, "/saves/savefile2.json");
    assert_eq!(plan.output_tmp, "/saves/savefile2.json.new");
    assert_eq!(plan.backup, "/saves/savefile2.json.bak");
}

#[test]
fn tidying_a_slot_beyond_the_last_is_refused() {
    let mut save_dir = SaveDirHandler::new_override(Some("/saves".to_string()));
    let plan = handler(Ops { save_slot: 4 }, &mut save_dir, &dir_facts());
    assert_eq!(plan.err(), Some(SaveDirError::InvalidSlot(4)));
}

#[test]
fn the_parts_have_their_keys() {
    assert_eq!(
        all_parts(),
        vec![Part::Hair, Part::Face, Part::Accessory, Part::Shirt, Part::Jacket]
    );
    let list_keys: Vec<&str> = all_parts().into_iter().map(Part::list_key).collect();
    assert_eq!(list_keys, ["hairlist", "facelist", "jewllist", "shirtlist", "jacketlist"]);
    let worn_keys: Vec<&str> = all_parts().into_iter().map(Part::worn_key).collect();
    assert_eq!(worn_keys, ["hairon", "faceon", "jewlon", "shirton", "jacketon"]);
    let names: Vec<&str> = all_parts().into_iter().map(Part::label).collect();
    assert_eq!(names, ["Hair", "Face", "Accessory", "Shirt", "Jacket"]);
}

#[test]
fn tidying_asks_for_the_save_dir_for_a_slot_that_there_is() {
    for slot in 0..=3u8 {
        assert!(needs_save_dir(&Ops { save_slot: slot }));
    }
    assert!(!needs_save_dir(&Ops { save_slot: 4 }));
    assert!(!needs_save_dir(&Ops { save_slot: 255 }));
}

#[test]
fn tidying_a_slot_beyond_the_last_leaves_the_save_dir_unsought() {
    let mut save_dir = SaveDirHandler::new_override(Some("/saves".to_string()));
    assert!(handler(Ops { save_slot: 4 }, &mut save_dir, &dir_facts()).is_err());
    assert!(!save_dir.is_resolved());
    assert!(handler(Ops { save_slot: 3 }, &mut save_dir, &dir_facts()).is_ok());
    assert!(save_dir.is_resolved());
}

#[test]
fn the_files_beside_a_save_file() {
    assert_eq!(
        files_beside("/saves/savefile0.json"),
        Some(("/saves/savefile0.json.new".to_string(), "/saves/savefile0.json.bak".to_string()))
    );
    assert_eq!(files_beside("save"), Some(("save.new".to_string(), "save.bak".to_string())));
}
