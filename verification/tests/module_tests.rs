use vulpi::location::FileId;
use vulpi::modules::{DataType, Definition, ModuleTree, Modules};

#[test]
fn an_empty_path_finds_the_root() {
    let tree = ModuleTree::new(0);
    assert_eq!(tree.find(&[]), Some(0));
    assert_eq!(tree.find(&[1]), None);
    assert_eq!(tree.find_sub_tree(&[]).map(|t| t.name), Some(0));
}

#[test]
fn inserted_modules_are_found() {
    let mut tree = ModuleTree::new(0);
    assert_eq!(tree.insert(&[1], 10), None);
    assert_eq!(tree.insert(&[1, 2], 11), None);
    assert_eq!(tree.insert(&[3], 12), None);
    assert_eq!(tree.find(&[1]), Some(10));
    assert_eq!(tree.find(&[1, 2]), Some(11));
    assert_eq!(tree.find(&[3]), Some(12));
    assert_eq!(tree.find(&[1, 3]), None);
    assert_eq!(tree.find_sub_tree(&[1]).map(|t| t.name), Some(10));
    assert_eq!(tree.find_sub_tree(&[1, 2]).map(|t| t.name), Some(11));
    assert!(tree.find_sub_tree(&[2]).is_none());
}

#[test]
fn inserting_an_existing_module_gives_its_identifier() {
    let mut tree = ModuleTree::new(0);
    assert_eq!(tree.insert(&[1], 10), None);
    assert_eq!(tree.insert(&[1], 20), Some(10));
    assert_eq!(tree.insert(&[], 30), Some(0));
    assert_eq!(tree.find(&[1]), Some(10));
}

#[test]
fn inserting_below_a_missing_module_adds_only_the_first_missing_one() {
    let mut tree = ModuleTree::new(0);
    assert_eq!(tree.insert(&[1, 2], 7), None);
    assert_eq!(tree.find(&[1]), Some(7));
    assert_eq!(tree.find(&[1, 2]), None);
}

#[test]
fn definitions_hold_each_name_once() {
    let mut def = Definition::new(vec![4, 5]);
    assert_eq!(def.path, vec![4, 5]);
    assert!(!def.contains(&DataType::Let(1)));
    assert!(def.insert(DataType::Let(1)));
    assert!(def.insert(DataType::Type(1)));
    assert!(!def.insert(DataType::Let(1)));
    assert!(def.contains(&DataType::Let(1)));
    assert!(def.contains(&DataType::Type(1)));
    assert!(!def.contains(&DataType::Constructor(1)));
    assert_eq!(def.decls, vec![DataType::Let(1), DataType::Type(1)]);
}

#[test]
fn new_modules_hold_the_root() {
    let modules = Modules::new(FileId(3));
    assert_eq!(modules.counter, 1);
    assert_eq!(modules.current, vec![0]);
    assert!(modules.module.is_empty());
    assert_eq!(modules.definitions.len(), 1);
    assert!(modules.errors.is_empty());
    assert_eq!(modules.file_id, FileId(3));
    assert_eq!(modules.find_module(&[]), Some(0));
}

#[test]
fn add_module_makes_the_module_current() {
    let mut modules = Modules::new(FileId(0));
    assert_eq!(modules.add_module(vec![8]), Some(1));
    assert_eq!(modules.counter, 2);
    assert_eq!(modules.current, vec![0, 1]);
    assert_eq!(modules.module, vec![8]);
    assert_eq!(modules.find_module(&[8]), Some(1));
    assert_eq!(modules.definitions[1], Definition::new(vec![8]));
    assert_eq!(modules.add_module(vec![8, 9]), Some(2));
    assert_eq!(modules.find_module(&[8, 9]), Some(2));
    assert_eq!(modules.current, vec![0, 1, 2]);
}
