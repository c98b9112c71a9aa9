use vulpi::declare::{declare, declare_main, LetDecl, Program, TypeDecl, TypeDef, Variant};
use vulpi::location::{FileId, Span};
use vulpi::modules::{DataType, Modules, ResolverError, ResolverErrorKind};

fn program() -> Program {
    Program {
        types: vec![
            TypeDecl {
                name: 10,
                def: TypeDef::Enum(vec![Variant { name: 11 }, Variant { name: 12 }]),
                id: None,
            },
            TypeDecl { name: 13, def: TypeDef::Record, id: None },
        ],
        lets: vec![
            LetDecl { name: 20, range: Span::from_usize(FileId(1), 0, 3) },
            LetDecl { name: 21, range: Span::from_usize(FileId(1), 4, 7) },
            LetDecl { name: 20, range: Span::from_usize(FileId(1), 8, 11) },
        ],
    }
}

#[test]
fn declare_main_declares_in_the_root() {
    let mut modules = Modules::new(FileId(1));
    let mut program = program();
    assert_eq!(declare_main(&mut modules, &mut program), 0);
    assert!(modules.current.is_empty());
    assert_eq!(program.types[0].id, Some(1));
    assert_eq!(program.types[1].id, Some(2));
    assert_eq!(modules.find_module(&[10]), Some(1));
    assert_eq!(modules.find_module(&[13]), Some(2));
    assert_eq!(
        modules.definitions[0].decls,
        vec![DataType::Type(10), DataType::Type(13), DataType::Let(20), DataType::Let(21)]
    );
    assert_eq!(
        modules.definitions[1].decls,
        vec![DataType::Constructor(11), DataType::Constructor(12)]
    );
    assert!(modules.definitions[2].decls.is_empty());
    assert_eq!(modules.definitions[1].path, vec![10]);
    assert!(modules.module.is_empty());
}

#[test]
fn a_let_declared_twice_is_reported() {
    let mut modules = Modules::new(FileId(1));
    let mut program = program();
    declare_main(&mut modules, &mut program);
    assert_eq!(
        modules.errors,
        vec![ResolverError {
            message: ResolverErrorKind::AlreadyCaptured(20),
            range: Span::from_usize(FileId(1), 8, 11),
            file: FileId(1),
        }]
    );
}

#[test]
fn declare_makes_a_module_for_the_program() {
    let mut modules = Modules::new(FileId(2));
    let mut program = program();
    assert_eq!(declare(&mut modules, &mut program, vec![30]), 1);
    assert_eq!(modules.current, vec![0]);
    assert_eq!(modules.module, vec![30]);
    assert_eq!(modules.find_module(&[30]), Some(1));
    assert_eq!(modules.find_module(&[30, 10]), Some(2));
    assert_eq!(modules.find_module(&[30, 13]), Some(3));
    assert_eq!(program.types[0].id, Some(2));
    assert_eq!(
        modules.definitions[1].decls,
        vec![DataType::Type(10), DataType::Type(13), DataType::Let(20), DataType::Let(21)]
    );
    assert_eq!(modules.definitions[2].path, vec![30, 10]);
    assert_eq!(modules.errors.len(), 1);
    assert_eq!(modules.errors[0].file, FileId(2));
}

#[test]
fn a_let_that_reuses_a_type_name_is_not_reported() {
    let mut modules = Modules::new(FileId(0));
    let mut program = Program {
        types: vec![TypeDecl { name: 5, def: TypeDef::Synonym, id: None }],
        lets: vec![LetDecl { name: 5, range: Span::ghost() }],
    };
    declare_main(&mut modules, &mut program);
    assert!(modules.errors.is_empty());
    assert_eq!(modules.definitions[0].decls, vec![DataType::Type(5), DataType::Let(5)]);
}

#[test]
fn type_and_let_declare_one_by_one() {
    let mut modules = Modules::new(FileId(0));
    let mut ty = TypeDecl { name: 4, def: TypeDef::Enum(vec![Variant { name: 6 }]), id: None };
    ty.declare(&mut modules);
    assert_eq!(ty.id, Some(1));
    assert_eq!(modules.current, vec![0]);
    assert_eq!(modules.definitions[1].decls, vec![DataType::Constructor(6)]);
    let mut first = LetDecl { name: 9, range: Span::ghost() };
    first.declare(&mut modules);
    let mut second = LetDecl { name: 9, range: Span::from_usize(FileId(0), 1, 2) };
    second.declare(&mut modules);
    assert_eq!(modules.errors.len(), 1);
    assert_eq!(modules.definitions[0].decls, vec![DataType::Type(4), DataType::Let(9)]);
    let mut variant = Variant { name: 7 };
    variant.declare(&mut modules);
    assert_eq!(
        modules.definitions[1].decls,
        vec![DataType::Constructor(6), DataType::Constructor(7)]
    );
}

#[test]
fn declare_below_a_missing_module_builds_the_path_step_by_step() {
    let mut modules = Modules::new(FileId(0));
    let mut program = program();
    assert_eq!(declare(&mut modules, &mut program, vec![40, 41]), 1);
    assert_eq!(modules.find_module(&[40]), Some(1));
    assert_eq!(modules.find_module(&[40, 41]), Some(2));
    assert_eq!(modules.find_module(&[40, 41, 10]), None);
    assert_eq!(modules.find_module(&[40, 41, 13]), Some(3));
    assert_eq!(program.types[0].id, Some(2));
    assert_eq!(modules.module, vec![40, 41]);
}
