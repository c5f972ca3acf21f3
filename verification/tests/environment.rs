use program_structure::ast::{Meta, VariableName, VariableType};
use program_structure::declaration_map::DeclarationMap;
use program_structure::environment::IREnvironment;
use program_structure::errors::CFGError;
use program_structure::file_definition::FileLocation;
use program_structure::ir;

fn declaration(name: &str, version: usize, xtype: VariableType) -> ir::Declaration {
    let meta = Meta { location: FileLocation { start: 1, end: 2 }, file_id: Some(3) };
    ir::Declaration {
        meta: ir::Meta::from_ast(&meta),
        name: VariableName { name: name.to_string(), version },
        xtype,
        dimensions: Vec::new(),
    }
}

fn name(text: &str) -> VariableName {
    VariableName::from_name(text.to_string())
}

#[test]
fn lookup_finds_the_innermost_declaration() {
    let mut env = IREnvironment::new();
    assert_eq!(env.depth(), 1);
    env.add_declaration(declaration("x", 0, VariableType::Var)).unwrap();
    env.add_variable_block();
    env.add_declaration(declaration("x", 0, VariableType::Component)).unwrap();
    assert_eq!(env.depth(), 2);
    assert_eq!(env.lookup(&name("x")).unwrap().xtype, VariableType::Component);
    env.remove_variable_block();
    assert_eq!(env.lookup(&name("x")).unwrap().xtype, VariableType::Var);
}

#[test]
fn lookup_of_an_undeclared_name_fails() {
    let mut env = IREnvironment::new();
    env.add_declaration(declaration("x", 0, VariableType::Var)).unwrap();
    assert_eq!(env.lookup(&name("y")).err(), Some(CFGError::UnknownSymbol));
    let other_version = VariableName { name: "x".to_string(), version: 1 };
    assert_eq!(env.lookup(&other_version).err(), Some(CFGError::UnknownSymbol));
}

#[test]
fn name_is_unknown_once_its_scope_is_closed() {
    let mut env = IREnvironment::new();
    env.add_variable_block();
    env.add_declaration(declaration("x", 0, VariableType::Var)).unwrap();
    env.remove_variable_block();
    assert_eq!(env.lookup(&name("x")).err(), Some(CFGError::UnknownSymbol));
}

#[test]
fn duplicate_in_one_scope_is_refused_and_changes_nothing() {
    let mut env = IREnvironment::new();
    env.add_declaration(declaration("x", 0, VariableType::Var)).unwrap();
    assert_eq!(
        env.add_declaration(declaration("x", 0, VariableType::Component)).err(),
        Some(CFGError::DuplicateDeclaration)
    );
    assert_eq!(env.lookup(&name("x")).unwrap().xtype, VariableType::Var);
    assert_eq!(env.into_declarations().len(), 1);
}

#[test]
fn snapshot_holds_every_declaration_ever_recorded() {
    let mut env = IREnvironment::new();
    env.add_declaration(declaration("a", 0, VariableType::Var)).unwrap();
    env.add_variable_block();
    env.add_declaration(declaration("b", 0, VariableType::Var)).unwrap();
    env.remove_variable_block();
    env.add_declaration(declaration("c", 0, VariableType::Var)).unwrap();
    let names: Vec<String> = env.into_declarations().into_iter().map(|d| d.name.name).collect();
    assert_eq!(names, vec!["a", "b", "c"]);
}

#[test]
fn declaration_map_keeps_the_first_declaration_of_each_name() {
    let mut env = IREnvironment::new();
    env.add_declaration(declaration("s", 0, VariableType::Var)).unwrap();
    env.add_variable_block();
    env.add_declaration(declaration("s", 0, VariableType::Component)).unwrap();
    env.add_declaration(declaration("s", 1, VariableType::Bus)).unwrap();
    env.remove_variable_block();
    let map = DeclarationMap::from_environment(env);
    assert_eq!(map.len(), 2);
    assert_eq!(map.get_declaration(&name("s")).unwrap().xtype, VariableType::Var);
    let versioned = VariableName { name: "s".to_string(), version: 1 };
    assert_eq!(map.get_declaration(&versioned).unwrap().xtype, VariableType::Bus);
    assert!(map.get_declaration(&name("t")).is_none());
    assert_eq!(map.get_declarations()[0].meta.location, FileLocation { start: 1, end: 2 });
}
