use toycc::shared::binops::binop_typecheck;
use toycc::shared::definitions::{BinaryOperator, CellId, CompileError, Id, IdFactory, NewtypeId};
use toycc::shared::tables::{GenericShape, GenericTypeDef, GenericTypetable};
use toycc::shared::typing::{GenericType, PrimType};

fn int_t() -> GenericType {
    GenericType::Prim(PrimType::Integer)
}

fn bool_t() -> GenericType {
    GenericType::Prim(PrimType::Bool)
}

#[test]
fn binop_types() {
    assert!(matches!(BinaryOperator::Add.type_result(&int_t(), &int_t()), Ok(GenericType::Prim(PrimType::Integer))));
    assert!(matches!(BinaryOperator::Less.type_result(&int_t(), &int_t()), Ok(GenericType::Prim(PrimType::Bool))));
    assert!(matches!(BinaryOperator::Equals.type_result(&bool_t(), &bool_t()), Ok(GenericType::Prim(PrimType::Bool))));
    assert!(matches!(BinaryOperator::Modulo.type_result(&int_t(), &bool_t()), Err(CompileError::BinopTypecheck)));
    assert!(matches!(BinaryOperator::Equals.type_result(&int_t(), &bool_t()), Err(CompileError::BinopTypecheck)));
    assert!(matches!(BinaryOperator::Less.type_result(&bool_t(), &bool_t()), Err(CompileError::BinopTypecheck)));
}

#[test]
fn id_factory_counts_from_its_start() {
    let mut f: IdFactory<CellId> = IdFactory::new_from(7);
    assert_eq!(f.peek(), 7);
    let a = f.next_id();
    let b = f.next_id();
    assert_eq!(a, CellId(7));
    assert_eq!(b.raw(), 8);
    assert_ne!(a, b);
    assert_eq!(f.peek(), 9);
}

#[test]
fn added_newtypes_are_found_by_name() {
    let mut table = GenericTypetable::new(Vec::new());
    assert!(table.get_type_id(&"Point".to_string()).is_none());
    let def = GenericTypeDef {
        type_params: vec![],
        defn: GenericShape::Struct { fields: vec![("x".to_string(), int_t())] },
    };
    table.add_newtype("Point".to_string(), def);
    let id = table.get_type_id(&"Point".to_string()).expect("Point is defined");
    assert_eq!(id, NewtypeId("Point".to_string()));
    assert!(table.get_type_id(&"Line".to_string()).is_none());
}

#[test]
fn struct_equality_does_not_typecheck() {
    let point = GenericType::NewType(NewtypeId("Point".to_string()), vec![]);
    assert!(matches!(BinaryOperator::Equals.type_result(&point, &point), Err(CompileError::BinopTypecheck)));
    assert!(binop_typecheck(&BinaryOperator::Equals, &point, &point).is_none());
    // equality of references and of primitive values still type-checks
    let r = GenericType::Reference(Box::new(int_t()));
    assert!(matches!(binop_typecheck(&BinaryOperator::Equals, &r, &r), Some(GenericType::Prim(PrimType::Bool))));
    assert!(matches!(binop_typecheck(&BinaryOperator::Equals, &int_t(), &int_t()), Some(GenericType::Prim(PrimType::Bool))));
}

#[test]
fn the_last_definition_under_a_name_is_found() {
    let mut table = GenericTypetable::new(Vec::new());
    let first = GenericTypeDef {
        type_params: vec![],
        defn: GenericShape::Struct { fields: vec![("x".to_string(), int_t())] },
    };
    let second = GenericTypeDef {
        type_params: vec![],
        defn: GenericShape::Struct { fields: vec![("y".to_string(), bool_t())] },
    };
    let other = GenericTypeDef {
        type_params: vec![],
        defn: GenericShape::Struct { fields: vec![("z".to_string(), int_t())] },
    };
    table.add_newtype("Point".to_string(), first);
    table.add_newtype("Line".to_string(), other);
    assert_eq!(table.find_def(&NewtypeId("Point".to_string())), Some(0));
    table.add_newtype("Point".to_string(), second);
    assert_eq!(table.find_def(&NewtypeId("Point".to_string())), Some(2));
    assert_eq!(table.find_def(&NewtypeId("Line".to_string())), Some(1));
    assert_eq!(table.find_def(&NewtypeId("Circle".to_string())), None);
    match &table.defs[2].1.defn {
        GenericShape::Struct { fields } => assert_eq!(fields[0].0, "y"),
        other => panic!("unexpected {:?}", other),
    }
}
