use toycc::shared::definitions::NewtypeId;
use toycc::shared::tables::{GenericShape, GenericTypeDef, GenericTypetable};
use toycc::shared::typing::{ConcreteType, GenericType, PrimType};

#[test]
fn test_rank_primitive() {
    let table = GenericTypetable::new(Vec::new());
    let pr_rank = table.get_genericity_rank(&ConcreteType::Prim(PrimType::Bool));
    assert!(pr_rank == 0);
}

#[test]
fn test_rank_reference() {
    let table = GenericTypetable::new(Vec::new());
    let ref_type = ConcreteType::Reference(Box::new(ConcreteType::Prim(PrimType::Integer)));
    let pr_rank = table.get_genericity_rank(&ref_type);
    assert!(pr_rank == 1);
}

#[test]
fn test_rank_struct() {
    let structdef = GenericTypeDef {
        type_params: vec!["T".to_string()],
        defn: GenericShape::Struct {
            fields: vec![("a".to_string(), GenericType::TypeVar("T".to_string()))],
        },
    };
    let table = GenericTypetable::new(vec![(NewtypeId("Gen".to_string()), structdef)]);
    let ctyp = ConcreteType::NewType(NewtypeId("Gen".to_string()), vec![ConcreteType::Prim(PrimType::Integer)]);
    assert!(table.get_genericity_rank(&ctyp) == 1);
}
