use toycc::shared::definitions::NewtypeId;
use toycc::shared::depgraph::{extract_newtype_dependencies, extract_type_id, toposort_depgraph, try_toposort_depgraph};
use toycc::shared::tables::{GenericShape, GenericTypeDef};
use toycc::shared::typing::{GenericType, PrimType};

fn nt(name: &str) -> NewtypeId {
    NewtypeId(name.to_string())
}

fn user(name: &str) -> GenericType {
    GenericType::NewType(nt(name), vec![])
}

fn strukt(fields: Vec<(&str, GenericType)>) -> GenericTypeDef {
    GenericTypeDef {
        type_params: vec![],
        defn: GenericShape::Struct { fields: fields.into_iter().map(|(n, t)| (n.to_string(), t)).collect() },
    }
}

#[test]
fn type_ids_lists_arguments_before_the_type() {
    let t = GenericType::NewType(
        nt("Pair"),
        vec![user("A"), GenericType::Reference(Box::new(user("B"))), GenericType::Prim(PrimType::Integer)],
    );
    assert_eq!(extract_type_id(&t), vec![nt("A"), nt("B"), nt("Pair")]);
    assert!(extract_type_id(&GenericType::TypeVar("T".to_string())).is_empty());
}

#[test]
fn dependencies_of_definitions() {
    let defs = vec![
        (nt("Pair"), strukt(vec![("a", user("A")), ("b", GenericType::Reference(Box::new(user("B"))))])),
        (nt("A"), strukt(vec![("x", GenericType::Prim(PrimType::Integer))])),
        (nt("B"), strukt(vec![("y", user("A"))])),
    ];
    let g = extract_newtype_dependencies(&defs);
    assert_eq!(g.len(), 3);
    assert_eq!(g[0], (nt("Pair"), vec![nt("A"), nt("B")]));
    assert_eq!(g[1], (nt("A"), vec![]));
    assert_eq!(g[2], (nt("B"), vec![nt("A")]));
}

#[test]
fn a_later_definition_replaces_the_earlier_one() {
    let defs = vec![
        (nt("A"), strukt(vec![("x", user("B"))])),
        (nt("B"), strukt(vec![])),
        (nt("A"), strukt(vec![("x", GenericType::Prim(PrimType::Bool))])),
    ];
    let g = extract_newtype_dependencies(&defs);
    assert_eq!(g, vec![(nt("A"), vec![]), (nt("B"), vec![])]);
}

#[test]
fn toposort_puts_dependencies_first() {
    let defs = vec![
        (nt("Pair"), strukt(vec![("a", user("A")), ("b", user("B"))])),
        (nt("A"), strukt(vec![("x", GenericType::Prim(PrimType::Integer))])),
        (nt("B"), strukt(vec![("y", user("A"))])),
    ];
    let order = toposort_depgraph(extract_newtype_dependencies(&defs));
    assert_eq!(order.len(), 3);
    let pos = |n: &str| order.iter().position(|x| *x == nt(n)).unwrap();
    assert!(pos("A") < pos("B"));
    assert!(pos("B") < pos("Pair"));
    assert!(pos("A") < pos("Pair"));
}

#[test]
fn toposort_ignores_names_outside_the_graph() {
    let g = vec![(nt("X"), vec![nt("Unknown"), nt("Y")]), (nt("Y"), vec![])];
    assert_eq!(toposort_depgraph(g), vec![nt("Y"), nt("X")]);
}

#[test]
fn cycles_are_reported() {
    // A holds a B and B holds an A
    let cyclic = vec![(nt("A"), vec![nt("B")]), (nt("B"), vec![nt("A")])];
    assert!(try_toposort_depgraph(cyclic).is_none());
    // a struct holding itself
    assert!(try_toposort_depgraph(vec![(nt("A"), vec![nt("A")])]).is_none());
    // a cycle beside an acyclic part
    let mixed = vec![(nt("C"), vec![]), (nt("A"), vec![nt("B"), nt("C")]), (nt("B"), vec![nt("A")])];
    assert!(try_toposort_depgraph(mixed).is_none());
    // no cycle: dependencies come first
    let fine = vec![(nt("A"), vec![nt("B")]), (nt("B"), vec![nt("C")]), (nt("C"), vec![])];
    assert_eq!(try_toposort_depgraph(fine).unwrap(), vec![nt("C"), nt("B"), nt("A")]);
}
