use postcard_forth::derive::{
    emit, generate_arm, generate_struct, generate_type, Data, DeriveError, Fields, Member,
    NamedField, Plan, Shape, Variant,
};
use postcard_forth::node::{FieldDescriptor, Leaf, Node};
use postcard_forth::scalar::{Prim, Scalar};
use postcard_forth::value::Value;
use postcard_forth::walk::{decode, encode};
use postcard_forth::{DeserStream, SerStream};

fn named(pairs: &[(&str, &str)]) -> Fields {
    Fields::Named(
        pairs
            .iter()
            .map(|(ident, ty)| NamedField { ident: ident.to_string(), ty: ty.to_string() })
            .collect(),
    )
}

fn unnamed(tys: &[&str]) -> Fields {
    Fields::Unnamed(tys.iter().map(|ty| ty.to_string()).collect())
}

fn member_name(member: &Member) -> String {
    match member {
        Member::Named(name) => name.clone(),
        Member::Unnamed(i) => format!("{}", i),
    }
}

#[test]
fn a_record_gets_its_fields_in_declaration_order() {
    let steps = generate_struct(&named(&[("a", "u8"), ("b", "u16"), ("g", "Vec<u16>")]));
    let got: Vec<(String, String)> =
        steps.iter().map(|s| (member_name(&s.member), s.ty.clone())).collect();
    assert_eq!(
        got,
        vec![
            ("a".to_string(), "u8".to_string()),
            ("b".to_string(), "u16".to_string()),
            ("g".to_string(), "Vec<u16>".to_string()),
        ]
    );
    assert!(steps.iter().all(|s| matches!(s.member, Member::Named(_))));
}

#[test]
fn a_tuple_record_reaches_its_fields_by_position() {
    let steps = generate_struct(&unnamed(&["u32", "bool"]));
    assert_eq!(steps.len(), 2);
    assert!(matches!(steps[0].member, Member::Unnamed(0)));
    assert!(matches!(steps[1].member, Member::Unnamed(1)));
    assert_eq!(steps[0].ty, "u32");
    assert_eq!(steps[1].ty, "bool");
    assert_eq!(generate_struct(&Fields::Unit).len(), 0);
}

#[test]
fn an_arm_binds_nameless_fields_to_letters() {
    let arm = generate_arm(&unnamed(&["u8", "u16", "String"]), &"Bap".to_string(), 2).unwrap();
    assert_eq!(arm.index, 2);
    assert_eq!(arm.variant, "Bap");
    assert_eq!(arm.shape, Shape::Unnamed);
    let names: Vec<String> = arm.steps.iter().map(|s| member_name(&s.member)).collect();
    assert_eq!(names, vec!["a", "b", "c"]);
    assert!(arm.steps.iter().all(|s| matches!(s.member, Member::Named(_))));
    assert_eq!(arm.steps[2].ty, "String");

    let arm = generate_arm(&named(&[("left", "u32"), ("right", "u8")]), &"Sticks".to_string(), 4)
        .unwrap();
    assert_eq!(arm.index, 4);
    assert_eq!(arm.shape, Shape::Named);
    let names: Vec<String> = arm.steps.iter().map(|s| member_name(&s.member)).collect();
    assert_eq!(names, vec!["left", "right"]);

    let arm = generate_arm(&Fields::Unit, &"Bowl".to_string(), 3).unwrap();
    assert_eq!(arm.index, 3);
    assert_eq!(arm.shape, Shape::Unit);
    assert_eq!(arm.steps.len(), 0);
}

#[test]
fn an_arm_with_more_nameless_fields_than_letters_is_refused() {
    let tys: Vec<&str> = (0..26).map(|_| "u8").collect();
    let arm = generate_arm(&unnamed(&tys), &"Wide".to_string(), 0).unwrap();
    assert_eq!(arm.steps.len(), 26);
    assert_eq!(member_name(&arm.steps[25].member), "z");
    let tys: Vec<&str> = (0..27).map(|_| "u8").collect();
    assert!(matches!(
        generate_arm(&unnamed(&tys), &"Wider".to_string(), 0),
        Err(DeriveError::TooManyFields)
    ));
    let data = Data::Enum(vec![
        Variant { ident: "Fine".to_string(), fields: Fields::Unit },
        Variant { ident: "Wider".to_string(), fields: unnamed(&tys) },
    ]);
    assert!(matches!(generate_type(&data), Err(DeriveError::TooManyFields)));
}

#[test]
fn a_tagged_union_gets_one_arm_for_each_variant_tagged_by_position() {
    let data = Data::Enum(vec![
        Variant { ident: "Bib".to_string(), fields: unnamed(&["Alpha"]) },
        Variant { ident: "Bim".to_string(), fields: unnamed(&["Beta"]) },
        Variant { ident: "Bap".to_string(), fields: unnamed(&["u32"]) },
        Variant { ident: "Bowl".to_string(), fields: Fields::Unit },
        Variant { ident: "Sticks".to_string(), fields: named(&[("left", "u32"), ("right", "u8")]) },
    ]);
    match generate_type(&data) {
        Ok(Plan::Union(arms)) => {
            assert_eq!(arms.len(), 5);
            for (i, arm) in arms.iter().enumerate() {
                assert_eq!(arm.index as usize, i);
            }
            let names: Vec<&str> = arms.iter().map(|a| a.variant.as_str()).collect();
            assert_eq!(names, vec!["Bib", "Bim", "Bap", "Bowl", "Sticks"]);
            assert_eq!(arms[3].shape, Shape::Unit);
            assert_eq!(arms[4].steps.len(), 2);
            assert_eq!(member_name(&arms[1].steps[0].member), "a");
            assert_eq!(arms[1].steps[0].ty, "Beta");
        }
        _ => panic!("a tagged union has a plan"),
    }
}

#[test]
fn a_record_has_a_record_plan_and_a_union_has_none() {
    match generate_type(&Data::Struct(named(&[("a", "u8")]))) {
        Ok(Plan::Record(steps)) => assert_eq!(steps.len(), 1),
        _ => panic!("a record has a plan"),
    }
    match generate_type(&Data::Struct(Fields::Unit)) {
        Ok(Plan::Record(steps)) => assert_eq!(steps.len(), 0),
        _ => panic!("a unit record has a plan"),
    }
    assert!(matches!(generate_type(&Data::Union), Err(DeriveError::UnionNotSupported)));
    match generate_type(&Data::Enum(vec![])) {
        Ok(Plan::Union(arms)) => assert_eq!(arms.len(), 0),
        _ => panic!("an empty union has a plan"),
    }
}

fn prim(p: Prim) -> Node {
    Node::Leaf(Leaf::Prim(p))
}

#[test]
fn a_plan_emits_the_description_of_its_type() {
    let plan = generate_type(&Data::Struct(named(&[("a", "u8"), ("b", "u16")]))).unwrap();
    let node = emit(&plan, vec![vec![prim(Prim::U8), prim(Prim::U16)]]).unwrap();
    assert_eq!(
        node,
        Node::Record(vec![
            FieldDescriptor { offset: 0, node: prim(Prim::U8) },
            FieldDescriptor { offset: 1, node: prim(Prim::U16) },
        ])
    );
    assert!(node.check());
    assert!(emit(&plan, vec![vec![prim(Prim::U8)]]).is_none());
    assert!(emit(&plan, vec![]).is_none());
    assert!(emit(&plan, vec![vec![prim(Prim::U8), prim(Prim::U16)], vec![]]).is_none());

    let unit = generate_type(&Data::Struct(Fields::Unit)).unwrap();
    assert_eq!(emit(&unit, vec![vec![]]), Some(Node::Record(vec![])));
}

#[test]
fn the_plan_of_a_union_emits_one_record_for_each_variant() {
    let data = Data::Enum(vec![
        Variant { ident: "Bap".to_string(), fields: unnamed(&["u32"]) },
        Variant { ident: "Bowl".to_string(), fields: Fields::Unit },
        Variant { ident: "Sticks".to_string(), fields: named(&[("left", "u32"), ("right", "u8")]) },
    ]);
    let plan = generate_type(&data).unwrap();
    let kinds = vec![vec![prim(Prim::U32)], vec![], vec![prim(Prim::U32), prim(Prim::U8)]];
    let node = emit(&plan, kinds).unwrap();
    assert_eq!(
        node,
        Node::Leaf(Leaf::Union(vec![
            Node::Record(vec![FieldDescriptor { offset: 0, node: prim(Prim::U32) }]),
            Node::Record(vec![]),
            Node::Record(vec![
                FieldDescriptor { offset: 0, node: prim(Prim::U32) },
                FieldDescriptor { offset: 1, node: prim(Prim::U8) },
            ]),
        ]))
    );
    assert!(emit(&plan, vec![vec![prim(Prim::U32)], vec![]]).is_none());
    assert!(emit(&plan, vec![vec![prim(Prim::U32)], vec![prim(Prim::U8)], vec![]]).is_none());

    let value = Value::Union(2, vec![Value::Scalar(Scalar::U32(300)), Value::Scalar(Scalar::U8(7))]);
    let mut buf = [0u8; 8];
    let mut sers = SerStream::from(buf.as_mut_slice());
    assert_eq!(encode(&mut sers, &value, &node), Ok(()));
    assert_eq!(sers.written(), &[0x02, 0xAC, 0x02, 0x07]);
    let mut desers = DeserStream::from([0x02u8, 0xAC, 0x02, 0x07].as_slice());
    assert_eq!(decode(&mut desers, &node), Ok(value));
    assert_eq!(desers.remain(), 0);
    let mut desers = DeserStream::from([0x01u8].as_slice());
    assert_eq!(decode(&mut desers, &node), Ok(Value::Union(1, vec![])));
}
