//! The descriptor generator: from the declaration of a record or of a
//! tagged union to the plan of its encoding, field by field and variant by
//! variant.

use crate::node::{is_ordered_record, ordered_record, reversed, Leaf, Node};
use vstd::prelude::*;
use vstd::string::StrSliceExecFns;

verus! {

/// A declared field that has a name.
#[derive(Debug, PartialEq, Eq)]
pub struct NamedField {
    /// The name of the field.
    pub ident: String,
    /// The type of the field, as it was written.
    pub ty: String,
}

/// The fields of a record or of a variant.
#[derive(Debug, PartialEq, Eq)]
pub enum Fields {
    /// Fields with names, in declaration order.
    Named(Vec<NamedField>),
    /// Fields without names, by their types, in declaration order.
    Unnamed(Vec<String>),
    /// No fields at all.
    Unit,
}

/// A declared variant of a tagged union.
#[derive(Debug, PartialEq, Eq)]
pub struct Variant {
    /// The name of the variant.
    pub ident: String,
    /// The fields of the variant.
    pub fields: Fields,
}

/// The body of a declared type.
#[derive(Debug, PartialEq, Eq)]
pub enum Data {
    /// A record.
    Struct(Fields),
    /// A tagged union, by its variants in declaration order.
    Enum(Vec<Variant>),
    /// An untagged union.
    Union,
}

/// How the generated code reaches a field.
#[derive(Debug, PartialEq, Eq)]
pub enum Member {
    /// By name: a named field of a record, or a name that the pattern of a
    /// variant binds.
    Named(String),
    /// By position, in a record whose fields have no names.
    Unnamed(usize),
}

/// One step of the plan: one field to encode or to decode.
#[derive(Debug, PartialEq, Eq)]
pub struct Step {
    /// How the field is reached.
    pub member: Member,
    /// The type of the field, as it was written.
    pub ty: String,
}

/// The form in which a variant declares its fields.
#[derive(Clone, Copy, Debug, PartialEq, Eq, Structural)]
pub enum Shape {
    /// Fields with names.
    Named,
    /// Fields without names.
    Unnamed,
    /// No fields.
    Unit,
}

/// The plan for one variant of a tagged union.
#[derive(Debug, PartialEq, Eq)]
pub struct Arm {
    /// The tag that stands for the variant on the wire: its position in the
    /// declaration, from zero.
    pub index: u32,
    /// The name of the variant.
    pub variant: String,
    /// The form of the variant's fields.
    pub shape: Shape,
    /// The fields of the payload, in declaration order, each under the name
    /// that the pattern binds it to.
    pub steps: Vec<Step>,
}

/// The plan for a declared type.
#[derive(Debug, PartialEq, Eq)]
pub enum Plan {
    /// A record: its fields in declaration order.
    Record(Vec<Step>),
    /// A tagged union: one arm for each variant, in declaration order.
    Union(Vec<Arm>),
}

/// Why no plan can be made for a declaration.
#[derive(Clone, Copy, Debug, PartialEq, Eq, Structural)]
pub enum DeriveError {
    /// The declaration is an untagged union.
    UnionNotSupported,
    /// A variant has more fields without names than there are names to bind
    /// them to.
    TooManyFields,
    /// The declaration has more variants than a `u32` can index.
    TooManyVariants,
}

/// The names that the pattern of a variant binds its nameless fields to,
/// the `i`-th field to the `i`-th character.
pub const BINDINGS: &'static str = "abcdefghijklmnopqrstuvwxyz";

/// The name that the `i`-th nameless field of a variant is bound to.
pub open spec fn binding(i: int) -> Seq<char> {
    BINDINGS@.subrange(i, i + 1)
}

/// `step` reaches the named field `field`, by its own name.
pub open spec fn named_step(step: Step, field: NamedField) -> bool {
    step.member == Member::Named(field.ident) && step.ty == field.ty
}

/// `step` reaches the `i`-th nameless field of a record, of type `ty`, by
/// its position.
pub open spec fn indexed_step(step: Step, i: int, ty: String) -> bool {
    step.member == Member::Unnamed(i as usize) && step.ty == ty
}

/// `step` reaches the `i`-th nameless field of a variant, of type `ty`, by
/// the name the pattern binds it to.
pub open spec fn bound_step(step: Step, i: int, ty: String) -> bool {
    step.member matches Member::Named(name) && name@ == binding(i) && step.ty == ty
}

/// `steps` is the plan for a record with the fields `fields`: one step for
/// each field, in declaration order.
pub open spec fn record_plan(fields: Fields, steps: Seq<Step>) -> bool {
    match fields {
        Fields::Named(named) => steps.len() == named@.len() && forall|i: int|
            0 <= i < steps.len() ==> named_step(#[trigger] steps[i], named@[i]),
        Fields::Unnamed(tys) => steps.len() == tys@.len() && forall|i: int|
            0 <= i < steps.len() ==> indexed_step(#[trigger] steps[i], i, tys@[i]),
        Fields::Unit => steps.len() == 0,
    }
}

/// `steps` is the payload of a variant with the fields `fields`: one step
/// for each field, in declaration order.
pub open spec fn payload_plan(fields: Fields, steps: Seq<Step>) -> bool {
    match fields {
        Fields::Named(named) => steps.len() == named@.len() && forall|i: int|
            0 <= i < steps.len() ==> named_step(#[trigger] steps[i], named@[i]),
        Fields::Unnamed(tys) => steps.len() == tys@.len() && forall|i: int|
            0 <= i < steps.len() ==> bound_step(#[trigger] steps[i], i, tys@[i]),
        Fields::Unit => steps.len() == 0,
    }
}

/// The form in which `fields` are declared.
pub open spec fn shape_of(fields: Fields) -> Shape {
    match fields {
        Fields::Named(_) => Shape::Named,
        Fields::Unnamed(_) => Shape::Unnamed,
        Fields::Unit => Shape::Unit,
    }
}

/// The pattern of a variant can bind `fields`: there is a name for each
/// nameless field.
pub open spec fn bindable(fields: Fields) -> bool {
    fields matches Fields::Unnamed(tys) ==> tys@.len() <= 26
}

/// `arm` is the plan for the variant `variant`, declared in position
/// `idx`.
pub open spec fn arm_plan(variant_ident: String, fields: Fields, idx: u32, arm: Arm) -> bool {
    &&& arm.index == idx
    &&& arm.variant == variant_ident
    &&& arm.shape == shape_of(fields)
    &&& payload_plan(fields, arm.steps@)
}

/// One step for each of the named fields, in declaration order.
fn named_steps(named: &Vec<NamedField>) -> (steps: Vec<Step>)
    ensures
        steps@.len() == named@.len(),
        forall|i: int| 0 <= i < steps@.len() ==> named_step(#[trigger] steps@[i], named@[i]),
{
    let mut steps: Vec<Step> = Vec::new();
    let n: usize = named.len();
    let mut i: usize = 0;
    while i < n
        invariant
            n == named@.len(),
            i <= n,
            steps@.len() == i,
            forall|k: int| 0 <= k < i ==> named_step(#[trigger] steps@[k], named@[k]),
        decreases n - i,
    {
        let field: &NamedField = &named[i];
        steps.push(Step { member: Member::Named(field.ident.clone()), ty: field.ty.clone() });
        i = i + 1;
    }
    steps
}

/// The plan for a record: for each declared field, in declaration order,
/// one step that reaches it, by its name or by its position.
pub fn generate_struct(fields: &Fields) -> (steps: Vec<Step>)
    ensures
        record_plan(*fields, steps@),
{
    match fields {
        Fields::Named(named) => named_steps(named),
        Fields::Unnamed(tys) => {
            let mut steps: Vec<Step> = Vec::new();
            let n: usize = tys.len();
            let mut i: usize = 0;
            while i < n
                invariant
                    n == tys@.len(),
                    i <= n,
                    steps@.len() == i,
                    forall|k: int| 0 <= k < i ==> indexed_step(#[trigger] steps@[k], k, tys@[k]),
                decreases n - i,
            {
                steps.push(Step { member: Member::Unnamed(i), ty: tys[i].clone() });
                i = i + 1;
            }
            steps
        },
        Fields::Unit => Vec::new(),
    }
}

/// The plan for one variant of a tagged union, declared in position `idx`:
/// its tag, and for each field of its payload, in declaration order, one
/// step under the name the pattern binds it to. Fails where the variant has
/// more nameless fields than there are names.
pub fn generate_arm(fields: &Fields, varident: &String, idx: u32) -> (res: Result<Arm, DeriveError>)
    ensures
        res is Ok <==> bindable(*fields),
        res matches Ok(arm) ==> arm_plan(*varident, *fields, idx, arm),
        res matches Err(e) ==> e == DeriveError::TooManyFields,
{
    match fields {
        Fields::Named(named) => Ok(
            Arm {
                index: idx,
                variant: varident.clone(),
                shape: Shape::Named,
                steps: named_steps(named),
            },
        ),
        Fields::Unnamed(tys) => {
            let n: usize = tys.len();
            if n > 26 {
                return Err(DeriveError::TooManyFields);
            }
            proof {
                reveal_strlit("abcdefghijklmnopqrstuvwxyz");
            }
            let mut steps: Vec<Step> = Vec::new();
            let mut i: usize = 0;
            while i < n
                invariant
                    n == tys@.len(),
                    n <= 26,
                    i <= n,
                    BINDINGS@.len() == 26,
                    BINDINGS.is_ascii(),
                    steps@.len() == i,
                    forall|k: int| 0 <= k < i ==> bound_step(#[trigger] steps@[k], k, tys@[k]),
                decreases n - i,
            {
                let name: String = BINDINGS.substring_ascii(i, i + 1).to_owned();
                steps.push(Step { member: Member::Named(name), ty: tys[i].clone() });
                i = i + 1;
            }
            Ok(Arm { index: idx, variant: varident.clone(), shape: Shape::Unnamed, steps })
        },
        Fields::Unit => Ok(
            Arm { index: idx, variant: varident.clone(), shape: Shape::Unit, steps: Vec::new() },
        ),
    }
}

/// Every variant before the `n`-th can be bound.
pub open spec fn all_bindable(variants: Seq<Variant>, n: int) -> bool {
    forall|i: int| 0 <= i < n ==> bindable((#[trigger] variants[i]).fields)
}

/// The arms of a tagged union: one for each variant, in declaration order,
/// the tag of each its position in the declaration.
fn generate_arms(variants: &Vec<Variant>) -> (res: Result<Vec<Arm>, DeriveError>)
    ensures
        if variants@.len() > u32::MAX {
            res == Err::<Vec<Arm>, DeriveError>(DeriveError::TooManyVariants)
        } else if !all_bindable(variants@, variants@.len() as int) {
            res == Err::<Vec<Arm>, DeriveError>(DeriveError::TooManyFields)
        } else {
            res matches Ok(arms) && arms@.len() == variants@.len() && forall|i: int|
                0 <= i < arms@.len() ==> arm_plan(
                    variants@[i].ident,
                    variants@[i].fields,
                    i as u32,
                    #[trigger] arms@[i],
                )
        },
{
    let n: usize = variants.len();
    if n > 0xffff_ffff {
        return Err(DeriveError::TooManyVariants);
    }
    let mut arms: Vec<Arm> = Vec::new();
    let mut i: usize = 0;
    while i < n
        invariant
            n == variants@.len(),
            n <= u32::MAX,
            i <= n,
            arms@.len() == i,
            all_bindable(variants@, i as int),
            forall|k: int|
                0 <= k < i ==> arm_plan(
                    variants@[k].ident,
                    variants@[k].fields,
                    k as u32,
                    #[trigger] arms@[k],
                ),
        decreases n - i,
    {
        let var: &Variant = &variants[i];
        match generate_arm(&var.fields, &var.ident, i as u32) {
            Ok(arm) => {
                arms.push(arm);
            },
            Err(e) => {
                proof {
                    assert(!bindable(variants@[i as int].fields));
                }
                return Err(e);
            },
        }
        i = i + 1;
    }
    Ok(arms)
}

/// The plan for a declared type. A record gets its fields in declaration
/// order. A tagged union gets one arm for each variant, the tag of each its
/// position in the declaration. An untagged union gets none, and neither
/// does a tagged union with more variants than a `u32` can index or with a
/// variant that cannot be bound.
pub fn generate_type(data: &Data) -> (res: Result<Plan, DeriveError>)
    ensures
        match *data {
            Data::Struct(fields) => res matches Ok(Plan::Record(steps)) && record_plan(
                fields,
                steps@,
            ),
            Data::Enum(variants) => if variants@.len() > u32::MAX {
                res == Err::<Plan, DeriveError>(DeriveError::TooManyVariants)
            } else if !all_bindable(variants@, variants@.len() as int) {
                res == Err::<Plan, DeriveError>(DeriveError::TooManyFields)
            } else {
                res matches Ok(Plan::Union(arms)) && arms@.len() == variants@.len() && forall|
                    i: int,
                |
                    0 <= i < arms@.len() ==> arm_plan(
                        variants@[i].ident,
                        variants@[i].fields,
                        i as u32,
                        #[trigger] arms@[i],
                    )
            },
            Data::Union => res == Err::<Plan, DeriveError>(DeriveError::UnionNotSupported),
        },
{
    match data {
        Data::Struct(fields) => Ok(Plan::Record(generate_struct(fields))),
        Data::Enum(variants) => match generate_arms(variants) {
            Ok(arms) => Ok(Plan::Union(arms)),
            Err(e) => Err(e),
        },
        Data::Union => Err(DeriveError::UnionNotSupported),
    }
}

/// `kinds` holds what `plan` needs of the types of the fields: for a
/// record, one list, with one description for each step; for a tagged
/// union, one list for each arm, with one description for each step of the
/// arm.
pub open spec fn kinds_fit(plan: Plan, kinds: Seq<Vec<Node>>) -> bool {
    match plan {
        Plan::Record(steps) => kinds.len() == 1 && kinds[0]@.len() == steps@.len(),
        Plan::Union(arms) => kinds.len() == arms@.len() && forall|i: int|
            0 <= i < kinds.len() ==> (#[trigger] kinds[i])@.len() == arms@[i].steps@.len(),
    }
}

/// `node` is the description that `plan` emits, with `kinds` for the types
/// of the fields: for a record, a record node with its fields in
/// declaration order; for a tagged union, a union leaf with one such record
/// node for each arm, in declaration order.
pub open spec fn emitted(plan: Plan, kinds: Seq<Vec<Node>>, node: Node) -> bool {
    match plan {
        Plan::Record(_) => is_ordered_record(node, kinds[0]@),
        Plan::Union(arms) => node matches Node::Leaf(Leaf::Union(variants)) && variants@.len()
            == arms@.len() && forall|i: int|
            0 <= i < variants@.len() ==> is_ordered_record(#[trigger] variants@[i], kinds[i]@),
    }
}

/// The payloads of the arms of a tagged union, one record node for each
/// arm. There are none where `kinds` does not fit the arms.
fn emit_arms(arms: &Vec<Arm>, kinds: Vec<Vec<Node>>) -> (res: Option<Vec<Node>>)
    ensures
        res is Some <==> kinds_fit(Plan::Union(*arms), kinds@),
        res matches Some(variants) ==> emitted(
            Plan::Union(*arms),
            kinds@,
            Node::Leaf(Leaf::Union(variants)),
        ),
{
    let n: usize = arms.len();
    if kinds.len() != n {
        return None;
    }
    let ghost all = kinds@;
    let mut rest: Vec<Vec<Node>> = reversed(kinds);
    let mut variants: Vec<Node> = Vec::new();
    let mut i: usize = 0;
    while i < n
        invariant
            n == arms@.len(),
            n == all.len(),
            all == kinds@,
            i <= n,
            rest@.len() == n - i,
            forall|k: int| 0 <= k < rest@.len() ==> rest@[k] == all[n - 1 - k],
            variants@.len() == i,
            forall|k: int| 0 <= k < i ==> (#[trigger] all[k])@.len() == arms@[k].steps@.len(),
            forall|k: int| 0 <= k < i ==> is_ordered_record(#[trigger] variants@[k], all[k]@),
        decreases n - i,
    {
        match rest.pop() {
            Some(nodes) => {
                if nodes.len() != arms[i].steps.len() {
                    proof {
                        assert(nodes == all[i as int]);
                        assert(all[i as int]@.len() != arms@[i as int].steps@.len());
                        assert(!kinds_fit(Plan::Union(*arms), all));
                    }
                    return None;
                }
                variants.push(ordered_record(nodes));
            },
            None => {},
        }
        i = i + 1;
    }
    Some(variants)
}

/// The description that a plan emits, given the descriptions of the types
/// of its fields: for a record, a record node that pairs each field, in
/// declaration order, with the description of its type; for a tagged union,
/// a union leaf that holds one such record node for each arm. There is none
/// where `kinds` does not fit the plan.
pub fn emit(plan: &Plan, kinds: Vec<Vec<Node>>) -> (res: Option<Node>)
    ensures
        res is Some <==> kinds_fit(*plan, kinds@),
        res matches Some(node) ==> emitted(*plan, kinds@, node),
{
    match plan {
        Plan::Record(steps) => {
            if kinds.len() != 1 {
                return None;
            }
            let mut kinds = kinds;
            match kinds.pop() {
                Some(nodes) => {
                    if nodes.len() != steps.len() {
                        return None;
                    }
                    Some(ordered_record(nodes))
                },
                None => None,
            }
        },
        Plan::Union(arms) => match emit_arms(arms, kinds) {
            Some(variants) => Some(Node::Leaf(Leaf::Union(variants))),
            None => None,
        },
    }
}

} // verus!
