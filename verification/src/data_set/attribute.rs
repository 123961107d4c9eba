//! Attributes: named, typed values attached to a data set or to a variable.
use crate::data_set::named::{
    find_named, lemma_find_named, lemma_find_named_at, lemma_views_push, lemma_views_remove,
    lemma_views_update, names_distinct, names_valid, same_index, same_text, views, Named,
};
use crate::data_type::DataType;
use crate::data_vector::{DataVector, Values};
use crate::error::{InvalidDataSet, InvalidDataSetView};
use crate::name_string::{is_valid_name, valid_name};
use vstd::prelude::*;

verus! {

/// An attribute as contracts see it.
pub ghost struct AttributeView {
    pub name: Seq<char>,
    pub values: Values,
}

impl Named for AttributeView {
    open spec fn name_of(&self) -> Seq<char> {
        self.name
    }
}

/// A named list of values of one type.
#[derive(Debug, PartialEq, Eq)]
pub struct Attribute {
    pub(crate) name: String,
    pub(crate) values: DataVector,
}

impl View for Attribute {
    type V = AttributeView;

    open(crate) spec fn view(&self) -> AttributeView {
        AttributeView { name: self.name@, values: self.values@ }
    }
}

impl Clone for Attribute {
    fn clone(&self) -> (r: Self)
        ensures
            r@ == self@,
    {
        Attribute { name: self.name.clone(), values: self.values.clone() }
    }
}

impl Attribute {
    /// The name of the attribute.
    pub fn name(&self) -> (r: String)
        ensures
            r@ == self@.name,
    {
        self.name.clone()
    }

    /// The type of the values.
    pub fn data_type(&self) -> (r: DataType)
        ensures
            r == self@.values.data_type,
    {
        self.values.data_type()
    }

    /// The number of values.
    pub fn len(&self) -> (r: usize)
        ensures
            r == self@.values.elems.len(),
    {
        self.values.len()
    }

    /// The values.
    pub fn values(&self) -> (r: &DataVector)
        ensures
            r@ == self@.values,
    {
        &self.values
    }
}

/// The attributes with one more at the end, unless the name is taken or is
/// not a valid name.
pub open spec fn attrs_add(attrs: Seq<AttributeView>, name: Seq<char>, values: Values) -> Result<
    Seq<AttributeView>,
    InvalidDataSetView,
> {
    if find_named(attrs, name) is Some {
        Err(InvalidDataSetView::AttributeAlreadyExists(name))
    } else if !valid_name(name) {
        Err(InvalidDataSetView::InvalidName(name))
    } else {
        Ok(attrs.push(AttributeView { name, values }))
    }
}

/// The attributes with the one named `old_name` renamed to `new_name`, unless
/// there is none of the old name, or the new name is taken or is not valid.
pub open spec fn attrs_rename(attrs: Seq<AttributeView>, old_name: Seq<char>, new_name: Seq<char>)
    -> Result<Seq<AttributeView>, InvalidDataSetView> {
    match find_named(attrs, old_name) {
        None => Err(InvalidDataSetView::AttributeNotFound(old_name)),
        Some(i) => if old_name == new_name {
            Ok(attrs)
        } else if find_named(attrs, new_name) is Some {
            Err(InvalidDataSetView::AttributeAlreadyExists(new_name))
        } else if !valid_name(new_name) {
            Err(InvalidDataSetView::InvalidName(new_name))
        } else {
            Ok(attrs.update(i, AttributeView { name: new_name, values: attrs[i].values }))
        },
    }
}

/// The attributes without the one named `name`, and that one, unless there
/// is none of that name.
pub open spec fn attrs_remove(attrs: Seq<AttributeView>, name: Seq<char>) -> Result<
    (Seq<AttributeView>, AttributeView),
    InvalidDataSetView,
> {
    match find_named(attrs, name) {
        None => Err(InvalidDataSetView::AttributeNotFound(name)),
        Some(i) => Ok((attrs.remove(i), attrs[i])),
    }
}

/// Looks for the attribute named `name`.
pub(crate) fn find_attr(attrs: &Vec<Attribute>, name: &str) -> (r: Option<usize>)
    ensures
        same_index(r, find_named(views(attrs@), name@)),
        r matches Some(i) ==> i < attrs@.len(),
{
    let n: usize = attrs.len();
    let mut i: usize = 0;
    while i < n
        invariant
            i <= n,
            n == attrs@.len(),
            forall|j: int| 0 <= j < i ==> (#[trigger] views(attrs@)[j]).name_of() != name@,
        decreases n - i,
    {
        if same_text(&attrs[i].name, name) {
            proof {
                lemma_find_named_at(views(attrs@), name@, i as int);
            }
            return Some(i);
        }
        i += 1;
    }
    proof {
        lemma_find_named(views(attrs@), name@);
    }
    None
}

/// Adds an attribute at the end, or refuses it.
pub(crate) fn add_to_attrs(attrs: &mut Vec<Attribute>, name: &str, values: DataVector) -> (r:
    Result<(), InvalidDataSet>)
    ensures
        match attrs_add(views(old(attrs)@), name@, values@) {
            Ok(after) => r is Ok && views(final(attrs)@) == after,
            Err(e) => r is Err && r.unwrap_err()@ == e && final(attrs)@ == old(attrs)@,
        },
{
    if find_attr(attrs, name).is_some() {
        return Err(InvalidDataSet::AttributeAlreadyExists(name.to_owned()));
    }
    if !is_valid_name(name) {
        return Err(InvalidDataSet::InvalidName(name.to_owned()));
    }
    let attr = Attribute { name: name.to_owned(), values };
    proof {
        lemma_views_push(attrs@, attr);
    }
    attrs.push(attr);
    Ok(())
}

/// Renames an attribute, or refuses to.
pub(crate) fn rename_in_attrs(attrs: &mut Vec<Attribute>, old_name: &str, new_name: &str) -> (r:
    Result<(), InvalidDataSet>)
    ensures
        match attrs_rename(views(old(attrs)@), old_name@, new_name@) {
            Ok(after) => r is Ok && views(final(attrs)@) == after,
            Err(e) => r is Err && r.unwrap_err()@ == e && final(attrs)@ == old(attrs)@,
        },
{
    let i: usize = match find_attr(attrs, old_name) {
        None => {
            return Err(InvalidDataSet::AttributeNotFound(old_name.to_owned()));
        },
        Some(i) => i,
    };
    if crate::name_string::str_eq(old_name, new_name) {
        return Ok(());
    }
    if find_attr(attrs, new_name).is_some() {
        return Err(InvalidDataSet::AttributeAlreadyExists(new_name.to_owned()));
    }
    if !is_valid_name(new_name) {
        return Err(InvalidDataSet::InvalidName(new_name.to_owned()));
    }
    let old_attr = attrs.remove(i);
    let attr = Attribute { name: new_name.to_owned(), values: old_attr.values };
    proof {
        crate::data_set::named::lemma_remove_insert(old(attrs)@, i as int, attr);
        lemma_views_update(old(attrs)@, i as int, attr);
    }
    attrs.insert(i, attr);
    Ok(())
}

/// Takes an attribute out, or says that there is none of that name.
pub(crate) fn remove_from_attrs(attrs: &mut Vec<Attribute>, name: &str) -> (r: Result<
    Attribute,
    InvalidDataSet,
>)
    ensures
        match attrs_remove(views(old(attrs)@), name@) {
            Ok((after, removed)) => r is Ok && views(final(attrs)@) == after && r.unwrap()@
                == removed,
            Err(e) => r is Err && r.unwrap_err()@ == e && final(attrs)@ == old(attrs)@,
        },
{
    match find_attr(attrs, name) {
        None => Err(InvalidDataSet::AttributeNotFound(name.to_owned())),
        Some(i) => {
            proof {
                lemma_views_remove(attrs@, i as int);
            }
            Ok(attrs.remove(i))
        },
    }
}

/// Attributes with distinct, valid names keep them through each change.
pub proof fn lemma_attrs_stay_valid(attrs: Seq<AttributeView>, name: Seq<char>, other: Seq<char>, values: Values)
    requires
        names_distinct(attrs),
        names_valid(attrs),
    ensures
        attrs_add(attrs, name, values) matches Ok(after) ==> names_distinct(after) && names_valid(
            after,
        ),
        attrs_rename(attrs, name, other) matches Ok(after) ==> names_distinct(after)
            && names_valid(after),
        attrs_remove(attrs, name) matches Ok((after, _)) ==> names_distinct(after) && names_valid(
            after,
        ),
{
    lemma_find_named(attrs, name);
    if attrs_add(attrs, name, values) is Ok {
        crate::data_set::named::lemma_push_named(attrs, AttributeView { name, values });
    }
    if let Some(i) = find_named(attrs, name) {
        crate::data_set::named::lemma_remove_named(attrs, i);
        if attrs_rename(attrs, name, other) is Ok && name != other {
            crate::data_set::named::lemma_update_named(
                attrs,
                i,
                AttributeView { name: other, values: attrs[i].values },
            );
        }
    }
}

} // verus!
