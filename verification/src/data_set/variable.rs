//! Variables: typed arrays declared over a shape of dimensions.
use crate::data_set::attribute::{find_attr, Attribute, AttributeView};
use crate::data_set::named::{find_named, views, Named};
use crate::data_type::DataType;
use vstd::prelude::*;

verus! {

/// A variable as contracts see it. Its shape is the list of the indices of
/// its dimensions among the dimensions of the data set.
pub ghost struct VariableView {
    pub name: Seq<char>,
    pub data_type: DataType,
    pub dim_ids: Seq<int>,
    pub attrs: Seq<AttributeView>,
}

impl Named for VariableView {
    open spec fn name_of(&self) -> Seq<char> {
        self.name
    }
}

/// Indices as integers.
pub open spec fn ids_view(ids: Seq<usize>) -> Seq<int> {
    Seq::new(ids.len(), |k: int| ids[k] as int)
}

/// A typed array declared over a shape of dimensions, with its attributes.
#[derive(Debug, PartialEq, Eq)]
pub struct Variable {
    pub(crate) name: String,
    pub(crate) data_type: DataType,
    pub(crate) dim_ids: Vec<usize>,
    pub(crate) attrs: Vec<Attribute>,
}

impl View for Variable {
    type V = VariableView;

    open(crate) spec fn view(&self) -> VariableView {
        VariableView {
            name: self.name@,
            data_type: self.data_type,
            dim_ids: ids_view(self.dim_ids@),
            attrs: views(self.attrs@),
        }
    }
}

/// A copy of the attributes.
pub(crate) fn clone_attrs(attrs: &Vec<Attribute>) -> (r: Vec<Attribute>)
    ensures
        views(r@) == views(attrs@),
{
    let n: usize = attrs.len();
    let mut out: Vec<Attribute> = Vec::new();
    let mut i: usize = 0;
    while i < n
        invariant
            i <= n,
            n == attrs@.len(),
            out@.len() == i,
            forall|j: int| 0 <= j < i ==> (#[trigger] out@[j])@ == attrs@[j]@,
        decreases n - i,
    {
        out.push(attrs[i].clone());
        i += 1;
    }
    assert(views(out@) =~= views(attrs@));
    out
}

impl Clone for Variable {
    fn clone(&self) -> (r: Self)
        ensures
            r@ == self@,
    {
        let dim_ids = self.dim_ids.clone();
        assert(ids_view(dim_ids@) =~= ids_view(self.dim_ids@));
        Variable {
            name: self.name.clone(),
            data_type: self.data_type,
            dim_ids,
            attrs: clone_attrs(&self.attrs),
        }
    }
}

impl Variable {
    /// The name of the variable.
    pub fn name(&self) -> (r: String)
        ensures
            r@ == self@.name,
    {
        self.name.clone()
    }

    /// The type of the elements.
    pub fn data_type(&self) -> (r: DataType)
        ensures
            r == self@.data_type,
    {
        self.data_type
    }

    /// The number of dimensions of the shape.
    pub fn num_dims(&self) -> (r: usize)
        ensures
            r == self@.dim_ids.len(),
    {
        self.dim_ids.len()
    }

    /// The shape: for each place, the index of the dimension among the
    /// dimensions of the data set.
    pub fn dim_ids(&self) -> (r: Vec<usize>)
        ensures
            ids_view(r@) == self@.dim_ids,
    {
        let r = self.dim_ids.clone();
        assert(ids_view(r@) =~= self@.dim_ids);
        r
    }

    /// The number of attributes of the variable.
    pub fn num_attrs(&self) -> (r: usize)
        ensures
            r == self@.attrs.len(),
    {
        self.attrs.len()
    }

    /// Whether the variable has an attribute of that name.
    pub fn has_attr(&self, name: &str) -> (r: bool)
        ensures
            r == (find_named(self@.attrs, name@) is Some),
    {
        find_attr(&self.attrs, name).is_some()
    }

    /// The attribute of that name, if the variable has one.
    pub fn get_attr(&self, name: &str) -> (r: Option<&Attribute>)
        ensures
            match find_named(self@.attrs, name@) {
                Some(i) => r is Some && r.unwrap()@ == self@.attrs[i],
                None => r is None,
            },
    {
        match find_attr(&self.attrs, name) {
            Some(i) => Some(&self.attrs[i]),
            None => None,
        }
    }

    /// The attribute at place `index` in the order in which they were added.
    pub fn attr_at(&self, index: usize) -> (r: Option<&Attribute>)
        ensures
            index < self@.attrs.len() ==> r is Some && r.unwrap()@ == self@.attrs[index as int],
            index >= self@.attrs.len() ==> r is None,
    {
        if index < self.attrs.len() {
            Some(&self.attrs[index])
        } else {
            None
        }
    }
}

} // verus!
