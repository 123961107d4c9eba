//! The in-memory model of a data set.
pub mod attribute;
pub mod dimension;
pub mod model;
pub mod named;
pub mod variable;

use crate::data_set::attribute::{
    add_to_attrs, find_attr, remove_from_attrs, rename_in_attrs, Attribute,
};
use crate::data_set::dimension::{Dimension, DimensionSize, DimensionType, DimensionView};
use crate::data_set::model::{
    find_unlimited, lemma_add_dim_valid, lemma_attr_change_valid, lemma_find_unlimited,
    lemma_remove_dim_valid, lemma_rename_dim_valid, lemma_var_change_valid, resolve_dims,
    shift_ids, shift_vars, unlimited_uses, users_of, DataSetView,
};
use crate::data_set::named::{
    find_named, lemma_find_named, lemma_find_named_at, lemma_remove_insert, lemma_views_push,
    lemma_views_remove, lemma_views_update, same_index, same_text, views, Named,
};
use crate::data_set::variable::{ids_view, Variable};
use crate::data_type::DataType;
use crate::data_vector::DataVector;
use crate::error::{InvalidDataSet, InvalidDataSetView};
use crate::name_string::{is_valid_name, str_eq};
use vstd::prelude::*;

verus! {

/// The dimensions, the global attributes and the variables of a file.
///
/// Whatever is done to it, a data set keeps what holds of every data set:
/// names are valid and distinct among their kind, at most one dimension is
/// unlimited, and a shape holds dimensions of the data set, the unlimited one
/// in the first place only.
#[derive(Debug, PartialEq, Eq)]
pub struct DataSet {
    pub(crate) dims: Vec<Dimension>,
    pub(crate) attrs: Vec<Attribute>,
    pub(crate) vars: Vec<Variable>,
}

impl View for DataSet {
    type V = DataSetView;

    open(crate) spec fn view(&self) -> DataSetView {
        DataSetView { dims: views(self.dims@), attrs: views(self.attrs@), vars: views(self.vars@) }
    }
}

/// The texts of string slices.
pub open spec fn strs_view(names: Seq<&str>) -> Seq<Seq<char>> {
    Seq::new(names.len(), |i: int| names[i]@)
}

/// The texts of strings.
pub open spec fn strings_view(names: Seq<String>) -> Seq<Seq<char>> {
    Seq::new(names.len(), |i: int| names[i]@)
}

/// Looks for the dimension named `name`.
pub(crate) fn find_dim(dims: &Vec<Dimension>, name: &str) -> (r: Option<usize>)
    ensures
        same_index(r, find_named(views(dims@), name@)),
        r matches Some(i) ==> i < dims@.len(),
{
    let n: usize = dims.len();
    let mut i: usize = 0;
    while i < n
        invariant
            i <= n,
            n == dims@.len(),
            forall|j: int| 0 <= j < i ==> (#[trigger] views(dims@)[j]).name_of() != name@,
        decreases n - i,
    {
        if same_text(&dims[i].name, name) {
            proof {
                lemma_find_named_at(views(dims@), name@, i as int);
            }
            return Some(i);
        }
        i += 1;
    }
    proof {
        lemma_find_named(views(dims@), name@);
    }
    None
}

/// Looks for the variable named `name`.
pub(crate) fn find_var(vars: &Vec<Variable>, name: &str) -> (r: Option<usize>)
    ensures
        same_index(r, find_named(views(vars@), name@)),
        r matches Some(i) ==> i < vars@.len(),
{
    let n: usize = vars.len();
    let mut i: usize = 0;
    while i < n
        invariant
            i <= n,
            n == vars@.len(),
            forall|j: int| 0 <= j < i ==> (#[trigger] views(vars@)[j]).name_of() != name@,
        decreases n - i,
    {
        if same_text(&vars[i].name, name) {
            proof {
                lemma_find_named_at(views(vars@), name@, i as int);
            }
            return Some(i);
        }
        i += 1;
    }
    proof {
        lemma_find_named(views(vars@), name@);
    }
    None
}

/// Looks for the unlimited dimension.
pub(crate) fn find_unlimited_dim(dims: &Vec<Dimension>) -> (r: Option<usize>)
    ensures
        same_index(r, find_unlimited(views(dims@))),
        r matches Some(i) ==> i < dims@.len(),
{
    let n: usize = dims.len();
    let mut i: usize = 0;
    proof {
        lemma_find_unlimited(views(dims@));
    }
    while i < n
        invariant
            i <= n,
            n == dims@.len(),
            forall|j: int| 0 <= j < i ==> !(#[trigger] views(dims@)[j]).is_unlimited(),
        decreases n - i,
    {
        if dims[i].is_unlimited() {
            proof {
                lemma_find_unlimited(views(dims@));
                assert(views(dims@)[i as int].is_unlimited());
            }
            return Some(i);
        }
        i += 1;
    }
    proof {
        lemma_find_unlimited(views(dims@));
    }
    None
}

/// Where the names before `k` resolve and the name at `k` does not, that
/// name is the one reported.
proof fn lemma_resolve_stops(dims: Seq<DimensionView>, names: Seq<Seq<char>>, k: int)
    requires
        0 <= k < names.len(),
        resolve_dims(dims, names.take(k)) is Ok,
        find_named(dims, names[k]) is None,
    ensures
        resolve_dims(dims, names) == Err::<Seq<int>, Seq<char>>(names[k]),
    decreases names.len() - k,
{
    if k == names.len() - 1 {
        assert(names.take(k) =~= names.drop_last());
    } else {
        assert(names.drop_last().take(k) =~= names.take(k));
        assert(names.drop_last()[k] == names[k]);
        lemma_resolve_stops(dims, names.drop_last(), k);
    }
}

/// Whether the shape holds the dimension at `dim`.
fn shape_uses(ids: &Vec<usize>, dim: usize) -> (r: bool)
    ensures
        r == ids_view(ids@).contains(dim as int),
{
    let n: usize = ids.len();
    let mut k: usize = 0;
    while k < n
        invariant
            k <= n,
            n == ids@.len(),
            forall|j: int| 0 <= j < k ==> ids_view(ids@)[j] != dim as int,
        decreases n - k,
    {
        if ids[k] == dim {
            assert(ids_view(ids@)[k as int] == dim as int);
            return true;
        }
        k += 1;
    }
    false
}

/// The shape once the dimension at `removed` is gone.
fn shifted_shape(ids: &Vec<usize>, removed: usize) -> (r: Vec<usize>)
    ensures
        ids_view(r@) == shift_ids(ids_view(ids@), removed as int),
{
    let n: usize = ids.len();
    let mut out: Vec<usize> = Vec::new();
    let mut k: usize = 0;
    while k < n
        invariant
            k <= n,
            n == ids@.len(),
            out@.len() == k,
            forall|j: int|
                0 <= j < k ==> #[trigger] out@[j] as int == shift_ids(
                    ids_view(ids@),
                    removed as int,
                )[j],
        decreases n - k,
    {
        let id: usize = ids[k];
        if id > removed {
            out.push(id - 1);
        } else {
            out.push(id);
        }
        k += 1;
    }
    assert(ids_view(out@) =~= shift_ids(ids_view(ids@), removed as int));
    out
}

impl Clone for DataSet {
    fn clone(&self) -> (r: Self)
        ensures
            r@ == self@,
    {
        proof {
            use_type_invariant(self);
        }
        let mut dims: Vec<Dimension> = Vec::new();
        let n: usize = self.dims.len();
        let mut i: usize = 0;
        while i < n
            invariant
                i <= n,
                n == self.dims@.len(),
                dims@.len() == i,
                forall|j: int| 0 <= j < i ==> (#[trigger] dims@[j])@ == self.dims@[j]@,
            decreases n - i,
        {
            dims.push(self.dims[i].clone());
            i += 1;
        }
        assert(views(dims@) =~= views(self.dims@));
        let mut vars: Vec<Variable> = Vec::new();
        let m: usize = self.vars.len();
        let mut v: usize = 0;
        while v < m
            invariant
                v <= m,
                m == self.vars@.len(),
                vars@.len() == v,
                forall|j: int| 0 <= j < v ==> (#[trigger] vars@[j])@ == self.vars@[j]@,
            decreases m - v,
        {
            vars.push(self.vars[v].clone());
            v += 1;
        }
        assert(views(vars@) =~= views(self.vars@));
        let attrs = crate::data_set::variable::clone_attrs(&self.attrs);
        DataSet { dims, attrs, vars }
    }
}

impl DataSet {
    /// What holds of every data set.
    #[verifier::type_invariant]
    pub open spec fn wf(self) -> bool {
        self@.valid()
    }

    /// A data set that holds nothing.
    pub fn new() -> (r: DataSet)
        ensures
            r@ == DataSetView::empty(),
    {
        let r = DataSet { dims: Vec::new(), attrs: Vec::new(), vars: Vec::new() };
        assert(r@.dims =~= Seq::empty() && r@.attrs =~= Seq::empty() && r@.vars =~= Seq::empty());
        r
    }

    /// Moves the content out, and leaves the empty data set.
    fn take_parts(&mut self) -> (r: DataSet)
        ensures
            r == *old(self),
    {
        let mut taken = DataSet::new();
        core::mem::swap(self, &mut taken);
        taken
    }

    /// Sets the size of the unlimited dimension, if there is one.
    pub(crate) fn set_num_records(&mut self, n: usize)
        ensures
            final(self)@ == old(self)@.with_num_records(n as nat),
    {
        proof {
            use_type_invariant(&*self);
            crate::data_set::model::lemma_with_num_records_valid(self@, n as nat);
        }
        if let Some(i) = find_unlimited_dim(&self.dims) {
            let DataSet { mut dims, attrs, vars } = self.take_parts();
            let old_dim = dims.remove(i);
            let dim = Dimension { name: old_dim.name, size: DimensionSize::Unlimited(n) };
            proof {
                lemma_remove_insert(old(self).dims@, i as int, dim);
                lemma_views_update(old(self).dims@, i as int, dim);
            }
            dims.insert(i, dim);
            *self = DataSet { dims, attrs, vars };
        }
    }

    /// The number of dimensions.
    pub fn num_dims(&self) -> (r: usize)
        ensures
            r == self@.dims.len(),
    {
        self.dims.len()
    }

    /// Whether a dimension of that name exists.
    pub fn has_dim(&self, name: &str) -> (r: bool)
        ensures
            r == (find_named(self@.dims, name@) is Some),
    {
        find_dim(&self.dims, name).is_some()
    }

    /// The dimension of that name, if it exists.
    pub fn get_dim(&self, name: &str) -> (r: Option<&Dimension>)
        ensures
            match find_named(self@.dims, name@) {
                Some(i) => r is Some && r.unwrap()@ == self@.dims[i],
                None => r is None,
            },
    {
        match find_dim(&self.dims, name) {
            Some(i) => Some(&self.dims[i]),
            None => None,
        }
    }

    /// The dimension at place `index` in the order in which they were added.
    pub fn dim_at(&self, index: usize) -> (r: Option<&Dimension>)
        ensures
            index < self@.dims.len() ==> r is Some && r.unwrap()@ == self@.dims[index as int],
            index >= self@.dims.len() ==> r is None,
    {
        if index < self.dims.len() {
            Some(&self.dims[index])
        } else {
            None
        }
    }

    /// The size of the dimension of that name, if it exists.
    pub fn get_dim_size(&self, name: &str) -> (r: Option<usize>)
        ensures
            match find_named(self@.dims, name@) {
                Some(i) => r is Some && r.unwrap() == self@.dims[i].size,
                None => r is None,
            },
    {
        match find_dim(&self.dims, name) {
            Some(i) => Some(self.dims[i].size()),
            None => None,
        }
    }

    /// The kind of the dimension of that name, if it exists.
    pub fn get_dim_type(&self, name: &str) -> (r: Option<DimensionType>)
        ensures
            match find_named(self@.dims, name@) {
                Some(i) => r == Some(self@.dims[i].dim_type),
                None => r is None,
            },
    {
        match find_dim(&self.dims, name) {
            Some(i) => Some(self.dims[i].dim_type()),
            None => None,
        }
    }

    /// Whether the data set has an unlimited dimension.
    pub fn has_unlimited_dim(&self) -> (r: bool)
        ensures
            r == (find_unlimited(self@.dims) is Some),
    {
        find_unlimited_dim(&self.dims).is_some()
    }

    /// The unlimited dimension, if the data set has one.
    pub fn get_unlimited_dim(&self) -> (r: Option<&Dimension>)
        ensures
            match find_unlimited(self@.dims) {
                Some(i) => r is Some && r.unwrap()@ == self@.dims[i],
                None => r is None,
            },
    {
        match find_unlimited_dim(&self.dims) {
            Some(i) => Some(&self.dims[i]),
            None => None,
        }
    }

    /// The number of records: the size of the unlimited dimension, or zero
    /// where there is none.
    pub fn num_records(&self) -> (r: usize)
        ensures
            r == self@.num_records(),
    {
        match find_unlimited_dim(&self.dims) {
            Some(i) => self.dims[i].size(),
            None => 0,
        }
    }

    /// The names of the dimensions, in the order in which they were added.
    pub fn dim_names(&self) -> (r: Vec<String>)
        ensures
            r@.len() == self@.dims.len(),
            forall|i: int| 0 <= i < r@.len() ==> (#[trigger] r@[i])@ == self@.dims[i].name,
    {
        let n: usize = self.dims.len();
        let mut out: Vec<String> = Vec::new();
        let mut i: usize = 0;
        while i < n
            invariant
                i <= n,
                n == self.dims@.len(),
                out@.len() == i,
                forall|j: int| 0 <= j < i ==> (#[trigger] out@[j])@ == self@.dims[j].name,
            decreases n - i,
        {
            out.push(self.dims[i].name());
            i += 1;
        }
        out
    }

    /// Adds a fixed dimension, or refuses it and changes nothing.
    pub fn add_fixed_dim(&mut self, name: &str, size: usize) -> (r: Result<(), InvalidDataSet>)
        ensures
            match old(self)@.add_fixed_dim(name@, size as nat) {
                Ok(after) => r is Ok && final(self)@ == after,
                Err(e) => r is Err && r.unwrap_err()@ == e && final(self)@ == old(self)@,
            },
    {
        proof {
            use_type_invariant(&*self);
            lemma_add_dim_valid(self@, name@, size as nat);
        }
        if find_dim(&self.dims, name).is_some() {
            return Err(InvalidDataSet::DimensionAlreadyExists(name.to_owned()));
        }
        let dim = match Dimension::new_fixed_size(name, size) {
            Ok(dim) => dim,
            Err(e) => {
                return Err(e);
            },
        };
        let DataSet { mut dims, attrs, vars } = self.take_parts();
        proof {
            lemma_views_push(dims@, dim);
        }
        dims.push(dim);
        *self = DataSet { dims, attrs, vars };
        Ok(())
    }

    /// Sets the unlimited dimension, or refuses it and changes nothing.
    pub fn set_unlimited_dim(&mut self, name: &str, size: usize) -> (r: Result<(), InvalidDataSet>)
        ensures
            match old(self)@.set_unlimited_dim(name@, size as nat) {
                Ok(after) => r is Ok && final(self)@ == after,
                Err(e) => r is Err && r.unwrap_err()@ == e && final(self)@ == old(self)@,
            },
    {
        proof {
            use_type_invariant(&*self);
            lemma_add_dim_valid(self@, name@, size as nat);
        }
        if let Some(i) = find_unlimited_dim(&self.dims) {
            return Err(InvalidDataSet::UnlimitedAlreadyExists(self.dims[i].name()));
        }
        if find_dim(&self.dims, name).is_some() {
            return Err(InvalidDataSet::DimensionAlreadyExists(name.to_owned()));
        }
        let dim = match Dimension::new_unlimited_size(name, size) {
            Ok(dim) => dim,
            Err(e) => {
                return Err(e);
            },
        };
        let DataSet { mut dims, attrs, vars } = self.take_parts();
        proof {
            lemma_views_push(dims@, dim);
        }
        dims.push(dim);
        *self = DataSet { dims, attrs, vars };
        Ok(())
    }

    /// Renames a dimension, or refuses to and changes nothing. Every shape
    /// that holds the dimension goes on holding it.
    pub fn rename_dim(&mut self, old_name: &str, new_name: &str) -> (r: Result<(), InvalidDataSet>)
        ensures
            match old(self)@.rename_dim(old_name@, new_name@) {
                Ok(after) => r is Ok && final(self)@ == after,
                Err(e) => r is Err && r.unwrap_err()@ == e && final(self)@ == old(self)@,
            },
    {
        proof {
            use_type_invariant(&*self);
            lemma_rename_dim_valid(self@, old_name@, new_name@);
        }
        let i: usize = match find_dim(&self.dims, old_name) {
            None => {
                return Err(InvalidDataSet::DimensionNotFound(old_name.to_owned()));
            },
            Some(i) => i,
        };
        if str_eq(old_name, new_name) {
            return Ok(());
        }
        if find_dim(&self.dims, new_name).is_some() {
            return Err(InvalidDataSet::DimensionAlreadyExists(new_name.to_owned()));
        }
        if !is_valid_name(new_name) {
            return Err(InvalidDataSet::InvalidName(new_name.to_owned()));
        }
        let DataSet { mut dims, attrs, vars } = self.take_parts();
        let old_dim = dims.remove(i);
        let dim = Dimension { name: new_name.to_owned(), size: old_dim.size };
        proof {
            lemma_remove_insert(old(self).dims@, i as int, dim);
            lemma_views_update(old(self).dims@, i as int, dim);
        }
        dims.insert(i, dim);
        *self = DataSet { dims, attrs, vars };
        Ok(())
    }

    /// The names of the variables whose shape holds the dimension at `dim`.
    fn users_of_dim(&self, dim: usize) -> (r: Vec<String>)
        ensures
            strings_view(r@) == users_of(self@.vars, dim as int),
    {
        let n: usize = self.vars.len();
        let mut users: Vec<String> = Vec::new();
        let mut v: usize = 0;
        assert(self@.vars.take(0) =~= Seq::empty());
        assert(strings_view(users@) =~= Seq::empty());
        while v < n
            invariant
                v <= n,
                n == self.vars@.len(),
                strings_view(users@) == users_of(self@.vars.take(v as int), dim as int),
            decreases n - v,
        {
            let ghost before = self@.vars.take(v as int);
            let ghost next = self@.vars.take(v + 1);
            assert(next.drop_last() =~= before);
            assert(next.last() == self@.vars[v as int]);
            if shape_uses(&self.vars[v].dim_ids, dim) {
                let name = self.vars[v].name();
                let ghost old_users = users@;
                users.push(name);
                assert(strings_view(users@) =~= strings_view(old_users).push(name@));
            }
            v += 1;
        }
        assert(self@.vars.take(n as int) =~= self@.vars);
        users
    }

    /// Removes a dimension that no variable uses and hands it out, or refuses
    /// to and changes nothing.
    pub fn remove_dim(&mut self, name: &str) -> (r: Result<Dimension, InvalidDataSet>)
        ensures
            match old(self)@.remove_dim(name@) {
                Ok((after, removed)) => r is Ok && final(self)@ == after && r.unwrap()@ == removed,
                Err(e) => r is Err && r.unwrap_err()@ == e && final(self)@ == old(self)@,
            },
    {
        proof {
            use_type_invariant(&*self);
            lemma_remove_dim_valid(self@, name@);
        }
        let i: usize = match find_dim(&self.dims, name) {
            None => {
                return Err(InvalidDataSet::DimensionNotFound(name.to_owned()));
            },
            Some(i) => i,
        };
        let users = self.users_of_dim(i);
        if users.len() > 0 {
            let e = InvalidDataSet::DimensionInUse(users);
            assert(e@ == InvalidDataSetView::DimensionInUse(users_of(self@.vars, i as int))) by {
                assert(strings_view(users@) =~= Seq::new(users@.len(), |k: int| users@[k]@));
            }
            return Err(e);
        }
        let DataSet { mut dims, attrs, mut vars } = self.take_parts();
        proof {
            lemma_views_remove(dims@, i as int);
        }
        let removed = dims.remove(i);
        let n: usize = vars.len();
        let mut v: usize = 0;
        let ghost before = views(vars@);
        while v < n
            invariant
                v <= n,
                n == vars@.len(),
                n == before.len(),
                forall|a: int| 0 <= a < v ==> (#[trigger] views(vars@)[a]) == shift_vars(before, i as int)[a],
                forall|a: int| v <= a < n ==> (#[trigger] views(vars@)[a]) == before[a],
            decreases n - v,
        {
            let ghost mid = vars@;
            let var = vars.remove(v);
            let shifted = Variable {
                name: var.name,
                data_type: var.data_type,
                dim_ids: shifted_shape(&var.dim_ids, i),
                attrs: var.attrs,
            };
            vars.insert(v, shifted);
            proof {
                lemma_remove_insert(mid, v as int, shifted);
                assert forall|a: int| 0 <= a < v + 1 implies (#[trigger] views(vars@)[a]) == shift_vars(
                    before,
                    i as int,
                )[a] by {
                    if a < v {
                        assert(views(mid)[a] == shift_vars(before, i as int)[a]);
                    } else {
                        assert(views(mid)[a] == before[a]);
                    }
                }
                assert forall|a: int| v + 1 <= a < n implies (#[trigger] views(vars@)[a]) == before[a] by {
                    assert(views(mid)[a] == before[a]);
                }
            }
            v += 1;
        }
        assert(views(vars@) =~= shift_vars(before, i as int));
        *self = DataSet { dims, attrs, vars };
        Ok(removed)
    }

    /// The number of variables.
    pub fn num_vars(&self) -> (r: usize)
        ensures
            r == self@.vars.len(),
    {
        self.vars.len()
    }

    /// Whether a variable of that name exists.
    pub fn has_var(&self, name: &str) -> (r: bool)
        ensures
            r == (find_named(self@.vars, name@) is Some),
    {
        find_var(&self.vars, name).is_some()
    }

    /// The variable of that name, if it exists.
    pub fn get_var(&self, name: &str) -> (r: Option<&Variable>)
        ensures
            match find_named(self@.vars, name@) {
                Some(i) => r is Some && r.unwrap()@ == self@.vars[i],
                None => r is None,
            },
    {
        match find_var(&self.vars, name) {
            Some(i) => Some(&self.vars[i]),
            None => None,
        }
    }

    /// The variable at place `index` in the order in which they were added.
    pub fn var_at(&self, index: usize) -> (r: Option<&Variable>)
        ensures
            index < self@.vars.len() ==> r is Some && r.unwrap()@ == self@.vars[index as int],
            index >= self@.vars.len() ==> r is None,
    {
        if index < self.vars.len() {
            Some(&self.vars[index])
        } else {
            None
        }
    }

    /// The names of the variables, in the order in which they were added.
    pub fn var_names(&self) -> (r: Vec<String>)
        ensures
            r@.len() == self@.vars.len(),
            forall|i: int| 0 <= i < r@.len() ==> (#[trigger] r@[i])@ == self@.vars[i].name,
    {
        let n: usize = self.vars.len();
        let mut out: Vec<String> = Vec::new();
        let mut i: usize = 0;
        while i < n
            invariant
                i <= n,
                n == self.vars@.len(),
                out@.len() == i,
                forall|j: int| 0 <= j < i ==> (#[trigger] out@[j])@ == self@.vars[j].name,
            decreases n - i,
        {
            out.push(self.vars[i].name());
            i += 1;
        }
        out
    }

    /// Whether the variable of that name is a record variable, if it exists.
    pub fn is_record_var(&self, name: &str) -> (r: Option<bool>)
        ensures
            match find_named(self@.vars, name@) {
                Some(i) => r == Some(self@.is_record_var(i)),
                None => r is None,
            },
    {
        proof {
            use_type_invariant(self);
        }
        match find_var(&self.vars, name) {
            Some(i) => {
                assert(crate::data_set::model::var_valid(self@.dims, self@.vars[i as int]));
                Some(self.is_record_at(i))
            },
            None => None,
        }
    }

    /// Whether the variable at `v` is a record variable.
    pub(crate) fn is_record_at(&self, v: usize) -> (r: bool)
        requires
            v < self@.vars.len(),
        ensures
            r == self@.is_record_var(v as int),
    {
        proof {
            use_type_invariant(self);
            assert(crate::data_set::model::var_valid(self@.dims, self@.vars[v as int]));
        }
        let var = &self.vars[v];
        if var.dim_ids.len() == 0 {
            false
        } else {
            let id: usize = var.dim_ids[0];
            assert(self@.vars[v as int].dim_ids[0] == id as int);
            self.dims[id].is_unlimited()
        }
    }

    /// Adds a variable without attributes, or refuses it and changes nothing.
    pub fn add_var(&mut self, name: &str, dim_names: &[&str], data_type: DataType) -> (r: Result<
        (),
        InvalidDataSet,
    >)
        ensures
            match old(self)@.add_var(name@, strs_view(dim_names@), data_type) {
                Ok(after) => r is Ok && final(self)@ == after,
                Err(e) => r is Err && r.unwrap_err()@ == e && final(self)@ == old(self)@,
            },
    {
        let ghost names = strs_view(dim_names@);
        proof {
            use_type_invariant(&*self);
            lemma_var_change_valid(self@, name@, name@, names, data_type);
        }
        if find_var(&self.vars, name).is_some() {
            return Err(InvalidDataSet::VariableAlreadyExists(name.to_owned()));
        }
        let n: usize = dim_names.len();
        let mut ids: Vec<usize> = Vec::new();
        let mut uses: usize = 0;
        let mut first_unlimited: bool = false;
        let mut k: usize = 0;
        assert(names.take(0) =~= Seq::empty());
        assert(ids_view(ids@) =~= Seq::empty());
        while k < n
            invariant
                k <= n,
                n == dim_names@.len(),
                names == strs_view(dim_names@),
                *self == *old(self),
                find_named(self@.vars, name@) is None,
                ids@.len() == k,
                resolve_dims(self@.dims, names.take(k as int)) == Ok::<Seq<int>, Seq<char>>(
                    ids_view(ids@),
                ),
                forall|j: int| 0 <= j < k ==> 0 <= #[trigger] ids@[j] < self.dims@.len(),
                uses == unlimited_uses(self@.dims, ids_view(ids@)),
                uses <= k,
                first_unlimited == (k > 0 && self@.dims[ids_view(ids@)[0]].is_unlimited()),
            decreases n - k,
        {
            let ghost front = names.take(k as int);
            let ghost next = names.take(k + 1);
            let ghost old_ids = ids_view(ids@);
            assert(next.drop_last() =~= front);
            assert(next.last() == names[k as int]);
            match find_dim(&self.dims, dim_names[k]) {
                None => {
                    proof {
                        lemma_resolve_stops(self@.dims, names, k as int);
                    }
                    return Err(InvalidDataSet::DimensionNotFound(dim_names[k].to_owned()));
                },
                Some(i) => {
                    let unlimited: bool = self.dims[i].is_unlimited();
                    ids.push(i);
                    assert(ids_view(ids@) =~= old_ids.push(i as int));
                    assert(ids_view(ids@).drop_last() =~= old_ids);
                    if unlimited {
                        uses += 1;
                    }
                    if k == 0 {
                        first_unlimited = unlimited;
                    }
                },
            }
            k += 1;
        }
        assert(names.take(n as int) =~= names);
        if uses >= 2 {
            return Err(InvalidDataSet::UnlimitedDimensionUsedMoreThanOnce(name.to_owned()));
        }
        if uses == 1 && !first_unlimited {
            proof {
                crate::data_set::model::lemma_unlimited_uses(self@.dims, ids_view(ids@));
            }
            return Err(InvalidDataSet::UnlimitedDimensionNotFirst(name.to_owned()));
        }
        if !is_valid_name(name) {
            return Err(InvalidDataSet::InvalidName(name.to_owned()));
        }
        let var = Variable { name: name.to_owned(), data_type, dim_ids: ids, attrs: Vec::new() };
        assert(var@.attrs =~= Seq::empty());
        let DataSet { dims, attrs, mut vars } = self.take_parts();
        proof {
            lemma_views_push(vars@, var);
        }
        vars.push(var);
        *self = DataSet { dims, attrs, vars };
        Ok(())
    }

    /// Renames a variable, or refuses to and changes nothing.
    pub fn rename_var(&mut self, old_name: &str, new_name: &str) -> (r: Result<(), InvalidDataSet>)
        ensures
            match old(self)@.rename_var(old_name@, new_name@) {
                Ok(after) => r is Ok && final(self)@ == after,
                Err(e) => r is Err && r.unwrap_err()@ == e && final(self)@ == old(self)@,
            },
    {
        proof {
            use_type_invariant(&*self);
            lemma_var_change_valid(self@, old_name@, new_name@, Seq::empty(), DataType::I8);
        }
        let i: usize = match find_var(&self.vars, old_name) {
            None => {
                return Err(InvalidDataSet::VariableNotFound(old_name.to_owned()));
            },
            Some(i) => i,
        };
        if str_eq(old_name, new_name) {
            return Ok(());
        }
        if find_var(&self.vars, new_name).is_some() {
            return Err(InvalidDataSet::VariableAlreadyExists(new_name.to_owned()));
        }
        if !is_valid_name(new_name) {
            return Err(InvalidDataSet::InvalidName(new_name.to_owned()));
        }
        let DataSet { dims, attrs, mut vars } = self.take_parts();
        let old_var = vars.remove(i);
        let var = Variable {
            name: new_name.to_owned(),
            data_type: old_var.data_type,
            dim_ids: old_var.dim_ids,
            attrs: old_var.attrs,
        };
        proof {
            lemma_remove_insert(old(self).vars@, i as int, var);
            lemma_views_update(old(self).vars@, i as int, var);
        }
        vars.insert(i, var);
        *self = DataSet { dims, attrs, vars };
        Ok(())
    }

    /// Removes a variable and hands it out, or says that there is none of
    /// that name.
    pub fn remove_var(&mut self, name: &str) -> (r: Result<Variable, InvalidDataSet>)
        ensures
            match old(self)@.remove_var(name@) {
                Ok((after, removed)) => r is Ok && final(self)@ == after && r.unwrap()@ == removed,
                Err(e) => r is Err && r.unwrap_err()@ == e && final(self)@ == old(self)@,
            },
    {
        proof {
            use_type_invariant(&*self);
            lemma_var_change_valid(self@, name@, name@, Seq::empty(), DataType::I8);
        }
        let i: usize = match find_var(&self.vars, name) {
            None => {
                return Err(InvalidDataSet::VariableNotFound(name.to_owned()));
            },
            Some(i) => i,
        };
        let DataSet { dims, attrs, mut vars } = self.take_parts();
        proof {
            lemma_views_remove(vars@, i as int);
        }
        let removed = vars.remove(i);
        *self = DataSet { dims, attrs, vars };
        Ok(removed)
    }

    /// The number of global attributes.
    pub fn num_global_attrs(&self) -> (r: usize)
        ensures
            r == self@.attrs.len(),
    {
        self.attrs.len()
    }

    /// Whether a global attribute of that name exists.
    pub fn has_global_attr(&self, name: &str) -> (r: bool)
        ensures
            r == (find_named(self@.attrs, name@) is Some),
    {
        find_attr(&self.attrs, name).is_some()
    }

    /// The global attribute of that name, if it exists.
    pub fn get_global_attr(&self, name: &str) -> (r: Option<&Attribute>)
        ensures
            match find_named(self@.attrs, name@) {
                Some(i) => r is Some && r.unwrap()@ == self@.attrs[i],
                None => r is None,
            },
    {
        match find_attr(&self.attrs, name) {
            Some(i) => Some(&self.attrs[i]),
            None => None,
        }
    }

    /// The global attribute at place `index` in the order in which they were
    /// added.
    pub fn global_attr_at(&self, index: usize) -> (r: Option<&Attribute>)
        ensures
            index < self@.attrs.len() ==> r is Some && r.unwrap()@ == self@.attrs[index as int],
            index >= self@.attrs.len() ==> r is None,
    {
        if index < self.attrs.len() {
            Some(&self.attrs[index])
        } else {
            None
        }
    }

    /// The attribute named `name` of the variable named `var_name`, if both
    /// exist.
    pub fn get_var_attr(&self, var_name: &str, name: &str) -> (r: Option<&Attribute>)
        ensures
            match find_named(self@.vars, var_name@) {
                Some(i) => match find_named(self@.vars[i].attrs, name@) {
                    Some(j) => r is Some && r.unwrap()@ == self@.vars[i].attrs[j],
                    None => r is None,
                },
                None => r is None,
            },
    {
        match find_var(&self.vars, var_name) {
            Some(i) => self.vars[i].get_attr(name),
            None => None,
        }
    }

    /// Adds a global attribute, or refuses it and changes nothing.
    pub fn add_global_attr(&mut self, name: &str, values: DataVector) -> (r: Result<
        (),
        InvalidDataSet,
    >)
        ensures
            match old(self)@.add_global_attr(name@, values@) {
                Ok(after) => r is Ok && final(self)@ == after,
                Err(e) => r is Err && r.unwrap_err()@ == e && final(self)@ == old(self)@,
            },
    {
        proof {
            use_type_invariant(&*self);
            lemma_attr_change_valid(self@, name@, name@, name@, values@);
        }
        let DataSet { dims, mut attrs, vars } = self.take_parts();
        let r = add_to_attrs(&mut attrs, name, values);
        *self = DataSet { dims, attrs, vars };
        r
    }

    /// Renames a global attribute, or refuses to and changes nothing.
    pub fn rename_global_attr(&mut self, old_name: &str, new_name: &str) -> (r: Result<
        (),
        InvalidDataSet,
    >)
        ensures
            match old(self)@.rename_global_attr(old_name@, new_name@) {
                Ok(after) => r is Ok && final(self)@ == after,
                Err(e) => r is Err && r.unwrap_err()@ == e && final(self)@ == old(self)@,
            },
    {
        proof {
            use_type_invariant(&*self);
            lemma_attr_change_valid(
                self@,
                old_name@,
                old_name@,
                new_name@,
                crate::data_vector::Values { data_type: DataType::I8, elems: Seq::empty() },
            );
        }
        let DataSet { dims, mut attrs, vars } = self.take_parts();
        let r = rename_in_attrs(&mut attrs, old_name, new_name);
        *self = DataSet { dims, attrs, vars };
        r
    }

    /// Removes a global attribute and hands it out, or says that there is
    /// none of that name.
    pub fn remove_global_attr(&mut self, name: &str) -> (r: Result<Attribute, InvalidDataSet>)
        ensures
            match old(self)@.remove_global_attr(name@) {
                Ok((after, removed)) => r is Ok && final(self)@ == after && r.unwrap()@ == removed,
                Err(e) => r is Err && r.unwrap_err()@ == e && final(self)@ == old(self)@,
            },
    {
        proof {
            use_type_invariant(&*self);
            lemma_attr_change_valid(
                self@,
                name@,
                name@,
                name@,
                crate::data_vector::Values { data_type: DataType::I8, elems: Seq::empty() },
            );
        }
        let DataSet { dims, mut attrs, vars } = self.take_parts();
        let r = remove_from_attrs(&mut attrs, name);
        *self = DataSet { dims, attrs, vars };
        r
    }

    /// Adds an attribute to a variable, or refuses it and changes nothing.
    pub fn add_var_attr(&mut self, var_name: &str, name: &str, values: DataVector) -> (r: Result<
        (),
        InvalidDataSet,
    >)
        ensures
            match old(self)@.add_var_attr(var_name@, name@, values@) {
                Ok(after) => r is Ok && final(self)@ == after,
                Err(e) => r is Err && r.unwrap_err()@ == e && final(self)@ == old(self)@,
            },
    {
        proof {
            use_type_invariant(&*self);
            lemma_attr_change_valid(self@, var_name@, name@, name@, values@);
        }
        let i: usize = match find_var(&self.vars, var_name) {
            None => {
                return Err(InvalidDataSet::VariableNotFound(var_name.to_owned()));
            },
            Some(i) => i,
        };
        let DataSet { dims, attrs, mut vars } = self.take_parts();
        let mut var = vars.remove(i);
        let mut var_attrs = var.attrs;
        let r = add_to_attrs(&mut var_attrs, name, values);
        let var = Variable {
            name: var.name,
            data_type: var.data_type,
            dim_ids: var.dim_ids,
            attrs: var_attrs,
        };
        proof {
            lemma_remove_insert(old(self).vars@, i as int, var);
            lemma_views_update(old(self).vars@, i as int, var);
            if r is Err {
                assert(views(old(self).vars@).update(i as int, var@) =~= views(old(self).vars@));
            }
        }
        vars.insert(i, var);
        *self = DataSet { dims, attrs, vars };
        r
    }

    /// Renames an attribute of a variable, or refuses to and changes nothing.
    pub fn rename_var_attr(&mut self, var_name: &str, old_name: &str, new_name: &str) -> (r: Result<
        (),
        InvalidDataSet,
    >)
        ensures
            match old(self)@.rename_var_attr(var_name@, old_name@, new_name@) {
                Ok(after) => r is Ok && final(self)@ == after,
                Err(e) => r is Err && r.unwrap_err()@ == e && final(self)@ == old(self)@,
            },
    {
        proof {
            use_type_invariant(&*self);
            lemma_attr_change_valid(
                self@,
                var_name@,
                old_name@,
                new_name@,
                crate::data_vector::Values { data_type: DataType::I8, elems: Seq::empty() },
            );
        }
        let i: usize = match find_var(&self.vars, var_name) {
            None => {
                return Err(InvalidDataSet::VariableNotFound(var_name.to_owned()));
            },
            Some(i) => i,
        };
        let DataSet { dims, attrs, mut vars } = self.take_parts();
        let mut var = vars.remove(i);
        let mut var_attrs = var.attrs;
        let r = rename_in_attrs(&mut var_attrs, old_name, new_name);
        let var = Variable {
            name: var.name,
            data_type: var.data_type,
            dim_ids: var.dim_ids,
            attrs: var_attrs,
        };
        proof {
            lemma_remove_insert(old(self).vars@, i as int, var);
            lemma_views_update(old(self).vars@, i as int, var);
            if r is Err || old_name@ == new_name@ {
                assert(views(old(self).vars@).update(i as int, var@) =~= views(old(self).vars@));
            }
        }
        vars.insert(i, var);
        *self = DataSet { dims, attrs, vars };
        r
    }

    /// Removes an attribute of a variable and hands it out, or refuses to
    /// and changes nothing.
    pub fn remove_var_attr(&mut self, var_name: &str, name: &str) -> (r: Result<
        Attribute,
        InvalidDataSet,
    >)
        ensures
            match old(self)@.remove_var_attr(var_name@, name@) {
                Ok((after, removed)) => r is Ok && final(self)@ == after && r.unwrap()@ == removed,
                Err(e) => r is Err && r.unwrap_err()@ == e && final(self)@ == old(self)@,
            },
    {
        proof {
            use_type_invariant(&*self);
            lemma_attr_change_valid(
                self@,
                var_name@,
                name@,
                name@,
                crate::data_vector::Values { data_type: DataType::I8, elems: Seq::empty() },
            );
        }
        let i: usize = match find_var(&self.vars, var_name) {
            None => {
                return Err(InvalidDataSet::VariableNotFound(var_name.to_owned()));
            },
            Some(i) => i,
        };
        let DataSet { dims, attrs, mut vars } = self.take_parts();
        let mut var = vars.remove(i);
        let mut var_attrs = var.attrs;
        let r = remove_from_attrs(&mut var_attrs, name);
        let var = Variable {
            name: var.name,
            data_type: var.data_type,
            dim_ids: var.dim_ids,
            attrs: var_attrs,
        };
        proof {
            lemma_remove_insert(old(self).vars@, i as int, var);
            lemma_views_update(old(self).vars@, i as int, var);
            if r is Err {
                assert(views(old(self).vars@).update(i as int, var@) =~= views(old(self).vars@));
            }
        }
        vars.insert(i, var);
        *self = DataSet { dims, attrs, vars };
        r
    }
}

} // verus!
