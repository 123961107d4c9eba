//! The data set as a mathematical value, and each change to it as a function.
use crate::data_set::attribute::{
    attrs_add, attrs_remove, attrs_rename, lemma_attrs_stay_valid, AttributeView,
};
use crate::data_set::dimension::{DimensionType, DimensionView};
use crate::data_set::named::{
    find_named, lemma_find_named, lemma_push_named, lemma_remove_named, lemma_update_named,
    names_distinct, names_valid, Named,
};
use crate::data_set::variable::VariableView;
use crate::data_type::DataType;
use crate::data_vector::Values;
use crate::error::InvalidDataSetView;
use crate::name_string::valid_name;
use vstd::prelude::*;

verus! {

/// A data set as contracts see it: its dimensions, its global attributes and
/// its variables, each list in the order in which it was filled.
pub ghost struct DataSetView {
    pub dims: Seq<DimensionView>,
    pub attrs: Seq<AttributeView>,
    pub vars: Seq<VariableView>,
}

/// The index of the first unlimited dimension, if there is one.
pub open spec fn find_unlimited(dims: Seq<DimensionView>) -> Option<int>
    decreases dims.len(),
{
    if dims.len() == 0 {
        None
    } else {
        match find_unlimited(dims.drop_last()) {
            Some(i) => Some(i),
            None => if dims.last().is_unlimited() {
                Some(dims.len() - 1)
            } else {
                None
            },
        }
    }
}

/// No two dimensions are unlimited.
pub open spec fn at_most_one_unlimited(dims: Seq<DimensionView>) -> bool {
    forall|i: int, j: int|
        0 <= i < j < dims.len() ==> !((#[trigger] dims[i]).is_unlimited() && (
        #[trigger] dims[j]).is_unlimited())
}

/// A shape names dimensions that exist, and the unlimited dimension in the
/// first place only.
pub open spec fn shape_valid(dims: Seq<DimensionView>, ids: Seq<int>) -> bool {
    &&& forall|k: int| 0 <= k < ids.len() ==> 0 <= #[trigger] ids[k] < dims.len()
    &&& forall|k: int| 1 <= k < ids.len() ==> !dims[#[trigger] ids[k]].is_unlimited()
}

/// What holds of each variable of a data set with these dimensions.
pub open spec fn var_valid(dims: Seq<DimensionView>, var: VariableView) -> bool {
    &&& names_valid(var.attrs)
    &&& names_distinct(var.attrs)
    &&& shape_valid(dims, var.dim_ids)
}

/// The indices of the dimensions named, or the first name that no dimension
/// has.
pub open spec fn resolve_dims(dims: Seq<DimensionView>, names: Seq<Seq<char>>) -> Result<
    Seq<int>,
    Seq<char>,
>
    decreases names.len(),
{
    if names.len() == 0 {
        Ok(Seq::empty())
    } else {
        match resolve_dims(dims, names.drop_last()) {
            Err(missing) => Err(missing),
            Ok(ids) => match find_named(dims, names.last()) {
                Some(i) => Ok(ids.push(i)),
                None => Err(names.last()),
            },
        }
    }
}

/// The number of places of a shape that hold an unlimited dimension.
pub open spec fn unlimited_uses(dims: Seq<DimensionView>, ids: Seq<int>) -> nat
    decreases ids.len(),
{
    if ids.len() == 0 {
        0
    } else {
        unlimited_uses(dims, ids.drop_last()) + if dims[ids.last()].is_unlimited() {
            1nat
        } else {
            0nat
        }
    }
}

/// The shape once the dimension at `removed` is gone: the indices above it
/// move down by one.
pub open spec fn shift_ids(ids: Seq<int>, removed: int) -> Seq<int> {
    Seq::new(
        ids.len(),
        |k: int|
            if ids[k] > removed {
                ids[k] - 1
            } else {
                ids[k]
            },
    )
}

/// The variables once the dimension at `removed` is gone.
pub open spec fn shift_vars(vars: Seq<VariableView>, removed: int) -> Seq<VariableView> {
    Seq::new(
        vars.len(),
        |v: int|
            VariableView {
                name: vars[v].name,
                data_type: vars[v].data_type,
                dim_ids: shift_ids(vars[v].dim_ids, removed),
                attrs: vars[v].attrs,
            },
    )
}

/// The names of the variables whose shape holds the dimension at `dim`, in
/// the order of the variables.
pub open spec fn users_of(vars: Seq<VariableView>, dim: int) -> Seq<Seq<char>>
    decreases vars.len(),
{
    if vars.len() == 0 {
        Seq::empty()
    } else if vars.last().dim_ids.contains(dim) {
        users_of(vars.drop_last(), dim).push(vars.last().name)
    } else {
        users_of(vars.drop_last(), dim)
    }
}

impl DataSetView {
    /// The data set that holds nothing.
    pub open spec fn empty() -> DataSetView {
        DataSetView { dims: Seq::empty(), attrs: Seq::empty(), vars: Seq::empty() }
    }

    /// What holds of every data set.
    pub open spec fn valid(self) -> bool {
        &&& names_valid(self.dims)
        &&& names_distinct(self.dims)
        &&& at_most_one_unlimited(self.dims)
        &&& names_valid(self.attrs)
        &&& names_distinct(self.attrs)
        &&& names_valid(self.vars)
        &&& names_distinct(self.vars)
        &&& forall|v: int| 0 <= v < self.vars.len() ==> var_valid(self.dims, #[trigger] self.vars[v])
    }

    /// The number of records: the size of the unlimited dimension, or zero
    /// where there is none.
    pub open spec fn num_records(self) -> nat {
        match find_unlimited(self.dims) {
            Some(i) => self.dims[i].size,
            None => 0,
        }
    }

    /// Whether the variable at `v` is a record variable: its shape starts
    /// with the unlimited dimension.
    pub open spec fn is_record_var(self, v: int) -> bool {
        self.vars[v].dim_ids.len() > 0 && self.dims[self.vars[v].dim_ids[0]].is_unlimited()
    }

    pub open spec fn with_dims(self, dims: Seq<DimensionView>) -> DataSetView {
        DataSetView { dims, attrs: self.attrs, vars: self.vars }
    }

    pub open spec fn with_attrs(self, attrs: Seq<AttributeView>) -> DataSetView {
        DataSetView { dims: self.dims, attrs, vars: self.vars }
    }

    pub open spec fn with_vars(self, vars: Seq<VariableView>) -> DataSetView {
        DataSetView { dims: self.dims, attrs: self.attrs, vars }
    }

    /// The data set with one more fixed dimension.
    pub open spec fn add_fixed_dim(self, name: Seq<char>, size: nat) -> Result<
        DataSetView,
        InvalidDataSetView,
    > {
        if find_named(self.dims, name) is Some {
            Err(InvalidDataSetView::DimensionAlreadyExists(name))
        } else if !valid_name(name) {
            Err(InvalidDataSetView::InvalidName(name))
        } else {
            Ok(
                self.with_dims(
                    self.dims.push(
                        DimensionView { name, size, dim_type: DimensionType::FixedSize },
                    ),
                ),
            )
        }
    }

    /// The data set with its unlimited dimension set.
    pub open spec fn set_unlimited_dim(self, name: Seq<char>, size: nat) -> Result<
        DataSetView,
        InvalidDataSetView,
    > {
        if let Some(i) = find_unlimited(self.dims) {
            Err(InvalidDataSetView::UnlimitedAlreadyExists(self.dims[i].name))
        } else if find_named(self.dims, name) is Some {
            Err(InvalidDataSetView::DimensionAlreadyExists(name))
        } else if !valid_name(name) {
            Err(InvalidDataSetView::InvalidName(name))
        } else {
            Ok(
                self.with_dims(
                    self.dims.push(
                        DimensionView { name, size, dim_type: DimensionType::UnlimitedSize },
                    ),
                ),
            )
        }
    }

    /// The data set with a dimension renamed.
    pub open spec fn rename_dim(self, old_name: Seq<char>, new_name: Seq<char>) -> Result<
        DataSetView,
        InvalidDataSetView,
    > {
        match find_named(self.dims, old_name) {
            None => Err(InvalidDataSetView::DimensionNotFound(old_name)),
            Some(i) => if old_name == new_name {
                Ok(self)
            } else if find_named(self.dims, new_name) is Some {
                Err(InvalidDataSetView::DimensionAlreadyExists(new_name))
            } else if !valid_name(new_name) {
                Err(InvalidDataSetView::InvalidName(new_name))
            } else {
                Ok(
                    self.with_dims(
                        self.dims.update(
                            i,
                            DimensionView {
                                name: new_name,
                                size: self.dims[i].size,
                                dim_type: self.dims[i].dim_type,
                            },
                        ),
                    ),
                )
            },
        }
    }

    /// The data set without a dimension, and that dimension.
    pub open spec fn remove_dim(self, name: Seq<char>) -> Result<
        (DataSetView, DimensionView),
        InvalidDataSetView,
    > {
        match find_named(self.dims, name) {
            None => Err(InvalidDataSetView::DimensionNotFound(name)),
            Some(i) => if users_of(self.vars, i).len() > 0 {
                Err(InvalidDataSetView::DimensionInUse(users_of(self.vars, i)))
            } else {
                Ok(
                    (
                        DataSetView {
                            dims: self.dims.remove(i),
                            attrs: self.attrs,
                            vars: shift_vars(self.vars, i),
                        },
                        self.dims[i],
                    ),
                )
            },
        }
    }

    /// The data set with one more variable, which has no attribute yet.
    pub open spec fn add_var(self, name: Seq<char>, dim_names: Seq<Seq<char>>, data_type: DataType)
        -> Result<DataSetView, InvalidDataSetView> {
        if find_named(self.vars, name) is Some {
            Err(InvalidDataSetView::VariableAlreadyExists(name))
        } else {
            match resolve_dims(self.dims, dim_names) {
                Err(missing) => Err(InvalidDataSetView::DimensionNotFound(missing)),
                Ok(ids) => if unlimited_uses(self.dims, ids) >= 2 {
                    Err(InvalidDataSetView::UnlimitedDimensionUsedMoreThanOnce(name))
                } else if unlimited_uses(self.dims, ids) == 1 && !self.dims[ids[0]].is_unlimited() {
                    Err(InvalidDataSetView::UnlimitedDimensionNotFirst(name))
                } else if !valid_name(name) {
                    Err(InvalidDataSetView::InvalidName(name))
                } else {
                    Ok(
                        self.with_vars(
                            self.vars.push(
                                VariableView { name, data_type, dim_ids: ids, attrs: Seq::empty() },
                            ),
                        ),
                    )
                },
            }
        }
    }

    /// The data set with a variable renamed.
    pub open spec fn rename_var(self, old_name: Seq<char>, new_name: Seq<char>) -> Result<
        DataSetView,
        InvalidDataSetView,
    > {
        match find_named(self.vars, old_name) {
            None => Err(InvalidDataSetView::VariableNotFound(old_name)),
            Some(i) => if old_name == new_name {
                Ok(self)
            } else if find_named(self.vars, new_name) is Some {
                Err(InvalidDataSetView::VariableAlreadyExists(new_name))
            } else if !valid_name(new_name) {
                Err(InvalidDataSetView::InvalidName(new_name))
            } else {
                Ok(
                    self.with_vars(
                        self.vars.update(
                            i,
                            VariableView {
                                name: new_name,
                                data_type: self.vars[i].data_type,
                                dim_ids: self.vars[i].dim_ids,
                                attrs: self.vars[i].attrs,
                            },
                        ),
                    ),
                )
            },
        }
    }

    /// The data set without a variable, and that variable.
    pub open spec fn remove_var(self, name: Seq<char>) -> Result<
        (DataSetView, VariableView),
        InvalidDataSetView,
    > {
        match find_named(self.vars, name) {
            None => Err(InvalidDataSetView::VariableNotFound(name)),
            Some(i) => Ok((self.with_vars(self.vars.remove(i)), self.vars[i])),
        }
    }

    /// The data set with one more global attribute.
    pub open spec fn add_global_attr(self, name: Seq<char>, values: Values) -> Result<
        DataSetView,
        InvalidDataSetView,
    > {
        match attrs_add(self.attrs, name, values) {
            Err(e) => Err(e),
            Ok(attrs) => Ok(self.with_attrs(attrs)),
        }
    }

    /// The data set with a global attribute renamed.
    pub open spec fn rename_global_attr(self, old_name: Seq<char>, new_name: Seq<char>) -> Result<
        DataSetView,
        InvalidDataSetView,
    > {
        match attrs_rename(self.attrs, old_name, new_name) {
            Err(e) => Err(e),
            Ok(attrs) => Ok(self.with_attrs(attrs)),
        }
    }

    /// The data set without a global attribute, and that attribute.
    pub open spec fn remove_global_attr(self, name: Seq<char>) -> Result<
        (DataSetView, AttributeView),
        InvalidDataSetView,
    > {
        match attrs_remove(self.attrs, name) {
            Err(e) => Err(e),
            Ok((attrs, removed)) => Ok((self.with_attrs(attrs), removed)),
        }
    }

    /// The data set in which the variable at `i` has the attributes `attrs`.
    pub open spec fn with_var_attrs(self, i: int, attrs: Seq<AttributeView>) -> DataSetView {
        self.with_vars(
            self.vars.update(
                i,
                VariableView {
                    name: self.vars[i].name,
                    data_type: self.vars[i].data_type,
                    dim_ids: self.vars[i].dim_ids,
                    attrs,
                },
            ),
        )
    }

    /// The data set with one more attribute on a variable.
    pub open spec fn add_var_attr(self, var_name: Seq<char>, name: Seq<char>, values: Values)
        -> Result<DataSetView, InvalidDataSetView> {
        match find_named(self.vars, var_name) {
            None => Err(InvalidDataSetView::VariableNotFound(var_name)),
            Some(i) => match attrs_add(self.vars[i].attrs, name, values) {
                Err(e) => Err(e),
                Ok(attrs) => Ok(self.with_var_attrs(i, attrs)),
            },
        }
    }

    /// The data set with an attribute of a variable renamed.
    pub open spec fn rename_var_attr(
        self,
        var_name: Seq<char>,
        old_name: Seq<char>,
        new_name: Seq<char>,
    ) -> Result<DataSetView, InvalidDataSetView> {
        match find_named(self.vars, var_name) {
            None => Err(InvalidDataSetView::VariableNotFound(var_name)),
            Some(i) => match attrs_rename(self.vars[i].attrs, old_name, new_name) {
                Err(e) => Err(e),
                Ok(attrs) => Ok(self.with_var_attrs(i, attrs)),
            },
        }
    }

    /// The data set without an attribute of a variable, and that attribute.
    pub open spec fn remove_var_attr(self, var_name: Seq<char>, name: Seq<char>) -> Result<
        (DataSetView, AttributeView),
        InvalidDataSetView,
    > {
        match find_named(self.vars, var_name) {
            None => Err(InvalidDataSetView::VariableNotFound(var_name)),
            Some(i) => match attrs_remove(self.vars[i].attrs, name) {
                Err(e) => Err(e),
                Ok((attrs, removed)) => Ok((self.with_var_attrs(i, attrs), removed)),
            },
        }
    }

    /// The data set in which the unlimited dimension, if there is one, has
    /// the size `n`.
    pub open spec fn with_num_records(self, n: nat) -> DataSetView {
        match find_unlimited(self.dims) {
            None => self,
            Some(i) => self.with_dims(
                self.dims.update(
                    i,
                    DimensionView {
                        name: self.dims[i].name,
                        size: n,
                        dim_type: DimensionType::UnlimitedSize,
                    },
                ),
            ),
        }
    }
}

/// What `find_unlimited` finds is the first unlimited dimension; it finds
/// nothing only where no dimension is unlimited.
pub proof fn lemma_find_unlimited(dims: Seq<DimensionView>)
    ensures
        match find_unlimited(dims) {
            Some(i) => {
                &&& 0 <= i < dims.len()
                &&& dims[i].is_unlimited()
                &&& forall|j: int| 0 <= j < i ==> !(#[trigger] dims[j]).is_unlimited()
            },
            None => forall|j: int| 0 <= j < dims.len() ==> !(#[trigger] dims[j]).is_unlimited(),
        },
    decreases dims.len(),
{
    if dims.len() > 0 {
        let front = dims.drop_last();
        lemma_find_unlimited(front);
        match find_unlimited(front) {
            Some(i) => {
                assert(front[i] == dims[i]);
                assert forall|j: int| 0 <= j < i implies !(#[trigger] dims[j]).is_unlimited() by {
                    assert(front[j] == dims[j]);
                }
            },
            None => {
                assert forall|j: int| 0 <= j < dims.len() - 1 implies !(
                #[trigger] dims[j]).is_unlimited() by {
                    assert(front[j] == dims[j]);
                }
            },
        }
    }
}

/// A shape that resolves has one index for each name, each that of the
/// dimension of that name.
pub proof fn lemma_resolve_dims(dims: Seq<DimensionView>, names: Seq<Seq<char>>)
    ensures
        match resolve_dims(dims, names) {
            Ok(ids) => {
                &&& ids.len() == names.len()
                &&& forall|k: int|
                    0 <= k < ids.len() ==> find_named(dims, names[k]) == Some(#[trigger] ids[k])
                &&& forall|k: int| 0 <= k < ids.len() ==> 0 <= #[trigger] ids[k] < dims.len()
            },
            Err(missing) => exists|k: int|
                {
                    &&& 0 <= k < names.len()
                    &&& #[trigger] names[k] == missing
                    &&& find_named(dims, missing) is None
                    &&& resolve_dims(dims, names.take(k)) is Ok
                },
        },
    decreases names.len(),
{
    if names.len() > 0 {
        let front = names.drop_last();
        lemma_resolve_dims(dims, front);
        match resolve_dims(dims, front) {
            Err(missing) => {
                let k = choose|k: int|
                    {
                        &&& 0 <= k < front.len()
                        &&& #[trigger] front[k] == missing
                        &&& find_named(dims, missing) is None
                        &&& resolve_dims(dims, front.take(k)) is Ok
                    };
                assert(front.take(k) =~= names.take(k));
                assert(names[k] == missing);
            },
            Ok(ids) => {
                lemma_find_named(dims, names.last());
                match find_named(dims, names.last()) {
                    Some(i) => {
                        let all = ids.push(i);
                        assert forall|k: int| 0 <= k < all.len() implies find_named(dims, names[k])
                            == Some(#[trigger] all[k]) by {
                            if k < ids.len() {
                                assert(all[k] == ids[k]);
                                assert(front[k] == names[k]);
                            }
                        }
                        assert forall|k: int| 0 <= k < all.len() implies 0 <= #[trigger] all[k]
                            < dims.len() by {
                            if k < ids.len() {
                                assert(all[k] == ids[k]);
                            }
                        }
                    },
                    None => {
                        let k = names.len() - 1;
                        assert(names.take(k) =~= front);
                        assert(names[k] == names.last());
                    },
                }
            },
        }
    }
}

/// Each place that holds an unlimited dimension counts.
pub proof fn lemma_unlimited_uses(dims: Seq<DimensionView>, ids: Seq<int>)
    ensures
        forall|k: int|
            0 <= k < ids.len() && dims[#[trigger] ids[k]].is_unlimited() ==> unlimited_uses(
                dims,
                ids,
            ) >= 1,
        forall|k: int, m: int|
            0 <= k < m < ids.len() && dims[#[trigger] ids[k]].is_unlimited() && dims[
            #[trigger] ids[m]].is_unlimited() ==> unlimited_uses(dims, ids) >= 2,
        unlimited_uses(dims, ids) >= 1 ==> exists|k: int|
            0 <= k < ids.len() && dims[#[trigger] ids[k]].is_unlimited(),
    decreases ids.len(),
{
    if ids.len() > 0 {
        let front = ids.drop_last();
        lemma_unlimited_uses(dims, front);
        assert forall|k: int|
            0 <= k < ids.len() && dims[#[trigger] ids[k]].is_unlimited() implies unlimited_uses(
            dims,
            ids,
        ) >= 1 by {
            if k < front.len() {
                assert(front[k] == ids[k]);
            }
        }
        assert forall|k: int, m: int|
            0 <= k < m < ids.len() && dims[#[trigger] ids[k]].is_unlimited() && dims[
            #[trigger] ids[m]].is_unlimited() implies unlimited_uses(dims, ids) >= 2 by {
            assert(front[k] == ids[k]);
            if m < front.len() {
                assert(front[m] == ids[m]);
            }
        }
        if unlimited_uses(dims, ids) >= 1 {
            if dims[ids.last()].is_unlimited() {
                assert(ids[ids.len() - 1] == ids.last());
            } else {
                let k = choose|k: int| 0 <= k < front.len() && dims[#[trigger] front[k]].is_unlimited();
                assert(front[k] == ids[k]);
            }
        }
    }
}

/// The users of a dimension are the variables whose shape holds it.
pub proof fn lemma_users_of(vars: Seq<VariableView>, dim: int)
    ensures
        users_of(vars, dim).len() == 0 <==> forall|v: int|
            0 <= v < vars.len() ==> !(#[trigger] vars[v]).dim_ids.contains(dim),
    decreases vars.len(),
{
    if vars.len() > 0 {
        let front = vars.drop_last();
        lemma_users_of(front, dim);
        if users_of(vars, dim).len() == 0 {
            assert forall|v: int| 0 <= v < vars.len() implies !(#[trigger] vars[v]).dim_ids.contains(
                dim,
            ) by {
                if v < front.len() {
                    assert(front[v] == vars[v]);
                }
            }
        } else {
            if vars.last().dim_ids.contains(dim) {
                assert(vars[vars.len() - 1] == vars.last());
            } else {
                let v = choose|v: int|
                    0 <= v < front.len() && (#[trigger] front[v]).dim_ids.contains(dim);
                assert(front[v] == vars[v]);
            }
        }
    }
}

/// The empty data set is a data set.
pub proof fn lemma_empty_valid()
    ensures
        DataSetView::empty().valid(),
{
}

/// A data set stays one when a dimension is added to it.
pub proof fn lemma_add_dim_valid(ds: DataSetView, name: Seq<char>, size: nat)
    requires
        ds.valid(),
    ensures
        ds.add_fixed_dim(name, size) matches Ok(after) ==> after.valid(),
        ds.set_unlimited_dim(name, size) matches Ok(after) ==> after.valid(),
{
    lemma_find_unlimited(ds.dims);
    if let Ok(after) = ds.add_fixed_dim(name, size) {
        let d = DimensionView { name, size, dim_type: DimensionType::FixedSize };
        lemma_push_named(ds.dims, d);
        lemma_grown_dims_valid(ds, d);
    }
    if let Ok(after) = ds.set_unlimited_dim(name, size) {
        let d = DimensionView { name, size, dim_type: DimensionType::UnlimitedSize };
        lemma_push_named(ds.dims, d);
        lemma_grown_dims_valid(ds, d);
    }
}

proof fn lemma_grown_dims_valid(ds: DataSetView, d: DimensionView)
    requires
        ds.valid(),
        names_valid(ds.dims.push(d)),
        names_distinct(ds.dims.push(d)),
        d.is_unlimited() ==> find_unlimited(ds.dims) is None,
    ensures
        ds.with_dims(ds.dims.push(d)).valid(),
{
    lemma_find_unlimited(ds.dims);
    let dims = ds.dims.push(d);
    assert forall|i: int, j: int| 0 <= i < j < dims.len() implies !((
    #[trigger] dims[i]).is_unlimited() && (#[trigger] dims[j]).is_unlimited()) by {
        assert(dims[i] == ds.dims[i]);
        if j < ds.dims.len() {
            assert(dims[j] == ds.dims[j]);
        }
    }
    assert forall|v: int| 0 <= v < ds.vars.len() implies var_valid(dims, #[trigger] ds.vars[v]) by {
        let ids = ds.vars[v].dim_ids;
        assert(var_valid(ds.dims, ds.vars[v]));
        assert forall|k: int| 1 <= k < ids.len() implies !dims[#[trigger] ids[k]].is_unlimited() by {
            assert(dims[ids[k]] == ds.dims[ids[k]]);
        }
    }
}

/// A data set stays one when a dimension is renamed.
pub proof fn lemma_rename_dim_valid(ds: DataSetView, old_name: Seq<char>, new_name: Seq<char>)
    requires
        ds.valid(),
    ensures
        ds.rename_dim(old_name, new_name) matches Ok(after) ==> after.valid(),
{
    lemma_find_named(ds.dims, old_name);
    if let Ok(after) = ds.rename_dim(old_name, new_name) {
        if old_name != new_name {
            let i = find_named(ds.dims, old_name).unwrap();
            let d = DimensionView {
                name: new_name,
                size: ds.dims[i].size,
                dim_type: ds.dims[i].dim_type,
            };
            lemma_update_named(ds.dims, i, d);
            lemma_same_kinds_valid(ds, after.dims);
        }
    }
}

/// A data set stays one when its dimensions keep their number and kinds.
pub proof fn lemma_same_kinds_valid(ds: DataSetView, dims: Seq<DimensionView>)
    requires
        ds.valid(),
        names_valid(dims),
        names_distinct(dims),
        dims.len() == ds.dims.len(),
        forall|i: int| 0 <= i < dims.len() ==> (#[trigger] dims[i]).dim_type == ds.dims[i].dim_type,
    ensures
        ds.with_dims(dims).valid(),
{
    assert forall|i: int, j: int| 0 <= i < j < dims.len() implies !((
    #[trigger] dims[i]).is_unlimited() && (#[trigger] dims[j]).is_unlimited()) by {
        assert(ds.dims[i].is_unlimited() == dims[i].is_unlimited());
        assert(ds.dims[j].is_unlimited() == dims[j].is_unlimited());
    }
    assert forall|v: int| 0 <= v < ds.vars.len() implies var_valid(dims, #[trigger] ds.vars[v]) by {
        let ids = ds.vars[v].dim_ids;
        assert(var_valid(ds.dims, ds.vars[v]));
        assert forall|k: int| 1 <= k < ids.len() implies !dims[#[trigger] ids[k]].is_unlimited() by {
            assert(dims[ids[k]].dim_type == ds.dims[ids[k]].dim_type);
        }
    }
}

/// A data set stays one when the number of records changes.
pub proof fn lemma_with_num_records_valid(ds: DataSetView, n: nat)
    requires
        ds.valid(),
    ensures
        ds.with_num_records(n).valid(),
        ds.with_num_records(n).num_records() == if find_unlimited(ds.dims) is Some {
            n
        } else {
            0
        },
        ds.with_num_records(ds.num_records()) == ds,
{
    lemma_find_unlimited(ds.dims);
    if let Some(i) = find_unlimited(ds.dims) {
        let d = DimensionView {
            name: ds.dims[i].name,
            size: n,
            dim_type: DimensionType::UnlimitedSize,
        };
        lemma_find_named(ds.dims, d.name);
        lemma_update_named(ds.dims, i, d);
        let dims = ds.dims.update(i, d);
        lemma_same_kinds_valid(ds, dims);
        lemma_find_unlimited(dims);
        assert(dims[i].is_unlimited());
        assert(find_unlimited(dims) == Some(i)) by {
            let j = find_unlimited(dims).unwrap();
            if j < i {
                assert(dims[j] == ds.dims[j]);
            }
        }
        assert(ds.with_num_records(ds.num_records()).dims =~= ds.dims);
    }
}

/// A data set stays one when a dimension that no variable uses is removed.
pub proof fn lemma_remove_dim_valid(ds: DataSetView, name: Seq<char>)
    requires
        ds.valid(),
    ensures
        ds.remove_dim(name) matches Ok((after, _)) ==> after.valid(),
{
    lemma_find_named(ds.dims, name);
    if let Ok((after, _)) = ds.remove_dim(name) {
        let i = find_named(ds.dims, name).unwrap();
        lemma_remove_named(ds.dims, i);
        lemma_users_of(ds.vars, i);
        let dims = ds.dims.remove(i);
        assert forall|a: int, b: int| 0 <= a < b < dims.len() implies !((
        #[trigger] dims[a]).is_unlimited() && (#[trigger] dims[b]).is_unlimited()) by {
            let a0 = if a < i { a } else { a + 1 };
            let b0 = if b < i { b } else { b + 1 };
            assert(dims[a] == ds.dims[a0] && dims[b] == ds.dims[b0]);
        }
        let vars = after.vars;
        assert forall|a: int, b: int| 0 <= a < b < vars.len() implies (#[trigger] vars[a]).name_of()
            != (#[trigger] vars[b]).name_of() by {
            assert(vars[a].name == ds.vars[a].name_of());
            assert(vars[b].name == ds.vars[b].name_of());
        }
        assert forall|a: int| 0 <= a < vars.len() implies valid_name((#[trigger] vars[a]).name_of()) by {
            assert(vars[a].name == ds.vars[a].name_of());
        }
        assert forall|v: int| 0 <= v < vars.len() implies var_valid(dims, #[trigger] vars[v]) by {
            let old_ids = ds.vars[v].dim_ids;
            let ids = vars[v].dim_ids;
            assert(var_valid(ds.dims, ds.vars[v]));
            assert(!ds.vars[v].dim_ids.contains(i));
            assert forall|k: int| 0 <= k < ids.len() implies 0 <= #[trigger] ids[k] < dims.len()
                && dims[ids[k]] == ds.dims[old_ids[k]] by {
                assert(0 <= old_ids[k] < ds.dims.len());
                assert(old_ids[k] != i);
            }
            assert forall|k: int| 1 <= k < ids.len() implies !dims[#[trigger] ids[k]].is_unlimited() by {
                assert(dims[ids[k]] == ds.dims[old_ids[k]]);
            }
        }
    }
}

/// A data set stays one when a variable is added, renamed or removed.
pub proof fn lemma_var_change_valid(
    ds: DataSetView,
    name: Seq<char>,
    other: Seq<char>,
    dim_names: Seq<Seq<char>>,
    data_type: DataType,
)
    requires
        ds.valid(),
    ensures
        ds.add_var(name, dim_names, data_type) matches Ok(after) ==> after.valid(),
        ds.rename_var(name, other) matches Ok(after) ==> after.valid(),
        ds.remove_var(name) matches Ok((after, _)) ==> after.valid(),
{
    lemma_find_named(ds.vars, name);
    if let Ok(after) = ds.add_var(name, dim_names, data_type) {
        let ids = resolve_dims(ds.dims, dim_names)->Ok_0;
        let var = VariableView { name, data_type, dim_ids: ids, attrs: Seq::empty() };
        lemma_push_named(ds.vars, var);
        lemma_resolve_dims(ds.dims, dim_names);
        lemma_unlimited_uses(ds.dims, ids);
        assert(shape_valid(ds.dims, ids)) by {
            assert forall|k: int| 1 <= k < ids.len() implies !ds.dims[#[trigger] ids[k]].is_unlimited() by {
                if ds.dims[ids[k]].is_unlimited() {
                    if ds.dims[ids[0]].is_unlimited() {
                        assert(unlimited_uses(ds.dims, ids) >= 2);
                    }
                }
            }
        }
        assert forall|v: int| 0 <= v < after.vars.len() implies var_valid(
            after.dims,
            #[trigger] after.vars[v],
        ) by {
            if v < ds.vars.len() {
                assert(after.vars[v] == ds.vars[v]);
            }
        }
    }
    if let Ok(after) = ds.rename_var(name, other) {
        if name != other {
            let i = find_named(ds.vars, name).unwrap();
            let var = VariableView {
                name: other,
                data_type: ds.vars[i].data_type,
                dim_ids: ds.vars[i].dim_ids,
                attrs: ds.vars[i].attrs,
            };
            lemma_update_named(ds.vars, i, var);
            assert forall|v: int| 0 <= v < after.vars.len() implies var_valid(
                after.dims,
                #[trigger] after.vars[v],
            ) by {
                assert(var_valid(ds.dims, ds.vars[v]));
            }
        }
    }
    if let Ok((after, _)) = ds.remove_var(name) {
        let i = find_named(ds.vars, name).unwrap();
        lemma_remove_named(ds.vars, i);
        assert forall|v: int| 0 <= v < after.vars.len() implies var_valid(
            after.dims,
            #[trigger] after.vars[v],
        ) by {
            let v0 = if v < i { v } else { v + 1 };
            assert(after.vars[v] == ds.vars[v0]);
        }
    }
}

/// A data set stays one when the attributes of one variable are replaced by
/// attributes of distinct, valid names.
pub proof fn lemma_with_var_attrs_valid(ds: DataSetView, i: int, attrs: Seq<AttributeView>)
    requires
        ds.valid(),
        0 <= i < ds.vars.len(),
        names_valid(attrs),
        names_distinct(attrs),
    ensures
        ds.with_var_attrs(i, attrs).valid(),
{
    let after = ds.with_var_attrs(i, attrs);
    let var = after.vars[i];
    assert(var.name_of() == ds.vars[i].name_of());
    lemma_find_named(ds.vars, var.name_of());
    lemma_update_named(ds.vars, i, var);
    assert forall|v: int| 0 <= v < after.vars.len() implies var_valid(
        after.dims,
        #[trigger] after.vars[v],
    ) by {
        assert(var_valid(ds.dims, ds.vars[v]));
    }
}

/// A data set stays one when an attribute is added, renamed or removed.
pub proof fn lemma_attr_change_valid(
    ds: DataSetView,
    var_name: Seq<char>,
    name: Seq<char>,
    other: Seq<char>,
    values: Values,
)
    requires
        ds.valid(),
    ensures
        ds.add_global_attr(name, values) matches Ok(after) ==> after.valid(),
        ds.rename_global_attr(name, other) matches Ok(after) ==> after.valid(),
        ds.remove_global_attr(name) matches Ok((after, _)) ==> after.valid(),
        ds.add_var_attr(var_name, name, values) matches Ok(after) ==> after.valid(),
        ds.rename_var_attr(var_name, name, other) matches Ok(after) ==> after.valid(),
        ds.remove_var_attr(var_name, name) matches Ok((after, _)) ==> after.valid(),
{
    lemma_attrs_stay_valid(ds.attrs, name, other, values);
    lemma_find_named(ds.vars, var_name);
    if let Some(i) = find_named(ds.vars, var_name) {
        assert(var_valid(ds.dims, ds.vars[i]));
        lemma_attrs_stay_valid(ds.vars[i].attrs, name, other, values);
        if let Ok(attrs) = attrs_add(ds.vars[i].attrs, name, values) {
            lemma_with_var_attrs_valid(ds, i, attrs);
        }
        if let Ok(attrs) = attrs_rename(ds.vars[i].attrs, name, other) {
            lemma_with_var_attrs_valid(ds, i, attrs);
        }
        if let Ok((attrs, _)) = attrs_remove(ds.vars[i].attrs, name) {
            lemma_with_var_attrs_valid(ds, i, attrs);
        }
    }
}

/// Only the last change of the number of records counts.
pub proof fn lemma_with_num_records_twice(ds: DataSetView, n: nat, m: nat)
    requires
        ds.valid(),
    ensures
        ds.with_num_records(n).with_num_records(m) == ds.with_num_records(m),
        ds.with_num_records(n).vars == ds.vars,
        ds.with_num_records(n).attrs == ds.attrs,
{
    lemma_find_unlimited(ds.dims);
    if let Some(i) = find_unlimited(ds.dims) {
        let dims = ds.with_num_records(n).dims;
        lemma_find_unlimited(dims);
        assert(dims[i].is_unlimited());
        assert(find_unlimited(dims) == Some(i)) by {
            let j = find_unlimited(dims).unwrap();
            if j < i {
                assert(dims[j] == ds.dims[j]);
            }
        }
        assert(ds.with_num_records(n).with_num_records(m).dims =~= ds.with_num_records(m).dims);
    }
}

} // verus!
