//! Sequences of named things, in which a thing is found by its name.
use crate::name_string::{str_eq, valid_name};
use vstd::prelude::*;

verus! {

/// What has a name.
pub trait Named {
    spec fn name_of(&self) -> Seq<char>;
}

/// The views of the elements, in their order.
pub open spec fn views<T: View>(s: Seq<T>) -> Seq<T::V> {
    Seq::new(s.len(), |i: int| s[i]@)
}

/// The least index at which something named `name` stands, if anything is.
pub open spec fn find_named<T: Named>(items: Seq<T>, name: Seq<char>) -> Option<int>
    decreases items.len(),
{
    if items.len() == 0 {
        None
    } else {
        match find_named(items.drop_last(), name) {
            Some(i) => Some(i),
            None => if items.last().name_of() == name {
                Some(items.len() - 1)
            } else {
                None
            },
        }
    }
}

/// No two elements have the same name.
pub open spec fn names_distinct<T: Named>(items: Seq<T>) -> bool {
    forall|i: int, j: int|
        0 <= i < j < items.len() ==> (#[trigger] items[i]).name_of() != (#[trigger] items[j]).name_of()
}

/// Every element has a valid name.
pub open spec fn names_valid<T: Named>(items: Seq<T>) -> bool {
    forall|i: int| 0 <= i < items.len() ==> valid_name((#[trigger] items[i]).name_of())
}

/// What `find_named` finds is the first element of that name; it finds
/// nothing only where no element has that name.
pub proof fn lemma_find_named<T: Named>(items: Seq<T>, name: Seq<char>)
    ensures
        match find_named(items, name) {
            Some(i) => {
                &&& 0 <= i < items.len()
                &&& items[i].name_of() == name
                &&& forall|j: int| 0 <= j < i ==> (#[trigger] items[j]).name_of() != name
            },
            None => forall|j: int| 0 <= j < items.len() ==> (#[trigger] items[j]).name_of() != name,
        },
    decreases items.len(),
{
    if items.len() > 0 {
        let front = items.drop_last();
        lemma_find_named(front, name);
        match find_named(front, name) {
            Some(i) => {
                assert(front[i] == items[i]);
                assert forall|j: int| 0 <= j < i implies (#[trigger] items[j]).name_of() != name by {
                    assert(front[j] == items[j]);
                }
            },
            None => {
                assert forall|j: int| 0 <= j < items.len() - 1 implies (#[trigger] items[j]).name_of()
                    != name by {
                    assert(front[j] == items[j]);
                }
            },
        }
    }
}

/// The first element of a name is what `find_named` finds.
pub proof fn lemma_find_named_at<T: Named>(items: Seq<T>, name: Seq<char>, i: int)
    requires
        0 <= i < items.len(),
        items[i].name_of() == name,
        forall|j: int| 0 <= j < i ==> (#[trigger] items[j]).name_of() != name,
    ensures
        find_named(items, name) == Some(i),
{
    lemma_find_named(items, name);
}

/// A new name at the end keeps the names distinct and valid.
pub proof fn lemma_push_named<T: Named>(items: Seq<T>, x: T)
    requires
        names_distinct(items),
        names_valid(items),
        find_named(items, x.name_of()) is None,
        valid_name(x.name_of()),
    ensures
        names_distinct(items.push(x)),
        names_valid(items.push(x)),
{
    lemma_find_named(items, x.name_of());
    let after = items.push(x);
    assert forall|i: int, j: int| 0 <= i < j < after.len() implies (#[trigger] after[i]).name_of() != (
    #[trigger] after[j]).name_of() by {
        if j < items.len() {
            assert(after[i] == items[i] && after[j] == items[j]);
        } else {
            assert(after[i] == items[i]);
        }
    }
    assert forall|i: int| 0 <= i < after.len() implies valid_name((#[trigger] after[i]).name_of()) by {
        if i < items.len() {
            assert(after[i] == items[i]);
        }
    }
}

/// Taking an element out keeps the names distinct and valid.
pub proof fn lemma_remove_named<T: Named>(items: Seq<T>, i: int)
    requires
        names_distinct(items),
        names_valid(items),
        0 <= i < items.len(),
    ensures
        names_distinct(items.remove(i)),
        names_valid(items.remove(i)),
{
    let after = items.remove(i);
    assert forall|a: int, b: int| 0 <= a < b < after.len() implies (#[trigger] after[a]).name_of() != (
    #[trigger] after[b]).name_of() by {
        let a0 = if a < i { a } else { a + 1 };
        let b0 = if b < i { b } else { b + 1 };
        assert(after[a] == items[a0] && after[b] == items[b0]);
    }
    assert forall|a: int| 0 <= a < after.len() implies valid_name((#[trigger] after[a]).name_of()) by {
        let a0 = if a < i { a } else { a + 1 };
        assert(after[a] == items[a0]);
    }
}

/// Putting in place of an element one of a new valid name, or of the same
/// name, keeps the names distinct and valid.
pub proof fn lemma_update_named<T: Named>(items: Seq<T>, i: int, x: T)
    requires
        names_distinct(items),
        names_valid(items),
        0 <= i < items.len(),
        valid_name(x.name_of()),
        find_named(items, x.name_of()) is None || x.name_of() == items[i].name_of(),
    ensures
        names_distinct(items.update(i, x)),
        names_valid(items.update(i, x)),
{
    lemma_find_named(items, x.name_of());
    let after = items.update(i, x);
    assert forall|a: int, b: int| 0 <= a < b < after.len() implies (#[trigger] after[a]).name_of() != (
    #[trigger] after[b]).name_of() by {
        if a != i {
            assert(after[a] == items[a]);
        }
        if b != i {
            assert(after[b] == items[b]);
        }
    }
    assert forall|a: int| 0 <= a < after.len() implies valid_name((#[trigger] after[a]).name_of()) by {
        if a != i {
            assert(after[a] == items[a]);
        }
    }
}

pub proof fn lemma_views_push<T: View>(s: Seq<T>, x: T)
    ensures
        views(s.push(x)) == views(s).push(x@),
{
    assert(views(s.push(x)) =~= views(s).push(x@));
}

pub proof fn lemma_views_remove<T: View>(s: Seq<T>, i: int)
    requires
        0 <= i < s.len(),
    ensures
        views(s.remove(i)) == views(s).remove(i),
{
    assert(views(s.remove(i)) =~= views(s).remove(i));
}

pub proof fn lemma_views_update<T: View>(s: Seq<T>, i: int, x: T)
    requires
        0 <= i < s.len(),
    ensures
        views(s.update(i, x)) == views(s).update(i, x@),
{
    assert(views(s.update(i, x)) =~= views(s).update(i, x@));
}

/// Taking an element out and putting another in its place is an update.
pub proof fn lemma_remove_insert<T>(s: Seq<T>, i: int, x: T)
    requires
        0 <= i < s.len(),
    ensures
        s.remove(i).insert(i, x) == s.update(i, x),
{
    assert(s.remove(i).insert(i, x) =~= s.update(i, x));
}

/// Whether an index found by a search is the index that `find_named` gives.
pub open spec fn same_index(found: Option<usize>, expected: Option<int>) -> bool {
    match expected {
        Some(i) => found == Some(i as usize) && 0 <= i <= usize::MAX,
        None => found is None,
    }
}

/// Whether the string holds the characters of the slice.
pub fn same_text(a: &String, b: &str) -> (r: bool)
    ensures
        r == (a@ == b@),
{
    str_eq(a.as_str(), b)
}

} // verus!
