//! Names of layers and extensions, as the bytes of C strings without the zero at
//! their end.

use vstd::prelude::*;

verus! {

/// The name is in the list.
pub open spec fn is_listed(list: Seq<Vec<u8>>, name: Seq<u8>) -> bool {
    exists|i: int| 0 <= i < list.len() && (#[trigger] list[i])@ == name
}

/// Every name that is asked for is in the list.
pub open spec fn all_listed(list: Seq<Vec<u8>>, names: Seq<Vec<u8>>) -> bool {
    forall|i: int| 0 <= i < names.len() ==> is_listed(list, (#[trigger] names[i])@)
}

/// The two names are the same.
pub fn same_name(a: &Vec<u8>, b: &Vec<u8>) -> (r: bool)
    ensures
        r == (a@ == b@),
{
    if a.len() != b.len() {
        return false;
    }
    let n: usize = a.len();
    let mut i: usize = 0;
    while i < n
        invariant
            i <= n == a@.len() == b@.len(),
            a@.take(i as int) == b@.take(i as int),
        decreases n - i,
    {
        if a[i] != b[i] {
            assert(a@[i as int] != b@[i as int]);
            return false;
        }
        i = i + 1;
        assert(a@.take(i as int) =~= a@.take(i - 1).push(a@[i - 1]));
        assert(b@.take(i as int) =~= b@.take(i - 1).push(b@[i - 1]));
    }
    assert(a@.take(n as int) =~= a@);
    assert(b@.take(n as int) =~= b@);
    true
}

/// The name is in the list.
pub fn listed(list: &[Vec<u8>], name: &Vec<u8>) -> (r: bool)
    ensures
        r == is_listed(list@, name@),
{
    let n: usize = list.len();
    let mut i: usize = 0;
    while i < n
        invariant
            i <= n == list@.len(),
            forall|j: int| 0 <= j < i ==> (#[trigger] list@[j])@ != name@,
        decreases n - i,
    {
        if same_name(&list[i], name) {
            assert(list@[i as int]@ == name@);
            return true;
        }
        i = i + 1;
    }
    false
}

/// The first of the names that is not in the list, or their number.
pub fn first_unlisted(list: &[Vec<u8>], names: &[Vec<u8>]) -> (r: usize)
    ensures
        r <= names@.len(),
        r < names@.len() ==> !is_listed(list@, names@[r as int]@),
        forall|j: int| 0 <= j < r ==> is_listed(list@, (#[trigger] names@[j])@),
{
    let n: usize = names.len();
    let mut i: usize = 0;
    while i < n
        invariant
            i <= n == names@.len(),
            forall|j: int| 0 <= j < i ==> is_listed(list@, (#[trigger] names@[j])@),
        decreases n - i,
    {
        if !listed(list, &names[i]) {
            return i;
        }
        i = i + 1;
    }
    n
}

/// The bytes of each name of a list.
pub open spec fn bytes_of(list: Seq<Vec<u8>>) -> Seq<Seq<u8>> {
    list.map_values(|name: Vec<u8>| name@)
}

/// A name is in a list if and only if one of the names there has the same bytes, all of
/// them and in the same order.
pub proof fn names_are_listed_by_their_bytes(list: Seq<Vec<u8>>, name: Seq<u8>)
    ensures
        is_listed(list, name) <==> bytes_of(list).contains(name),
{
    if is_listed(list, name) {
        let i = choose|i: int| 0 <= i < list.len() && (#[trigger] list[i])@ == name;
        assert(bytes_of(list)[i] == name);
    }
    if bytes_of(list).contains(name) {
        let i = choose|i: int| 0 <= i < bytes_of(list).len() && bytes_of(list)[i] == name;
        assert(list[i]@ == name);
    }
}

} // verus!
