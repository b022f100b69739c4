use vstd::prelude::*;
use crate::hash::str_hash;
use crate::table::{build_outcome, key_hashes, lookup, BuildError, Table};

verus! {

/// A table built from a non-empty list of keys answers each key with its
/// position in the list.
pub proof fn lemma_query_inverts_build(keys: Seq<&str>, r: Result<Table, BuildError>)
    requires
        keys.len() > 0,
        build_outcome(r, key_hashes(keys)),
        r is Ok,
    ensures
        forall|i: int| 0 <= i < keys.len() ==> #[trigger] lookup(r->Ok_0@, str_hash(keys[i]@)) == i,
{
    assert forall|i: int| 0 <= i < keys.len() implies #[trigger] lookup(
        r->Ok_0@,
        str_hash(keys[i]@),
    ) == i by {
        assert(key_hashes(keys)[i] == str_hash(keys[i]@));
    }
}

/// Whatever key it is asked about, a table built from `n >= 1` keys answers
/// an index below `n`.
pub proof fn lemma_query_in_range(keys: Seq<&str>, r: Result<Table, BuildError>, k: Seq<char>)
    requires
        keys.len() > 0,
        build_outcome(r, key_hashes(keys)),
        r is Ok,
    ensures
        lookup(r->Ok_0@, str_hash(k)) < keys.len(),
{
}

/// Two builds from the same list of keys succeed or fail alike, with the
/// same error, and where they succeed give the same table, which answers
/// every key, in the list or not, alike.
pub proof fn lemma_build_deterministic(
    keys: Seq<&str>,
    r1: Result<Table, BuildError>,
    r2: Result<Table, BuildError>,
)
    requires
        build_outcome(r1, key_hashes(keys)),
        build_outcome(r2, key_hashes(keys)),
    ensures
        r1 is Ok <==> r2 is Ok,
        r1 is Err ==> r1 == r2,
        r1 is Ok ==> r1->Ok_0@ == r2->Ok_0@,
        r1 is Ok ==> forall|k: Seq<char>|
            #[trigger] lookup(r1->Ok_0@, str_hash(k)) == lookup(r2->Ok_0@, str_hash(k)),
{
    if r1 is Ok && r2 is Ok {
        let t1 = r1->Ok_0@;
        let t2 = r2->Ok_0@;
        if keys.len() == 0 {
            assert(t1.values =~= t2.values);
            assert(t1.seeds =~= t2.seeds);
        }
    }
}

} // verus!
