use vstd::prelude::*;
use crate::bril::strs_view;

verus! {

/// The set of names that a list holds.
pub open spec fn name_set(v: Seq<String>) -> Set<Seq<char>> {
    strs_view(v).to_set()
}

/// No name occurs twice in the list.
pub open spec fn distinct(v: Seq<String>) -> bool {
    strs_view(v).no_duplicates()
}

/// A list without repeats holds as many names as its set.
pub proof fn lemma_distinct_len(v: Seq<String>)
    requires
        distinct(v),
    ensures
        v.len() == name_set(v).len(),
        name_set(v).finite(),
{
    strs_view(v).unique_seq_to_set();
    vstd::seq_lib::seq_to_set_is_finite(strs_view(v));
}

/// Pushing a name onto a list adds it to the list's set.
pub proof fn lemma_push_name_set(v: Seq<String>, s: String)
    ensures
        name_set(v.push(s)) == name_set(v).insert(s@),
        strs_view(v.push(s)) == strs_view(v).push(s@),
{
    assert(strs_view(v.push(s)) =~= strs_view(v).push(s@));
    assert forall|x: Seq<char>| name_set(v.push(s)).contains(x) <==> name_set(v).insert(s@).contains(x) by {
        if name_set(v.push(s)).contains(x) && x != s@ {
            let i = choose|i: int| 0 <= i < strs_view(v.push(s)).len() && strs_view(v.push(s))[i] == x;
            assert(i < v.len());
            assert(strs_view(v)[i] == x);
        }
        if name_set(v).contains(x) {
            let i = choose|i: int| 0 <= i < strs_view(v).len() && strs_view(v)[i] == x;
            assert(strs_view(v.push(s))[i] == x);
        }
        if x == s@ {
            assert(strs_view(v.push(s))[v.len() as int] == x);
        }
    }
    assert(name_set(v.push(s)) =~= name_set(v).insert(s@));
}

/// Whether the list holds the name `s`.
pub fn has_name(v: &Vec<String>, s: &String) -> (r: bool)
    ensures
        r == name_set(v@).contains(s@),
{
    let mut i: usize = 0;
    while i < v.len()
        invariant
            i <= v.len(),
            forall|k: int| 0 <= k < i ==> strs_view(v@)[k] != s@,
        decreases v.len() - i,
    {
        if v[i] == *s {
            assert(strs_view(v@)[i as int] == s@);
            return true;
        }
        i += 1;
    }
    false
}

/// Adds the name `s` to the list where it is not there yet.
pub fn add_name(v: &mut Vec<String>, s: &String)
    requires
        distinct(old(v)@),
    ensures
        distinct(final(v)@),
        name_set(final(v)@) == name_set(old(v)@).insert(s@),
{
    if !has_name(v, s) {
        let ghost before = v@;
        v.push(s.clone());
        proof {
            lemma_push_name_set(before, v@.last());
            assert(v@ == before.push(v@.last()));
            assert(strs_view(v@) == strs_view(before).push(s@));
        }
    } else {
        assert(name_set(v@) =~= name_set(v@).insert(s@));
    }
}

/// The names of a list, each once.
pub fn names_from(v: &Vec<String>) -> (r: Vec<String>)
    ensures
        distinct(r@),
        name_set(r@) == name_set(v@),
{
    let mut r: Vec<String> = Vec::new();
    let mut i: usize = 0;
    assert(name_set(r@) =~= Set::<Seq<char>>::empty());
    while i < v.len()
        invariant
            i <= v.len(),
            distinct(r@),
            name_set(r@) == name_set(v@.take(i as int)),
        decreases v.len() - i,
    {
        add_name(&mut r, &v[i]);
        proof {
            lemma_push_name_set(v@.take(i as int), v@[i as int]);
            assert(v@.take(i as int + 1) == v@.take(i as int).push(v@[i as int]));
        }
        i += 1;
    }
    assert(v@.take(v.len() as int) == v@);
    r
}

/// The names of `a` together with the names of `b`, each once.
pub fn union_names(a: &Vec<String>, b: &Vec<String>) -> (r: Vec<String>)
    ensures
        distinct(r@),
        name_set(r@) == name_set(a@).union(name_set(b@)),
{
    let mut r = names_from(a);
    let mut i: usize = 0;
    while i < b.len()
        invariant
            i <= b.len(),
            distinct(r@),
            name_set(r@) == name_set(a@).union(name_set(b@.take(i as int))),
        decreases b.len() - i,
    {
        add_name(&mut r, &b[i]);
        proof {
            lemma_push_name_set(b@.take(i as int), b@[i as int]);
            assert(b@.take(i as int + 1) == b@.take(i as int).push(b@[i as int]));
            assert(name_set(r@) =~= name_set(a@).union(name_set(b@.take(i as int + 1))));
        }
        i += 1;
    }
    assert(b@.take(b.len() as int) == b@);
    r
}

/// The names in exactly one of `a` and `b`, each once.
pub fn symmetric_difference_names(a: &Vec<String>, b: &Vec<String>) -> (r: Vec<String>)
    ensures
        distinct(r@),
        name_set(r@) == name_set(a@).difference(name_set(b@)).union(name_set(b@).difference(name_set(a@))),
{
    let d1 = difference_names(a, b);
    let d2 = difference_names(b, a);
    union_names(&d1, &d2)
}

/// The names of `a` that are not in `b`, each once.
pub fn difference_names(a: &Vec<String>, b: &Vec<String>) -> (r: Vec<String>)
    ensures
        distinct(r@),
        name_set(r@) == name_set(a@).difference(name_set(b@)),
{
    let mut r: Vec<String> = Vec::new();
    let mut i: usize = 0;
    assert(name_set(r@) =~= Set::<Seq<char>>::empty());
    while i < a.len()
        invariant
            i <= a.len(),
            distinct(r@),
            name_set(r@) == name_set(a@.take(i as int)).difference(name_set(b@)),
        decreases a.len() - i,
    {
        proof {
            lemma_push_name_set(a@.take(i as int), a@[i as int]);
            assert(a@.take(i as int + 1) == a@.take(i as int).push(a@[i as int]));
        }
        if !has_name(b, &a[i]) {
            add_name(&mut r, &a[i]);
        }
        assert(name_set(r@) =~= name_set(a@.take(i as int + 1)).difference(name_set(b@)));
        i += 1;
    }
    assert(a@.take(a.len() as int) == a@);
    r
}

} // verus!
