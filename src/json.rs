use vstd::prelude::*;

verus! {

/// A JSON value as the protocol reads it. Object members keep their order.
#[derive(Debug, PartialEq, Eq)]
pub enum Json {
    Null,
    Bool(bool),
    /// A number that is an unsigned 64-bit integer.
    Num(u64),
    /// Any other number, as its text.
    Real(String),
    Str(String),
    Arr(Vec<Json>),
    Obj(Vec<(String, Json)>),
}

/// The value of the last member named `k`, the one a JSON reader keeps
/// when a name repeats.
pub open spec fn lookup<V>(s: Seq<(String, V)>, k: Seq<char>) -> Option<V>
    decreases s.len(),
{
    if s.len() == 0 {
        None
    } else if s.last().0@ == k {
        Some(s.last().1)
    } else {
        lookup(s.drop_last(), k)
    }
}

/// Whether some member of `s` is named `k`.
pub open spec fn has_key<V>(s: Seq<(String, V)>, k: Seq<char>) -> bool {
    exists|i: int| 0 <= i < s.len() && #[trigger] s[i].0@ == k
}

/// Index of the last member named `k`, if any.
pub fn find_last<V>(s: &Vec<(String, V)>, k: &str) -> (r: Option<usize>)
    ensures
        match r {
            Some(i) => i < s@.len() && s@[i as int].0@ == k@ && lookup(s@, k@) == Some(
                s@[i as int].1,
            ),
            None => lookup(s@, k@) is None && !has_key(s@, k@),
        },
{
    let key = k.to_owned();
    let mut i: usize = s.len();
    assert(s@.subrange(0, i as int) =~= s@);
    while i > 0
        invariant
            i <= s@.len(),
            key@ == k@,
            lookup(s@, k@) == lookup(s@.subrange(0, i as int), k@),
            forall|j: int| i <= j < s@.len() ==> s@[j].0@ != k@,
        decreases i,
    {
        assert(s@.subrange(0, i as int).drop_last() =~= s@.subrange(0, i - 1));
        if s[i - 1].0 == key {
            return Some(i - 1);
        }
        i = i - 1;
    }
    assert(s@.subrange(0, 0) =~= Seq::<(String, V)>::empty());
    None
}

/// The members of `s` whose names are not among `ks`, in order.
pub open spec fn without<V>(s: Seq<(String, V)>, ks: Seq<Seq<char>>) -> Seq<(String, V)>
    decreases s.len(),
{
    if s.len() == 0 {
        s
    } else if ks.contains(s.last().0@) {
        without(s.drop_last(), ks)
    } else {
        without(s.drop_last(), ks).push(s.last())
    }
}

/// A member that follows all the members named `k` decides nothing about `k`.
pub proof fn lemma_lookup_append<V>(a: Seq<(String, V)>, b: Seq<(String, V)>, k: Seq<char>)
    requires
        !has_key(b, k),
    ensures
        lookup(a + b, k) == lookup(a, k),
    decreases b.len(),
{
    if b.len() == 0 {
        assert(a + b =~= a);
    } else {
        assert((a + b).drop_last() =~= a + b.drop_last());
        assert((a + b).last() == b.last());
        assert(b.last() == b[b.len() - 1]);
        assert(!has_key(b.drop_last(), k)) by {
            if has_key(b.drop_last(), k) {
                let i = choose|i: int| 0 <= i < b.drop_last().len() && #[trigger] b.drop_last()[i].0@ == k;
                assert(b[i].0@ == k);
            }
        }
        lemma_lookup_append(a, b.drop_last(), k);
    }
}

pub proof fn lemma_without_append<V>(a: Seq<(String, V)>, b: Seq<(String, V)>, ks: Seq<Seq<char>>)
    ensures
        without(a + b, ks) == without(a, ks) + without(b, ks),
    decreases b.len(),
{
    if b.len() == 0 {
        assert(a + b =~= a);
        assert(without(a, ks) + without(b, ks) =~= without(a, ks));
    } else {
        assert((a + b).drop_last() =~= a + b.drop_last());
        assert((a + b).last() == b.last());
        lemma_without_append(a, b.drop_last(), ks);
        if ks.contains(b.last().0@) {
        } else {
            assert(without(a, ks) + without(b.drop_last(), ks).push(b.last()) =~= (without(a, ks)
                + without(b.drop_last(), ks)).push(b.last()));
        }
    }
}

/// Removing names that no member has changes nothing.
pub proof fn lemma_without_none<V>(s: Seq<(String, V)>, ks: Seq<Seq<char>>)
    requires
        forall|i: int| 0 <= i < s.len() ==> !ks.contains(#[trigger] s[i].0@),
    ensures
        without(s, ks) == s,
    decreases s.len(),
{
    if s.len() > 0 {
        assert(s.last() == s[s.len() - 1]);
        assert forall|i: int| 0 <= i < s.drop_last().len() implies !ks.contains(#[trigger] s.drop_last()[i].0@) by {
            assert(s.drop_last()[i] == s[i]);
        }
        lemma_without_none(s.drop_last(), ks);
        assert(s.drop_last().push(s.last()) =~= s);
    }
}

/// No member left by `without` has a removed name.
pub proof fn lemma_without_excludes<V>(s: Seq<(String, V)>, ks: Seq<Seq<char>>)
    ensures
        forall|i: int| 0 <= i < without(s, ks).len() ==> !ks.contains(#[trigger] without(s, ks)[i].0@),
    decreases s.len(),
{
    if s.len() > 0 {
        lemma_without_excludes(s.drop_last(), ks);
        let prev = without(s.drop_last(), ks);
        if !ks.contains(s.last().0@) {
            assert forall|i: int| 0 <= i < without(s, ks).len() implies !ks.contains(
                #[trigger] without(s, ks)[i].0@,
            ) by {
                if i < prev.len() {
                    assert(without(s, ks)[i] == prev[i]);
                }
            }
        }
    }
}

/// Moves the last members named `a`, `b` and `c` out of `entries`; the
/// members with other names stay, in order.
pub fn take_members(entries: Vec<(String, Json)>, a: &str, b: &str, c: &str) -> (r: (
    Option<Json>,
    Option<Json>,
    Option<Json>,
    Vec<(String, Json)>,
))
    requires
        a@ != b@,
        a@ != c@,
        b@ != c@,
    ensures
        r.0 == lookup(entries@, a@),
        r.1 == lookup(entries@, b@),
        r.2 == lookup(entries@, c@),
        r.3@ == without(entries@, seq![a@, b@, c@]),
{
    let ghost all = entries@;
    let ghost ks = seq![a@, b@, c@];
    let ka = a.to_owned();
    let kb = b.to_owned();
    let kc = c.to_owned();
    let mut rest_in = entries;
    let mut va: Option<Json> = None;
    let mut vb: Option<Json> = None;
    let mut vc: Option<Json> = None;
    let mut rest: Vec<(String, Json)> = Vec::new();
    let mut i: usize = 0;
    let n = rest_in.len();
    while i < n
        invariant
            n == all.len(),
            i <= n,
            ka@ == a@,
            kb@ == b@,
            kc@ == c@,
            ks == seq![a@, b@, c@],
            a@ != b@,
            a@ != c@,
            b@ != c@,
            rest_in@ == all.subrange(i as int, n as int),
            va == lookup(all.subrange(0, i as int), a@),
            vb == lookup(all.subrange(0, i as int), b@),
            vc == lookup(all.subrange(0, i as int), c@),
            rest@ == without(all.subrange(0, i as int), ks),
        decreases n - i,
    {
        let ghost pre = all.subrange(0, i as int);
        let member = rest_in.remove(0);
        proof {
            let s1 = all.subrange(0, i + 1);
            assert(s1.drop_last() =~= pre);
            assert(s1.last() == member);
            assert(rest_in@ =~= all.subrange(i + 1, n as int));
        }
        let (k, v) = member;
        if k == ka {
            va = Some(v);
        } else if k == kb {
            vb = Some(v);
        } else if k == kc {
            vc = Some(v);
        } else {
            proof {
                assert(!ks.contains(k@)) by {
                    if ks.contains(k@) {
                        let j = choose|j: int| 0 <= j < ks.len() && ks[j] == k@;
                        assert(j == 0 || j == 1 || j == 2);
                    }
                }
            }
            rest.push((k, v));
        }
        proof {
            if k@ == a@ || k@ == b@ || k@ == c@ {
                assert(ks.contains(k@)) by {
                    if k@ == a@ { assert(ks[0] == k@); }
                    else if k@ == b@ { assert(ks[1] == k@); }
                    else { assert(ks[2] == k@); }
                }
            }
        }
        i = i + 1;
    }
    proof {
        assert(all.subrange(0, n as int) =~= all);
    }
    (va, vb, vc, rest)
}

} // verus!
