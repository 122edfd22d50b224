//! The registry of selectable targets, as the tools list it.
//!
//! Each backend contributes the canonical names it answers to; the tools
//! show them sorted and without repeats.
use vstd::prelude::*;

use crate::text::{lemma_seq_less_total, lemma_seq_less_transitive, seq_less, str_eq, str_less};

verus! {

/// One registered backend: the canonical names it answers to, for help text
/// and diagnostics.
pub struct TargetInfo {
    pub canonical_names: Vec<&'static str>,
}

/// Whether some backend among the first `upto` of `targets` lists `n`.
pub open spec fn registered_upto(targets: Seq<TargetInfo>, upto: int, n: Seq<char>) -> bool {
    exists|t: int, k: int| 0 <= t < upto && 0 <= k < targets[t].canonical_names@.len()
        && (#[trigger] targets[t].canonical_names@[k])@ == n
}

/// Whether some backend in `targets` lists the name `n`.
pub open spec fn registered(targets: Seq<TargetInfo>, n: Seq<char>) -> bool {
    registered_upto(targets, targets.len() as int, n)
}

/// Whether `names` holds the name `n` among its first `upto`.
pub open spec fn has_name_upto(names: Seq<&str>, upto: int, n: Seq<char>) -> bool {
    exists|i: int| 0 <= i < upto && i < names.len() && (#[trigger] names[i])@ == n
}

pub open spec fn has_name(names: Seq<&str>, n: Seq<char>) -> bool {
    has_name_upto(names, names.len() as int, n)
}

/// Strictly increasing in lexicographic order (so no name twice).
pub open spec fn strictly_sorted(names: Seq<&str>) -> bool {
    forall|a: int, b: int| 0 <= a < b < names.len() ==> seq_less((#[trigger] names[a])@, (#[trigger] names[b])@)
}

/// Insert `name` into the sorted, repeat-free list unless it is there.
fn insert_sorted(names: &mut Vec<&'static str>, name: &'static str)
    requires
        strictly_sorted(old(names)@),
    ensures
        strictly_sorted(final(names)@),
        forall|x: Seq<char>| #![trigger has_name(final(names)@, x)] #![trigger has_name(old(names)@, x)]
            has_name(final(names)@, x) <==> (has_name(old(names)@, x) || x == name@),
{
    let ghost old_names = names@;
    let mut p: usize = 0;
    while p < names.len() && str_less(names[p], name)
        invariant
            p <= names@.len(),
            names@ == old_names,
            strictly_sorted(names@),
            forall|q: int| 0 <= q < p ==> seq_less((#[trigger] names@[q])@, name@),
        decreases names.len() - p,
    {
        p = p + 1;
    }
    if p < names.len() && str_eq(names[p], name) {
        assert forall|x: Seq<char>| has_name(names@, x) <==> (has_name(names@, x) || x == name@) by {
            if x == name@ {
                assert(names@[p as int]@ == x);
            }
        }
        return;
    }
    proof {
        if p < names@.len() {
            lemma_seq_less_total(names@[p as int]@, name@);
        }
    }
    names.insert(p, name);
    proof {
        assert forall|a: int, b: int| 0 <= a < b < names@.len() implies seq_less((#[trigger] names@[a])@, (#[trigger] names@[b])@) by {
            if b < p {
                assert(names@[a] == old_names[a]);
                assert(names@[b] == old_names[b]);
            } else if a < p && b == p {
            } else if a < p && b > p {
                assert(names@[b] == old_names[b - 1]);
            } else if a == p {
                assert(names@[b] == old_names[b - 1]);
                if b - 1 > p {
                    lemma_seq_less_transitive(name@, old_names[p as int]@, old_names[b - 1]@);
                }
            } else {
                assert(names@[a] == old_names[a - 1]);
                assert(names@[b] == old_names[b - 1]);
            }
        }
        assert forall|x: Seq<char>| has_name(names@, x) <==> (has_name(old_names, x) || x == name@) by {
            if x == name@ {
                assert(names@[p as int]@ == x);
            }
            if has_name(old_names, x) {
                let i = choose|i: int| 0 <= i < old_names.len() && i < old_names.len() && (#[trigger] old_names[i])@ == x;
                if i < p {
                    assert(names@[i]@ == x);
                } else {
                    assert(names@[i + 1]@ == x);
                }
            }
            if has_name(names@, x) {
                let i = choose|i: int| 0 <= i < names@.len() && i < names@.len() && (#[trigger] names@[i])@ == x;
                if i < p {
                    assert(old_names[i]@ == x);
                } else if i > p {
                    assert(old_names[i - 1]@ == x);
                }
            }
        }
    }
}

/// The canonical names of every registered target, sorted and without
/// repeats.
pub fn supported_targets(targets: &[TargetInfo]) -> (r: Vec<&'static str>)
    ensures
        strictly_sorted(r@),
        forall|x: Seq<char>| #![trigger has_name(r@, x)] #![trigger registered(targets@, x)]
            has_name(r@, x) <==> registered(targets@, x),
{
    let mut names: Vec<&'static str> = Vec::new();
    let mut t: usize = 0;
    while t < targets.len()
        invariant
            t <= targets@.len(),
            strictly_sorted(names@),
            forall|x: Seq<char>| #![trigger has_name(names@, x)] #![trigger registered_upto(targets@, t as int, x)]
                has_name(names@, x) <==> registered_upto(targets@, t as int, x),
        decreases targets.len() - t,
    {
        let list = &targets[t].canonical_names;
        let mut k: usize = 0;
        while k < list.len()
            invariant
                t < targets@.len(),
                *list == targets@[t as int].canonical_names,
                k <= list@.len(),
                strictly_sorted(names@),
                forall|x: Seq<char>| #![trigger has_name(names@, x)] #![trigger registered_upto(targets@, t as int, x)] #![trigger has_name_upto(list@, k as int, x)]
                    has_name(names@, x) <==> (registered_upto(targets@, t as int, x) || has_name_upto(list@, k as int, x)),
            decreases list.len() - k,
        {
            let ghost before = names@;
            insert_sorted(&mut names, list[k]);
            proof {
                assert forall|x: Seq<char>| has_name(names@, x) <==> (registered_upto(targets@, t as int, x) || has_name_upto(list@, k + 1, x)) by {
                    assert(has_name(names@, x) <==> (has_name(before, x) || x == list@[k as int]@));
                    if has_name_upto(list@, k + 1, x) {
                        let k2 = choose|k2: int| 0 <= k2 < k + 1 && k2 < list@.len() && (#[trigger] list@[k2])@ == x;
                        if k2 < k {
                            assert(has_name_upto(list@, k as int, x));
                        }
                    }
                    if x == list@[k as int]@ {
                        assert(has_name_upto(list@, k + 1, x));
                    }
                    if has_name_upto(list@, k as int, x) {
                        let k2 = choose|k2: int| 0 <= k2 < k && k2 < list@.len() && (#[trigger] list@[k2])@ == x;
                        assert(has_name_upto(list@, k + 1, x));
                    }
                }
            }
            k = k + 1;
        }
        proof {
            assert forall|x: Seq<char>| has_name(names@, x) <==> registered_upto(targets@, t + 1, x) by {
                if registered_upto(targets@, t + 1, x) {
                    let (t2, k2) = choose|t2: int, k2: int| 0 <= t2 < t + 1 && 0 <= k2 < targets@[t2].canonical_names@.len()
                        && (#[trigger] targets@[t2].canonical_names@[k2])@ == x;
                    if t2 == t {
                        assert(list@[k2]@ == x);
                        assert(has_name_upto(list@, list@.len() as int, x));
                    } else {
                        assert(registered_upto(targets@, t as int, x));
                    }
                }
                if has_name_upto(list@, list@.len() as int, x) {
                    let k2 = choose|k2: int| 0 <= k2 < list@.len() && k2 < list@.len() && (#[trigger] list@[k2])@ == x;
                    assert(targets@[t as int].canonical_names@[k2]@ == x);
                }
                if registered_upto(targets@, t as int, x) {
                    let (t2, k2) = choose|t2: int, k2: int| 0 <= t2 < t && 0 <= k2 < targets@[t2].canonical_names@.len()
                        && (#[trigger] targets@[t2].canonical_names@[k2])@ == x;
                    assert(targets@[t2].canonical_names@[k2]@ == x);
                }
            }
        }
        t = t + 1;
    }
    names
}

} // verus!
