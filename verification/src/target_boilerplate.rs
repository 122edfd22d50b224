//! Target-selection steps every backend spells identically: the spelling
//! feature names are compared in, and applying an `--mattr` list.
use vstd::prelude::*;

use crate::attributes::{find_attr, spec_attr, AttributeValue};
use crate::context::OpInstance;
use crate::ids::BlockId;
use crate::rules::PassError;
use crate::text::{chars_of, is_space, is_space_char, push_char};
use vstd::laws_eq::obeys_concrete_eq;

verus! {

/// The first position at or after `i` that is not whitespace.
pub open spec fn lead(s: Seq<char>, i: int) -> int
    decreases s.len() - i,
{
    if 0 <= i < s.len() && is_space(s[i]) {
        lead(s, i + 1)
    } else {
        i
    }
}

/// The end of `s` up to `j` once trailing whitespace down to `lo` is gone.
pub open spec fn tail(s: Seq<char>, j: int, lo: int) -> int
    decreases j - lo,
{
    if lo < j && j <= s.len() && is_space(s[j - 1]) {
        tail(s, j - 1, lo)
    } else {
        j
    }
}

/// `s` without leading and trailing whitespace.
pub open spec fn trimmed(s: Seq<char>) -> Seq<char> {
    let a = lead(s, 0);
    s.subrange(a, tail(s, s.len() as int, a))
}

/// Whether `c` is one of the separators `_` and `-`, which a name may
/// carry or leave out without naming something else.
pub open spec fn is_separator(c: char) -> bool {
    c == '_' || c == '-'
}

/// `s` without its separators, in order.
pub open spec fn drop_separators(s: Seq<char>) -> Seq<char>
    decreases s.len(),
{
    if s.len() == 0 {
        s
    } else {
        let rest = drop_separators(s.drop_last());
        if is_separator(s.last()) {
            rest
        } else {
            rest.push(s.last())
        }
    }
}

/// ASCII upper case to lower case, anything else unchanged.
pub open spec fn lower_char(c: char) -> char {
    if 'A' <= c && c <= 'Z' {
        ((c as u32) + 32) as char
    } else {
        c
    }
}

/// The spelling names are compared in: separators dropped, surrounding
/// whitespace trimmed, ASCII letters lowercased.
pub open spec fn spec_normalize_name(s: Seq<char>) -> Seq<char> {
    trimmed(drop_separators(s)).map_values(|c: char| lower_char(c))
}

proof fn lemma_lead(s: Seq<char>, i: int)
    requires
        0 <= i <= s.len(),
    ensures
        i <= lead(s, i) <= s.len(),
        forall|k: int| i <= k < lead(s, i) ==> is_space(#[trigger] s[k]),
        lead(s, i) < s.len() ==> !is_space(s[lead(s, i)]),
    decreases s.len() - i,
{
    if i < s.len() && is_space(s[i]) {
        lemma_lead(s, i + 1);
    }
}

proof fn lemma_tail(s: Seq<char>, j: int, lo: int)
    requires
        0 <= lo <= j <= s.len(),
    ensures
        lo <= tail(s, j, lo) <= j,
        tail(s, j, lo) > lo ==> !is_space(s[tail(s, j, lo) - 1]),
    decreases j - lo,
{
    if lo < j && is_space(s[j - 1]) {
        lemma_tail(s, j - 1, lo);
    }
}

/// The bounds of `chars[from..to]` without surrounding whitespace.
fn trim_bounds(chars: &Vec<char>, from: usize, to: usize) -> (r: (usize, usize))
    requires
        from <= to <= chars@.len(),
    ensures
        r.0 <= r.1 <= to - from,
        chars@.subrange(from + r.0, from + r.1) == trimmed(chars@.subrange(from as int, to as int)),
{
    let ghost s = chars@.subrange(from as int, to as int);
    let mut a: usize = from;
    proof {
        lemma_lead(s, 0);
    }
    while a < to && is_space_char(chars[a])
        invariant
            from <= a <= to,
            to <= chars@.len(),
            s == chars@.subrange(from as int, to as int),
            lead(s, (a - from) as int) == lead(s, 0),
        decreases to - a,
    {
        a = a + 1;
    }
    let ghost la = (a - from) as int;
    assert(lead(s, la) == la);
    let mut b: usize = to;
    while b > a && is_space_char(chars[b - 1])
        invariant
            from <= a <= b <= to,
            to <= chars@.len(),
            s == chars@.subrange(from as int, to as int),
            la == a - from,
            tail(s, (b - from) as int, la) == tail(s, s.len() as int, la),
        decreases b - a,
    {
        b = b - 1;
    }
    assert(tail(s, (b - from) as int, la) == (b - from) as int);
    assert(chars@.subrange(a as int, b as int) =~= s.subrange(la, (b - from) as int));
    (a - from, b - from)
}

fn lower_char_exec(c: char) -> (r: char)
    ensures
        r == lower_char(c),
{
    if 'A' <= c && c <= 'Z' {
        let lower: u8 = (c as u8) + 32;
        lower as char
    } else {
        c
    }
}

/// The spelling ISA strings and feature names are compared in: trimmed,
/// ASCII lowercased, with the separators `_` and `-` left out, so `zicsr`,
/// `Zicsr` and `zi_csr` (and `zi-csr`) name one feature.
pub fn normalize_name(name: &str) -> (r: String)
    ensures
        r@ == spec_normalize_name(name@),
{
    let chars = chars_of(name);
    let mut kept: Vec<char> = Vec::new();
    let mut j: usize = 0;
    while j < chars.len()
        invariant
            j <= chars@.len(),
            kept@ == drop_separators(chars@.subrange(0, j as int)),
        decreases chars.len() - j,
    {
        proof {
            assert(chars@.subrange(0, j + 1).drop_last() =~= chars@.subrange(0, j as int));
        }
        let c = chars[j];
        if c != '_' && c != '-' {
            kept.push(c);
        }
        j = j + 1;
    }
    proof {
        assert(chars@.subrange(0, chars@.len() as int) =~= chars@);
    }
    let (a, b) = trim_bounds(&kept, 0, kept.len());
    proof {
        assert(kept@.subrange(0, kept@.len() as int) =~= kept@);
    }
    let mut out = String::new();
    let mut k: usize = a;
    while k < b
        invariant
            a <= k <= b <= kept@.len(),
            kept@ == drop_separators(name@),
            kept@.subrange(a as int, b as int) == trimmed(drop_separators(name@)),
            out@ == kept@.subrange(a as int, k as int).map_values(|c: char| lower_char(c)),
        decreases b - k,
    {
        push_char(&mut out, lower_char_exec(kept[k]));
        assert(out@ =~= kept@.subrange(a as int, k + 1).map_values(|c: char| lower_char(c)));
        k = k + 1;
    }
    out
}

proof fn lemma_drop_separators(s: Seq<char>)
    ensures
        forall|k: int| 0 <= k < drop_separators(s).len() ==> !is_separator(#[trigger] drop_separators(s)[k]),
        (forall|k: int| 0 <= k < s.len() ==> !is_separator(#[trigger] s[k])) ==> drop_separators(s) == s,
    decreases s.len(),
{
    if s.len() > 0 {
        lemma_drop_separators(s.drop_last());
        let rest = drop_separators(s.drop_last());
        if !is_separator(s.last()) {
            assert forall|k: int| 0 <= k < rest.push(s.last()).len() implies !is_separator(#[trigger] rest.push(s.last())[k]) by {
                if k < rest.len() {
                    assert(rest.push(s.last())[k] == rest[k]);
                }
            }
        }
        if forall|k: int| 0 <= k < s.len() ==> !is_separator(#[trigger] s[k]) {
            assert forall|k: int| 0 <= k < s.drop_last().len() implies !is_separator(#[trigger] s.drop_last()[k]) by {
                assert(s.drop_last()[k] == s[k]);
            }
            assert(s.drop_last().push(s.last()) =~= s);
        }
    }
}

proof fn lemma_lower_char(c: char)
    ensures
        !('A' <= lower_char(c) && lower_char(c) <= 'Z'),
        lower_char(lower_char(c)) == lower_char(c),
        is_space(lower_char(c)) == is_space(c),
        is_separator(lower_char(c)) == is_separator(c),
{
}

/// Normalising a normalised name changes nothing: it carries no separator
/// and no ASCII capital, and no whitespace at either end.
pub proof fn law_normalize_name_idempotent(s: Seq<char>)
    ensures
        spec_normalize_name(spec_normalize_name(s)) == spec_normalize_name(s),
        forall|k: int| 0 <= k < spec_normalize_name(s).len() ==> {
            let c = #[trigger] spec_normalize_name(s)[k];
            !is_separator(c) && !('A' <= c && c <= 'Z')
        },
        spec_normalize_name(s).len() > 0 ==> !is_space(spec_normalize_name(s)[0])
            && !is_space(spec_normalize_name(s).last()),
{
    let d = drop_separators(s);
    let t = trimmed(d);
    let r = spec_normalize_name(s);
    lemma_drop_separators(s);
    let a = lead(d, 0);
    lemma_lead(d, 0);
    lemma_tail(d, d.len() as int, a);
    let e = tail(d, d.len() as int, a);
    assert(t == d.subrange(a, e));
    assert forall|k: int| 0 <= k < r.len() implies {
        let c = #[trigger] r[k];
        !is_separator(c) && !('A' <= c && c <= 'Z') && lower_char(c) == c
    } by {
        assert(r[k] == lower_char(t[k]));
        assert(t[k] == d[a + k]);
        lemma_lower_char(t[k]);
    }
    if r.len() > 0 {
        lemma_lower_char(t[0]);
        lemma_lower_char(t[t.len() - 1]);
        assert(t[0] == d[a]);
        assert(t[t.len() - 1] == d[e - 1]);
    }
    lemma_drop_separators(r);
    assert(drop_separators(r) == r);
    assert(lead(r, 0) == 0);
    assert(tail(r, r.len() as int, 0) == r.len());
    assert(trimmed(r) =~= r);
    assert(r.map_values(|c: char| lower_char(c)) =~= r);
}

/// The end of the comma-separated piece of `s` starting at `i`.
pub open spec fn piece_end(s: Seq<char>, i: int) -> int
    decreases s.len() - i,
{
    if i < 0 || i >= s.len() || s[i] == ',' {
        i
    } else {
        piece_end(s, i + 1)
    }
}

/// The trimmed piece of `s` starting at `i`.
pub open spec fn item_at(s: Seq<char>, i: int) -> Seq<char> {
    trimmed(s.subrange(i, piece_end(s, i)))
}

/// `features` with `x` toggled on (`add`: appended unless already there)
/// or off (every occurrence removed).
pub open spec fn toggle_one<F>(features: Seq<F>, add: bool, x: F) -> Seq<F> {
    if add {
        if features.contains(x) {
            features
        } else {
            features.push(x)
        }
    } else {
        remove_all(features, x)
    }
}

/// `features` without any `x`, in order.
pub open spec fn remove_all<F>(features: Seq<F>, x: F) -> Seq<F>
    decreases features.len(),
{
    if features.len() == 0 {
        features
    } else {
        let rest = remove_all(features.drop_last(), x);
        if features.last() == x {
            rest
        } else {
            rest.push(features.last())
        }
    }
}

/// `features` with every feature of `toggled` toggled in turn.
pub open spec fn toggle_all<F>(features: Seq<F>, add: bool, toggled: Seq<F>) -> Seq<F>
    decreases toggled.len(),
{
    if toggled.len() == 0 {
        features
    } else {
        toggle_one(toggle_all(features, add, toggled.drop_last()), add, toggled.last())
    }
}

pub open spec fn invalid_entry_message(item: Seq<char>) -> Seq<char> {
    "invalid --mattr entry '"@ + item + "' (expected '+feature' or '-feature')"@
}

pub open spec fn unknown_feature_message(arch: Seq<char>, name: Seq<char>) -> Seq<char> {
    "unknown "@ + arch + " feature '"@ + name + "' in --mattr"@
}

/// Whether a non-empty item starts with `+` or `-`.
pub open spec fn is_toggle(item: Seq<char>) -> bool {
    item.len() > 0 && (item[0] == '+' || item[0] == '-')
}

/// The feature names the list from position `i` looks up, in order, up to
/// its first invalid entry.
pub open spec fn mattr_names(s: Seq<char>, i: int) -> Seq<Seq<char>>
    decreases s.len() + 1 - i,
{
    if i < 0 || i > s.len() {
        Seq::empty()
    } else {
        let item = item_at(s, i);
        proof {
            lemma_piece_end(s, i);
        }
        if item.len() == 0 {
            mattr_names(s, piece_end(s, i) + 1)
        } else if is_toggle(item) {
            seq![item.drop_first()] + mattr_names(s, piece_end(s, i) + 1)
        } else {
            Seq::empty()
        }
    }
}

/// The features after applying the list from position `i` to `features`,
/// with `looked` the successive lookups of its feature names, and whether
/// (and with which message) it failed.
pub open spec fn mattr_from<F>(
    s: Seq<char>,
    i: int,
    features: Seq<F>,
    looked: Seq<Option<Seq<F>>>,
    arch: Seq<char>,
) -> (Seq<F>, Result<(), Seq<char>>)
    decreases s.len() + 1 - i,
{
    if i < 0 || i > s.len() {
        (features, Ok(()))
    } else {
        let item = item_at(s, i);
        proof {
            lemma_piece_end(s, i);
        }
        if item.len() == 0 {
            mattr_from(s, piece_end(s, i) + 1, features, looked, arch)
        } else if is_toggle(item) {
            if looked.len() == 0 {
                (features, Ok(()))
            } else {
                match looked[0] {
                    None => (features, Err(unknown_feature_message(arch, item.drop_first()))),
                    Some(t) => mattr_from(s, piece_end(s, i) + 1, toggle_all(features, item[0] == '+', t), looked.drop_first(), arch),
                }
            }
        } else {
            (features, Err(invalid_entry_message(item)))
        }
    }
}

pub open spec fn opt_vec_view<F>(r: Option<Vec<F>>) -> Option<Seq<F>> {
    match r {
        Some(v) => Some(v@),
        None => None,
    }
}

/// `looked` are results `lookup` may give for the first `names`, one for one,
/// and all but perhaps the last name were found.
pub open spec fn lookups_answer<F, L: Fn(&str) -> Option<Vec<F>>>(lookup: L, names: Seq<Seq<char>>, looked: Seq<Option<Seq<F>>>) -> bool {
    &&& looked.len() <= names.len()
    &&& forall|k: int| 0 <= k < looked.len() ==> exists|n: &str, res: Option<Vec<F>>|
        n@ == names[k] && #[trigger] lookup.ensures((n,), res) && opt_vec_view(res) == #[trigger] looked[k]
    &&& forall|k: int| 0 <= k < looked.len() - 1 ==> #[trigger] looked[k] is Some
}

/// `looked` is the whole log of lookups for `names`: every name was looked
/// up in turn, up to the first one `lookup` did not know.
pub open spec fn lookups_agree<F, L: Fn(&str) -> Option<Vec<F>>>(lookup: L, names: Seq<Seq<char>>, looked: Seq<Option<Seq<F>>>) -> bool {
    &&& lookups_answer(lookup, names, looked)
    &&& looked.len() == names.len() || (looked.len() > 0 && looked.last() is None)
}

pub proof fn lemma_piece_end(s: Seq<char>, i: int)
    requires
        0 <= i <= s.len(),
    ensures
        i <= piece_end(s, i) <= s.len(),
        forall|k: int| i <= k < piece_end(s, i) ==> #[trigger] s[k] != ',',
        piece_end(s, i) < s.len() ==> s[piece_end(s, i)] == ',',
    decreases s.len() - i,
{
    if i < s.len() && s[i] != ',' {
        lemma_piece_end(s, i + 1);
    }
}

fn remove_feature<F: Copy + PartialEq>(features: &mut Vec<F>, x: F)
    requires
        obeys_concrete_eq::<F>(),
    ensures
        final(features)@ == remove_all(old(features)@, x),
{
    let mut kept: Vec<F> = Vec::new();
    let mut k: usize = 0;
    while k < features.len()
        invariant
            k <= features@.len(),
            obeys_concrete_eq::<F>(),
            kept@ == remove_all(features@.subrange(0, k as int), x),
        decreases features.len() - k,
    {
        proof {
            assert(features@.subrange(0, k + 1).drop_last() =~= features@.subrange(0, k as int));
        }
        proof {
            reveal(obeys_concrete_eq);
        }
        let f = features[k];
        if f != x {
            kept.push(f);
        }
        k = k + 1;
    }
    assert(features@.subrange(0, features@.len() as int) =~= features@);
    *features = kept;
}

fn contains_feature<F: Copy + PartialEq>(features: &Vec<F>, x: F) -> (r: bool)
    requires
        obeys_concrete_eq::<F>(),
    ensures
        r == features@.contains(x),
{
    let mut k: usize = 0;
    while k < features.len()
        invariant
            k <= features@.len(),
            obeys_concrete_eq::<F>(),
            forall|j: int| 0 <= j < k ==> features@[j] != x,
        decreases features.len() - k,
    {
        proof {
            reveal(obeys_concrete_eq);
        }
        let f = features[k];
        if f == x {
            assert(features@[k as int] == x);
            return true;
        }
        k = k + 1;
    }
    false
}

fn toggle_features<F: Copy + PartialEq>(features: &mut Vec<F>, add: bool, toggled: &Vec<F>)
    requires
        obeys_concrete_eq::<F>(),
    ensures
        final(features)@ == toggle_all(old(features)@, add, toggled@),
{
    let ghost start = features@;
    let mut k: usize = 0;
    while k < toggled.len()
        invariant
            k <= toggled@.len(),
            obeys_concrete_eq::<F>(),
            features@ == toggle_all(start, add, toggled@.subrange(0, k as int)),
        decreases toggled.len() - k,
    {
        proof {
            assert(toggled@.subrange(0, k + 1).drop_last() =~= toggled@.subrange(0, k as int));
        }
        let feature = toggled[k];
        if add {
            if !contains_feature(features, feature) {
                features.push(feature);
            }
        } else {
            remove_feature(features, feature);
        }
        k = k + 1;
    }
    assert(toggled@.subrange(0, toggled@.len() as int) =~= toggled@);
}

/// Apply an LLVM-style `--mattr` list (`+feat`/`-feat`, comma-separated) on
/// top of the march-derived feature set, entry by entry.
///
/// `lookup` resolves one spelling to every feature it toggles (one name may
/// stand for several), and `arch` names the target in the diagnostics. On an
/// invalid entry or an unknown feature the entries before it stay applied.
pub fn apply_mattr<F: Copy + PartialEq, L: Fn(&str) -> Option<Vec<F>>>(
    features: &mut Vec<F>,
    mattr: &str,
    arch: &str,
    lookup: L,
) -> (r: Result<(), String>)
    requires
        obeys_concrete_eq::<F>(),
        forall|n: &str| lookup.requires((n,)),
    ensures
        exists|looked: Seq<Option<Seq<F>>>| {
            &&& #[trigger] lookups_agree(lookup, mattr_names(mattr@, 0), looked)
            &&& final(features)@ == mattr_from(mattr@, 0, old(features)@, looked, arch@).0
            &&& match mattr_from(mattr@, 0, old(features)@, looked, arch@).1 {
                Ok(()) => r is Ok,
                Err(msg) => r matches Err(m) && m@ == msg,
            }
        },
{
    let chars = chars_of(mattr);
    let n = chars.len();
    let ghost s = mattr@;
    let ghost start = features@;
    let ghost mut looked: Seq<Option<Seq<F>>> = Seq::empty();
    let mut i: usize = 0;
    let ghost mut pos: int = 0;
    let mut done = false;
    while !done
        invariant
            i <= n,
            pos == if done { n + 1 } else { i as int },
            n == chars@.len(),
            chars@ == s,
            s == mattr@,
            forall|n2: &str| lookup.requires((n2,)),
            obeys_concrete_eq::<F>(),
            start == old(features)@,
            lookups_answer(lookup, mattr_names(s, 0), looked),
            forall|k: int| 0 <= k < looked.len() ==> #[trigger] looked[k] is Some,
            looked.len() + mattr_names(s, pos).len() == mattr_names(s, 0).len(),
            forall|k: int| 0 <= k < mattr_names(s, pos).len() ==> #[trigger] mattr_names(s, pos)[k] == mattr_names(s, 0)[looked.len() + k],
            forall|rest: Seq<Option<Seq<F>>>| #[trigger] mattr_from(s, 0, start, looked + rest, arch@) == mattr_from(s, pos, features@, rest, arch@),
        decreases n + 1 - pos,
    {
        proof {
            lemma_piece_end(s, i as int);
        }
        let mut e: usize = i;
        while e < n && chars[e] != ','
            invariant
                i <= e <= n,
                n == chars@.len(),
                chars@ == s,
                piece_end(s, e as int) == piece_end(s, i as int),
            decreases n - e,
        {
            e = e + 1;
        }
        assert(piece_end(s, e as int) == e);
        let (a0, b0) = trim_bounds(&chars, i, e);
        let a = i + a0;
        let b = i + b0;
        let ghost item = item_at(s, i as int);
        assert(chars@.subrange(a as int, b as int) == item);
        if a < b {
            let sign = chars[a];
            assert(item[0] == sign);
            if sign != '+' && sign != '-' {
                let mut msg = String::new();
                msg.append("invalid --mattr entry '");
                msg.append(mattr.substring_char(a, b));
                msg.append("' (expected '+feature' or '-feature')");
                proof {
                    assert(mattr_from(s, i as int, features@, Seq::empty(), arch@).1 == Err::<(), Seq<char>>(invalid_entry_message(item)));
                    assert(mattr_from(s, 0, start, looked + Seq::<Option<Seq<F>>>::empty(), arch@) == mattr_from(s, i as int, features@, Seq::empty(), arch@));
                    assert(looked + Seq::<Option<Seq<F>>>::empty() =~= looked);
                    assert(msg@ =~= invalid_entry_message(item));
                    assert(mattr_names(s, i as int).len() == 0);
                    assert(lookups_agree(lookup, mattr_names(s, 0), looked));
                }
                return Err(msg);
            }
            let name = mattr.substring_char(a + 1, b);
            proof {
                assert(name@ =~= item.drop_first());
                assert(mattr_names(s, i as int) == seq![item.drop_first()] + mattr_names(s, e + 1));
            }
            let toggled = lookup(name);
            let ghost res_view = opt_vec_view(toggled);
            proof {
                let old_looked = looked;
                assert(mattr_names(s, i as int)[0] == item.drop_first());
                looked = looked.push(res_view);
                assert(mattr_names(s, 0)[old_looked.len() as int] == item.drop_first());
                assert forall|k: int| 0 <= k < looked.len() implies exists|n2: &str, res: Option<Vec<F>>|
                    n2@ == mattr_names(s, 0)[k] && #[trigger] lookup.ensures((n2,), res) && opt_vec_view(res) == #[trigger] looked[k] by {
                    if k == old_looked.len() {
                        assert(lookup.ensures((name,), toggled));
                    } else {
                        assert(looked[k] == old_looked[k]);
                    }
                }
                assert forall|rest: Seq<Option<Seq<F>>>| #[trigger] mattr_from(s, 0, start, looked + rest, arch@) == mattr_from(s, i as int, features@, seq![res_view] + rest, arch@) by {
                    assert(looked + rest =~= old_looked + (seq![res_view] + rest));
                }
                assert forall|k: int| 0 <= k < mattr_names(s, e + 1).len() implies #[trigger] mattr_names(s, e + 1)[k] == mattr_names(s, 0)[looked.len() + k] by {
                    assert(mattr_names(s, e + 1)[k] == mattr_names(s, i as int)[k + 1]);
                }
                assert forall|k: int| 0 <= k < looked.len() - 1 implies #[trigger] looked[k] is Some by {
                    assert(looked[k] == old_looked[k]);
                }
                assert(looked[looked.len() - 1] == res_view);
                assert(lookups_answer(lookup, mattr_names(s, 0), looked));
            }
            match toggled {
                None => {
                    let mut msg = String::new();
                    msg.append("unknown ");
                    msg.append(arch);
                    msg.append(" feature '");
                    msg.append(name);
                    msg.append("' in --mattr");
                    proof {
                        assert(mattr_from(s, 0, start, looked + Seq::<Option<Seq<F>>>::empty(), arch@) == mattr_from(s, i as int, features@, seq![res_view] + Seq::<Option<Seq<F>>>::empty(), arch@));
                        assert(looked + Seq::<Option<Seq<F>>>::empty() =~= looked);
                        let one: Seq<Option<Seq<F>>> = seq![res_view];
                        assert(mattr_from(s, i as int, features@, one + Seq::empty(), arch@).1 == Err::<(), Seq<char>>(unknown_feature_message(arch@, item.drop_first())));
                        assert(one + Seq::<Option<Seq<F>>>::empty() =~= one);
                        assert(msg@ =~= unknown_feature_message(arch@, item.drop_first()));
                        assert(lookups_agree(lookup, mattr_names(s, 0), looked));
                    }
                    return Err(msg);
                },
                Some(list) => {
                    let ghost before = features@;
                    toggle_features(features, sign == '+', &list);
                    proof {
                        assert forall|k: int| 0 <= k < looked.len() implies #[trigger] looked[k] is Some by {
                            if k < looked.len() - 1 {
                                assert(looked[k] is Some);
                            }
                        }
                        assert forall|rest: Seq<Option<Seq<F>>>| #[trigger] mattr_from(s, 0, start, looked + rest, arch@) == mattr_from(s, e + 1, features@, rest, arch@) by {
                            assert((seq![res_view] + rest).drop_first() =~= rest);
                            assert(mattr_from(s, i as int, before, seq![res_view] + rest, arch@) == mattr_from(s, e + 1, features@, rest, arch@));
                        }
                    }
                },
            }
        } else {
            proof {
                assert forall|rest: Seq<Option<Seq<F>>>| #[trigger] mattr_from(s, 0, start, looked + rest, arch@) == mattr_from(s, e + 1, features@, rest, arch@) by {
                    assert(mattr_from(s, i as int, features@, rest, arch@) == mattr_from(s, e + 1, features@, rest, arch@));
                }
                assert(mattr_names(s, i as int) == mattr_names(s, e + 1));
            }
        }
        proof {
            pos = e + 1;
        }
        if e == n {
            done = true;
        } else {
            i = e + 1;
        }
    }
    proof {
        assert(mattr_from(s, 0, start, looked + Seq::<Option<Seq<F>>>::empty(), arch@) == mattr_from(s, pos, features@, Seq::empty(), arch@));
        assert(looked + Seq::<Option<Seq<F>>>::empty() =~= looked);
        assert(mattr_from(s, pos, features@, Seq::empty(), arch@) == (features@, Ok::<(), Seq<char>>(())));
        assert(mattr_names(s, pos).len() == 0);
        assert(lookups_agree(lookup, mattr_names(s, 0), looked));
    }
    Ok(())
}

} // verus!

verus! {

/// The block a branch op targets through its `name` attribute.
pub fn block_attr(op: &OpInstance, name: &str) -> (r: Result<BlockId, PassError>)
    ensures
        match spec_attr(op.attributes@, name@) {
            Some(AttributeValue::Block(b)) => r == Ok::<BlockId, PassError>(b),
            _ => r matches Err(PassError::InvalidRuleSet(m)) && m@ == "branch is missing its '"@ + name@ + "' target"@,
        },
{
    match find_attr(op.attributes.as_slice(), name) {
        Some(AttributeValue::Block(block)) => Ok(*block),
        _ => {
            let mut message = String::new();
            message.append("branch is missing its '");
            message.append(name);
            message.append("' target");
            proof {
                assert(message@ =~= Seq::<char>::empty() + "branch is missing its '"@ + name@ + "' target"@);
            }
            Err(PassError::InvalidRuleSet(message))
        },
    }
}

/// The string an op carries in its `name` attribute (a call's callee
/// symbol).
pub fn string_attr(op: &OpInstance, name: &str) -> (r: Result<String, PassError>)
    ensures
        match spec_attr(op.attributes@, name@) {
            Some(AttributeValue::Str(s)) => r matches Ok(t) && t@ == s@,
            _ => r matches Err(PassError::InvalidRuleSet(m)) && m@ == "call is missing its '"@ + name@ + "'"@,
        },
{
    match find_attr(op.attributes.as_slice(), name) {
        Some(AttributeValue::Str(s)) => Ok(s.clone()),
        _ => {
            let mut message = String::new();
            message.append("call is missing its '");
            message.append(name);
            message.append("'");
            proof {
                assert(message@ =~= Seq::<char>::empty() + "call is missing its '"@ + name@ + "'"@);
            }
            Err(PassError::InvalidRuleSet(message))
        },
    }
}

} // verus!
