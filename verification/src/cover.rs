//! Cover construction for instruction selection: which alternatives each
//! equivalence class of the saturated graph has (materialized from outside,
//! the root of a match, or an interior node of one), what each costs, which
//! alternatives of one match must be chosen together, and which choices of
//! a parent and a child class are compatible.
//!
//! Classes are named by number. A match binds pattern nodes (numbered in
//! their pattern) to classes; a pattern is given by each node's children.
use vstd::prelude::*;

use crate::ids::copy_vec;
use crate::isel::IselCostModel;

verus! {

/// A compiled pattern's shape: the children of each pattern node, by node
/// number.
#[derive(Debug, Clone, PartialEq, Eq)]
pub struct PatternShape {
    pub children: Vec<Vec<usize>>,
}

/// The capture symbols of a match, each bound to one class.
#[derive(Debug, Clone, PartialEq, Eq)]
pub struct CaptureBindings {
    pub entries: Vec<(u32, u32)>,
}

/// The class bound to `symbol`, by its first binding.
pub open spec fn bound_class(entries: Seq<(u32, u32)>, symbol: u32) -> Option<u32>
    decreases entries.len(),
{
    if entries.len() == 0 {
        None
    } else if entries[0].0 == symbol {
        Some(entries[0].1)
    } else {
        bound_class(entries.drop_first(), symbol)
    }
}

impl CaptureBindings {
    pub fn new() -> (r: Self)
        ensures
            r.entries@.len() == 0,
    {
        CaptureBindings { entries: Vec::new() }
    }

    /// Bind `symbol` to `class`: succeeds if the symbol is unbound (and then
    /// records the binding) or already bound to the same class.
    pub fn bind(&mut self, symbol: u32, class: u32) -> (r: bool)
        ensures
            r == (bound_class(old(self).entries@, symbol) matches Some(c) ==> c == class),
            final(self).entries@ == if bound_class(old(self).entries@, symbol) is Some {
                old(self).entries@
            } else {
                old(self).entries@.push((symbol, class))
            },
    {
        let mut k: usize = 0;
        assert(self.entries@.subrange(0, self.entries@.len() as int) =~= self.entries@);
        while k < self.entries.len()
            invariant
                k <= self.entries@.len(),
                self.entries@ == old(self).entries@,
                bound_class(self.entries@, symbol) == bound_class(self.entries@.subrange(k as int, self.entries@.len() as int), symbol),
            decreases self.entries.len() - k,
        {
            let (sym, existing) = self.entries[k];
            proof {
                let rest = self.entries@.subrange(k as int, self.entries@.len() as int);
                assert(rest.drop_first() =~= self.entries@.subrange(k + 1, self.entries@.len() as int));
            }
            if sym == symbol {
                return existing == class;
            }
            k = k + 1;
        }
        self.entries.push((symbol, class));
        true
    }
}

/// A pattern node of a match bound to a class; a boundary node is an
/// operand the match reads from outside rather than covers.
#[derive(Clone, Copy, Debug, PartialEq, Eq, Structural)]
pub struct PatternNodeBinding {
    pub pattern_node: usize,
    pub class: u32,
    pub is_boundary: bool,
}

/// Everything a match binds: its captures and its pattern nodes.
#[derive(Debug, Clone, PartialEq, Eq)]
pub struct FullMatchBindings {
    pub captures: CaptureBindings,
    pub pattern_nodes: Vec<PatternNodeBinding>,
}

/// The first binding of pattern node `node`.
pub open spec fn binding_for(bindings: Seq<PatternNodeBinding>, node: usize) -> Option<PatternNodeBinding>
    decreases bindings.len(),
{
    if bindings.len() == 0 {
        None
    } else if bindings[0].pattern_node == node {
        Some(bindings[0])
    } else {
        binding_for(bindings.drop_first(), node)
    }
}

/// The class pattern node `node` is bound to, by its first binding.
pub open spec fn class_for(bindings: Seq<PatternNodeBinding>, node: usize) -> Option<u32> {
    match binding_for(bindings, node) {
        Some(b) => Some(b.class),
        None => None,
    }
}

/// Whether pattern node `node`'s first binding is a boundary.
pub open spec fn is_boundary_node(bindings: Seq<PatternNodeBinding>, node: usize) -> bool {
    binding_for(bindings, node) matches Some(b) && b.is_boundary
}

fn binding_for_exec(bindings: &Vec<PatternNodeBinding>, node: usize) -> (r: Option<PatternNodeBinding>)
    ensures
        r == binding_for(bindings@, node),
{
    let mut k: usize = 0;
    assert(bindings@.subrange(0, bindings@.len() as int) =~= bindings@);
    while k < bindings.len()
        invariant
            k <= bindings@.len(),
            binding_for(bindings@, node) == binding_for(bindings@.subrange(k as int, bindings@.len() as int), node),
        decreases bindings.len() - k,
    {
        proof {
            let rest = bindings@.subrange(k as int, bindings@.len() as int);
            assert(rest.drop_first() =~= bindings@.subrange(k + 1, bindings@.len() as int));
        }
        if bindings[k].pattern_node == node {
            return Some(bindings[k]);
        }
        k = k + 1;
    }
    None
}

impl FullMatchBindings {
    /// The class a pattern node is bound to.
    pub fn class_for_pattern(&self, pattern_node: usize) -> (r: Option<u32>)
        ensures
            r == class_for(self.pattern_nodes@, pattern_node),
    {
        match binding_for_exec(&self.pattern_nodes, pattern_node) {
            Some(b) => Some(b.class),
            None => None,
        }
    }
}

/// A choice for one class: materialized outside any match, the root of
/// match `match_id`, or an interior node of it.
#[derive(Clone, Copy, Debug, PartialEq, Eq, Structural)]
pub enum CoverAlternative {
    External,
    Root { match_id: usize },
    Internal { match_id: usize, pattern_node: usize },
}

/// A match of a pattern rooted at a class.
#[derive(Debug, Clone, PartialEq, Eq)]
pub struct CoverMatch {
    pub pattern_index: usize,
    pub rule_index: usize,
    pub root: u32,
    pub pattern_root: usize,
    pub bindings: FullMatchBindings,
    pub cost: u64,
}

/// What a parent's choice asks of a child class: to be materialized (a
/// root or external), or to be a given interior node of the same match.
#[derive(Clone, Copy, Debug, PartialEq, Eq, Structural)]
pub enum ChildRequirement {
    Materialized,
    SameMatch { match_id: usize, pattern_node: usize },
}

/// Every match names a pattern, and every pattern node it names exists
/// there.
pub open spec fn matches_fit(patterns: Seq<PatternShape>, matches: Seq<CoverMatch>) -> bool {
    forall|i: int| 0 <= i < matches.len() ==> {
        let m = #[trigger] matches[i];
        &&& m.pattern_index < patterns.len()
        &&& m.pattern_root < patterns[m.pattern_index as int].children@.len()
        &&& forall|k: int| 0 <= k < m.bindings.pattern_nodes@.len()
            ==> (#[trigger] m.bindings.pattern_nodes@[k]).pattern_node < patterns[m.pattern_index as int].children@.len()
    }
}

/// The requirement the first child (of `kids`) bound to class `child`
/// places on it.
pub open spec fn requirement_among(kids: Seq<usize>, bindings: Seq<PatternNodeBinding>, child: u32, match_id: usize) -> Option<ChildRequirement>
    decreases kids.len(),
{
    if kids.len() == 0 {
        None
    } else if class_for(bindings, kids[0]) == Some(child) {
        if is_boundary_node(bindings, kids[0]) {
            Some(ChildRequirement::Materialized)
        } else {
            Some(ChildRequirement::SameMatch { match_id, pattern_node: kids[0] })
        }
    } else {
        requirement_among(kids.drop_first(), bindings, child, match_id)
    }
}

/// What `parent_alt` asks of class `child`: nothing for an external
/// choice; else, among the children of the parent's pattern node, the first
/// bound to `child` must be materialized if it is a boundary and otherwise
/// be that node of the same match.
pub open spec fn spec_child_requirement(patterns: Seq<PatternShape>, child: u32, parent_alt: CoverAlternative, matches: Seq<CoverMatch>) -> Option<ChildRequirement> {
    let (match_id, node) = match parent_alt {
        CoverAlternative::Root { match_id } => (match_id, matches[match_id as int].pattern_root),
        CoverAlternative::Internal { match_id, pattern_node } => (match_id, pattern_node),
        CoverAlternative::External => (0usize, 0usize),
    };
    if parent_alt is External {
        None
    } else {
        let m = matches[match_id as int];
        requirement_among(patterns[m.pattern_index as int].children@[node as int]@, m.bindings.pattern_nodes@, child, match_id)
    }
}

/// The alternative belongs to a match, with a pattern node there that
/// exists.
pub open spec fn alternative_fits(patterns: Seq<PatternShape>, alt: CoverAlternative, matches: Seq<CoverMatch>) -> bool {
    match alt {
        CoverAlternative::External => true,
        CoverAlternative::Root { match_id } => match_id < matches.len(),
        CoverAlternative::Internal { match_id, pattern_node } => match_id < matches.len()
            && pattern_node < patterns[matches[match_id as int].pattern_index as int].children@.len(),
    }
}

pub fn child_requirement(patterns: &Vec<PatternShape>, child: u32, parent_alt: &CoverAlternative, matches: &Vec<CoverMatch>) -> (r: Option<ChildRequirement>)
    requires
        matches_fit(patterns@, matches@),
        alternative_fits(patterns@, *parent_alt, matches@),
    ensures
        r == spec_child_requirement(patterns@, child, *parent_alt, matches@),
{
    let (match_id, node) = match parent_alt {
        CoverAlternative::Root { match_id } => (*match_id, matches[*match_id].pattern_root),
        CoverAlternative::Internal { match_id, pattern_node } => (*match_id, *pattern_node),
        CoverAlternative::External => {
            return None;
        },
    };
    let m = &matches[match_id];
    proof {
        assert(matches@[match_id as int] == *m);
    }
    let kids = &patterns[m.pattern_index].children[node];
    let mut k: usize = 0;
    assert(kids@.subrange(0, kids@.len() as int) =~= kids@);
    while k < kids.len()
        invariant
            k <= kids@.len(),
            spec_child_requirement(patterns@, child, *parent_alt, matches@)
                == requirement_among(kids@.subrange(k as int, kids@.len() as int), m.bindings.pattern_nodes@, child, match_id),
        decreases kids.len() - k,
    {
        proof {
            let rest = kids@.subrange(k as int, kids@.len() as int);
            assert(rest.drop_first() =~= kids@.subrange(k + 1, kids@.len() as int));
        }
        let pattern_child = kids[k];
        if m.bindings.class_for_pattern(pattern_child) == Some(child) {
            let boundary = match binding_for_exec(&m.bindings.pattern_nodes, pattern_child) {
                Some(b) => b.is_boundary,
                None => false,
            };
            return if boundary {
                Some(ChildRequirement::Materialized)
            } else {
                Some(ChildRequirement::SameMatch { match_id, pattern_node: pattern_child })
            };
        }
        k = k + 1;
    }
    None
}

/// Whether some position of `kids` holds `node`.
pub open spec fn has_child(kids: Seq<usize>, node: usize) -> bool {
    exists|i: int| 0 <= i < kids.len() && kids[i] == node
}

/// The answer of the first pattern node from `k` on that is a parent of
/// `child_node` bound to `parent`, with `child_node` bound to `child`: the
/// parent's choice must be that node of the same match.
pub open spec fn satisfies_from(shape: Seq<Vec<usize>>, k: int, bindings: Seq<PatternNodeBinding>, pattern_root: usize, parent: u32, child: u32, parent_alt: CoverAlternative, child_match: usize, child_node: usize) -> bool
    decreases shape.len() - k,
{
    if k < 0 || k >= shape.len() {
        false
    } else if has_child(shape[k]@, child_node) && class_for(bindings, k as usize) == Some(parent) && class_for(bindings, child_node) == Some(child) {
        match parent_alt {
            CoverAlternative::Root { match_id } => match_id == child_match && k == pattern_root,
            CoverAlternative::Internal { match_id, pattern_node } => match_id == child_match && pattern_node == k,
            CoverAlternative::External => false,
        }
    } else {
        satisfies_from(shape, k + 1, bindings, pattern_root, parent, child, parent_alt, child_match, child_node)
    }
}

/// Whether `parent_alt` is the choice that lets class `child` be interior
/// node `child_node` of match `child_match`.
pub open spec fn spec_parent_satisfies(patterns: Seq<PatternShape>, parent: u32, child: u32, parent_alt: CoverAlternative, child_match: usize, child_node: usize, matches: Seq<CoverMatch>) -> bool {
    let m = matches[child_match as int];
    satisfies_from(patterns[m.pattern_index as int].children@, 0, m.bindings.pattern_nodes@, m.pattern_root, parent, child, parent_alt, child_match, child_node)
}

fn contains_node(kids: &Vec<usize>, node: usize) -> (r: bool)
    ensures
        r == has_child(kids@, node),
{
    let mut k: usize = 0;
    while k < kids.len()
        invariant
            k <= kids@.len(),
            forall|i: int| 0 <= i < k ==> kids@[i] != node,
        decreases kids.len() - k,
    {
        if kids[k] == node {
            return true;
        }
        k = k + 1;
    }
    false
}

pub fn parent_satisfies_internal_child(patterns: &Vec<PatternShape>, parent: u32, child: u32, parent_alt: &CoverAlternative, child_match_id: usize, child_pattern_node: usize, matches: &Vec<CoverMatch>) -> (r: bool)
    requires
        matches_fit(patterns@, matches@),
        child_match_id < matches@.len(),
    ensures
        r == spec_parent_satisfies(patterns@, parent, child, *parent_alt, child_match_id, child_pattern_node, matches@),
{
    let m = &matches[child_match_id];
    let shape = &patterns[m.pattern_index].children;
    let mut p: usize = 0;
    while p < shape.len()
        invariant
            p <= shape@.len(),
            spec_parent_satisfies(patterns@, parent, child, *parent_alt, child_match_id, child_pattern_node, matches@)
                == satisfies_from(shape@, p as int, m.bindings.pattern_nodes@, m.pattern_root, parent, child, *parent_alt, child_match_id, child_pattern_node),
        decreases shape.len() - p,
    {
        if contains_node(&shape[p], child_pattern_node)
            && m.bindings.class_for_pattern(p) == Some(parent)
            && m.bindings.class_for_pattern(child_pattern_node) == Some(child)
        {
            return match parent_alt {
                CoverAlternative::Root { match_id } => *match_id == child_match_id && p == m.pattern_root,
                CoverAlternative::Internal { match_id, pattern_node } => *match_id == child_match_id && *pattern_node == p,
                CoverAlternative::External => false,
            };
        }
        p = p + 1;
    }
    false
}

/// Whether a parent choice and a child choice can stand together: where the
/// parent's choice asks something of the child, exactly that; else an
/// interior child needs the parent choice that makes it interior; else
/// anything goes.
pub open spec fn spec_compatible(patterns: Seq<PatternShape>, parent: u32, child: u32, parent_alt: CoverAlternative, child_alt: CoverAlternative, matches: Seq<CoverMatch>) -> bool {
    match spec_child_requirement(patterns, child, parent_alt, matches) {
        Some(ChildRequirement::Materialized) => child_alt is Root || child_alt is External,
        Some(ChildRequirement::SameMatch { match_id, pattern_node }) => child_alt == (CoverAlternative::Internal { match_id, pattern_node }),
        None => match child_alt {
            CoverAlternative::Internal { match_id, pattern_node } => spec_parent_satisfies(patterns, parent, child, parent_alt, match_id, pattern_node, matches),
            _ => true,
        },
    }
}

pub fn alternatives_compatible(patterns: &Vec<PatternShape>, parent: u32, child: u32, parent_alt: &CoverAlternative, child_alt: &CoverAlternative, matches: &Vec<CoverMatch>) -> (r: bool)
    requires
        matches_fit(patterns@, matches@),
        alternative_fits(patterns@, *parent_alt, matches@),
        alternative_fits(patterns@, *child_alt, matches@),
    ensures
        r == spec_compatible(patterns@, parent, child, *parent_alt, *child_alt, matches@),
{
    match child_requirement(patterns, child, parent_alt, matches) {
        Some(ChildRequirement::Materialized) => {
            return match child_alt {
                CoverAlternative::Root { .. } | CoverAlternative::External => true,
                _ => false,
            };
        },
        Some(ChildRequirement::SameMatch { match_id, pattern_node }) => {
            return match child_alt {
                CoverAlternative::Internal { match_id: child_match, pattern_node: child_node } => *child_match == match_id && *child_node == pattern_node,
                _ => false,
            };
        },
        None => {},
    }
    match child_alt {
        CoverAlternative::Internal { match_id, pattern_node } => parent_satisfies_internal_child(patterns, parent, child, parent_alt, *match_id, *pattern_node, matches),
        _ => true,
    }
}

/// The cost a target adds to a satisfied parent-to-child edge: only edges
/// on which the child must be materialized are priced, by the cost model.
pub fn materialization_edge_cost<C: IselCostModel>(patterns: &Vec<PatternShape>, child: u32, parent_alt: &CoverAlternative, matches: &Vec<CoverMatch>, cost_model: &C) -> (r: u64)
    requires
        matches_fit(patterns@, matches@),
        alternative_fits(patterns@, *parent_alt, matches@),
    ensures
        spec_child_requirement(patterns@, child, *parent_alt, matches@) != Some(ChildRequirement::Materialized) ==> r == 0,
        spec_child_requirement(patterns@, child, *parent_alt, matches@) == Some(ChildRequirement::Materialized)
            ==> call_ensures(C::edge_cost, (cost_model, true), r),
{
    match child_requirement(patterns, child, parent_alt, matches) {
        Some(ChildRequirement::Materialized) => {
            let price = C::edge_cost;
            price(cost_model, true)
        },
        _ => 0,
    }
}

// ------------------------------------------------------------ alternatives

/// The equivalence classes of the saturated graph: the canonical classes
/// in order, the canonical class of every class by number, and whether each
/// canonical class holds a node without children (parallel to `classes`).
#[derive(Debug, Clone, PartialEq, Eq)]
pub struct ClassGraph {
    pub classes: Vec<u32>,
    pub find: Vec<u32>,
    pub terminal: Vec<bool>,
}

/// The first position of `x` in `s` (`s.len()` when absent).
pub open spec fn position(s: Seq<u32>, x: u32) -> int
    decreases s.len(),
{
    if s.len() == 0 {
        0
    } else if s[0] == x {
        0
    } else {
        1 + position(s.drop_first(), x)
    }
}

pub proof fn lemma_position(s: Seq<u32>, x: u32)
    ensures
        0 <= position(s, x) <= s.len(),
        position(s, x) < s.len() <==> s.contains(x),
        position(s, x) < s.len() ==> s[position(s, x)] == x,
        forall|i: int| 0 <= i < position(s, x) ==> s[i] != x,
    decreases s.len(),
{
    if s.len() > 0 {
        lemma_position(s.drop_first(), x);
        if s[0] != x {
            if s.drop_first().contains(x) {
                let j = choose|j: int| 0 <= j < s.drop_first().len() && s.drop_first()[j] == x;
                assert(s[j + 1] == x);
            }
            if s.contains(x) {
                let j = choose|j: int| 0 <= j < s.len() && s[j] == x;
                assert(s.drop_first()[j - 1] == x);
            }
            assert forall|i: int| 0 <= i < position(s, x) implies s[i] != x by {
                if i > 0 {
                    assert(s[i] == s.drop_first()[i - 1]);
                }
            }
        }
    }
}

impl ClassGraph {
    /// The classes are distinct and each has its terminal flag.
    pub open spec fn well_formed(&self) -> bool {
        &&& self.terminal@.len() == self.classes@.len()
        &&& forall|i: int, j: int| 0 <= i < j < self.classes@.len() ==> self.classes@[i] != self.classes@[j]
    }

    /// Class `c` exists and its canonical class is among the classes.
    pub open spec fn knows(&self, c: u32) -> bool {
        c < self.find@.len() && self.classes@.contains(self.find@[c as int])
    }

    /// The position of class `c`'s canonical class among the classes.
    pub open spec fn spec_index(&self, c: u32) -> int {
        position(self.classes@, self.find@[c as int])
    }

    pub fn index_of(&self, c: u32) -> (r: usize)
        requires
            self.knows(c),
        ensures
            r == self.spec_index(c),
            r < self.classes@.len(),
    {
        proof {
            lemma_position(self.classes@, self.find@[c as int]);
        }
        let canonical = self.find[c as usize];
        let mut k: usize = 0;
        while k < self.classes.len()
            invariant
                k <= self.classes@.len(),
                canonical == self.find@[c as int],
                forall|i: int| 0 <= i < k ==> self.classes@[i] != canonical,
                k <= position(self.classes@, canonical),
                position(self.classes@, canonical) < self.classes@.len(),
                forall|i: int| 0 <= i < position(self.classes@, canonical) ==> self.classes@[i] != canonical,
                c < self.find@.len(),
                self.classes@[position(self.classes@, canonical)] == canonical,
            decreases self.classes.len() - k,
        {
            if self.classes[k] == canonical {
                return k;
            }
            k = k + 1;
        }
        k
    }
}

/// Every class a match names is known to the graph.
pub open spec fn matches_known(g: ClassGraph, matches: Seq<CoverMatch>) -> bool {
    forall|i: int| 0 <= i < matches.len() ==> {
        let m = #[trigger] matches[i];
        &&& g.knows(m.root)
        &&& forall|k: int| 0 <= k < m.bindings.pattern_nodes@.len() ==> g.knows((#[trigger] m.bindings.pattern_nodes@[k]).class)
    }
}

/// `alts` with `a` added to the alternatives of class position `i`.
pub open spec fn push_at(alts: Seq<Seq<CoverAlternative>>, i: int, a: CoverAlternative) -> Seq<Seq<CoverAlternative>> {
    alts.update(i, alts[i].push(a))
}

/// Each terminal class may be materialized from outside.
pub open spec fn initial_alts(g: ClassGraph) -> Seq<Seq<CoverAlternative>> {
    Seq::new(g.classes@.len(), |i: int| if g.terminal@[i] { seq![CoverAlternative::External] } else { Seq::empty() })
}

/// The interior alternatives a match's bindings add: each binding that is
/// neither a boundary nor the pattern root makes its class an interior node.
pub open spec fn interior_alts(alts: Seq<Seq<CoverAlternative>>, g: ClassGraph, bindings: Seq<PatternNodeBinding>, pattern_root: usize, match_id: usize) -> Seq<Seq<CoverAlternative>>
    decreases bindings.len(),
{
    if bindings.len() == 0 {
        alts
    } else {
        let a = interior_alts(alts, g, bindings.drop_last(), pattern_root, match_id);
        let b = bindings.last();
        if b.is_boundary || b.pattern_node == pattern_root {
            a
        } else {
            push_at(a, g.spec_index(b.class), CoverAlternative::Internal { match_id, pattern_node: b.pattern_node })
        }
    }
}

/// The alternatives after the matches: each match is a root alternative of
/// its root class, then adds its interior alternatives.
pub open spec fn match_alts(g: ClassGraph, matches: Seq<CoverMatch>) -> Seq<Seq<CoverAlternative>>
    decreases matches.len(),
{
    if matches.len() == 0 {
        initial_alts(g)
    } else {
        let id = (matches.len() - 1) as usize;
        let m = matches.last();
        let a = push_at(match_alts(g, matches.drop_last()), g.spec_index(m.root), CoverAlternative::Root { match_id: id });
        interior_alts(a, g, m.bindings.pattern_nodes@, m.pattern_root, id)
    }
}

/// The alternatives of every class: those the matches give, and a class
/// with none that is terminal or roots no operation may be materialized.
pub open spec fn spec_alternatives(g: ClassGraph, op_roots: Seq<u32>, matches: Seq<CoverMatch>) -> Seq<Seq<CoverAlternative>> {
    let a = match_alts(g, matches);
    Seq::new(a.len(), |i: int| if a[i].len() == 0 && (g.terminal@[i] || !op_roots.contains(g.classes@[i])) {
        seq![CoverAlternative::External]
    } else {
        a[i]
    })
}

/// The cost of choosing an alternative: a root pays its match's cost.
pub open spec fn alt_cost(alt: CoverAlternative, matches: Seq<CoverMatch>) -> u64 {
    match alt {
        CoverAlternative::Root { match_id } => matches[match_id as int].cost,
        _ => 0,
    }
}

/// Every alternative of every class fits the matches.
pub open spec fn alts_fit(alts: Seq<Seq<CoverAlternative>>, patterns: Seq<PatternShape>, matches: Seq<CoverMatch>) -> bool {
    forall|i: int, j: int| 0 <= i < alts.len() && 0 <= j < alts[i].len() ==> alternative_fits(patterns, #[trigger] alts[i][j], matches)
}

proof fn lemma_interior_alts(alts: Seq<Seq<CoverAlternative>>, g: ClassGraph, bindings: Seq<PatternNodeBinding>, pattern_root: usize, match_id: usize, patterns: Seq<PatternShape>, matches: Seq<CoverMatch>)
    requires
        match_id < matches.len(),
        forall|k: int| 0 <= k < bindings.len() ==> g.knows((#[trigger] bindings[k]).class)
            && bindings[k].pattern_node < patterns[matches[match_id as int].pattern_index as int].children@.len(),
        alts.len() == g.classes@.len(),
        alts_fit(alts, patterns, matches),
    ensures
        interior_alts(alts, g, bindings, pattern_root, match_id).len() == alts.len(),
        alts_fit(interior_alts(alts, g, bindings, pattern_root, match_id), patterns, matches),
    decreases bindings.len(),
{
    if bindings.len() > 0 {
        lemma_interior_alts(alts, g, bindings.drop_last(), pattern_root, match_id, patterns, matches);
        let b = bindings.last();
        assert(g.knows(bindings[bindings.len() - 1].class));
        lemma_position(g.classes@, g.find@[b.class as int]);
        let a = interior_alts(alts, g, bindings.drop_last(), pattern_root, match_id);
        if !(b.is_boundary || b.pattern_node == pattern_root) {
            let r = push_at(a, g.spec_index(b.class), CoverAlternative::Internal { match_id, pattern_node: b.pattern_node });
            assert forall|i: int, j: int| 0 <= i < r.len() && 0 <= j < r[i].len() implies alternative_fits(patterns, #[trigger] r[i][j], matches) by {
                if i == g.spec_index(b.class) && j == a[i].len() {
                } else {
                    assert(r[i][j] == a[i][j]);
                }
            }
        }
    }
}

proof fn lemma_match_alts(g: ClassGraph, patterns: Seq<PatternShape>, matches: Seq<CoverMatch>, all: Seq<CoverMatch>)
    requires
        matches.len() <= all.len(),
        all.len() <= usize::MAX,
        forall|i: int| 0 <= i < matches.len() ==> matches[i] == all[i],
        matches_fit(patterns, all),
        matches_known(g, all),
        g.well_formed(),
    ensures
        match_alts(g, matches).len() == g.classes@.len(),
        alts_fit(match_alts(g, matches), patterns, all),
    decreases matches.len(),
{
    if matches.len() > 0 {
        lemma_match_alts(g, patterns, matches.drop_last(), all);
        let id = (matches.len() - 1) as usize;
        let m = matches.last();
        assert(all[id as int] == m);
        lemma_position(g.classes@, g.find@[m.root as int]);
        let prev = match_alts(g, matches.drop_last());
        let a = push_at(prev, g.spec_index(m.root), CoverAlternative::Root { match_id: id });
        assert forall|i: int, j: int| 0 <= i < a.len() && 0 <= j < a[i].len() implies alternative_fits(patterns, #[trigger] a[i][j], all) by {
            if i == g.spec_index(m.root) && j == prev[i].len() {
            } else {
                assert(a[i][j] == prev[i][j]);
            }
        }
        lemma_interior_alts(a, g, m.bindings.pattern_nodes@, m.pattern_root, id, patterns, all);
    } else {
        assert(alts_fit(initial_alts(g), patterns, all));
    }
}

fn push_alt(alts: &mut Vec<Vec<CoverAlternative>>, i: usize, a: CoverAlternative)
    requires
        i < old(alts)@.len(),
    ensures
        final(alts)@.len() == old(alts)@.len(),
        alt_rows(final(alts)@) == push_at(alt_rows(old(alts)@), i as int, a),
{
    let mut row = copy_vec(&alts[i]);
    row.push(a);
    alts.set(i, row);
    proof {
        assert(alt_rows(alts@) =~= push_at(alt_rows(old(alts)@), i as int, a));
    }
}

/// The rows of a table of alternatives as mathematical values.
pub open spec fn alt_rows(alts: Seq<Vec<CoverAlternative>>) -> Seq<Seq<CoverAlternative>> {
    alts.map_values(|row: Vec<CoverAlternative>| row@)
}

fn contains_class(s: &Vec<u32>, x: u32) -> (r: bool)
    ensures
        r == s@.contains(x),
{
    let mut k: usize = 0;
    while k < s.len()
        invariant
            k <= s@.len(),
            forall|i: int| 0 <= i < k ==> s@[i] != x,
        decreases s.len() - k,
    {
        if s[k] == x {
            return true;
        }
        k = k + 1;
    }
    false
}

/// The alternatives of every class, in class order.
pub fn cover_alternatives(g: &ClassGraph, op_roots: &Vec<u32>, patterns: &Vec<PatternShape>, matches: &Vec<CoverMatch>) -> (r: Vec<Vec<CoverAlternative>>)
    requires
        g.well_formed(),
        matches_fit(patterns@, matches@),
        matches_known(*g, matches@),
    ensures
        alt_rows(r@) == spec_alternatives(*g, op_roots@, matches@),
{
    let n = g.classes.len();
    let mut alts: Vec<Vec<CoverAlternative>> = Vec::new();
    let mut i: usize = 0;
    while i < n
        invariant
            i <= n,
            n == g.classes@.len(),
            g.well_formed(),
            alt_rows(alts@) == initial_alts(*g).subrange(0, i as int),
        decreases n - i,
    {
        let mut row: Vec<CoverAlternative> = Vec::new();
        if g.terminal[i] {
            row.push(CoverAlternative::External);
        }
        assert(row@ =~= initial_alts(*g)[i as int]);
        let ghost prev = alt_rows(alts@);
        alts.push(row);
        assert(alt_rows(alts@) =~= prev.push(initial_alts(*g)[i as int]));
        assert(alt_rows(alts@) =~= initial_alts(*g).subrange(0, i + 1));
        i = i + 1;
    }
    assert(initial_alts(*g).subrange(0, n as int) =~= initial_alts(*g));
    let mut match_id: usize = 0;
    while match_id < matches.len()
        invariant
            match_id <= matches@.len(),
            g.well_formed(),
            matches_fit(patterns@, matches@),
            matches_known(*g, matches@),
            alts@.len() == g.classes@.len(),
            alt_rows(alts@) == match_alts(*g, matches@.subrange(0, match_id as int)),
        decreases matches.len() - match_id,
    {
        let m = &matches[match_id];
        proof {
            assert(matches@.subrange(0, match_id + 1).drop_last() =~= matches@.subrange(0, match_id as int));
            assert(matches@[match_id as int] == *m);
            assert(g.knows(m.root));
        }
        let root = g.index_of(m.root);
        push_alt(&mut alts, root, CoverAlternative::Root { match_id });
        let ghost start = alt_rows(alts@);
        let bs = &m.bindings.pattern_nodes;
        let mut k: usize = 0;
        while k < bs.len()
            invariant
                k <= bs@.len(),
                g.well_formed(),
                forall|j: int| 0 <= j < bs@.len() ==> g.knows((#[trigger] bs@[j]).class),
                alts@.len() == g.classes@.len(),
                alt_rows(alts@) == interior_alts(start, *g, bs@.subrange(0, k as int), m.pattern_root, match_id),
            decreases bs.len() - k,
        {
            proof {
                assert(bs@.subrange(0, k + 1).drop_last() =~= bs@.subrange(0, k as int));
            }
            let b = bs[k];
            if !(b.is_boundary || b.pattern_node == m.pattern_root) {
                let at = g.index_of(b.class);
                push_alt(&mut alts, at, CoverAlternative::Internal { match_id, pattern_node: b.pattern_node });
            }
            k = k + 1;
        }
        proof {
            assert(bs@.subrange(0, bs@.len() as int) =~= bs@);
        }
        match_id = match_id + 1;
    }
    assert(matches@.subrange(0, matches@.len() as int) =~= matches@);
    let ghost before = alt_rows(alts@);
    let mut i: usize = 0;
    while i < n
        invariant
            i <= n,
            n == g.classes@.len(),
            g.well_formed(),
            alts@.len() == n,
            before.len() == n,
            forall|j: int| i <= j < n ==> alts@[j]@ == before[j],
            forall|j: int| 0 <= j < i ==> alts@[j]@ == spec_alternatives(*g, op_roots@, matches@)[j],
            before == match_alts(*g, matches@),
        decreases n - i,
    {
        if alts[i].len() == 0 && (g.terminal[i] || !contains_class(op_roots, g.classes[i])) {
            let mut row: Vec<CoverAlternative> = Vec::new();
            row.push(CoverAlternative::External);
            alts.set(i, row);
        }
        i = i + 1;
    }
    assert(alt_rows(alts@) =~= spec_alternatives(*g, op_roots@, matches@));
    alts
}

// --------------------------------------------------------- costs and sets

/// The cost of each alternative of each class.
pub open spec fn spec_costs(alts: Seq<Seq<CoverAlternative>>, matches: Seq<CoverMatch>) -> Seq<Seq<u64>> {
    Seq::new(alts.len(), |i: int| alts[i].map_values(|a: CoverAlternative| alt_cost(a, matches)))
}

fn node_costs(alts: &Vec<Vec<CoverAlternative>>, matches: &Vec<CoverMatch>) -> (r: Vec<Vec<u64>>)
    requires
        forall|i: int, j: int| 0 <= i < alts@.len() && 0 <= j < alts@[i]@.len()
            ==> (#[trigger] alts@[i]@[j] matches CoverAlternative::Root { match_id } ==> match_id < matches@.len()),
    ensures
        r@.len() == alts@.len(),
        forall|i: int| 0 <= i < r@.len() ==> (#[trigger] r@[i])@ == spec_costs(alt_rows(alts@), matches@)[i],
{
    let mut out: Vec<Vec<u64>> = Vec::new();
    let mut i: usize = 0;
    while i < alts.len()
        invariant
            i <= alts@.len(),
            forall|i: int, j: int| 0 <= i < alts@.len() && 0 <= j < alts@[i]@.len()
                ==> (#[trigger] alts@[i]@[j] matches CoverAlternative::Root { match_id } ==> match_id < matches@.len()),
            out@.len() == i,
            forall|k: int| 0 <= k < i ==> (#[trigger] out@[k])@ == spec_costs(alt_rows(alts@), matches@)[k],
        decreases alts.len() - i,
    {
        let row = &alts[i];
        let mut costs: Vec<u64> = Vec::new();
        let mut j: usize = 0;
        while j < row.len()
            invariant
                j <= row@.len(),
                row == alts@[i as int],
                i < alts@.len(),
                forall|i: int, j: int| 0 <= i < alts@.len() && 0 <= j < alts@[i]@.len()
                    ==> (#[trigger] alts@[i]@[j] matches CoverAlternative::Root { match_id } ==> match_id < matches@.len()),
                costs@ =~= row@.subrange(0, j as int).map_values(|a: CoverAlternative| alt_cost(a, matches@)),
            decreases row.len() - j,
        {
            let c = match row[j] {
                CoverAlternative::Root { match_id } => {
                    assert(alts@[i as int]@[j as int] == row@[j as int]);
                    matches[match_id].cost
                },
                _ => 0,
            };
            costs.push(c);
            j = j + 1;
            assert(costs@ =~= row@.subrange(0, j as int).map_values(|a: CoverAlternative| alt_cost(a, matches@)));
        }
        assert(row@.subrange(0, row@.len() as int) =~= row@);
        out.push(costs);
        i = i + 1;
    }
    out
}

/// Whether `alt` is a choice made by match `match_id`.
pub open spec fn belongs(alt: CoverAlternative, match_id: usize) -> bool {
    match alt {
        CoverAlternative::Root { match_id: m } => m == match_id,
        CoverAlternative::Internal { match_id: m, .. } => m == match_id,
        CoverAlternative::External => false,
    }
}

/// The `(class position, alternative position)` pairs of `row` (the
/// alternatives of class position `node`) that belong to match `match_id`.
pub open spec fn row_members(row: Seq<CoverAlternative>, node: usize, match_id: usize) -> Seq<(usize, usize)>
    decreases row.len(),
{
    if row.len() == 0 {
        Seq::empty()
    } else {
        let p = row_members(row.drop_last(), node, match_id);
        if belongs(row.last(), match_id) {
            p.push((node, (row.len() - 1) as usize))
        } else {
            p
        }
    }
}

/// The alternatives of every class that belong to match `match_id`, by
/// class then by alternative.
pub open spec fn members(alts: Seq<Seq<CoverAlternative>>, match_id: usize) -> Seq<(usize, usize)>
    decreases alts.len(),
{
    if alts.len() == 0 {
        Seq::empty()
    } else {
        members(alts.drop_last(), match_id) + row_members(alts.last(), (alts.len() - 1) as usize, match_id)
    }
}

/// One set of alternatives to be chosen together per match that binds more
/// than one pattern node.
pub open spec fn coherence_sets(alts: Seq<Seq<CoverAlternative>>, matches: Seq<CoverMatch>) -> Seq<Seq<(usize, usize)>>
    decreases matches.len(),
{
    if matches.len() == 0 {
        Seq::empty()
    } else {
        let p = coherence_sets(alts, matches.drop_last());
        if matches.last().bindings.pattern_nodes@.len() > 1 {
            p.push(members(alts, (matches.len() - 1) as usize))
        } else {
            p
        }
    }
}

fn members_exec(alts: &Vec<Vec<CoverAlternative>>, match_id: usize) -> (r: Vec<(usize, usize)>)
    ensures
        r@ == members(alt_rows(alts@), match_id),
{
    let mut out: Vec<(usize, usize)> = Vec::new();
    let mut node: usize = 0;
    while node < alts.len()
        invariant
            node <= alts@.len(),
            out@ == members(alt_rows(alts@.subrange(0, node as int)), match_id),
        decreases alts.len() - node,
    {
        proof {
            assert(alt_rows(alts@.subrange(0, node + 1)).drop_last() =~= alt_rows(alts@.subrange(0, node as int)));
        }
        let row = &alts[node];
        let ghost base = out@;
        let mut j: usize = 0;
        while j < row.len()
            invariant
                j <= row@.len(),
                out@ == base + row_members(row@.subrange(0, j as int), node, match_id),
            decreases row.len() - j,
        {
            proof {
                assert(row@.subrange(0, j + 1).drop_last() =~= row@.subrange(0, j as int));
            }
            let here = match row[j] {
                CoverAlternative::Root { match_id: m } => m == match_id,
                CoverAlternative::Internal { match_id: m, .. } => m == match_id,
                CoverAlternative::External => false,
            };
            if here {
                out.push((node, j));
            }
            j = j + 1;
            assert(out@ =~= base + row_members(row@.subrange(0, j as int), node, match_id));
        }
        assert(row@.subrange(0, row@.len() as int) =~= row@);
        node = node + 1;
    }
    assert(alts@.subrange(0, alts@.len() as int) =~= alts@);
    out
}

// ------------------------------------------------------------------ edges

/// The class-position pairs of the pattern edges from a node bound to
/// `parent_class` to its children `kids` that are bound, skipping pairs
/// within one class.
pub open spec fn kid_pairs(g: ClassGraph, bindings: Seq<PatternNodeBinding>, parent_class: u32, kids: Seq<usize>) -> Seq<(usize, usize)>
    decreases kids.len(),
{
    if kids.len() == 0 {
        Seq::empty()
    } else {
        let p = kid_pairs(g, bindings, parent_class, kids.drop_last());
        match class_for(bindings, kids.last()) {
            Some(cc) => {
                let pi = g.spec_index(parent_class);
                let ci = g.spec_index(cc);
                if pi != ci { p.push((pi as usize, ci as usize)) } else { p }
            },
            None => p,
        }
    }
}

/// The pairs of a match's pattern edges, pattern node by pattern node.
pub open spec fn node_pairs(g: ClassGraph, bindings: Seq<PatternNodeBinding>, shape: Seq<Vec<usize>>) -> Seq<(usize, usize)>
    decreases shape.len(),
{
    if shape.len() == 0 {
        Seq::empty()
    } else {
        node_pairs(g, bindings, shape.drop_last()) + match class_for(bindings, (shape.len() - 1) as usize) {
            Some(pc) => kid_pairs(g, bindings, pc, shape.last()@),
            None => Seq::empty(),
        }
    }
}

/// The pairs of every match's pattern edges, match by match.
pub open spec fn match_pairs(g: ClassGraph, patterns: Seq<PatternShape>, matches: Seq<CoverMatch>) -> Seq<(usize, usize)>
    decreases matches.len(),
{
    if matches.len() == 0 {
        Seq::empty()
    } else {
        let m = matches.last();
        match_pairs(g, patterns, matches.drop_last()) + node_pairs(g, m.bindings.pattern_nodes@, patterns[m.pattern_index as int].children@)
    }
}

/// `s` with every repeat of an earlier pair left out.
pub open spec fn dedup(s: Seq<(usize, usize)>) -> Seq<(usize, usize)>
    decreases s.len(),
{
    if s.len() == 0 {
        Seq::empty()
    } else {
        let d = dedup(s.drop_last());
        if d.contains(s.last()) { d } else { d.push(s.last()) }
    }
}

fn push_new_pair(pairs: &mut Vec<(usize, usize)>, x: (usize, usize))
    ensures
        final(pairs)@ == if old(pairs)@.contains(x) { old(pairs)@ } else { old(pairs)@.push(x) },
{
    let mut k: usize = 0;
    while k < pairs.len()
        invariant
            k <= pairs@.len(),
            pairs@ == old(pairs)@,
            forall|i: int| 0 <= i < k ==> pairs@[i] != x,
        decreases pairs.len() - k,
    {
        if pairs[k].0 == x.0 && pairs[k].1 == x.1 {
            return;
        }
        k = k + 1;
    }
    pairs.push(x);
}

/// The distinct class-position pairs that some match's pattern links, in
/// order of first appearance.
pub fn edge_pairs(g: &ClassGraph, patterns: &Vec<PatternShape>, matches: &Vec<CoverMatch>) -> (r: Vec<(usize, usize)>)
    requires
        g.well_formed(),
        matches_fit(patterns@, matches@),
        matches_known(*g, matches@),
    ensures
        r@ == dedup(match_pairs(*g, patterns@, matches@)),
{
    let mut pairs: Vec<(usize, usize)> = Vec::new();
    let ghost mut cands: Seq<(usize, usize)> = Seq::empty();
    let mut i: usize = 0;
    while i < matches.len()
        invariant
            i <= matches@.len(),
            g.well_formed(),
            matches_fit(patterns@, matches@),
            matches_known(*g, matches@),
            cands == match_pairs(*g, patterns@, matches@.subrange(0, i as int)),
            pairs@ == dedup(cands),
        decreases matches.len() - i,
    {
        proof {
            assert(matches@.subrange(0, i + 1).drop_last() =~= matches@.subrange(0, i as int));
        }
        let m = &matches[i];
        proof {
            assert(matches@[i as int] == *m);
        }
        let shape = &patterns[m.pattern_index].children;
        let ghost before = cands;
        let mut pp: usize = 0;
        while pp < shape.len()
            invariant
                pp <= shape@.len(),
                g.well_formed(),
                forall|k: int| 0 <= k < m.bindings.pattern_nodes@.len() ==> g.knows((#[trigger] m.bindings.pattern_nodes@[k]).class),
                cands == before + node_pairs(*g, m.bindings.pattern_nodes@, shape@.subrange(0, pp as int)),
                pairs@ == dedup(cands),
            decreases shape.len() - pp,
        {
            proof {
                assert(shape@.subrange(0, pp + 1).drop_last() =~= shape@.subrange(0, pp as int));
            }
            let ghost mid = cands;
            match m.bindings.class_for_pattern(pp) {
                Some(pc) => {
                    proof {
                        let b = binding_for(m.bindings.pattern_nodes@, pp);
                        lemma_binding_for_in(m.bindings.pattern_nodes@, pp);
                    }
                    let kids = &shape[pp];
                    let mut k: usize = 0;
                    while k < kids.len()
                        invariant
                            k <= kids@.len(),
                            g.well_formed(),
                            g.knows(pc),
                            forall|j: int| 0 <= j < m.bindings.pattern_nodes@.len() ==> g.knows((#[trigger] m.bindings.pattern_nodes@[j]).class),
                            cands == mid + kid_pairs(*g, m.bindings.pattern_nodes@, pc, kids@.subrange(0, k as int)),
                            pairs@ == dedup(cands),
                        decreases kids.len() - k,
                    {
                        proof {
                            assert(kids@.subrange(0, k + 1).drop_last() =~= kids@.subrange(0, k as int));
                        }
                        match m.bindings.class_for_pattern(kids[k]) {
                            Some(cc) => {
                                proof {
                                    lemma_binding_for_in(m.bindings.pattern_nodes@, kids@[k as int]);
                                }
                                let pi = g.index_of(pc);
                                let ci = g.index_of(cc);
                                if pi != ci {
                                    push_new_pair(&mut pairs, (pi, ci));
                                    proof {
                                        let old_c = cands;
                                        cands = cands.push((pi, ci));
                                        assert(cands.drop_last() =~= old_c);
                                        assert((mid + kid_pairs(*g, m.bindings.pattern_nodes@, pc, kids@.subrange(0, k as int))).push((pi, ci))
                                            =~= mid + kid_pairs(*g, m.bindings.pattern_nodes@, pc, kids@.subrange(0, k + 1)));
                                    }
                                } else {
                                    assert(kid_pairs(*g, m.bindings.pattern_nodes@, pc, kids@.subrange(0, k + 1)) == kid_pairs(*g, m.bindings.pattern_nodes@, pc, kids@.subrange(0, k as int)));
                                }
                            },
                            None => {},
                        }
                        k = k + 1;
                    }
                    proof {
                        assert(kids@.subrange(0, kids@.len() as int) =~= kids@);
                        assert(cands =~= before + node_pairs(*g, m.bindings.pattern_nodes@, shape@.subrange(0, pp + 1)));
                    }
                },
                None => {
                    proof {
                        assert(cands =~= before + node_pairs(*g, m.bindings.pattern_nodes@, shape@.subrange(0, pp + 1)));
                    }
                },
            }
            pp = pp + 1;
        }
        proof {
            assert(shape@.subrange(0, shape@.len() as int) =~= shape@);
            assert(cands =~= match_pairs(*g, patterns@, matches@.subrange(0, i + 1)));
        }
        i = i + 1;
    }
    proof {
        assert(matches@.subrange(0, matches@.len() as int) =~= matches@);
    }
    pairs
}

proof fn lemma_binding_for_in(bindings: Seq<PatternNodeBinding>, node: usize)
    ensures
        binding_for(bindings, node) matches Some(b) ==> exists|k: int| 0 <= k < bindings.len() && bindings[k] == b,
    decreases bindings.len(),
{
    if bindings.len() > 0 && bindings[0].pattern_node != node {
        lemma_binding_for_in(bindings.drop_first(), node);
        if let Some(b) = binding_for(bindings, node) {
            let k = choose|k: int| 0 <= k < bindings.drop_first().len() && bindings.drop_first()[k] == b;
            assert(bindings[k + 1] == b);
        }
    } else if bindings.len() > 0 {
        assert(bindings[0] == bindings[0]);
    }
}

// ---------------------------------------------------------------- problem

/// The cost of a pair of choices on an edge: finite, or infinite for an
/// incompatible pair.
#[derive(Clone, Copy, Debug, PartialEq, Eq, Structural)]
pub enum EdgeCost {
    Finite(u64),
    Infinite,
}

/// An edge between two class positions, with the cost of each pair of
/// their alternatives (rows: the parent's, columns: the child's).
#[derive(Debug, Clone, PartialEq, Eq)]
pub struct CoverEdge {
    pub parent: usize,
    pub child: usize,
    pub matrix: Vec<Vec<EdgeCost>>,
}

/// The cover problem: the alternatives of every class (a node each), their
/// costs, the sets of alternatives to be chosen together, and the edges.
#[derive(Debug, Clone, PartialEq, Eq)]
pub struct CoverProblem {
    pub alternatives: Vec<Vec<CoverAlternative>>,
    pub costs: Vec<Vec<u64>>,
    pub coherence: Vec<Vec<(usize, usize)>>,
    pub edges: Vec<CoverEdge>,
}

/// The cost of a pair of choices: infinite unless compatible, and then
/// what `edge_cost` gives for the parent's class, the child's class and the
/// parent's choice.
pub open spec fn entry_ok<F: Fn(u32, u32, &CoverAlternative) -> u64>(e: EdgeCost, patterns: Seq<PatternShape>, matches: Seq<CoverMatch>, pc: u32, cc: u32, pa: CoverAlternative, ca: CoverAlternative, edge_cost: F) -> bool {
    if spec_compatible(patterns, pc, cc, pa, ca, matches) {
        e matches EdgeCost::Finite(c) && edge_cost.ensures((pc, cc, &pa), c)
    } else {
        e == EdgeCost::Infinite
    }
}

/// The matrix of an edge between class positions `pi` and `ci`.
pub open spec fn matrix_ok<F: Fn(u32, u32, &CoverAlternative) -> u64>(matrix: Seq<Vec<EdgeCost>>, patterns: Seq<PatternShape>, g: ClassGraph, matches: Seq<CoverMatch>, alts: Seq<Seq<CoverAlternative>>, pi: int, ci: int, edge_cost: F) -> bool {
    &&& matrix.len() == alts[pi].len()
    &&& forall|a: int| 0 <= a < matrix.len() ==> (#[trigger] matrix[a])@.len() == alts[ci].len()
    &&& forall|a: int, b: int| 0 <= a < matrix.len() && 0 <= b < alts[ci].len()
        ==> entry_ok(#[trigger] matrix[a]@[b], patterns, matches, g.classes@[pi], g.classes@[ci], alts[pi][a], alts[ci][b], edge_cost)
}

fn edge_matrix<F: Fn(u32, u32, &CoverAlternative) -> u64>(
    g: &ClassGraph,
    patterns: &Vec<PatternShape>,
    matches: &Vec<CoverMatch>,
    alts: &Vec<Vec<CoverAlternative>>,
    pi: usize,
    ci: usize,
    edge_cost: &F,
) -> (r: Vec<Vec<EdgeCost>>)
    requires
        matches_fit(patterns@, matches@),
        alts_fit(alt_rows(alts@), patterns@, matches@),
        alts@.len() == g.classes@.len(),
        pi < alts@.len(),
        ci < alts@.len(),
        forall|p: u32, c: u32, a: CoverAlternative| edge_cost.requires((p, c, &a)),
    ensures
        matrix_ok(r@, patterns@, *g, matches@, alt_rows(alts@), pi as int, ci as int, *edge_cost),
{
    let parent_class = g.classes[pi];
    let child_class = g.classes[ci];
    let parent_alts = &alts[pi];
    let child_alts = &alts[ci];
    let mut matrix: Vec<Vec<EdgeCost>> = Vec::new();
    let mut a: usize = 0;
    while a < parent_alts.len()
        invariant
            a <= parent_alts@.len(),
            parent_alts == alts@[pi as int],
            child_alts == alts@[ci as int],
            parent_class == g.classes@[pi as int],
            child_class == g.classes@[ci as int],
            matches_fit(patterns@, matches@),
            alts_fit(alt_rows(alts@), patterns@, matches@),
            pi < alts@.len(),
            ci < alts@.len(),
            forall|p: u32, c: u32, x: CoverAlternative| edge_cost.requires((p, c, &x)),
            matrix@.len() == a,
            forall|x: int| 0 <= x < a ==> (#[trigger] matrix@[x])@.len() == child_alts@.len(),
            forall|x: int, y: int| 0 <= x < a && 0 <= y < child_alts@.len()
                ==> entry_ok(#[trigger] matrix@[x]@[y], patterns@, matches@, parent_class, child_class, parent_alts@[x], child_alts@[y], *edge_cost),
        decreases parent_alts.len() - a,
    {
        let parent_alt = &parent_alts[a];
        proof {
            assert(alt_rows(alts@)[pi as int][a as int] == parent_alts@[a as int]);
        }
        let mut row: Vec<EdgeCost> = Vec::new();
        let mut b: usize = 0;
        while b < child_alts.len()
            invariant
                b <= child_alts@.len(),
                a < parent_alts@.len(),
                *parent_alt == parent_alts@[a as int],
                parent_alts == alts@[pi as int],
                child_alts == alts@[ci as int],
                matches_fit(patterns@, matches@),
                alts_fit(alt_rows(alts@), patterns@, matches@),
                alternative_fits(patterns@, *parent_alt, matches@),
                pi < alts@.len(),
                ci < alts@.len(),
                forall|p: u32, c: u32, x: CoverAlternative| edge_cost.requires((p, c, &x)),
                row@.len() == b,
                forall|y: int| 0 <= y < b ==> entry_ok(#[trigger] row@[y], patterns@, matches@, parent_class, child_class, *parent_alt, child_alts@[y], *edge_cost),
            decreases child_alts.len() - b,
        {
            proof {
                assert(alt_rows(alts@)[ci as int][b as int] == child_alts@[b as int]);
            }
            let child_alt = &child_alts[b];
            let e = if !alternatives_compatible(patterns, parent_class, child_class, parent_alt, child_alt, matches) {
                EdgeCost::Infinite
            } else {
                let cost = edge_cost(parent_class, child_class, parent_alt);
                EdgeCost::Finite(cost)
            };
            row.push(e);
            b = b + 1;
        }
        matrix.push(row);
        a = a + 1;
    }
    proof {
        assert forall|x: int| 0 <= x < matrix@.len() implies (#[trigger] matrix@[x])@.len() == alt_rows(alts@)[ci as int].len() by {}
    }
    matrix
}

/// Build the cover problem: the alternatives of every class, their costs,
/// a coherence set per match binding more than one pattern node, and an
/// edge per distinct pair of classes some pattern links, priced by
/// compatibility and `edge_cost`. There is none when some class has no
/// alternative.
pub fn build_cover_problem<F: Fn(u32, u32, &CoverAlternative) -> u64>(
    g: &ClassGraph,
    op_roots: &Vec<u32>,
    patterns: &Vec<PatternShape>,
    matches: &Vec<CoverMatch>,
    edge_cost: F,
) -> (r: Option<CoverProblem>)
    requires
        g.well_formed(),
        matches_fit(patterns@, matches@),
        matches_known(*g, matches@),
        forall|p: u32, c: u32, a: CoverAlternative| edge_cost.requires((p, c, &a)),
    ensures
        r is None <==> exists|i: int| 0 <= i < spec_alternatives(*g, op_roots@, matches@).len()
            && (#[trigger] spec_alternatives(*g, op_roots@, matches@)[i]).len() == 0,
        r matches Some(p) ==> {
            let alts = spec_alternatives(*g, op_roots@, matches@);
            &&& alt_rows(p.alternatives@) == alts
            &&& p.costs@.len() == alts.len()
            &&& forall|i: int| 0 <= i < alts.len() ==> (#[trigger] p.costs@[i])@ == spec_costs(alts, matches@)[i]
            &&& p.coherence@.map_values(|c: Vec<(usize, usize)>| c@) == coherence_sets(alts, matches@)
            &&& p.edges@.map_values(|e: CoverEdge| (e.parent, e.child)) == dedup(match_pairs(*g, patterns@, matches@))
            &&& forall|k: int| 0 <= k < p.edges@.len() ==> matrix_ok((#[trigger] p.edges@[k]).matrix@, patterns@, *g, matches@, alts, p.edges@[k].parent as int, p.edges@[k].child as int, edge_cost)
        },
{
    let alts = cover_alternatives(g, op_roots, patterns, matches);
    let match_count = matches.len();
    proof {
        lemma_match_alts(*g, patterns@, matches@, matches@);
        let a = match_alts(*g, matches@);
        assert(alt_rows(alts@).len() == alts@.len());
        assert(alts@.len() == g.classes@.len());
        assert(alts_fit(alt_rows(alts@), patterns@, matches@)) by {
            assert forall|i: int, j: int| 0 <= i < alt_rows(alts@).len() && 0 <= j < alt_rows(alts@)[i].len()
                implies alternative_fits(patterns@, #[trigger] alt_rows(alts@)[i][j], matches@) by {
                if a[i].len() == 0 && (g.terminal@[i] || !op_roots@.contains(g.classes@[i])) {
                } else {
                    assert(alt_rows(alts@)[i][j] == a[i][j]);
                }
            }
        }
    }
    let mut i: usize = 0;
    while i < alts.len()
        invariant
            i <= alts@.len(),
            alt_rows(alts@) == spec_alternatives(*g, op_roots@, matches@),
            forall|j: int| 0 <= j < i ==> (#[trigger] alts@[j])@.len() > 0,
        decreases alts.len() - i,
    {
        if alts[i].len() == 0 {
            proof {
                assert(spec_alternatives(*g, op_roots@, matches@)[i as int].len() == 0);
            }
            return None;
        }
        i = i + 1;
    }
    proof {
        assert forall|j: int| 0 <= j < spec_alternatives(*g, op_roots@, matches@).len() implies (#[trigger] spec_alternatives(*g, op_roots@, matches@)[j]).len() != 0 by {
            assert(alt_rows(alts@)[j] == alts@[j]@);
        }
    }
    proof {
        assert forall|i: int, j: int| 0 <= i < alts@.len() && 0 <= j < alts@[i]@.len()
            implies (#[trigger] alts@[i]@[j] matches CoverAlternative::Root { match_id } ==> match_id < matches@.len()) by {
            assert(alternative_fits(patterns@, alt_rows(alts@)[i][j], matches@));
        }
    }
    let costs = node_costs(&alts, matches);

    let mut coherence: Vec<Vec<(usize, usize)>> = Vec::new();
    let mut match_id: usize = 0;
    while match_id < matches.len()
        invariant
            match_id <= matches@.len(),
            coherence@.map_values(|c: Vec<(usize, usize)>| c@) == coherence_sets(alt_rows(alts@), matches@.subrange(0, match_id as int)),
        decreases matches.len() - match_id,
    {
        proof {
            assert(matches@.subrange(0, match_id + 1).drop_last() =~= matches@.subrange(0, match_id as int));
        }
        let coherent = members_exec(&alts, match_id);
        if matches[match_id].bindings.pattern_nodes.len() > 1 {
            let ghost prev = coherence@;
            coherence.push(coherent);
            proof {
                assert(coherence@.map_values(|c: Vec<(usize, usize)>| c@) =~= prev.map_values(|c: Vec<(usize, usize)>| c@).push(coherent@));
            }
        }
        match_id = match_id + 1;
    }
    proof {
        assert(matches@.subrange(0, matches@.len() as int) =~= matches@);
    }

    let pairs = edge_pairs(g, patterns, matches);
    proof {
        assert forall|i: int| 0 <= i < patterns@.len() implies (#[trigger] patterns@[i]).children@.len() <= usize::MAX by {
            lemma_shape_len(&patterns@[i]);
        }
        lemma_pairs_in_range(*g, patterns@, matches@);
    }
    let mut edges: Vec<CoverEdge> = Vec::new();
    let mut k: usize = 0;
    while k < pairs.len()
        invariant
            k <= pairs@.len(),
            pairs@ == dedup(match_pairs(*g, patterns@, matches@)),
            pairs_below(pairs@, g.classes@.len()),
            g.well_formed(),
            matches_fit(patterns@, matches@),
            alts_fit(alt_rows(alts@), patterns@, matches@),
            alts@.len() == g.classes@.len(),
            alt_rows(alts@) == spec_alternatives(*g, op_roots@, matches@),
            forall|p: u32, c: u32, a: CoverAlternative| edge_cost.requires((p, c, &a)),
            edges@.len() == k,
            forall|j: int| 0 <= j < k ==> (#[trigger] edges@[j]).parent == pairs@[j].0 && edges@[j].child == pairs@[j].1,
            forall|j: int| 0 <= j < k ==> matrix_ok((#[trigger] edges@[j]).matrix@, patterns@, *g, matches@, alt_rows(alts@), edges@[j].parent as int, edges@[j].child as int, edge_cost),
        decreases pairs.len() - k,
    {
        let (pi, ci) = pairs[k];
        proof {
            assert(pairs@[k as int].0 < g.classes@.len());
        }
        let matrix = edge_matrix(g, patterns, matches, &alts, pi, ci, &edge_cost);
        edges.push(CoverEdge { parent: pi, child: ci, matrix });
        k = k + 1;
    }
    proof {
        assert(edges@.map_values(|e: CoverEdge| (e.parent, e.child)) =~= pairs@);
    }
    Some(CoverProblem { alternatives: alts, costs, coherence, edges })
}

/// Every pair names class positions below `n`.
pub open spec fn pairs_below(s: Seq<(usize, usize)>, n: nat) -> bool {
    forall|j: int| 0 <= j < s.len() ==> (#[trigger] s[j]).0 < n && s[j].1 < n
}

proof fn lemma_pairs_concat(a: Seq<(usize, usize)>, b: Seq<(usize, usize)>, n: nat)
    requires
        pairs_below(a, n),
        pairs_below(b, n),
    ensures
        pairs_below(a + b, n),
{
    assert forall|j: int| 0 <= j < (a + b).len() implies (#[trigger] (a + b)[j]).0 < n && (a + b)[j].1 < n by {
        if j < a.len() {
            assert((a + b)[j] == a[j]);
        } else {
            assert((a + b)[j] == b[j - a.len()]);
        }
    }
}

proof fn lemma_pairs_push(a: Seq<(usize, usize)>, x: (usize, usize), n: nat)
    requires
        pairs_below(a, n),
        x.0 < n,
        x.1 < n,
    ensures
        pairs_below(a.push(x), n),
{
    assert forall|j: int| 0 <= j < a.push(x).len() implies (#[trigger] a.push(x)[j]).0 < n && a.push(x)[j].1 < n by {
        if j < a.len() {
            assert(a.push(x)[j] == a[j]);
        }
    }
}

proof fn lemma_dedup_from(s: Seq<(usize, usize)>, n: nat)
    requires
        pairs_below(s, n),
    ensures
        pairs_below(dedup(s), n),
    decreases s.len(),
{
    if s.len() > 0 {
        assert(pairs_below(s.drop_last(), n)) by {
            assert forall|j: int| 0 <= j < s.drop_last().len() implies (#[trigger] s.drop_last()[j]).0 < n && s.drop_last()[j].1 < n by {
                assert(s.drop_last()[j] == s[j]);
            }
        }
        lemma_dedup_from(s.drop_last(), n);
        assert(s[s.len() - 1].0 < n);
        let d = dedup(s.drop_last());
        if !d.contains(s.last()) {
            lemma_pairs_push(d, s.last(), n);
        }
    }
}

proof fn lemma_kid_pairs_range(g: ClassGraph, bindings: Seq<PatternNodeBinding>, pc: u32, kids: Seq<usize>)
    requires
        g.knows(pc),
        forall|k: int| 0 <= k < bindings.len() ==> g.knows((#[trigger] bindings[k]).class),
    ensures
        pairs_below(kid_pairs(g, bindings, pc, kids), g.classes@.len()),
    decreases kids.len(),
{
    if kids.len() > 0 {
        lemma_kid_pairs_range(g, bindings, pc, kids.drop_last());
        lemma_binding_for_in(bindings, kids.last());
        lemma_position(g.classes@, g.find@[pc as int]);
        if let Some(cc) = class_for(bindings, kids.last()) {
            let b = binding_for(bindings, kids.last())->0;
            let k = choose|k: int| 0 <= k < bindings.len() && bindings[k] == b;
            assert(g.knows(bindings[k].class));
            lemma_position(g.classes@, g.find@[cc as int]);
            let pi = g.spec_index(pc);
            let ci = g.spec_index(cc);
            if pi != ci {
                lemma_pairs_push(kid_pairs(g, bindings, pc, kids.drop_last()), (pi as usize, ci as usize), g.classes@.len());
            }
        }
    }
}

proof fn lemma_node_pairs_range(g: ClassGraph, bindings: Seq<PatternNodeBinding>, shape: Seq<Vec<usize>>)
    requires
        forall|k: int| 0 <= k < bindings.len() ==> g.knows((#[trigger] bindings[k]).class),
        shape.len() <= usize::MAX,
    ensures
        pairs_below(node_pairs(g, bindings, shape), g.classes@.len()),
    decreases shape.len(),
{
    if shape.len() > 0 {
        lemma_node_pairs_range(g, bindings, shape.drop_last());
        let node = (shape.len() - 1) as usize;
        lemma_binding_for_in(bindings, node);
        let prev = node_pairs(g, bindings, shape.drop_last());
        match class_for(bindings, node) {
            Some(pc) => {
                let b = binding_for(bindings, node)->0;
                let k = choose|k: int| 0 <= k < bindings.len() && bindings[k] == b;
                assert(g.knows(bindings[k].class));
                lemma_kid_pairs_range(g, bindings, pc, shape.last()@);
                lemma_pairs_concat(prev, kid_pairs(g, bindings, pc, shape.last()@), g.classes@.len());
            },
            None => {
                lemma_pairs_concat(prev, Seq::empty(), g.classes@.len());
            },
        }
    }
}

proof fn lemma_match_pairs_range(g: ClassGraph, patterns: Seq<PatternShape>, matches: Seq<CoverMatch>)
    requires
        matches_known(g, matches),
        matches_fit(patterns, matches),
        forall|i: int| 0 <= i < patterns.len() ==> (#[trigger] patterns[i]).children@.len() <= usize::MAX,
    ensures
        pairs_below(match_pairs(g, patterns, matches), g.classes@.len()),
    decreases matches.len(),
{
    if matches.len() > 0 {
        assert(matches_known(g, matches.drop_last()) && matches_fit(patterns, matches.drop_last())) by {
            assert forall|i: int| 0 <= i < matches.drop_last().len() implies #[trigger] matches.drop_last()[i] == matches[i] by {}
        }
        lemma_match_pairs_range(g, patterns, matches.drop_last());
        let m = matches.last();
        assert(matches[matches.len() - 1] == m);
        assert(patterns[m.pattern_index as int].children@.len() <= usize::MAX);
        lemma_node_pairs_range(g, m.bindings.pattern_nodes@, patterns[m.pattern_index as int].children@);
        lemma_pairs_concat(match_pairs(g, patterns, matches.drop_last()), node_pairs(g, m.bindings.pattern_nodes@, patterns[m.pattern_index as int].children@), g.classes@.len());
    }
}

proof fn lemma_pairs_in_range(g: ClassGraph, patterns: Seq<PatternShape>, matches: Seq<CoverMatch>)
    requires
        matches_known(g, matches),
        matches_fit(patterns, matches),
        forall|i: int| 0 <= i < patterns.len() ==> (#[trigger] patterns[i]).children@.len() <= usize::MAX,
    ensures
        pairs_below(dedup(match_pairs(g, patterns, matches)), g.classes@.len()),
{
    lemma_match_pairs_range(g, patterns, matches);
    lemma_dedup_from(match_pairs(g, patterns, matches), g.classes@.len());
}

proof fn lemma_shape_len(p: &PatternShape)
    ensures
        p.children@.len() <= usize::MAX,
{
    vstd::std_specs::vec::axiom_spec_len(&p.children);
}

/// A solved cover: the chosen alternative of every class and the class
/// each choice stands for (same position).
#[derive(Debug, Clone, PartialEq, Eq)]
pub struct DagCover {
    pub choices: Vec<CoverAlternative>,
    pub classes: Vec<u32>,
}

/// The cover a solution picks: for each class, its alternative at the
/// chosen position.
pub fn cover_from_choices(g: &ClassGraph, problem: &CoverProblem, choices: &Vec<usize>) -> (r: DagCover)
    requires
        choices@.len() == problem.alternatives@.len(),
        forall|i: int| 0 <= i < choices@.len() ==> (#[trigger] choices@[i]) < problem.alternatives@[i]@.len(),
    ensures
        r.choices@.len() == choices@.len(),
        forall|i: int| 0 <= i < choices@.len() ==> (#[trigger] r.choices@[i]) == problem.alternatives@[i]@[choices@[i] as int],
        r.classes@ == g.classes@,
{
    let mut out: Vec<CoverAlternative> = Vec::new();
    let mut i: usize = 0;
    while i < choices.len()
        invariant
            i <= choices@.len(),
            choices@.len() == problem.alternatives@.len(),
            forall|i: int| 0 <= i < choices@.len() ==> (#[trigger] choices@[i]) < problem.alternatives@[i]@.len(),
            out@.len() == i,
            forall|j: int| 0 <= j < i ==> (#[trigger] out@[j]) == problem.alternatives@[j]@[choices@[j] as int],
        decreases choices.len() - i,
    {
        out.push(problem.alternatives[i][choices[i]]);
        i = i + 1;
    }
    DagCover { choices: out, classes: copy_vec(&g.classes) }
}

} // verus!

