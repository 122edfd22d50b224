//! Data dependence graph over a single machine-IR block.
//!
//! In physical-register form an instruction's register operands live in op
//! attributes, not SSA operands, so there are no def-use chains to follow:
//! data flow is reconstructed by scanning instructions in program order and
//! tracking, per register, which instruction last wrote it. Three kinds of
//! register dependency are recorded: read-after-write (carrying the
//! producer's latency), write-after-read and write-after-write (ordering
//! only). Every edge points from a later, dependent instruction to the
//! earlier instruction it depends on.
use vstd::prelude::*;

use crate::ids::OpId;
use crate::text::str_eq;

verus! {

/// The kind of register dependency between two instructions.
#[derive(Clone, Copy, Debug, PartialEq, Eq, Hash, Structural)]
pub enum DepKind {
    /// Read-after-write (true dependency); carries the producer's latency.
    Raw,
    /// Write-after-read (anti dependency); ordering only.
    War,
    /// Write-after-write (output dependency); ordering only.
    Waw,
}

impl DepKind {
    pub fn as_str(self) -> (r: &'static str)
        ensures
            r@ == match self {
                DepKind::Raw => "raw"@,
                DepKind::War => "war"@,
                DepKind::Waw => "waw"@,
            },
    {
        match self {
            DepKind::Raw => "raw",
            DepKind::War => "war",
            DepKind::Waw => "waw",
        }
    }
}

/// The register that ties two instructions together. Physical registers
/// carry their class and encoding index; virtual ids only survive on the few
/// ops that name registers positionally.
#[derive(Clone, Debug, PartialEq, Eq, Hash)]
pub enum RegKey {
    Physical { class: String, index: u16 },
    Virtual(u32),
}

/// A register key as a mathematical value.
pub enum RegKeyView {
    Physical(Seq<char>, u16),
    Virtual(u32),
}

impl View for RegKey {
    type V = RegKeyView;

    open spec fn view(&self) -> RegKeyView {
        match self {
            RegKey::Physical { class, index } => RegKeyView::Physical(class@, *index),
            RegKey::Virtual(id) => RegKeyView::Virtual(*id),
        }
    }
}

impl RegKey {
    /// A copy of the key.
    pub fn duplicate(&self) -> (r: RegKey)
        ensures
            r@ == self@,
    {
        match self {
            RegKey::Physical { class, index } => RegKey::Physical { class: class.clone(), index: *index },
            RegKey::Virtual(id) => RegKey::Virtual(*id),
        }
    }

    /// Whether two keys name the same register.
    pub fn same(&self, other: &RegKey) -> (r: bool)
        ensures
            r == (self@ == other@),
    {
        match (self, other) {
            (RegKey::Physical { class: a, index: i }, RegKey::Physical { class: b, index: j }) => {
                *i == *j && str_eq(a.as_str(), b.as_str())
            },
            (RegKey::Virtual(a), RegKey::Virtual(b)) => *a == *b,
            _ => false,
        }
    }
}

/// The registers one instruction reads and writes, in operand order.
pub struct InstrRegs {
    pub op: OpId,
    pub uses: Vec<RegKey>,
    pub defs: Vec<RegKey>,
}

/// One dependency edge: `from` (the later, dependent instruction) must
/// observe the effect of `on` (the earlier instruction) on register `reg`.
#[derive(Clone, Debug)]
pub struct DepEdge {
    pub from: usize,
    pub on: usize,
    pub kind: DepKind,
    pub reg: RegKey,
    /// Producer-to-consumer latency in cycles. Non-zero only for `Raw`.
    pub latency: u16,
}

/// The data dependence graph of one block: the instructions, in program
/// order, and the register dependency edges between them.
pub struct Ddg {
    pub ops: Vec<OpId>,
    pub edges: Vec<DepEdge>,
}

/// Every edge of a dependence graph points from a later instruction back to
/// an earlier one (so the graph is acyclic in program order), and only
/// read-after-write edges carry a latency.
pub proof fn lemma_ddg_edges_point_back(ops: Seq<InstrRegs>, latencies: Seq<u16>, edges: Seq<DepEdge>)
    requires
        is_ddg_edges(ops, latencies, edges),
    ensures
        forall|a: int| 0 <= a < edges.len() ==> (#[trigger] edges[a]).on < edges[a].from,
        forall|a: int| 0 <= a < edges.len() && (#[trigger] edges[a]).kind != DepKind::Raw ==> edges[a].latency == 0,
{
    assert forall|a: int| 0 <= a < edges.len() implies (#[trigger] edges[a]).on < edges[a].from by {
        lemma_last_def_before(ops, edges[a].from as int, edges[a].reg@);
    }
}

/// The dependencies of `node` among `edges`, in order.
pub open spec fn deps_of(edges: Seq<DepEdge>, node: usize) -> Seq<DepEdge> {
    edges.filter(|e: DepEdge| e.from == node)
}

impl Ddg {
    /// The number of instructions.
    pub fn len(&self) -> (r: usize)
        ensures
            r == self.ops@.len(),
    {
        self.ops.len()
    }

    pub fn is_empty(&self) -> (r: bool)
        ensures
            r == (self.ops@.len() == 0),
    {
        self.ops.len() == 0
    }

    /// The instruction at `node`.
    pub fn op(&self, node: usize) -> (r: OpId)
        requires
            node < self.ops@.len(),
        ensures
            r == self.ops@[node as int],
    {
        self.ops[node]
    }

    /// All dependency edges, in the order they were discovered.
    pub fn edges(&self) -> (r: &[DepEdge])
        ensures
            r@ == self.edges@,
    {
        self.edges.as_slice()
    }

    /// The dependencies of `node`: the edges from `node` to the instructions
    /// it must wait for, in discovery order.
    pub fn deps(&self, node: usize) -> (r: Vec<&DepEdge>)
        ensures
            r@.map_values(|e: &DepEdge| *e) == deps_of(self.edges@, node),
    {
        let mut out: Vec<&DepEdge> = Vec::new();
        let mut a: usize = 0;
        while a < self.edges.len()
            invariant
                a <= self.edges@.len(),
                out@.map_values(|e: &DepEdge| *e) == deps_of(self.edges@.subrange(0, a as int), node),
            decreases self.edges.len() - a,
        {
            let ghost pre = self.edges@.subrange(0, a as int);
            let ghost next = self.edges@.subrange(0, a + 1);
            proof {
                assert(next.drop_last() =~= pre);
                assert(next.last() == self.edges@[a as int]);
                reveal(Seq::filter);
            }
            let ghost out0 = out@;
            if self.edges[a].from == node {
                out.push(&self.edges[a]);
                assert(out@.map_values(|e: &DepEdge| *e) =~= out0.map_values(|e: &DepEdge| *e).push(self.edges@[a as int]));
            }
            a = a + 1;
        }
        assert(self.edges@.subrange(0, self.edges@.len() as int) =~= self.edges@);
        out
    }
}

/// The final dot-separated component of `name`, from just after the last
/// `.` (or all of `name` when there is none).
pub open spec fn last_dot_before(name: Seq<char>, n: int) -> Option<int>
    decreases n,
{
    if n <= 0 {
        None
    } else if name[n - 1] == '.' {
        Some(n - 1)
    } else {
        last_dot_before(name, n - 1)
    }
}

pub open spec fn spec_sched_key(name: Seq<char>) -> Seq<char> {
    match last_dot_before(name, name.len() as int) {
        Some(p) => name.subrange(p + 1, name.len() as int),
        None => name,
    }
}

/// The scheduling-table key for an op: its mnemonic, stripped of any
/// dialect prefix (`riscv.add` gives `add`).
pub fn sched_key(name: &str) -> (r: &str)
    ensures
        r@ == spec_sched_key(name@),
{
    let n = name.unicode_len();
    let mut k: usize = n;
    while k > 0
        invariant
            k <= n,
            n == name@.len(),
            last_dot_before(name@, n as int) == last_dot_before(name@, k as int),
        decreases k,
    {
        if name.get_char(k - 1) == '.' {
            return name.substring_char(k, n);
        }
        k = k - 1;
    }
    name
}

pub open spec fn uses_reg(ops: Seq<InstrRegs>, i: int, r: RegKeyView) -> bool {
    exists|u: int| 0 <= u < ops[i].uses@.len() && (#[trigger] ops[i].uses@[u])@ == r
}

pub open spec fn defs_reg(ops: Seq<InstrRegs>, i: int, r: RegKeyView) -> bool {
    exists|d: int| 0 <= d < ops[i].defs@.len() && (#[trigger] ops[i].defs@[d])@ == r
}

/// The last instruction before `i` that writes `r`.
pub open spec fn last_def_before(ops: Seq<InstrRegs>, i: int, r: RegKeyView) -> Option<int>
    decreases i,
{
    if i <= 0 {
        None
    } else if defs_reg(ops, i - 1, r) {
        Some(i - 1)
    } else {
        last_def_before(ops, i - 1, r)
    }
}

/// Instruction `j` read `r` and nothing from `j` up to (not including) `i`
/// wrote it since: the read `i` must not overtake if it writes `r`.
pub open spec fn reader_before(ops: Seq<InstrRegs>, i: int, j: int, r: RegKeyView) -> bool {
    &&& 0 <= j < i
    &&& uses_reg(ops, j, r)
    &&& forall|k: int| j <= k < i ==> !defs_reg(ops, k, r)
}

/// Whether instruction `from` depends on instruction `on` through register
/// `r` with a dependency of `kind`.
pub open spec fn is_dep(ops: Seq<InstrRegs>, from: int, on: int, kind: DepKind, r: RegKeyView) -> bool {
    &&& 0 <= from < ops.len()
    &&& match kind {
        DepKind::Raw => uses_reg(ops, from, r) && last_def_before(ops, from, r) == Some(on),
        DepKind::Waw => defs_reg(ops, from, r) && last_def_before(ops, from, r) == Some(on),
        DepKind::War => defs_reg(ops, from, r) && reader_before(ops, from, on, r),
    }
}

/// The latency a dependency edge carries.
pub open spec fn edge_latency(latencies: Seq<u16>, on: int, kind: DepKind) -> u16 {
    if kind == DepKind::Raw {
        latencies[on]
    } else {
        0
    }
}

/// The identity of an edge: two edges with the same identity are duplicates.
pub open spec fn edge_key(e: DepEdge) -> (usize, usize, DepKind, RegKeyView) {
    (e.from, e.on, e.kind, e.reg@)
}

/// `edges` is exactly the set of dependencies of `ops` (no two edges alike),
/// each with its latency, grouped by dependent instruction in program order.
pub open spec fn is_ddg_edges(ops: Seq<InstrRegs>, latencies: Seq<u16>, edges: Seq<DepEdge>) -> bool {
    &&& forall|a: int| 0 <= a < edges.len() ==> is_dep(ops, #[trigger] edges[a].from as int, edges[a].on as int, edges[a].kind, edges[a].reg@)
        && edges[a].latency == edge_latency(latencies, edges[a].on as int, edges[a].kind)
    &&& forall|a: int, b: int| 0 <= a < b < edges.len() ==> edge_key(#[trigger] edges[a]) != edge_key(#[trigger] edges[b])
    &&& forall|a: int, b: int| 0 <= a < b < edges.len() ==> (#[trigger] edges[a]).from <= (#[trigger] edges[b]).from
    &&& forall|f: int, o: int, k: DepKind, r: RegKeyView| #[trigger] is_dep(ops, f, o, k, r) ==> exists|a: int|
        0 <= a < edges.len() && edge_key(#[trigger] edges[a]) == (f as usize, o as usize, k, r)
}


pub open spec fn use_seen(ops: Seq<InstrRegs>, i: int, u: int, r: RegKeyView) -> bool {
    exists|x: int| 0 <= x < u && (#[trigger] ops[i].uses@[x])@ == r
}

pub open spec fn def_seen(ops: Seq<InstrRegs>, i: int, d: int, r: RegKeyView) -> bool {
    exists|x: int| 0 <= x < d && (#[trigger] ops[i].defs@[x])@ == r
}

/// The last writer of `r` once instruction `i`'s first `d` defs are done.
pub open spec fn last_def_mid(ops: Seq<InstrRegs>, i: int, d: int, r: RegKeyView) -> Option<int> {
    if def_seen(ops, i, d, r) {
        Some(i)
    } else {
        last_def_before(ops, i, r)
    }
}

/// `j` is a reader of `r` since its last write, once instruction `i`'s first
/// `u` uses and `d` defs are done.
pub open spec fn reader_mid(ops: Seq<InstrRegs>, i: int, u: int, d: int, r: RegKeyView, j: int) -> bool {
    &&& !def_seen(ops, i, d, r)
    &&& (reader_before(ops, i, j, r) || (j == i && use_seen(ops, i, u, r)))
}

/// A dependency the scan has reached once instruction `i`'s first `u` uses
/// and `d` defs are done.
pub open spec fn dep_done(ops: Seq<InstrRegs>, i: int, u: int, d: int, f: int, o: int, k: DepKind, r: RegKeyView) -> bool {
    &&& is_dep(ops, f, o, k, r)
    &&& (f < i || (f == i && if k == DepKind::Raw {
        use_seen(ops, i, u, r)
    } else {
        def_seen(ops, i, d, r)
    }))
}

pub open spec fn has_key(edges: Seq<DepEdge>, key: (usize, usize, DepKind, RegKeyView)) -> bool {
    exists|a: int| 0 <= a < edges.len() && edge_key(#[trigger] edges[a]) == key
}

pub open spec fn keys_unique(keys: Seq<RegKey>) -> bool {
    forall|a: int, b: int| 0 <= a < b < keys.len() ==> (#[trigger] keys[a])@ != (#[trigger] keys[b])@
}

/// The last-writer table matches the scan position.
pub open spec fn last_def_ok(ops: Seq<InstrRegs>, i: int, d: int, keys: Seq<RegKey>, vals: Seq<usize>) -> bool {
    &&& keys.len() == vals.len()
    &&& keys_unique(keys)
    &&& forall|e: int| 0 <= e < keys.len() ==> last_def_mid(ops, i, d, (#[trigger] keys[e])@) == Some(vals[e] as int)
    &&& forall|r: RegKeyView| #[trigger] last_def_mid(ops, i, d, r) is Some ==> exists|e: int| 0 <= e < keys.len() && (#[trigger] keys[e])@ == r
}

/// The readers table matches the scan position.
pub open spec fn readers_ok(ops: Seq<InstrRegs>, i: int, u: int, d: int, keys: Seq<RegKey>, lists: Seq<Vec<usize>>) -> bool {
    &&& keys.len() == lists.len()
    &&& keys_unique(keys)
    &&& forall|e: int, x: int| 0 <= e < keys.len() && 0 <= x < lists[e]@.len() ==> reader_mid(ops, i, u, d, keys[e]@, #[trigger] lists[e]@[x] as int)
    &&& forall|r: RegKeyView, j: int| #[trigger] reader_mid(ops, i, u, d, r, j) ==> exists|e: int| 0 <= e < keys.len() && (#[trigger] keys[e])@ == r && lists[e]@.contains(j as usize)
}

/// The edges found so far are real dependencies of instructions up to `i`,
/// each once, with its latency, grouped by dependent instruction.
spec fn edges_sound(ops: Seq<InstrRegs>, latencies: Seq<u16>, i: int, edges: Seq<DepEdge>) -> bool {
    &&& forall|a: int| 0 <= a < edges.len() ==> {
        &&& is_dep(ops, (#[trigger] edges[a]).from as int, edges[a].on as int, edges[a].kind, edges[a].reg@)
        &&& edges[a].latency == edge_latency(latencies, edges[a].on as int, edges[a].kind)
        &&& edges[a].from <= i
    }
    &&& forall|a: int, b: int| 0 <= a < b < edges.len() ==> edge_key(#[trigger] edges[a]) != edge_key(#[trigger] edges[b])
    &&& forall|a: int, b: int| 0 <= a < b < edges.len() ==> (#[trigger] edges[a]).from <= (#[trigger] edges[b]).from
}

/// Every dependency the scan has reached has its edge.
spec fn edges_complete(ops: Seq<InstrRegs>, i: int, u: int, d: int, edges: Seq<DepEdge>) -> bool {
    forall|f: int, o: int, k: DepKind, r: RegKeyView| #[trigger] dep_done(ops, i, u, d, f, o, k, r) ==> has_key(edges, (f as usize, o as usize, k, r))
}

proof fn lemma_last_def_before(ops: Seq<InstrRegs>, i: int, r: RegKeyView)
    ensures
        last_def_before(ops, i, r) matches Some(p) ==> 0 <= p < i && defs_reg(ops, p, r),
    decreases i,
{
    if i > 0 && !defs_reg(ops, i - 1, r) {
        lemma_last_def_before(ops, i - 1, r);
    }
}

proof fn lemma_has_key_push(s: Seq<DepEdge>, e: DepEdge)
    ensures
        forall|k: (usize, usize, DepKind, RegKeyView)| #[trigger] has_key(s.push(e), k) == (has_key(s, k) || edge_key(e) == k),
{
    assert forall|k: (usize, usize, DepKind, RegKeyView)| #[trigger] has_key(s.push(e), k) == (has_key(s, k) || edge_key(e) == k) by {
        if has_key(s, k) {
            let a = choose|a: int| 0 <= a < s.len() && edge_key(#[trigger] s[a]) == k;
            assert(s.push(e)[a] == s[a]);
        }
        if edge_key(e) == k {
            assert(s.push(e)[s.len() as int] == e);
        }
        if has_key(s.push(e), k) {
            let a = choose|a: int| 0 <= a < s.push(e).len() && edge_key(#[trigger] s.push(e)[a]) == k;
            if a < s.len() {
                assert(s[a] == s.push(e)[a]);
            }
        }
    }
}

fn find_key(keys: &Vec<RegKey>, r: &RegKey) -> (res: Option<usize>)
    ensures
        res matches Some(idx) ==> idx < keys@.len() && keys@[idx as int]@ == r@,
        res is None ==> forall|e: int| 0 <= e < keys@.len() ==> (#[trigger] keys@[e])@ != r@,
{
    let mut e: usize = 0;
    while e < keys.len()
        invariant
            e <= keys@.len(),
            forall|x: int| 0 <= x < e ==> (#[trigger] keys@[x])@ != r@,
        decreases keys.len() - e,
    {
        if keys[e].same(r) {
            return Some(e);
        }
        e = e + 1;
    }
    None
}

fn has_edge(edges: &Vec<DepEdge>, from: usize, on: usize, kind: DepKind, reg: &RegKey) -> (res: bool)
    ensures
        res == has_key(edges@, (from, on, kind, reg@)),
{
    let mut a: usize = 0;
    while a < edges.len()
        invariant
            a <= edges@.len(),
            forall|x: int| 0 <= x < a ==> edge_key(#[trigger] edges@[x]) != (from, on, kind, reg@),
        decreases edges.len() - a,
    {
        let e = &edges[a];
        if e.from == from && e.on == on && e.kind == kind && e.reg.same(reg) {
            assert(edge_key(edges@[a as int]) == (from, on, kind, reg@));
            return true;
        }
        a = a + 1;
    }
    false
}

/// Record one dependency of instruction `from` unless it is a
/// self-dependency or already known.
fn push_edge(
    edges: &mut Vec<DepEdge>,
    from: usize,
    on: usize,
    kind: DepKind,
    reg: &RegKey,
    latency: u16,
    Ghost(ops): Ghost<Seq<InstrRegs>>,
    Ghost(latencies): Ghost<Seq<u16>>,
)
    requires
        edges_sound(ops, latencies, from as int, old(edges)@),
        from != on ==> is_dep(ops, from as int, on as int, kind, reg@) && latency == edge_latency(latencies, on as int, kind),
    ensures
        edges_sound(ops, latencies, from as int, final(edges)@),
        forall|k: (usize, usize, DepKind, RegKeyView)| #[trigger] has_key(final(edges)@, k) == (has_key(old(edges)@, k) || (from != on && k == (from, on, kind, reg@))),
{
    if from == on || has_edge(edges, from, on, kind, reg) {
        return;
    }
    let ghost before = edges@;
    edges.push(DepEdge { from, on, kind, reg: reg.duplicate(), latency });
    proof {
        lemma_has_key_push(before, edges@.last());
        assert(edges@ == before.push(edges@.last()));
        assert forall|a: int, b: int| 0 <= a < b < edges@.len() implies edge_key(#[trigger] edges@[a]) != edge_key(#[trigger] edges@[b]) by {
            if b == before.len() {
                assert(edges@[a] == before[a]);
            }
        }
    }
}

proof fn lemma_use_step(ops: Seq<InstrRegs>, i: int, u: int)
    requires
        0 <= i < ops.len(),
        0 <= u < ops[i].uses@.len(),
    ensures
        forall|r: RegKeyView| #[trigger] use_seen(ops, i, u + 1, r) == (use_seen(ops, i, u, r) || r == ops[i].uses@[u]@),
        forall|r: RegKeyView| #[trigger] uses_reg(ops, i, r) <== r == ops[i].uses@[u]@,
{
    assert forall|r: RegKeyView| #[trigger] use_seen(ops, i, u + 1, r) == (use_seen(ops, i, u, r) || r == ops[i].uses@[u]@) by {
        if r == ops[i].uses@[u]@ {
            assert(ops[i].uses@[u]@ == r);
        }
    }
}

proof fn lemma_def_step(ops: Seq<InstrRegs>, i: int, d: int)
    requires
        0 <= i < ops.len(),
        0 <= d < ops[i].defs@.len(),
    ensures
        forall|r: RegKeyView| #[trigger] def_seen(ops, i, d + 1, r) == (def_seen(ops, i, d, r) || r == ops[i].defs@[d]@),
        forall|r: RegKeyView| #[trigger] defs_reg(ops, i, r) <== r == ops[i].defs@[d]@,
{
    assert forall|r: RegKeyView| #[trigger] def_seen(ops, i, d + 1, r) == (def_seen(ops, i, d, r) || r == ops[i].defs@[d]@) by {
        if r == ops[i].defs@[d]@ {
            assert(ops[i].defs@[d]@ == r);
        }
    }
}

/// Scan use `u` of instruction `i`: a read-after-write edge on the register's
/// last writer, and `i` joins the register's readers.
fn scan_use(
    ops: &Vec<InstrRegs>,
    latencies: &Vec<u16>,
    i: usize,
    u: usize,
    ld_keys: &Vec<RegKey>,
    ld_vals: &Vec<usize>,
    rd_keys: &mut Vec<RegKey>,
    rd_lists: &mut Vec<Vec<usize>>,
    edges: &mut Vec<DepEdge>,
)
    requires
        i < ops@.len(),
        ops@.len() == latencies@.len(),
        u < ops@[i as int].uses@.len(),
        last_def_ok(ops@, i as int, 0, ld_keys@, ld_vals@),
        readers_ok(ops@, i as int, u as int, 0, old(rd_keys)@, old(rd_lists)@),
        edges_sound(ops@, latencies@, i as int, old(edges)@),
        edges_complete(ops@, i as int, u as int, 0, old(edges)@),
    ensures
        readers_ok(ops@, i as int, u + 1, 0, final(rd_keys)@, final(rd_lists)@),
        edges_sound(ops@, latencies@, i as int, final(edges)@),
        edges_complete(ops@, i as int, u + 1, 0, final(edges)@),
{
    let r = &ops[i].uses[u];
    let ghost rv = r@;
    proof {
        lemma_use_step(ops@, i as int, u as int);
        lemma_last_def_before(ops@, i as int, rv);
    }
    let ghost edges0 = edges@;
    match find_key(ld_keys, r) {
        Some(e) => {
            let producer = ld_vals[e];
            proof {
                assert(!def_seen(ops@, i as int, 0, ld_keys@[e as int]@));
                assert(last_def_before(ops@, i as int, rv) == Some(producer as int));
            }
            push_edge(edges, i, producer, DepKind::Raw, r, latencies[producer], Ghost(ops@), Ghost(latencies@));
        },
        None => {
            proof {
                if last_def_before(ops@, i as int, rv) is Some {
                    assert(!def_seen(ops@, i as int, 0, rv));
                    assert(last_def_mid(ops@, i as int, 0, rv) is Some);
                }
            }
        },
    }
    proof {
        assert forall|f: int, o: int, k: DepKind, r2: RegKeyView| #[trigger] dep_done(ops@, i as int, u + 1, 0, f, o, k, r2) implies has_key(edges@, (f as usize, o as usize, k, r2)) by {
            if !dep_done(ops@, i as int, u as int, 0, f, o, k, r2) {
                assert(f == i && k == DepKind::Raw && r2 == rv);
            }
        }
    }
    let ghost keys0 = rd_keys@;
    let ghost lists0 = rd_lists@;
    match find_key(rd_keys, r) {
        Some(e) => {
            rd_lists[e].push(i);
            proof {
                assert(rd_lists@[e as int]@ == lists0[e as int]@.push(i));
                assert forall|e2: int, x: int| 0 <= e2 < rd_keys@.len() && 0 <= x < rd_lists@[e2]@.len() implies reader_mid(ops@, i as int, u + 1, 0, rd_keys@[e2]@, #[trigger] rd_lists@[e2]@[x] as int) by {
                    if e2 != e || x < lists0[e2]@.len() {
                        assert(rd_lists@[e2]@[x] == lists0[e2]@[x]);
                        assert(reader_mid(ops@, i as int, u as int, 0, keys0[e2]@, lists0[e2]@[x] as int));
                    }
                }
                assert forall|r2: RegKeyView, j: int| #[trigger] reader_mid(ops@, i as int, u + 1, 0, r2, j) implies exists|e2: int| 0 <= e2 < rd_keys@.len() && (#[trigger] rd_keys@[e2])@ == r2 && rd_lists@[e2]@.contains(j as usize) by {
                    if reader_mid(ops@, i as int, u as int, 0, r2, j) {
                        let e2 = choose|e2: int| 0 <= e2 < keys0.len() && (#[trigger] keys0[e2])@ == r2 && lists0[e2]@.contains(j as usize);
                        let x = choose|x: int| 0 <= x < lists0[e2]@.len() && lists0[e2]@[x] == j as usize;
                        assert(rd_lists@[e2]@[x] == j as usize);
                        assert(rd_keys@[e2]@ == r2);
                    } else {
                        assert(j == i && r2 == rv);
                        assert(rd_lists@[e as int]@[lists0[e as int]@.len() as int] == i);
                        assert(rd_keys@[e as int]@ == r2);
                    }
                }
            }
        },
        None => {
            rd_keys.push(r.duplicate());
            rd_lists.push(vec![i]);
            proof {
                let n = keys0.len() as int;
                assert(rd_keys@ == keys0.push(rd_keys@[n]));
                assert(rd_lists@ == lists0.push(rd_lists@[n]));
                assert(rd_lists@[n]@[0] == i);
                assert forall|a: int, b: int| 0 <= a < b < rd_keys@.len() implies (#[trigger] rd_keys@[a])@ != (#[trigger] rd_keys@[b])@ by {
                    if b == n {
                        assert(rd_keys@[a] == keys0[a]);
                    }
                }
                assert forall|e2: int, x: int| 0 <= e2 < rd_keys@.len() && 0 <= x < rd_lists@[e2]@.len() implies reader_mid(ops@, i as int, u + 1, 0, rd_keys@[e2]@, #[trigger] rd_lists@[e2]@[x] as int) by {
                    if e2 < n {
                        assert(rd_lists@[e2] == lists0[e2]);
                        assert(rd_keys@[e2] == keys0[e2]);
                        assert(reader_mid(ops@, i as int, u as int, 0, keys0[e2]@, lists0[e2]@[x] as int));
                    }
                }
                assert forall|r2: RegKeyView, j: int| #[trigger] reader_mid(ops@, i as int, u + 1, 0, r2, j) implies exists|e2: int| 0 <= e2 < rd_keys@.len() && (#[trigger] rd_keys@[e2])@ == r2 && rd_lists@[e2]@.contains(j as usize) by {
                    if reader_mid(ops@, i as int, u as int, 0, r2, j) {
                        let e2 = choose|e2: int| 0 <= e2 < keys0.len() && (#[trigger] keys0[e2])@ == r2 && lists0[e2]@.contains(j as usize);
                        assert(rd_lists@[e2] == lists0[e2]);
                        assert(rd_keys@[e2] == keys0[e2]);
                    } else {
                        assert(j == i && r2 == rv);
                        assert(rd_lists@[n]@[0] == j as usize);
                        assert(rd_keys@[n]@ == r2);
                    }
                }
            }
        },
    }
}

/// The last-writer table with register `r` now written by instruction `i`.
fn set_last_def(ld_keys: &mut Vec<RegKey>, ld_vals: &mut Vec<usize>, r: &RegKey, i: usize)
    requires
        old(ld_keys)@.len() == old(ld_vals)@.len(),
        keys_unique(old(ld_keys)@),
    ensures
        final(ld_keys)@.len() == final(ld_vals)@.len(),
        keys_unique(final(ld_keys)@),
        exists|e: int| 0 <= e < final(ld_keys)@.len() && (#[trigger] final(ld_keys)@[e])@ == r@ && final(ld_vals)@[e] == i,
        forall|e: int| 0 <= e < final(ld_keys)@.len() && (#[trigger] final(ld_keys)@[e])@ != r@ ==> exists|e2: int| 0 <= e2 < old(ld_keys)@.len() && (#[trigger] old(ld_keys)@[e2])@ == final(ld_keys)@[e]@ && old(ld_vals)@[e2] == final(ld_vals)@[e],
        forall|e: int| 0 <= e < old(ld_keys)@.len() ==> exists|e2: int| 0 <= e2 < final(ld_keys)@.len() && (#[trigger] final(ld_keys)@[e2])@ == (#[trigger] old(ld_keys)@[e])@,
{
    let ghost keys0 = ld_keys@;
    let ghost vals0 = ld_vals@;
    match find_key(ld_keys, r) {
        Some(e) => {
            ld_vals.set(e, i);
            assert(ld_keys@[e as int]@ == r@);
            assert forall|e1: int| 0 <= e1 < keys0.len() implies exists|e2: int| 0 <= e2 < ld_keys@.len() && (#[trigger] ld_keys@[e2])@ == (#[trigger] keys0[e1])@ by {
                assert(ld_keys@[e1] == keys0[e1]);
            }
        },
        None => {
            ld_keys.push(r.duplicate());
            ld_vals.push(i);
            let ghost n = keys0.len() as int;
            assert(ld_keys@ == keys0.push(ld_keys@[n]));
            assert(ld_keys@[n]@ == r@);
            assert forall|a: int, b: int| 0 <= a < b < ld_keys@.len() implies (#[trigger] ld_keys@[a])@ != (#[trigger] ld_keys@[b])@ by {
                if b == n {
                    assert(ld_keys@[a] == keys0[a]);
                }
            }
            assert forall|e1: int| 0 <= e1 < ld_keys@.len() && (#[trigger] ld_keys@[e1])@ != r@ implies exists|e2: int| 0 <= e2 < keys0.len() && (#[trigger] keys0[e2])@ == ld_keys@[e1]@ && vals0[e2] == ld_vals@[e1] by {
                assert(ld_keys@[e1] == keys0[e1]);
                assert(ld_vals@[e1] == vals0[e1]);
            }
            assert forall|e1: int| 0 <= e1 < keys0.len() implies exists|e2: int| 0 <= e2 < ld_keys@.len() && (#[trigger] ld_keys@[e2])@ == (#[trigger] keys0[e1])@ by {
                assert(ld_keys@[e1] == keys0[e1]);
            }
        },
    }
}

/// Write-after-read edges from instruction `i` onto every reader in `list`
/// other than `i` itself.
fn push_war_edges(
    edges: &mut Vec<DepEdge>,
    i: usize,
    list: &Vec<usize>,
    r: &RegKey,
    Ghost(ops): Ghost<Seq<InstrRegs>>,
    Ghost(latencies): Ghost<Seq<u16>>,
)
    requires
        edges_sound(ops, latencies, i as int, old(edges)@),
        forall|x: int| 0 <= x < list@.len() && #[trigger] list@[x] != i ==> is_dep(ops, i as int, list@[x] as int, DepKind::War, r@),
    ensures
        edges_sound(ops, latencies, i as int, final(edges)@),
        forall|k: (usize, usize, DepKind, RegKeyView)| has_key(old(edges)@, k) ==> #[trigger] has_key(final(edges)@, k),
        forall|x: int| 0 <= x < list@.len() && #[trigger] list@[x] != i ==> has_key(final(edges)@, (i, list@[x], DepKind::War, r@)),
{
    let ghost edges0 = edges@;
    let mut x: usize = 0;
    while x < list.len()
        invariant
            x <= list@.len(),
            edges_sound(ops, latencies, i as int, edges@),
            forall|y: int| 0 <= y < list@.len() && #[trigger] list@[y] != i ==> is_dep(ops, i as int, list@[y] as int, DepKind::War, r@),
            forall|k: (usize, usize, DepKind, RegKeyView)| has_key(edges0, k) ==> #[trigger] has_key(edges@, k),
            forall|y: int| 0 <= y < x && #[trigger] list@[y] != i ==> has_key(edges@, (i, list@[y], DepKind::War, r@)),
        decreases list.len() - x,
    {
        let reader = list[x];
        if reader != i {
            push_edge(edges, i, reader, DepKind::War, r, 0, Ghost(ops), Ghost(latencies));
        }
        x = x + 1;
    }
}

/// Scan def `d` of instruction `i`: a write-after-write edge on the last
/// writer, write-after-read edges on every reader since that write; then `i`
/// is the register's last writer and it has no readers.
fn scan_def(
    ops: &Vec<InstrRegs>,
    latencies: &Vec<u16>,
    i: usize,
    d: usize,
    ld_keys: &mut Vec<RegKey>,
    ld_vals: &mut Vec<usize>,
    rd_keys: &Vec<RegKey>,
    rd_lists: &mut Vec<Vec<usize>>,
    edges: &mut Vec<DepEdge>,
)
    requires
        i < ops@.len(),
        ops@.len() == latencies@.len(),
        d < ops@[i as int].defs@.len(),
        last_def_ok(ops@, i as int, d as int, old(ld_keys)@, old(ld_vals)@),
        readers_ok(ops@, i as int, ops@[i as int].uses@.len() as int, d as int, rd_keys@, old(rd_lists)@),
        edges_sound(ops@, latencies@, i as int, old(edges)@),
        edges_complete(ops@, i as int, ops@[i as int].uses@.len() as int, d as int, old(edges)@),
    ensures
        last_def_ok(ops@, i as int, d + 1, final(ld_keys)@, final(ld_vals)@),
        readers_ok(ops@, i as int, ops@[i as int].uses@.len() as int, d + 1, rd_keys@, final(rd_lists)@),
        edges_sound(ops@, latencies@, i as int, final(edges)@),
        edges_complete(ops@, i as int, ops@[i as int].uses@.len() as int, d + 1, final(edges)@),
{
    let ghost nu = ops@[i as int].uses@.len() as int;
    let r = &ops[i].defs[d];
    let ghost rv = r@;
    proof {
        lemma_def_step(ops@, i as int, d as int);
        lemma_last_def_before(ops@, i as int, rv);
    }
    let ghost edges0 = edges@;
    let ghost seen = def_seen(ops@, i as int, d as int, rv);
    match find_key(ld_keys, r) {
        Some(e) => {
            let producer = ld_vals[e];
            proof {
                assert(last_def_mid(ops@, i as int, d as int, rv) == Some(producer as int));
                if !seen {
                    assert(last_def_before(ops@, i as int, rv) == Some(producer as int));
                }
            }
            push_edge(edges, i, producer, DepKind::Waw, r, 0, Ghost(ops@), Ghost(latencies@));
        },
        None => {},
    }
    let ghost edges1 = edges@;
    let ghost lists0 = rd_lists@;
    match find_key(rd_keys, r) {
        Some(e) => {
            proof {
                assert forall|x: int| 0 <= x < rd_lists@[e as int]@.len() && #[trigger] rd_lists@[e as int]@[x] != i implies is_dep(ops@, i as int, rd_lists@[e as int]@[x] as int, DepKind::War, rv) by {
                    assert(reader_mid(ops@, i as int, nu, d as int, rd_keys@[e as int]@, rd_lists@[e as int]@[x] as int));
                }
            }
            push_war_edges(edges, i, &rd_lists[e], r, Ghost(ops@), Ghost(latencies@));
            proof {
                assert forall|f: int, o: int, k: DepKind, r2: RegKeyView| #[trigger] dep_done(ops@, i as int, nu, d + 1, f, o, k, r2) implies has_key(edges@, (f as usize, o as usize, k, r2)) by {
                    if !dep_done(ops@, i as int, nu, d as int, f, o, k, r2) {
                        assert(f == i && r2 == rv && !seen);
                        if k == DepKind::War {
                            assert(reader_mid(ops@, i as int, nu, d as int, rv, o));
                            let e2 = choose|e2: int| 0 <= e2 < rd_keys@.len() && (#[trigger] rd_keys@[e2])@ == rv && rd_lists@[e2]@.contains(o as usize);
                            assert(e2 == e);
                            let x = choose|x: int| 0 <= x < rd_lists@[e2]@.len() && rd_lists@[e2]@[x] == o as usize;
                            assert(rd_lists@[e as int]@[x] != i);
                        } else {
                            assert(last_def_mid(ops@, i as int, d as int, rv) == Some(o));
                        }
                    }
                }
            }
            rd_lists.set(e, Vec::new());
            proof {
                assert forall|e2: int, x: int| 0 <= e2 < rd_keys@.len() && 0 <= x < rd_lists@[e2]@.len() implies reader_mid(ops@, i as int, nu, d + 1, rd_keys@[e2]@, #[trigger] rd_lists@[e2]@[x] as int) by {
                    assert(e2 != e);
                    assert(rd_lists@[e2] == lists0[e2]);
                    assert(reader_mid(ops@, i as int, nu, d as int, rd_keys@[e2]@, lists0[e2]@[x] as int));
                }
                assert forall|r2: RegKeyView, j: int| #[trigger] reader_mid(ops@, i as int, nu, d + 1, r2, j) implies exists|e2: int| 0 <= e2 < rd_keys@.len() && (#[trigger] rd_keys@[e2])@ == r2 && rd_lists@[e2]@.contains(j as usize) by {
                    assert(reader_mid(ops@, i as int, nu, d as int, r2, j));
                    let e2 = choose|e2: int| 0 <= e2 < rd_keys@.len() && (#[trigger] rd_keys@[e2])@ == r2 && lists0[e2]@.contains(j as usize);
                    assert(e2 != e);
                    assert(rd_lists@[e2] == lists0[e2]);
                }
            }
        },
        None => {
            proof {
                assert forall|f: int, o: int, k: DepKind, r2: RegKeyView| #[trigger] dep_done(ops@, i as int, nu, d + 1, f, o, k, r2) implies has_key(edges@, (f as usize, o as usize, k, r2)) by {
                    if !dep_done(ops@, i as int, nu, d as int, f, o, k, r2) {
                        assert(f == i && r2 == rv && !seen);
                        if k == DepKind::War {
                            assert(reader_mid(ops@, i as int, nu, d as int, rv, o));
                        } else {
                            assert(last_def_mid(ops@, i as int, d as int, rv) == Some(o));
                        }
                    }
                }
                assert forall|r2: RegKeyView, j: int| #[trigger] reader_mid(ops@, i as int, nu, d + 1, r2, j) implies exists|e2: int| 0 <= e2 < rd_keys@.len() && (#[trigger] rd_keys@[e2])@ == r2 && rd_lists@[e2]@.contains(j as usize) by {
                    assert(reader_mid(ops@, i as int, nu, d as int, r2, j));
                }
                assert forall|e2: int, x: int| 0 <= e2 < rd_keys@.len() && 0 <= x < rd_lists@[e2]@.len() implies reader_mid(ops@, i as int, nu, d + 1, rd_keys@[e2]@, #[trigger] rd_lists@[e2]@[x] as int) by {
                    assert(reader_mid(ops@, i as int, nu, d as int, rd_keys@[e2]@, rd_lists@[e2]@[x] as int));
                }
            }
        },
    }
    let ghost lk0 = ld_keys@;
    let ghost lv0 = ld_vals@;
    set_last_def(ld_keys, ld_vals, r, i);
    proof {
        assert forall|e: int| 0 <= e < ld_keys@.len() implies last_def_mid(ops@, i as int, d + 1, (#[trigger] ld_keys@[e])@) == Some(ld_vals@[e] as int) by {
            if ld_keys@[e]@ == rv {
                let w = choose|w: int| 0 <= w < ld_keys@.len() && (#[trigger] ld_keys@[w])@ == rv && ld_vals@[w] == i;
                assert(w == e);
            } else {
                let e2 = choose|e2: int| 0 <= e2 < lk0.len() && (#[trigger] lk0[e2])@ == ld_keys@[e]@ && lv0[e2] == ld_vals@[e];
                assert(last_def_mid(ops@, i as int, d as int, lk0[e2]@) == Some(lv0[e2] as int));
            }
        }
        assert forall|r2: RegKeyView| #[trigger] last_def_mid(ops@, i as int, d + 1, r2) is Some implies exists|e: int| 0 <= e < ld_keys@.len() && (#[trigger] ld_keys@[e])@ == r2 by {
            if r2 != rv {
                assert(last_def_mid(ops@, i as int, d as int, r2) is Some);
                let e1 = choose|e1: int| 0 <= e1 < lk0.len() && (#[trigger] lk0[e1])@ == r2;
                assert(exists|e2: int| 0 <= e2 < ld_keys@.len() && (#[trigger] ld_keys@[e2])@ == (#[trigger] lk0[e1])@);
            }
        }
    }
}

proof fn lemma_advance(ops: Seq<InstrRegs>, latencies: Seq<u16>, i: int, ld_keys: Seq<RegKey>, ld_vals: Seq<usize>, rd_keys: Seq<RegKey>, rd_lists: Seq<Vec<usize>>, edges: Seq<DepEdge>)
    requires
        0 <= i < ops.len(),
        last_def_ok(ops, i, ops[i].defs@.len() as int, ld_keys, ld_vals),
        readers_ok(ops, i, ops[i].uses@.len() as int, ops[i].defs@.len() as int, rd_keys, rd_lists),
        edges_sound(ops, latencies, i, edges),
        edges_complete(ops, i, ops[i].uses@.len() as int, ops[i].defs@.len() as int, edges),
    ensures
        last_def_ok(ops, i + 1, 0, ld_keys, ld_vals),
        readers_ok(ops, i + 1, 0, 0, rd_keys, rd_lists),
        edges_sound(ops, latencies, i + 1, edges),
        edges_complete(ops, i + 1, 0, 0, edges),
{
    let nu = ops[i].uses@.len() as int;
    let nd = ops[i].defs@.len() as int;
    assert forall|r: RegKeyView| #[trigger] last_def_mid(ops, i + 1, 0, r) == last_def_mid(ops, i, nd, r) by {
        assert(def_seen(ops, i, nd, r) == defs_reg(ops, i, r));
    }
    assert forall|e: int| 0 <= e < ld_keys.len() implies last_def_mid(ops, i + 1, 0, (#[trigger] ld_keys[e])@) == Some(ld_vals[e] as int) by {
        assert(last_def_mid(ops, i, nd, ld_keys[e]@) == Some(ld_vals[e] as int));
    }
    assert forall|r: RegKeyView| #[trigger] last_def_mid(ops, i + 1, 0, r) is Some implies exists|e: int| 0 <= e < ld_keys.len() && (#[trigger] ld_keys[e])@ == r by {
        assert(last_def_mid(ops, i, nd, r) is Some);
    }
    assert forall|r: RegKeyView, j: int| #[trigger] reader_mid(ops, i + 1, 0, 0, r, j) == reader_mid(ops, i, nu, nd, r, j) by {
        assert(def_seen(ops, i, nd, r) == defs_reg(ops, i, r));
        assert(use_seen(ops, i, nu, r) == uses_reg(ops, i, r));
        if reader_before(ops, i + 1, j, r) {
            assert(!defs_reg(ops, i, r));
            if j < i {
                assert(reader_before(ops, i, j, r));
            }
        }
        if reader_mid(ops, i, nu, nd, r, j) {
            if j < i {
                assert(reader_before(ops, i + 1, j, r));
            } else {
                assert(reader_before(ops, i + 1, j, r));
            }
        }
    }
    assert forall|f: int, o: int, k: DepKind, r: RegKeyView| #[trigger] dep_done(ops, i + 1, 0, 0, f, o, k, r) == dep_done(ops, i, nu, nd, f, o, k, r) by {
        assert(def_seen(ops, i, nd, r) == defs_reg(ops, i, r));
        assert(use_seen(ops, i, nu, r) == uses_reg(ops, i, r));
    }
    assert forall|e: int, x: int| 0 <= e < rd_keys.len() && 0 <= x < rd_lists[e]@.len() implies reader_mid(ops, i + 1, 0, 0, rd_keys[e]@, #[trigger] rd_lists[e]@[x] as int) by {
        assert(reader_mid(ops, i, nu, nd, rd_keys[e]@, rd_lists[e]@[x] as int));
    }
    assert forall|r: RegKeyView, j: int| #[trigger] reader_mid(ops, i + 1, 0, 0, r, j) implies exists|e: int| 0 <= e < rd_keys.len() && (#[trigger] rd_keys[e])@ == r && rd_lists[e]@.contains(j as usize) by {
        assert(reader_mid(ops, i, nu, nd, r, j));
    }
}

/// The latency of a producer when no machine model is known: one cycle.
pub const DEFAULT_LATENCY: u16 = 1;

/// The producer latencies of `n` instructions: the machine model's, one per
/// instruction, when there is a model; else the single-cycle default.
pub open spec fn model_latencies(model: Option<&Vec<u16>>, n: nat) -> Seq<u16> {
    match model {
        Some(m) => m@,
        None => Seq::new(n, |i: int| DEFAULT_LATENCY),
    }
}

fn default_latencies(n: usize) -> (r: Vec<u16>)
    ensures
        r@ == Seq::new(n as nat, |i: int| DEFAULT_LATENCY),
{
    let mut r: Vec<u16> = Vec::new();
    let mut k: usize = 0;
    while k < n
        invariant
            k <= n,
            r@ == Seq::new(k as nat, |i: int| DEFAULT_LATENCY),
        decreases n - k,
    {
        r.push(DEFAULT_LATENCY);
        k = k + 1;
        assert(r@ =~= Seq::new(k as nat, |i: int| DEFAULT_LATENCY));
    }
    r
}

/// Build the data dependence graph for one block's instructions, given in
/// program order. `model`, when present, holds the latency the machine
/// model gives each instruction's scheduling class (the producer latency a
/// read-after-write edge carries); without it every producer takes the
/// single-cycle default.
pub fn build(ops: &Vec<InstrRegs>, model: Option<&Vec<u16>>) -> (g: Ddg)
    requires
        model matches Some(m) ==> m@.len() == ops@.len(),
    ensures
        g.ops@ == ops@.map_values(|o: InstrRegs| o.op),
        is_ddg_edges(ops@, model_latencies(model, ops@.len()), g.edges@),
{
    match model {
        Some(latencies) => build_with_latencies(ops, latencies),
        None => {
            let latencies = default_latencies(ops.len());
            build_with_latencies(ops, &latencies)
        },
    }
}

/// Build the data dependence graph for one block's instructions, given in
/// program order with their result latencies.
fn build_with_latencies(ops: &Vec<InstrRegs>, latencies: &Vec<u16>) -> (g: Ddg)
    requires
        ops@.len() == latencies@.len(),
    ensures
        g.ops@ == ops@.map_values(|o: InstrRegs| o.op),
        is_ddg_edges(ops@, latencies@, g.edges@),
{
    let mut nodes: Vec<OpId> = Vec::new();
    let mut edges: Vec<DepEdge> = Vec::new();
    let mut ld_keys: Vec<RegKey> = Vec::new();
    let mut ld_vals: Vec<usize> = Vec::new();
    let mut rd_keys: Vec<RegKey> = Vec::new();
    let mut rd_lists: Vec<Vec<usize>> = Vec::new();
    let mut i: usize = 0;
    proof {
        assert forall|r: RegKeyView| #[trigger] last_def_mid(ops@, 0, 0, r) is None by {}
        assert forall|r: RegKeyView, j: int| !#[trigger] reader_mid(ops@, 0, 0, 0, r, j) by {}
        assert forall|f: int, o: int, k: DepKind, r: RegKeyView| !#[trigger] dep_done(ops@, 0, 0, 0, f, o, k, r) by {
            if dep_done(ops@, 0, 0, 0, f, o, k, r) {
                lemma_last_def_before(ops@, f, r);
            }
        }
    }
    while i < ops.len()
        invariant
            i <= ops@.len(),
            ops@.len() == latencies@.len(),
            nodes@ == ops@.subrange(0, i as int).map_values(|o: InstrRegs| o.op),
            last_def_ok(ops@, i as int, 0, ld_keys@, ld_vals@),
            readers_ok(ops@, i as int, 0, 0, rd_keys@, rd_lists@),
            edges_sound(ops@, latencies@, i as int, edges@),
            edges_complete(ops@, i as int, 0, 0, edges@),
        decreases ops.len() - i,
    {
        nodes.push(ops[i].op);
        assert(nodes@ =~= ops@.subrange(0, i + 1).map_values(|o: InstrRegs| o.op));
        let nu = ops[i].uses.len();
        let nd = ops[i].defs.len();
        let mut u: usize = 0;
        while u < nu
            invariant
                i < ops@.len(),
                ops@.len() == latencies@.len(),
                nu == ops@[i as int].uses@.len(),
                u <= nu,
                last_def_ok(ops@, i as int, 0, ld_keys@, ld_vals@),
                readers_ok(ops@, i as int, u as int, 0, rd_keys@, rd_lists@),
                edges_sound(ops@, latencies@, i as int, edges@),
                edges_complete(ops@, i as int, u as int, 0, edges@),
            decreases nu - u,
        {
            scan_use(ops, latencies, i, u, &ld_keys, &ld_vals, &mut rd_keys, &mut rd_lists, &mut edges);
            u = u + 1;
        }
        let mut d: usize = 0;
        while d < nd
            invariant
                i < ops@.len(),
                ops@.len() == latencies@.len(),
                nu == ops@[i as int].uses@.len(),
                nd == ops@[i as int].defs@.len(),
                d <= nd,
                last_def_ok(ops@, i as int, d as int, ld_keys@, ld_vals@),
                readers_ok(ops@, i as int, nu as int, d as int, rd_keys@, rd_lists@),
                edges_sound(ops@, latencies@, i as int, edges@),
                edges_complete(ops@, i as int, nu as int, d as int, edges@),
            decreases nd - d,
        {
            scan_def(ops, latencies, i, d, &mut ld_keys, &mut ld_vals, &rd_keys, &mut rd_lists, &mut edges);
            d = d + 1;
        }
        proof {
            lemma_advance(ops@, latencies@, i as int, ld_keys@, ld_vals@, rd_keys@, rd_lists@, edges@);
        }
        i = i + 1;
    }
    proof {
        assert(ops@.subrange(0, i as int) =~= ops@);
        assert forall|f: int, o: int, k: DepKind, r: RegKeyView| #[trigger] is_dep(ops@, f, o, k, r) implies exists|a: int|
            0 <= a < edges@.len() && edge_key(#[trigger] edges@[a]) == (f as usize, o as usize, k, r) by {
            assert(dep_done(ops@, i as int, 0, 0, f, o, k, r));
        }
    }
    Ddg { ops: nodes, edges }
}

} // verus!
