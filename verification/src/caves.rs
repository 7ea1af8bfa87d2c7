//! Passage pathing: a cave system as a graph with adjacency lists, walked
//! breadth-first under rules about revisiting small caves.

use vstd::prelude::*;

verus! {

use crate::parse::lower;

/// One cave: the entry, the exit, or a named small or big cave.
#[derive(Debug, Clone)]
pub enum Cave {
    Entry,
    Exit,
    Small(Vec<u8>),
    Big(Vec<u8>),
}

/// The mathematical shape of a cave name.
pub enum CaveModel {
    Entry,
    Exit,
    Small(Seq<u8>),
    Big(Seq<u8>),
}

/// Why a cave name failed to parse.
#[derive(Debug, Clone, Copy, PartialEq, Eq, Structural)]
pub enum CaveParseError {
    /// The name is empty.
    Empty,
    /// The name holds a character that is not an ASCII letter.
    Invalid,
}

impl Cave {
    /// The model of this cave.
    pub closed spec fn model(&self) -> CaveModel {
        match self {
            Cave::Entry => CaveModel::Entry,
            Cave::Exit => CaveModel::Exit,
            Cave::Small(name) => CaveModel::Small(name@),
            Cave::Big(name) => CaveModel::Big(name@),
        }
    }

    /// Are these the same cave?
    pub fn same_cave(&self, other: &Cave) -> (r: bool)
        ensures
            r == (self.model() == other.model()),
    {
        match (self, other) {
            (Cave::Entry, Cave::Entry) => true,
            (Cave::Exit, Cave::Exit) => true,
            (Cave::Small(a), Cave::Big(b)) => false,
            (Cave::Big(a), Cave::Small(b)) => false,
            (Cave::Small(a), Cave::Small(b)) => bytes_eq(a, b),
            (Cave::Big(a), Cave::Big(b)) => bytes_eq(a, b),
            _ => false,
        }
    }
}

/// Are the two byte strings equal?
fn bytes_eq(a: &Vec<u8>, b: &Vec<u8>) -> (r: bool)
    ensures
        r == (a@ == b@),
{
    if a.len() != b.len() {
        return false;
    }
    let mut i: usize = 0;
    while i < a.len()
        invariant
            a@.len() == b@.len(),
            0 <= i <= a@.len(),
            forall|j: int| 0 <= j < i ==> a@[j] == b@[j],
        decreases a@.len() - i,
    {
        if a[i] != b[i] {
            return false;
        }
        i = i + 1;
    }
    proof {
        assert(a@ =~= b@);
    }
    true
}

/// Is `b` an ASCII letter?
pub open spec fn is_ascii_letter(b: u8) -> bool {
    (0x41 <= b <= 0x5a) || (0x61 <= b <= 0x7a)
}

/// The bytes of the word `start`.
pub open spec fn start_word() -> Seq<u8> {
    seq![0x73u8, 0x74, 0x61, 0x72, 0x74]
}

/// The bytes of the word `end`.
pub open spec fn end_word() -> Seq<u8> {
    seq![0x65u8, 0x6e, 0x64]
}

/// What one cave name denotes: `start` and `end` are the entry and exit,
/// an all-upper-case name is a big cave, anything else a small one.
pub open spec fn spec_parse_cave(s: Seq<u8>) -> Result<CaveModel, CaveParseError> {
    if s.len() == 0 {
        Err(CaveParseError::Empty)
    } else if exists|i: int| 0 <= i < s.len() && !is_ascii_letter(#[trigger] s[i]) {
        Err(CaveParseError::Invalid)
    } else if lower(s) == start_word() {
        Ok(CaveModel::Entry)
    } else if lower(s) == end_word() {
        Ok(CaveModel::Exit)
    } else if forall|i: int| 0 <= i < s.len() ==> 0x41 <= #[trigger] s[i] <= 0x5a {
        Ok(CaveModel::Big(s))
    } else {
        Ok(CaveModel::Small(s))
    }
}

/// Parse one cave name.
pub fn parse_cave(s: &[u8]) -> (r: Result<Cave, CaveParseError>)
    ensures
        match r {
            Ok(c) => spec_parse_cave(s@) == Ok::<CaveModel, CaveParseError>(c.model()),
            Err(e) => spec_parse_cave(s@) == Err::<CaveModel, CaveParseError>(e),
        },
{
    if s.len() == 0 {
        return Err(CaveParseError::Empty);
    }
    let mut all_letters = true;
    let mut all_upper = true;
    let mut lowered: Vec<u8> = Vec::new();
    let mut copy: Vec<u8> = Vec::new();
    let mut i: usize = 0;
    while i < s.len()
        invariant
            0 <= i <= s@.len(),
            all_letters == forall|j: int| 0 <= j < i ==> is_ascii_letter(#[trigger] s@[j]),
            all_upper == forall|j: int| 0 <= j < i ==> 0x41 <= #[trigger] s@[j] <= 0x5a,
            lowered@ == lower(s@.take(i as int)),
            copy@ == s@.take(i as int),
        decreases s@.len() - i,
    {
        let b = s[i];
        if !((0x41 <= b && b <= 0x5a) || (0x61 <= b && b <= 0x7a)) {
            all_letters = false;
        }
        if !(0x41 <= b && b <= 0x5a) {
            all_upper = false;
        }
        if 0x41 <= b && b <= 0x5a {
            lowered.push(b + 0x20);
        } else {
            lowered.push(b);
        }
        copy.push(b);
        proof {
            assert(s@.take(i as int + 1) =~= s@.take(i as int).push(s@[i as int]));
            assert(lowered@ =~= lower(s@.take(i as int + 1)));
        }
        i = i + 1;
    }
    proof {
        assert(s@.take(s@.len() as int) =~= s@);
    }
    if !all_letters {
        return Err(CaveParseError::Invalid);
    }
    let is_start = lowered.len() == 5 && *lowered.get(0).unwrap() == 0x73 && *lowered.get(
        1,
    ).unwrap() == 0x74 && *lowered.get(2).unwrap() == 0x61 && *lowered.get(3).unwrap() == 0x72
        && *lowered.get(4).unwrap() == 0x74;
    let is_end = lowered.len() == 3 && *lowered.get(0).unwrap() == 0x65 && *lowered.get(1).unwrap()
        == 0x6e && *lowered.get(2).unwrap() == 0x64;
    proof {
        assert(is_start == (lower(s@) =~= start_word()));
        assert(is_end == (lower(s@) =~= end_word()));
    }
    if is_start {
        Ok(Cave::Entry)
    } else if is_end {
        Ok(Cave::Exit)
    } else if all_upper {
        Ok(Cave::Big(copy))
    } else {
        Ok(Cave::Small(copy))
    }
}

/// The position of a node in the graph's node list.
#[derive(Debug, Clone, Copy, PartialEq, Eq, Structural)]
pub struct NodeIndex(pub usize);

/// The position of an edge in the graph's edge list.
#[derive(Debug, Clone, Copy, PartialEq, Eq, Structural)]
pub struct EdgeIndex(pub usize);

/// One node: its cave and the head of its adjacency list.
#[derive(Debug)]
pub struct Node {
    pub data: Cave,
    pub edge: Option<EdgeIndex>,
}

/// One edge: its target node and the next edge of the same source.
#[derive(Debug, Clone, Copy)]
pub struct Edge {
    pub target: NodeIndex,
    pub next: Option<EdgeIndex>,
}

/// A directed graph of caves with intrusive adjacency lists.
#[derive(Debug)]
pub struct Graph {
    pub nodes: Vec<Node>,
    pub edges: Vec<Edge>,
}

/// The index of the first node carrying `data`, or a negative value.
pub open spec fn first_node_with(nodes: Seq<Node>, data: CaveModel) -> int
    decreases nodes.len(),
{
    if nodes.len() == 0 {
        -1
    } else if nodes[0].data.model() == data {
        0
    } else {
        let r = first_node_with(nodes.drop_first(), data);
        if r < 0 {
            -1
        } else {
            r + 1
        }
    }
}

impl Graph {
    /// An empty graph.
    pub fn new() -> (r: Graph)
        ensures
            r.nodes@.len() == 0,
            r.edges@.len() == 0,
    {
        Graph { nodes: Vec::new(), edges: Vec::new() }
    }

    /// The index of the node carrying `data`, if one exists.
    pub fn find_node(&self, data: &Cave) -> (r: Option<NodeIndex>)
        ensures
            match r {
                Some(idx) => idx.0 as int == first_node_with(self.nodes@, data.model())
                    && idx.0 < self.nodes@.len(),
                None => first_node_with(self.nodes@, data.model()) < 0,
            },
    {
        proof {
            lemma_first_node_with(self.nodes@, data.model());
        }
        let mut i: usize = 0;
        while i < self.nodes.len()
            invariant
                0 <= i <= self.nodes@.len(),
                forall|j: int| 0 <= j < i ==> (#[trigger] self.nodes@[j]).data.model()
                    != data.model(),
            decreases self.nodes@.len() - i,
        {
            if self.nodes[i].data.same_cave(data) {
                proof {
                    lemma_first_node_with_at(self.nodes@, data.model(), i as int);
                }
                return Some(NodeIndex(i));
            }
            i = i + 1;
        }
        None
    }

    /// Add a node carrying `data`, with no edges yet, and return its index.
    pub fn add_node(&mut self, data: Cave) -> (r: NodeIndex)
        ensures
            final(self).nodes@.len() == old(self).nodes@.len() + 1,
            final(self).nodes@ == old(self).nodes@.push(
                Node { data: data, edge: None::<EdgeIndex> },
            ),
            final(self).edges@ == old(self).edges@,
            r.0 == old(self).nodes@.len(),
    {
        let index = self.nodes.len();
        self.nodes.push(Node { data, edge: None });
        NodeIndex(index)
    }

    /// Add an edge from `source` to `target` at the head of the source's
    /// adjacency list.  Fails, changing nothing, when either index is out of
    /// range.
    pub fn add_edge(&mut self, source: NodeIndex, target: NodeIndex) -> (r: Option<EdgeIndex>)
        ensures
            match r {
                Some(idx) => {
                    &&& source.0 < old(self).nodes@.len()
                    &&& target.0 < old(self).nodes@.len()
                    &&& idx.0 == old(self).edges@.len()
                    &&& final(self).edges@ == old(self).edges@.push(
                        Edge { target: target, next: old(self).nodes@[source.0 as int].edge },
                    )
                    &&& final(self).nodes@.len() == old(self).nodes@.len()
                    &&& (forall|j: int|
                        0 <= j < old(self).nodes@.len() && j != source.0
                            ==> #[trigger] final(self).nodes@[j] == old(self).nodes@[j])
                    &&& final(self).nodes@[source.0 as int].data.model()
                        == old(self).nodes@[source.0 as int].data.model()
                    &&& final(self).nodes@[source.0 as int].edge matches Some(e) && e.0
                        == old(self).edges@.len()
                },
                None => {
                    &&& (source.0 >= old(self).nodes@.len() || target.0 >= old(
                        self,
                    ).nodes@.len())
                    &&& *final(self) == *old(self)
                },
            },
    {
        let index = self.edges.len();
        if target.0 >= self.nodes.len() || source.0 >= self.nodes.len() {
            return None;
        }
        let next = self.nodes[source.0].edge;
        self.edges.push(Edge { target, next });
        let data = match &self.nodes[source.0].data {
            Cave::Entry => Cave::Entry,
            Cave::Exit => Cave::Exit,
            Cave::Small(name) => Cave::Small(clone_bytes(name)),
            Cave::Big(name) => Cave::Big(clone_bytes(name)),
        };
        proof {
            assert(data.model() == self.nodes@[source.0 as int].data.model());
        }
        let node = Node { data, edge: Some(EdgeIndex(index)) };
        self.nodes.set(source.0, node);
        Some(EdgeIndex(index))
    }
}

/// A copy of a byte string.
fn clone_bytes(v: &Vec<u8>) -> (r: Vec<u8>)
    ensures
        r@ == v@,
{
    let mut out: Vec<u8> = Vec::new();
    let mut i: usize = 0;
    while i < v.len()
        invariant
            0 <= i <= v@.len(),
            out@ == v@.take(i as int),
        decreases v@.len() - i,
    {
        proof {
            assert(v@.take(i as int + 1) =~= v@.take(i as int).push(v@[i as int]));
        }
        out.push(v[i]);
        i = i + 1;
    }
    proof {
        assert(v@.take(v@.len() as int) =~= v@);
    }
    out
}

proof fn lemma_first_node_with(nodes: Seq<Node>, data: CaveModel)
    ensures
        first_node_with(nodes, data) < 0 ==> forall|j: int|
            0 <= j < nodes.len() ==> (#[trigger] nodes[j]).data.model() != data,
        first_node_with(nodes, data) >= 0 ==> first_node_with(nodes, data) < nodes.len()
            && nodes[first_node_with(nodes, data)].data.model() == data,
    decreases nodes.len(),
{
    if nodes.len() > 0 && nodes[0].data.model() != data {
        lemma_first_node_with(nodes.drop_first(), data);
        let r = first_node_with(nodes.drop_first(), data);
        if r >= 0 {
            assert(nodes[r + 1] == nodes.drop_first()[r]);
        }
        if first_node_with(nodes.drop_first(), data) < 0 {
            assert forall|j: int| 0 <= j < nodes.len() implies (#[trigger] nodes[j]).data.model()
                != data by {
                if j > 0 {
                    assert(nodes.drop_first()[j - 1] == nodes[j]);
                }
            }
        }
    }
}

proof fn lemma_first_node_with_at(nodes: Seq<Node>, data: CaveModel, k: int)
    requires
        0 <= k < nodes.len(),
        nodes[k].data.model() == data,
        forall|j: int| 0 <= j < k ==> (#[trigger] nodes[j]).data.model() != data,
    ensures
        first_node_with(nodes, data) == k,
    decreases nodes.len(),
{
    if k > 0 {
        assert forall|j: int| 0 <= j < k - 1 implies (#[trigger] nodes.drop_first()[j]).data.model()
            != data by {
            assert(nodes.drop_first()[j] == nodes[j + 1]);
        }
        lemma_first_node_with_at(nodes.drop_first(), data, k - 1);
    }
}

/// Why a cave system failed to parse.
#[derive(Debug, Clone, Copy, PartialEq, Eq, Structural)]
pub enum CaveSystemError {
    /// No `start` cave appears.
    MissingEntry,
    /// No `end` cave appears.
    MissingExit,
    /// A line is not `name-name`.
    InvalidConnection,
    /// A cave name failed to parse.
    InvalidCave(CaveParseError),
}

/// The cave graph with its entry and exit singled out.
#[derive(Debug)]
pub struct CaveSystem {
    pub graph: Graph,
    pub entry: NodeIndex,
    pub exit: NodeIndex,
}

/// What one connection line `a-b` denotes.
pub open spec fn spec_connection(s: Seq<u8>) -> Result<(CaveModel, CaveModel), CaveSystemError> {
    let parts = crate::parse::spec_split(s, 0x2d);
    if parts.len() < 2 {
        Err(CaveSystemError::InvalidConnection)
    } else {
        match (spec_parse_cave(parts[0]), spec_parse_cave(parts[1])) {
            (Ok(a), Ok(b)) => Ok((a, b)),
            (Err(e), _) => Err(CaveSystemError::InvalidCave(e)),
            (_, Err(e)) => Err(CaveSystemError::InvalidCave(e)),
        }
    }
}

/// Parse one connection line.
///
/// As in the rest of the path grammar, anything past a second `-` is
/// ignored.
pub fn parse_connection(s: &[u8]) -> (r: Result<(Cave, Cave), CaveSystemError>)
    ensures
        r matches Ok((a, b)) ==> spec_connection(s@) == Ok::<_, CaveSystemError>(
            (a.model(), b.model()),
        ),
        r is Err ==> spec_connection(s@) is Err,
{
    let parts = crate::parse::split_bytes(s, 0x2d);
    let ghost pm = crate::parse::spec_split(s@, 0x2d);
    if parts.len() < 2 {
        return Err(CaveSystemError::InvalidConnection);
    }
    proof {
        assert(pm[0] == parts@.map_values(|v: Vec<u8>| v@)[0]);
        assert(pm[1] == parts@.map_values(|v: Vec<u8>| v@)[1]);
    }
    let a = match parse_cave(parts[0].as_slice()) {
        Err(e) => {
            return Err(CaveSystemError::InvalidCave(e));
        },
        Ok(c) => c,
    };
    let b = match parse_cave(parts[1].as_slice()) {
        Err(e) => {
            return Err(CaveSystemError::InvalidCave(e));
        },
        Ok(c) => c,
    };
    Ok((a, b))
}

impl CaveSystem {
    /// The entry and exit point into the graph's node list, at the caves
    /// they name.
    pub open spec fn wf(&self) -> bool {
        &&& self.entry.0 < self.graph.nodes@.len()
        &&& self.exit.0 < self.graph.nodes@.len()
        &&& self.graph.nodes@[self.entry.0 as int].data.model() == CaveModel::Entry
        &&& self.graph.nodes@[self.exit.0 as int].data.model() == CaveModel::Exit
    }

    /// Build the cave system from its connection lines: one node per
    /// distinct cave, and an edge in each direction per connection.
    pub fn parse(lines: &Vec<Vec<u8>>) -> (r: Result<CaveSystem, CaveSystemError>)
        ensures
            r matches Ok(cs) ==> cs.wf(),
    {
        let mut graph = Graph::new();
        let mut i: usize = 0;
        while i < lines.len()
            decreases lines@.len() - i,
        {
            let (source, target) = match parse_connection(lines[i].as_slice()) {
                Err(e) => {
                    return Err(e);
                },
                Ok(p) => p,
            };
            let source_node = match graph.find_node(&source) {
                Some(idx) => idx,
                None => graph.add_node(source),
            };
            let target_node = match graph.find_node(&target) {
                Some(idx) => idx,
                None => graph.add_node(target),
            };
            graph.add_edge(source_node, target_node);
            graph.add_edge(target_node, source_node);
            i = i + 1;
        }
        let entry = match graph.find_node(&Cave::Entry) {
            Some(idx) => idx,
            None => {
                return Err(CaveSystemError::MissingEntry);
            },
        };
        let exit = match graph.find_node(&Cave::Exit) {
            Some(idx) => idx,
            None => {
                return Err(CaveSystemError::MissingExit);
            },
        };
        proof {
            lemma_first_node_is(graph.nodes@, CaveModel::Entry);
            lemma_first_node_is(graph.nodes@, CaveModel::Exit);
        }
        Ok(CaveSystem { graph, entry, exit })
    }
}

/// A found node carries the cave it was looked up by.
proof fn lemma_first_node_is(nodes: Seq<Node>, data: CaveModel)
    ensures
        first_node_with(nodes, data) >= 0 ==> first_node_with(nodes, data) < nodes.len()
            && nodes[first_node_with(nodes, data)].data.model() == data,
{
    lemma_first_node_with(nodes, data);
}

/// Which rule decides whether a cave may be visited again.
#[derive(Debug, Clone, Copy, PartialEq, Eq, Structural)]
pub enum VisitRule {
    /// Big caves any number of times, small caves at most once.
    SmallOnce,
    /// Big caves any number of times, one small cave twice, the rest once.
    OneSmallTwice,
}

/// A path through the graph by node index, with whether it has already
/// visited some small cave twice.
struct PathState {
    nodes: Vec<usize>,
    doubled: bool,
}

/// Every path in the list runs from the entry, stays within the graph, and
/// is nonempty.
spec fn paths_wf(paths: Seq<PathState>, entry: int, n_nodes: int) -> bool {
    forall|k: int|
        0 <= k < paths.len() ==> {
            let p = #[trigger] paths[k].nodes@;
            &&& p.len() >= 1
            &&& p[0] == entry
            &&& p.last() < n_nodes
        }
}

impl CaveSystem {
    /// Enumerate every path from the entry to the exit allowed by the
    /// visiting rule, as node index lists.
    ///
    /// The search spends one unit of `fuel` per examined path and gives up
    /// with `None` when it runs out, so it always answers; a graph whose
    /// big caves touch has unboundedly many paths.
    pub fn find_paths(&self, rule: VisitRule, fuel: usize) -> (r: Option<Vec<Vec<usize>>>)
        requires
            self.wf(),
        ensures
            r matches Some(paths) ==> forall|k: int|
                0 <= k < paths@.len() ==> {
                    let p = #[trigger] paths@[k]@;
                    &&& p.len() >= 1
                    &&& p[0] == self.entry.0
                    &&& p.last() == self.exit.0
                },
    {
        let ghost n_nodes = self.graph.nodes@.len() as int;
        let mut queue: Vec<PathState> = Vec::new();
        let mut first: Vec<usize> = Vec::new();
        first.push(self.entry.0);
        queue.push(PathState { nodes: first, doubled: false });
        let mut results: Vec<Vec<usize>> = Vec::new();
        let mut head: usize = 0;
        let mut left = fuel;
        while head < queue.len()
            invariant
                self.wf(),
                n_nodes == self.graph.nodes@.len(),
                paths_wf(queue@, self.entry.0 as int, n_nodes),
                0 <= head <= queue@.len(),
                forall|k: int|
                    0 <= k < results@.len() ==> {
                        let p = #[trigger] results@[k]@;
                        &&& p.len() >= 1
                        &&& p[0] == self.entry.0
                        &&& p.last() == self.exit.0
                    },
            decreases left,
        {
            if left == 0 {
                return None;
            }
            left = left - 1;
            let path_len = queue[head].nodes.len();
            let last = queue[head].nodes[path_len - 1];
            let doubled = queue[head].doubled;
            if last == self.exit.0 {
                let mut copy: Vec<usize> = Vec::new();
                let mut c: usize = 0;
                while c < queue[head].nodes.len()
                    invariant
                        head < queue@.len(),
                        0 <= c <= queue@[head as int].nodes@.len(),
                        copy@ == queue@[head as int].nodes@.take(c as int),
                    decreases queue@[head as int].nodes@.len() - c,
                {
                    proof {
                        assert(queue@[head as int].nodes@.take(c as int + 1)
                            =~= queue@[head as int].nodes@.take(c as int).push(
                            queue@[head as int].nodes@[c as int],
                        ));
                    }
                    copy.push(queue[head].nodes[c]);
                    c = c + 1;
                }
                proof {
                    assert(queue@[head as int].nodes@.take(queue@[head as int].nodes@.len() as int)
                        =~= queue@[head as int].nodes@);
                }
                results.push(copy);
                head = head + 1;
                continue ;
            }
            let ghost left0 = left as int;
            let mut edge_index = self.graph.nodes[last].edge;
            while edge_index.is_some()
                invariant
                    left <= left0,
                    self.wf(),
                    n_nodes == self.graph.nodes@.len(),
                    paths_wf(queue@, self.entry.0 as int, n_nodes),
                    head < queue@.len(),
                    queue@[head as int].nodes@.len() >= 1,
                    queue@[head as int].nodes@[0] == self.entry.0,
                decreases left,
            {
                if left == 0 {
                    return None;
                }
                left = left - 1;
                let index = match edge_index {
                    Some(e) => e,
                    None => {
                        break ;
                    },
                };
                let edge = match self.graph.edges.get(index.0) {
                    Some(e) => *e,
                    None => {
                        break ;
                    },
                };
                let target = edge.target;
                if target.0 < self.graph.nodes.len() {
                    match self.try_visit(rule, head, &queue, target.0, doubled) {
                        Some(now_doubled) => {
                            let mut new_path: Vec<usize> = Vec::new();
                            let mut c: usize = 0;
                            while c < queue[head].nodes.len()
                                invariant
                                    head < queue@.len(),
                                    0 <= c <= queue@[head as int].nodes@.len(),
                                    new_path@ == queue@[head as int].nodes@.take(c as int),
                                decreases queue@[head as int].nodes@.len() - c,
                            {
                                proof {
                                    assert(queue@[head as int].nodes@.take(c as int + 1)
                                        =~= queue@[head as int].nodes@.take(c as int).push(
                                        queue@[head as int].nodes@[c as int],
                                    ));
                                }
                                new_path.push(queue[head].nodes[c]);
                                c = c + 1;
                            }
                            new_path.push(target.0);
                            queue.push(PathState { nodes: new_path, doubled: now_doubled });
                        },
                        None => {},
                    }
                }
                edge_index = edge.next;
            }
            head = head + 1;
        }
        Some(results)
    }

    /// Whether the rule lets the path at `head` step onto `target`, and
    /// whether that step uses up the one allowed second small-cave visit.
    fn try_visit(
        &self,
        rule: VisitRule,
        head: usize,
        queue: &Vec<PathState>,
        target: usize,
        doubled: bool,
    ) -> (r: Option<bool>)
        requires
            head < queue@.len(),
            target < self.graph.nodes@.len(),
    {
        let is_big = matches!(&self.graph.nodes[target].data, Cave::Big(_));
        if is_big {
            return Some(doubled);
        }
        let mut visits: usize = 0;
        let mut c: usize = 0;
        let n = queue[head].nodes.len();
        while c < n
            invariant
                head < queue@.len(),
                n == queue@[head as int].nodes@.len(),
                0 <= c <= n,
                visits <= c,
            decreases n - c,
        {
            if queue[head].nodes[c] == target {
                visits = visits + 1;
            }
            c = c + 1;
        }
        if visits == 0 {
            return Some(doubled);
        }
        match rule {
            VisitRule::SmallOnce => None,
            VisitRule::OneSmallTwice => {
                let is_terminal = matches!(
                    &self.graph.nodes[target].data,
                    Cave::Entry | Cave::Exit,
                );
                if is_terminal {
                    None
                } else if visits == 1 && !doubled {
                    Some(true)
                } else {
                    None
                }
            },
        }
    }
}

} // verus!
