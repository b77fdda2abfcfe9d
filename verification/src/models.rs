//! The automaton store: nodes and connections with identity, merge rules on
//! duplicate names and duplicate ordered pairs, start-node assignment, id
//! defragmentation, and the graph-description exporter.

use crate::text::{join_commas, join_with_commas, seq_views};
use vstd::prelude::*;

verus! {

/// Mathematical model of a node: its id, its name, and whether it accepts.
pub ghost struct NodeModel {
    pub id: int,
    pub name: Seq<char>,
    pub acceptor: bool,
}

/// Mathematical model of a connection between two node ids, carrying an
/// ordered sequence of symbols.
pub ghost struct ConnModel {
    pub id: int,
    pub from: int,
    pub to: int,
    pub symbols: Seq<Seq<char>>,
}

/// Mathematical model of the automaton store.
#[verifier::ext_equal]
pub ghost struct AutomataModel {
    pub id_counter: int,
    pub nodes: Seq<NodeModel>,
    pub connections: Seq<ConnModel>,
}

pub open spec fn node_models(s: Seq<Node>) -> Seq<NodeModel> {
    Seq::new(s.len(), |i: int| s[i]@)
}

pub open spec fn conn_models(s: Seq<Connection>) -> Seq<ConnModel> {
    Seq::new(s.len(), |i: int| s[i]@)
}

/// Index of the first node carrying `name`, or `nodes.len()` when absent.
pub open spec fn idx_by_name(nodes: Seq<NodeModel>, name: Seq<char>) -> int
    decreases nodes.len(),
{
    if nodes.len() == 0 {
        0
    } else if nodes[0].name == name {
        0
    } else {
        1 + idx_by_name(nodes.subrange(1, nodes.len() as int), name)
    }
}

/// Index of the first node carrying `id`, or `nodes.len()` when absent.
pub open spec fn idx_by_id(nodes: Seq<NodeModel>, id: int) -> int
    decreases nodes.len(),
{
    if nodes.len() == 0 {
        0
    } else if nodes[0].id == id {
        0
    } else {
        1 + idx_by_id(nodes.subrange(1, nodes.len() as int), id)
    }
}

/// Index of the first connection with the ordered pair `(from, to)`, or
/// `conns.len()` when absent.
pub open spec fn idx_by_pair(conns: Seq<ConnModel>, from: int, to: int) -> int
    decreases conns.len(),
{
    if conns.len() == 0 {
        0
    } else if conns[0].from == from && conns[0].to == to {
        0
    } else {
        1 + idx_by_pair(conns.subrange(1, conns.len() as int), from, to)
    }
}

pub open spec fn has_node_id(nodes: Seq<NodeModel>, id: int) -> bool {
    exists|k: int| 0 <= k < nodes.len() && #[trigger] nodes[k].id == id
}

pub proof fn lemma_idx_by_name(nodes: Seq<NodeModel>, name: Seq<char>)
    ensures
        0 <= idx_by_name(nodes, name) <= nodes.len(),
        idx_by_name(nodes, name) < nodes.len() ==> nodes[idx_by_name(nodes, name)].name == name,
        forall|m: int| 0 <= m < idx_by_name(nodes, name) ==> nodes[m].name != name,
    decreases nodes.len(),
{
    if nodes.len() == 0 {
    } else if nodes[0].name == name {
    } else {
        let t = nodes.subrange(1, nodes.len() as int);
        lemma_idx_by_name(t, name);
        assert forall|m: int| 0 <= m < idx_by_name(nodes, name) implies nodes[m].name != name by {
            if m > 0 {
                assert(t[m - 1] == nodes[m]);
            }
        }
    }
}

pub proof fn lemma_idx_by_name_at(nodes: Seq<NodeModel>, name: Seq<char>, j: int)
    requires
        0 <= j <= nodes.len(),
        forall|m: int| 0 <= m < j ==> nodes[m].name != name,
        j < nodes.len() ==> nodes[j].name == name,
    ensures
        idx_by_name(nodes, name) == j,
    decreases nodes.len(),
{
    if nodes.len() == 0 {
    } else if nodes[0].name == name {
        if j > 0 {
            assert(nodes[0].name != name);
        }
    } else {
        let t = nodes.subrange(1, nodes.len() as int);
        assert(j >= 1) by {
            if j == 0 {
                assert(nodes[j].name == name);
            }
        }
        assert(forall|m: int| 0 <= m < j - 1 ==> t[m] == nodes[m + 1] && nodes[m + 1].name
            != name);
        assert(j - 1 < t.len() ==> t[j - 1] == nodes[j]);
        lemma_idx_by_name_at(t, name, j - 1);
    }
}

pub proof fn lemma_idx_by_id(nodes: Seq<NodeModel>, id: int)
    ensures
        0 <= idx_by_id(nodes, id) <= nodes.len(),
        idx_by_id(nodes, id) < nodes.len() ==> nodes[idx_by_id(nodes, id)].id == id,
        forall|m: int| 0 <= m < idx_by_id(nodes, id) ==> nodes[m].id != id,
        has_node_id(nodes, id) ==> idx_by_id(nodes, id) < nodes.len(),
    decreases nodes.len(),
{
    if nodes.len() == 0 {
    } else if nodes[0].id == id {
    } else {
        let t = nodes.subrange(1, nodes.len() as int);
        lemma_idx_by_id(t, id);
        assert forall|m: int| 0 <= m < idx_by_id(nodes, id) implies nodes[m].id != id by {
            if m > 0 {
                assert(t[m - 1] == nodes[m]);
            }
        }
        if has_node_id(nodes, id) {
            let w = choose|k: int| 0 <= k < nodes.len() && #[trigger] nodes[k].id == id;
            assert(t[w - 1].id == id);
            assert(has_node_id(t, id));
        }
    }
}

pub proof fn lemma_idx_by_id_at(nodes: Seq<NodeModel>, id: int, j: int)
    requires
        0 <= j <= nodes.len(),
        forall|m: int| 0 <= m < j ==> nodes[m].id != id,
        j < nodes.len() ==> nodes[j].id == id,
    ensures
        idx_by_id(nodes, id) == j,
    decreases nodes.len(),
{
    if nodes.len() == 0 {
    } else if nodes[0].id == id {
        if j > 0 {
            assert(nodes[0].id != id);
        }
    } else {
        let t = nodes.subrange(1, nodes.len() as int);
        assert(j >= 1) by {
            if j == 0 {
                assert(nodes[j].id == id);
            }
        }
        assert(forall|m: int| 0 <= m < j - 1 ==> t[m] == nodes[m + 1] && nodes[m + 1].id != id);
        assert(j - 1 < t.len() ==> t[j - 1] == nodes[j]);
        lemma_idx_by_id_at(t, id, j - 1);
    }
}

pub proof fn lemma_idx_by_pair(conns: Seq<ConnModel>, from: int, to: int)
    ensures
        0 <= idx_by_pair(conns, from, to) <= conns.len(),
        idx_by_pair(conns, from, to) < conns.len() ==> conns[idx_by_pair(conns, from, to)].from
            == from && conns[idx_by_pair(conns, from, to)].to == to,
        forall|m: int|
            0 <= m < idx_by_pair(conns, from, to) ==> !(conns[m].from == from && conns[m].to
                == to),
    decreases conns.len(),
{
    if conns.len() == 0 {
    } else if conns[0].from == from && conns[0].to == to {
    } else {
        let t = conns.subrange(1, conns.len() as int);
        lemma_idx_by_pair(t, from, to);
        assert forall|m: int| 0 <= m < idx_by_pair(conns, from, to) implies !(conns[m].from
            == from && conns[m].to == to) by {
            if m > 0 {
                assert(t[m - 1] == conns[m]);
            }
        }
    }
}

pub proof fn lemma_idx_by_pair_at(conns: Seq<ConnModel>, from: int, to: int, j: int)
    requires
        0 <= j <= conns.len(),
        forall|m: int| 0 <= m < j ==> !(conns[m].from == from && conns[m].to == to),
        j < conns.len() ==> conns[j].from == from && conns[j].to == to,
    ensures
        idx_by_pair(conns, from, to) == j,
    decreases conns.len(),
{
    if conns.len() == 0 {
    } else if conns[0].from == from && conns[0].to == to {
        if j > 0 {
            assert(!(conns[0].from == from && conns[0].to == to));
        }
    } else {
        let t = conns.subrange(1, conns.len() as int);
        assert(j >= 1) by {
            if j == 0 {
                assert(conns[j].from == from && conns[j].to == to);
            }
        }
        assert(forall|m: int|
            0 <= m < j - 1 ==> t[m] == conns[m + 1] && !(conns[m + 1].from == from && conns[m
                + 1].to == to));
        assert(j - 1 < t.len() ==> t[j - 1] == conns[j]);
        lemma_idx_by_pair_at(t, from, to, j - 1);
    }
}

/// Well-formedness of the store: names identify nodes uniquely, ids are
/// unique and bounded by the id counter, ordered pairs identify connections
/// uniquely, every connection endpoint names an existing node, and the id
/// counter never exceeds the number of ids ever handed out.
pub open spec fn wf_model(m: AutomataModel) -> bool {
    &&& forall|i: int, j: int|
        0 <= i < j < m.nodes.len() ==> #[trigger] m.nodes[i].name != #[trigger] m.nodes[j].name
    &&& forall|i: int, j: int|
        0 <= i < j < m.nodes.len() ==> #[trigger] m.nodes[i].id != #[trigger] m.nodes[j].id
    &&& forall|i: int, j: int|
        0 <= i < j < m.connections.len() ==> #[trigger] m.connections[i].id
            != #[trigger] m.connections[j].id
    &&& forall|i: int, j: int|
        0 <= i < j < m.connections.len() ==> !(#[trigger] m.connections[i].from
            == #[trigger] m.connections[j].from && m.connections[i].to == m.connections[j].to)
    &&& forall|i: int| 0 <= i < m.nodes.len() ==> 0 <= #[trigger] m.nodes[i].id <= m.id_counter
    &&& forall|i: int|
        0 <= i < m.connections.len() ==> 0 <= #[trigger] m.connections[i].id <= m.id_counter
    &&& forall|i: int|
        0 <= i < m.connections.len() ==> has_node_id(m.nodes, #[trigger] m.connections[i].from)
            && has_node_id(m.nodes, m.connections[i].to)
    &&& 0 <= m.id_counter <= m.nodes.len() + m.connections.len()
}

/// The empty store.
pub open spec fn empty_model() -> AutomataModel {
    AutomataModel { id_counter: 0, nodes: Seq::empty(), connections: Seq::empty() }
}

/// Merge-insert of a node by name: an existing node of the same name keeps
/// its id but refuses a differing acceptor flag (`None`); an unseen name is
/// appended under a fresh id.
pub open spec fn merge_node_model(m: AutomataModel, name: Seq<char>, acceptor: bool) -> Option<
    (AutomataModel, int),
> {
    let i = idx_by_name(m.nodes, name);
    if i < m.nodes.len() {
        if m.nodes[i].acceptor != acceptor {
            None
        } else {
            Some((m, m.nodes[i].id))
        }
    } else {
        let id = m.id_counter + 1;
        Some(
            (
                AutomataModel {
                    id_counter: id,
                    nodes: m.nodes.push(NodeModel { id, name, acceptor }),
                    connections: m.connections,
                },
                id,
            ),
        )
    }
}

/// Merge-insert of a connection by ordered pair: an existing pair keeps its
/// id and concatenates the new symbols after its own; an unseen pair is
/// appended under a fresh id.
pub open spec fn merge_conn_model(
    m: AutomataModel,
    from: int,
    to: int,
    symbols: Seq<Seq<char>>,
) -> (AutomataModel, int) {
    let i = idx_by_pair(m.connections, from, to);
    if i < m.connections.len() {
        let c = m.connections[i];
        (
            AutomataModel {
                id_counter: m.id_counter,
                nodes: m.nodes,
                connections: m.connections.update(
                    i,
                    ConnModel { id: c.id, from: c.from, to: c.to, symbols: c.symbols + symbols },
                ),
            },
            c.id,
        )
    } else {
        let id = m.id_counter + 1;
        (
            AutomataModel {
                id_counter: id,
                nodes: m.nodes,
                connections: m.connections.push(ConnModel { id, from, to, symbols }),
            },
            id,
        )
    }
}

/// The store with the nodes at positions `0` and `i` exchanged.
pub open spec fn swap_first_model(m: AutomataModel, i: int) -> AutomataModel {
    AutomataModel {
        id_counter: m.id_counter,
        nodes: m.nodes.update(0, m.nodes[i]).update(i, m.nodes[0]),
        connections: m.connections,
    }
}

/// A node: an internal id, the unique natural key `name`, and the acceptor
/// flag.
#[derive(Debug)]
pub struct Node {
    pub id: usize,
    pub name: String,
    pub acceptor: bool,
}

impl View for Node {
    type V = NodeModel;

    open spec fn view(&self) -> NodeModel {
        NodeModel { id: self.id as int, name: self.name@, acceptor: self.acceptor }
    }
}

/// A connection: an internal id, the ordered pair of node ids it joins, and
/// its symbols in insertion order.
#[derive(Debug)]
pub struct Connection {
    pub id: usize,
    pub from: usize,
    pub to: usize,
    pub symbols: Vec<String>,
}

impl View for Connection {
    type V = ConnModel;

    open spec fn view(&self) -> ConnModel {
        ConnModel {
            id: self.id as int,
            from: self.from as int,
            to: self.to as int,
            symbols: seq_views(self.symbols@),
        }
    }
}

/// The automaton store.
#[derive(Debug)]
pub struct Automata {
    id_counter: usize,
    nodes: Vec<Node>,
    connections: Vec<Connection>,
}

impl View for Automata {
    type V = AutomataModel;

    closed spec fn view(&self) -> AutomataModel {
        AutomataModel {
            id_counter: self.id_counter as int,
            nodes: node_models(self.nodes@),
            connections: conn_models(self.connections@),
        }
    }
}

impl Default for Automata {
    /// The empty store with its id counter at zero.
    fn default() -> (a: Automata)
        ensures
            a@ == empty_model(),
            a.wf(),
    {
        let a = Automata { id_counter: 0, nodes: Vec::new(), connections: Vec::new() };
        proof {
            assert(a@ =~= empty_model());
        }
        a
    }
}

impl Automata {
    pub open spec fn wf(&self) -> bool {
        wf_model(self@)
    }

    /// Hands out the next unused id, one above every id handed out before.
    fn gen_id(&mut self) -> (id: usize)
        requires
            old(self)@.id_counter < usize::MAX,
        ensures
            final(self)@.id_counter == old(self)@.id_counter + 1,
            id as int == old(self)@.id_counter + 1,
            final(self)@.nodes == old(self)@.nodes,
            final(self)@.connections == old(self)@.connections,
    {
        self.id_counter = self.id_counter + 1;
        self.id_counter
    }

    /// The nodes, in insertion order except for start-node swaps.
    pub fn nodes(&self) -> (r: &Vec<Node>)
        ensures
            node_models(r@) == self@.nodes,
    {
        &self.nodes
    }

    /// The connections, in insertion order.
    pub fn connections(&self) -> (r: &Vec<Connection>)
        ensures
            conn_models(r@) == self@.connections,
    {
        &self.connections
    }

    /// The node carrying `id`; with a well-formed store there is exactly one.
    pub fn get_node(&self, id: usize) -> (r: &Node)
        requires
            has_node_id(self@.nodes, id as int),
        ensures
            r@ == self@.nodes[idx_by_id(self@.nodes, id as int)],
            r@.id == id as int,
    {
        let n = self.nodes.len();
        let mut i: usize = 0;
        proof {
            lemma_idx_by_id(self@.nodes, id as int);
        }
        while i < n
            invariant
                0 <= i <= n,
                n == self@.nodes.len(),
                self@.nodes == node_models(self.nodes@),
                forall|m: int| 0 <= m < i ==> self@.nodes[m].id != id as int,
                idx_by_id(self@.nodes, id as int) < n,
            decreases n - i,
        {
            if self.nodes[i].id == id {
                proof {
                    lemma_idx_by_id_at(self@.nodes, id as int, i as int);
                }
                return &self.nodes[i];
            }
            i = i + 1;
        }
        proof {
            lemma_idx_by_id_at(self@.nodes, id as int, n as int);
            assert(false);
        }
        &self.nodes[0]
    }

    /// Position of the node carrying `id` in the node sequence.
    pub fn index_of_id(&self, id: usize) -> (i: usize)
        requires
            has_node_id(self@.nodes, id as int),
        ensures
            i as int == idx_by_id(self@.nodes, id as int),
            i < self@.nodes.len(),
    {
        let n = self.nodes.len();
        let mut i: usize = 0;
        proof {
            lemma_idx_by_id(self@.nodes, id as int);
        }
        while i < n
            invariant
                0 <= i <= n,
                n == self@.nodes.len(),
                self@.nodes == node_models(self.nodes@),
                forall|m: int| 0 <= m < i ==> self@.nodes[m].id != id as int,
                idx_by_id(self@.nodes, id as int) < n,
            decreases n - i,
        {
            if self.nodes[i].id == id {
                proof {
                    lemma_idx_by_id_at(self@.nodes, id as int, i as int);
                }
                return i;
            }
            i = i + 1;
        }
        proof {
            lemma_idx_by_id_at(self@.nodes, id as int, n as int);
            assert(false);
        }
        0
    }

    /// Merge-inserts `node` by name: an unseen name is appended under a
    /// fresh id, a seen one keeps its id, and a seen name whose acceptor
    /// flag disagrees is refused and leaves the store unchanged.
    pub fn push_or_merge_node(&mut self, node: Node) -> (r: Result<usize, ()>)
        requires
            old(self).wf(),
            old(self)@.id_counter < usize::MAX,
        ensures
            final(self).wf(),
            match merge_node_model(old(self)@, node@.name, node@.acceptor) {
                Some(p) => r matches Ok(id) && id as int == p.1 && final(self)@ == p.0
                    && has_node_id(final(self)@.nodes, id as int),
                None => r matches Err(u) && final(self)@ == old(self)@,
            },
    {
        let n = self.nodes.len();
        let ghost m0 = self@;
        let mut i: usize = 0;
        while i < n
            invariant
                0 <= i <= n,
                self@ == old(self)@,
                old(self).wf(),
                old(self)@.id_counter < usize::MAX,
                n == self@.nodes.len(),
                self@.nodes == node_models(self.nodes@),
                forall|k: int| 0 <= k < i ==> self@.nodes[k].name != node@.name,
            decreases n - i,
        {
            if self.nodes[i].name == node.name {
                proof {
                    lemma_idx_by_name_at(self@.nodes, node@.name, i as int);
                }
                if self.nodes[i].acceptor != node.acceptor {
                    return Err(());
                }
                let id = self.nodes[i].id;
                proof {
                    assert(self@.nodes[i as int].id == id as int);
                }
                return Ok(id);
            }
            i = i + 1;
        }
        proof {
            lemma_idx_by_name_at(self@.nodes, node@.name, n as int);
        }
        let id = self.gen_id();
        let mut node = node;
        node.id = id;
        self.nodes.push(node);
        proof {
            let m1 = self@;
            assert(m1.nodes =~= m0.nodes.push(
                NodeModel { id: id as int, name: node@.name, acceptor: node@.acceptor },
            ));
            assert(m1.connections =~= m0.connections);
            assert(m1 =~= merge_node_model(m0, node@.name, node@.acceptor).unwrap().0);
            assert(m1.nodes[m0.nodes.len() as int].id == id as int);
            lemma_wf_after_push_node(m0, node@.name, node@.acceptor);
        }
        Ok(id)
    }

    /// Merge-inserts `conn` by its ordered pair: an unseen pair is appended
    /// under a fresh id; a seen pair keeps its id and gains `conn`'s symbols
    /// after its own, in order.
    pub fn push_or_merge_connection(&mut self, conn: Connection) -> (r: Result<usize, ()>)
        requires
            old(self).wf(),
            old(self)@.id_counter < usize::MAX,
            has_node_id(old(self)@.nodes, conn@.from),
            has_node_id(old(self)@.nodes, conn@.to),
        ensures
            final(self).wf(),
            r matches Ok(id) && id as int == merge_conn_model(
                old(self)@,
                conn@.from,
                conn@.to,
                conn@.symbols,
            ).1,
            final(self)@ == merge_conn_model(old(self)@, conn@.from, conn@.to, conn@.symbols).0,
    {
        let ghost cfrom = conn@.from;
        let ghost cto = conn@.to;
        let ghost csyms = conn@.symbols;
        let n = self.connections.len();
        let ghost m0 = self@;
        let mut i: usize = 0;
        while i < n
            invariant
                0 <= i <= n,
                self@ == old(self)@,
                old(self).wf(),
                old(self)@.id_counter < usize::MAX,
                has_node_id(old(self)@.nodes, cfrom),
                has_node_id(old(self)@.nodes, cto),
                cfrom == conn@.from,
                cto == conn@.to,
                csyms == conn@.symbols,
                n == self@.connections.len(),
                self@.connections == conn_models(self.connections@),
                forall|k: int|
                    0 <= k < i ==> !(self@.connections[k].from == cfrom
                        && self@.connections[k].to == cto),
            decreases n - i,
        {
            if self.connections[i].from == conn.from && self.connections[i].to == conn.to {
                proof {
                    lemma_idx_by_pair_at(self@.connections, cfrom, cto, i as int);
                }
                let mut conn = conn;
                let mut old_c = self.connections.remove(i);
                let id = old_c.id;
                old_c.symbols.append(&mut conn.symbols);
                self.connections.insert(i, old_c);
                proof {
                    let m1 = self@;
                    let goal = merge_conn_model(old(self)@, cfrom, cto, csyms).0;
                    let oc = old(self)@.connections[i as int];
                    assert(old_c@.symbols =~= oc.symbols + csyms);
                    assert(m1.connections =~= old(self)@.connections.update(
                        i as int,
                        ConnModel { id: oc.id, from: oc.from, to: oc.to, symbols: oc.symbols
                            + csyms },
                    ));
                    assert(m1.nodes =~= old(self)@.nodes);
                    assert(m1 =~= goal);
                    lemma_wf_after_merge_conn(old(self)@, cfrom, cto, csyms);
                }
                return Ok(id);
            }
            i = i + 1;
        }
        proof {
            lemma_idx_by_pair_at(self@.connections, cfrom, cto, n as int);
        }
        let id = self.gen_id();
        let mut conn = conn;
        conn.id = id;
        let ghost cm = conn@;
        self.connections.push(conn);
        proof {
            let m1 = self@;
            let goal = merge_conn_model(m0, cfrom, cto, csyms).0;
            assert(m1.connections =~= m0.connections.push(
                ConnModel { id: id as int, from: cfrom, to: cto, symbols: csyms },
            ));
            assert(m1.nodes =~= m0.nodes);
            assert(m1 =~= goal);
            lemma_wf_after_merge_conn(m0, cfrom, cto, csyms);
        }
        Ok(id)
    }

    /// Exchanges the nodes at positions `0` and `idx`, making the node at
    /// `idx` the designated start node.
    pub fn set_input(&mut self, idx: usize)
        requires
            idx < old(self)@.nodes.len(),
        ensures
            final(self)@ == swap_first_model(old(self)@, idx as int),
            old(self).wf() ==> final(self).wf(),
    {
        let ghost m0 = self@;
        if idx > 0 {
            let a = self.nodes.remove(idx);
            let b = self.nodes.remove(0);
            self.nodes.insert(0, a);
            self.nodes.insert(idx, b);
        }
        proof {
            let m1 = self@;
            let goal = swap_first_model(m0, idx as int);
            assert(m1.nodes =~= goal.nodes);
            assert(m1 =~= goal);
            if wf_model(m0) {
                lemma_wf_after_swap(m0, idx as int);
            }
        }
    }

    /// Recomputes a dense zero-based id assignment for nodes and for
    /// connections independently, remaps every connection endpoint, and
    /// resets the counter to the larger of the two new id-space sizes.
    pub fn defragment_ids(&mut self)
        requires
            old(self).wf(),
        ensures
            final(self)@ == defrag_model(old(self)@),
            final(self).wf(),
    {
        let ghost goal = defrag_model(old(self)@);
        let cn = self.connections.len();
        let mut j: usize = 0;
        while j < cn
            invariant
                0 <= j <= cn,
                old(self).wf(),
                cn == self@.connections.len(),
                cn == old(self)@.connections.len(),
                self@.nodes == old(self)@.nodes,
                self@.id_counter == old(self)@.id_counter,
                goal == defrag_model(old(self)@),
                forall|k: int|
                    0 <= k < j ==> #[trigger] self@.connections[k] == goal.connections[k],
                forall|k: int|
                    j <= k < cn ==> #[trigger] self@.connections[k]
                        == old(self)@.connections[k],
            decreases cn - j,
        {
            let ghost pre = self@;
            let mut c = self.connections.remove(j);
            proof {
                assert(pre.connections[j as int] == c@);
                assert(pre.connections[j as int] == old(self)@.connections[j as int]);
                assert(c@.from == old(self)@.connections[j as int].from);
                assert(c@.to == old(self)@.connections[j as int].to);
                assert(self@.nodes == pre.nodes);
                assert(has_node_id(self@.nodes, c@.from) && has_node_id(self@.nodes, c@.to));
            }
            let fi = self.index_of_id(c.from);
            let ti = self.index_of_id(c.to);
            c.from = fi;
            c.to = ti;
            c.id = j;
            self.connections.insert(j, c);
            proof {
                assert(self@.connections =~= pre.connections.update(j as int, c@));
                assert(self@.connections[j as int] == c@);
                assert(goal.connections[j as int] == ConnModel {
                    id: j as int,
                    from: idx_by_id(old(self)@.nodes, old(self)@.connections[j as int].from),
                    to: idx_by_id(old(self)@.nodes, old(self)@.connections[j as int].to),
                    symbols: old(self)@.connections[j as int].symbols,
                });
                assert(c@ == goal.connections[j as int]);
            }
            j = j + 1;
        }
        let nn = self.nodes.len();
        let mut i: usize = 0;
        while i < nn
            invariant
                0 <= i <= nn,
                nn == self@.nodes.len(),
                nn == old(self)@.nodes.len(),
                cn == self@.connections.len(),
                cn == old(self)@.connections.len(),
                self@.id_counter == old(self)@.id_counter,
                goal == defrag_model(old(self)@),
                forall|k: int|
                    0 <= k < cn ==> #[trigger] self@.connections[k] == goal.connections[k],
                forall|k: int| 0 <= k < i ==> #[trigger] self@.nodes[k] == goal.nodes[k],
                forall|k: int| i <= k < nn ==> #[trigger] self@.nodes[k] == old(self)@.nodes[k],
            decreases nn - i,
        {
            let ghost pre = self@;
            let mut nd = self.nodes.remove(i);
            nd.id = i;
            self.nodes.insert(i, nd);
            proof {
                assert(self@.nodes =~= pre.nodes.update(i as int, nd@));
                assert(self@.connections =~= pre.connections);
                assert(pre.nodes[i as int] == old(self)@.nodes[i as int]);
                assert(nd@ == NodeModel {
                    id: i as int,
                    name: old(self)@.nodes[i as int].name,
                    acceptor: old(self)@.nodes[i as int].acceptor,
                });
                assert(self@.nodes[i as int] == goal.nodes[i as int]);
            }
            i = i + 1;
        }
        let cn2 = self.connections.len();
        self.id_counter = if nn >= cn2 {
            nn
        } else {
            cn2
        };
        proof {
            assert(self@.nodes =~= goal.nodes);
            assert(self@.connections =~= goal.connections);
            assert(self@ =~= goal);
            lemma_wf_after_defrag(old(self)@);
        }
    }

    /// Appends the graph description of the store to `out`: the fixed
    /// header, each acceptor node's quoted name, the anchor edge into the
    /// start node `nodes[0]`, and one labelled edge line per connection.
    pub fn write_graphviz(&self, out: &mut String)
        requires
            self.wf(),
            self@.nodes.len() > 0,
        ensures
            final(out)@ == old(out)@ + gvz_text(self@),
    {
        let ghost base = old(out)@;
        out.append(
            "digraph {\n    rankdir = LR\n    splines = line\n    n0 [label=\"\",shape=none,height=.0,width=.0]\n    node [shape=\"doublecircle\"]\n",
        );
        let n = self.nodes.len();
        let mut i: usize = 0;
        while i < n
            invariant
                0 <= i <= n,
                self.wf(),
                n == self@.nodes.len(),
                self@.nodes == node_models(self.nodes@),
                out@ + accept_lines_from(self@.nodes, i as int) == base + gvz_header()
                    + accept_lines_from(self@.nodes, 0),
            decreases n - i,
        {
            let ghost o0 = out@;
            if self.nodes[i].acceptor {
                out.append("    \"");
                out.append(self.nodes[i].name.as_str());
                out.append("\"\n");
                proof {
                    assert(out@ =~= o0 + accept_line(self@.nodes[i as int]));
                }
            }
            proof {
                assert(out@ + accept_lines_from(self@.nodes, i + 1) =~= o0 + accept_lines_from(
                    self@.nodes,
                    i as int,
                ));
            }
            i = i + 1;
        }
        proof {
            assert(out@ + accept_lines_from(self@.nodes, n as int) =~= out@);
        }
        out.append("    node [shape=\"circle\"]\n    n0 -> \"");
        out.append(self.nodes[0].name.as_str());
        out.append("\"\n");
        let ghost mid = base + gvz_header() + accept_lines_from(self@.nodes, 0)
            + "    node [shape=\"circle\"]\n    n0 -> \""@ + self@.nodes[0].name + "\"\n"@;
        proof {
            assert(out@ =~= mid);
        }
        let cn = self.connections.len();
        let mut j: usize = 0;
        while j < cn
            invariant
                0 <= j <= cn,
                self.wf(),
                cn == self@.connections.len(),
                self@.connections == conn_models(self.connections@),
                self@.nodes == node_models(self.nodes@),
                mid == base + gvz_header() + accept_lines_from(self@.nodes, 0)
                    + "    node [shape=\"circle\"]\n    n0 -> \""@ + self@.nodes[0].name
                    + "\"\n"@,
                out@ + conn_lines_from(self@, j as int) == mid + conn_lines_from(self@, 0),
            decreases cn - j,
        {
            let ghost o0 = out@;
            proof {
                assert(self@.connections[j as int] == self.connections@[j as int]@);
            }
            let from_node = self.get_node(self.connections[j].from);
            out.append("    \"");
            out.append(from_node.name.as_str());
            out.append("\" -> \"");
            let to_node = self.get_node(self.connections[j].to);
            out.append(to_node.name.as_str());
            out.append("\" [label=\"");
            let label = join_with_commas(&self.connections[j].symbols);
            out.append(label.as_str());
            out.append("\"]\n");
            proof {
                assert(out@ =~= o0 + conn_line(self@, self@.connections[j as int]));
                assert(out@ + conn_lines_from(self@, j + 1) =~= o0 + conn_lines_from(
                    self@,
                    j as int,
                ));
            }
            j = j + 1;
        }
        proof {
            assert(out@ + conn_lines_from(self@, cn as int) =~= out@);
        }
        out.append("}\n");
        proof {
            assert(out@ =~= old(out)@ + gvz_text(self@));
        }
    }
}

/// Repeated connections between one ordered node pair concatenate their
/// symbol lists in encounter order: merging symbols into a seen pair
/// keeps the connection's id and endpoints, appends the new symbols after
/// the old ones in order with duplicates kept, and leaves every other
/// connection, every node and the id counter unchanged.
pub proof fn lemma_repeated_connection_concatenates(
    m: AutomataModel,
    from: int,
    to: int,
    symbols: Seq<Seq<char>>,
)
    requires
        idx_by_pair(m.connections, from, to) < m.connections.len(),
    ensures
        ({
            let i = idx_by_pair(m.connections, from, to);
            let r = merge_conn_model(m, from, to, symbols);
            &&& r.1 == m.connections[i].id
            &&& r.0.connections.len() == m.connections.len()
            &&& r.0.connections[i].id == m.connections[i].id
            &&& r.0.connections[i].from == m.connections[i].from
            &&& r.0.connections[i].to == m.connections[i].to
            &&& r.0.connections[i].symbols == m.connections[i].symbols + symbols
            &&& forall|j: int|
                0 <= j < m.connections.len() && j != i ==> #[trigger] r.0.connections[j]
                    == m.connections[j]
            &&& r.0.nodes == m.nodes
            &&& r.0.id_counter == m.id_counter
        }),
{
    lemma_idx_by_pair(m.connections, from, to);
}

/// The store after defragmentation: every node takes its position as its
/// id, every connection takes its position as its id and its endpoints are
/// remapped through the node renumbering, and the counter restarts at the
/// larger of the two new id-space sizes.
pub open spec fn defrag_model(m: AutomataModel) -> AutomataModel {
    AutomataModel {
        id_counter: if m.nodes.len() >= m.connections.len() {
            m.nodes.len() as int
        } else {
            m.connections.len() as int
        },
        nodes: Seq::new(
            m.nodes.len(),
            |i: int| NodeModel { id: i, name: m.nodes[i].name, acceptor: m.nodes[i].acceptor },
        ),
        connections: Seq::new(
            m.connections.len(),
            |j: int|
                ConnModel {
                    id: j,
                    from: idx_by_id(m.nodes, m.connections[j].from),
                    to: idx_by_id(m.nodes, m.connections[j].to),
                    symbols: m.connections[j].symbols,
                },
        ),
    }
}

/// Defragmentation preserves well-formedness.
pub proof fn lemma_wf_after_defrag(m: AutomataModel)
    requires
        wf_model(m),
    ensures
        wf_model(defrag_model(m)),
        forall|j: int|
            0 <= j < m.connections.len() ==> 0 <= #[trigger] defrag_model(m).connections[j].from
                < m.nodes.len() && 0 <= defrag_model(m).connections[j].to < m.nodes.len(),
{
    let d = defrag_model(m);
    assert forall|j: int|
        0 <= j < m.connections.len() implies 0 <= #[trigger] d.connections[j].from
        < m.nodes.len() && 0 <= d.connections[j].to < m.nodes.len() by {
        assert(has_node_id(m.nodes, m.connections[j].from));
        lemma_idx_by_id(m.nodes, m.connections[j].from);
        lemma_idx_by_id(m.nodes, m.connections[j].to);
    }
    assert forall|a: int, b: int|
        0 <= a < b < d.connections.len() implies !(#[trigger] d.connections[a].from
        == #[trigger] d.connections[b].from && d.connections[a].to == d.connections[b].to) by {
        lemma_idx_by_id(m.nodes, m.connections[a].from);
        lemma_idx_by_id(m.nodes, m.connections[b].from);
        lemma_idx_by_id(m.nodes, m.connections[a].to);
        lemma_idx_by_id(m.nodes, m.connections[b].to);
        assert(m.nodes[idx_by_id(m.nodes, m.connections[a].from)].id == m.connections[a].from);
    }
    assert forall|j: int|
        0 <= j < d.connections.len() implies has_node_id(d.nodes, #[trigger] d.connections[j].from)
        && has_node_id(d.nodes, d.connections[j].to) by {
        let f = d.connections[j].from;
        let t = d.connections[j].to;
        assert(d.nodes[f].id == f);
        assert(d.nodes[t].id == t);
    }
}

/// Defragmentation is idempotent: a second run changes nothing, neither the
/// id assignment of nodes and connections nor the remapped endpoints.
pub proof fn lemma_defragment_idempotent(m: AutomataModel)
    requires
        wf_model(m),
    ensures
        defrag_model(defrag_model(m)) == defrag_model(m),
{
    let d = defrag_model(m);
    lemma_wf_after_defrag(m);
    let dd = defrag_model(d);
    assert forall|j: int| 0 <= j < d.connections.len() implies #[trigger] dd.connections[j]
        == d.connections[j] by {
        let f = d.connections[j].from;
        let t = d.connections[j].to;
        assert(forall|k: int| 0 <= k < d.nodes.len() ==> #[trigger] d.nodes[k].id == k);
        lemma_idx_by_id_at(d.nodes, f, f);
        lemma_idx_by_id_at(d.nodes, t, t);
    }
    assert(dd.nodes =~= d.nodes);
    assert(dd.connections =~= d.connections);
    assert(dd =~= d);
}

/// The fixed opening of the graph description: header, layout hints, the
/// invisible anchor node, and the style block for acceptor nodes.
pub open spec fn gvz_header() -> Seq<char> {
    "digraph {\n    rankdir = LR\n    splines = line\n    n0 [label=\"\",shape=none,height=.0,width=.0]\n    node [shape=\"doublecircle\"]\n"@
}

/// The line naming one acceptor node, or nothing for an ordinary node.
pub open spec fn accept_line(nd: NodeModel) -> Seq<char> {
    if nd.acceptor {
        "    \""@ + nd.name + "\"\n"@
    } else {
        Seq::empty()
    }
}

/// The acceptor-node lines from position `i` on, in node order.
pub open spec fn accept_lines_from(nodes: Seq<NodeModel>, i: int) -> Seq<char>
    decreases nodes.len() - i,
{
    if 0 <= i < nodes.len() {
        accept_line(nodes[i]) + accept_lines_from(nodes, i + 1)
    } else {
        Seq::empty()
    }
}

/// The line for one connection: quoted source name, quoted destination
/// name, and the symbols joined with commas as the label.
pub open spec fn conn_line(m: AutomataModel, c: ConnModel) -> Seq<char> {
    "    \""@ + m.nodes[idx_by_id(m.nodes, c.from)].name + "\" -> \""@ + m.nodes[idx_by_id(
        m.nodes,
        c.to,
    )].name + "\" [label=\""@ + join_commas(c.symbols) + "\"]\n"@
}

/// The connection lines from position `j` on, in connection order.
pub open spec fn conn_lines_from(m: AutomataModel, j: int) -> Seq<char>
    decreases m.connections.len() - j,
{
    if 0 <= j < m.connections.len() {
        conn_line(m, m.connections[j]) + conn_lines_from(m, j + 1)
    } else {
        Seq::empty()
    }
}

/// The whole graph description of a store: header, acceptor style block,
/// style reset with the anchor edge into the start node `nodes[0]`, and one
/// line per connection, in insertion order.
pub open spec fn gvz_text(m: AutomataModel) -> Seq<char> {
    gvz_header() + accept_lines_from(m.nodes, 0) + "    node [shape=\"circle\"]\n    n0 -> \""@
        + m.nodes[0].name + "\"\n"@ + conn_lines_from(m, 0) + "}\n"@
}

/// A fresh name under a fresh id preserves well-formedness.
pub proof fn lemma_wf_after_push_node(m: AutomataModel, name: Seq<char>, acceptor: bool)
    requires
        wf_model(m),
        idx_by_name(m.nodes, name) == m.nodes.len(),
    ensures
        wf_model(merge_node_model(m, name, acceptor).unwrap().0),
{
    lemma_idx_by_name(m.nodes, name);
    let m1 = merge_node_model(m, name, acceptor).unwrap().0;
    let n = m.nodes.len() as int;
    assert forall|i: int, j: int| 0 <= i < j < m1.nodes.len() implies #[trigger] m1.nodes[i].name
        != #[trigger] m1.nodes[j].name by {
        if j == n {
            assert(m.nodes[i].name != name);
        }
    }
    assert forall|i: int, j: int| 0 <= i < j < m1.nodes.len() implies #[trigger] m1.nodes[i].id
        != #[trigger] m1.nodes[j].id by {
        if j == n {
            assert(m.nodes[i].id <= m.id_counter);
        }
    }
    assert forall|i: int|
        0 <= i < m1.connections.len() implies has_node_id(
        m1.nodes,
        #[trigger] m1.connections[i].from,
    ) && has_node_id(m1.nodes, m1.connections[i].to) by {
        let wf = choose|k: int|
            0 <= k < m.nodes.len() && #[trigger] m.nodes[k].id == m.connections[i].from;
        assert(m1.nodes[wf].id == m1.connections[i].from);
        let wt = choose|k: int|
            0 <= k < m.nodes.len() && #[trigger] m.nodes[k].id == m.connections[i].to;
        assert(m1.nodes[wt].id == m1.connections[i].to);
    }
}

/// Merging a connection preserves well-formedness.
#[verifier::rlimit(50)]
pub proof fn lemma_wf_after_merge_conn(m: AutomataModel, from: int, to: int, symbols: Seq<Seq<char>>)
    requires
        wf_model(m),
        has_node_id(m.nodes, from),
        has_node_id(m.nodes, to),
    ensures
        wf_model(merge_conn_model(m, from, to, symbols).0),
{
    lemma_idx_by_pair(m.connections, from, to);
    let m1 = merge_conn_model(m, from, to, symbols).0;
    let i = idx_by_pair(m.connections, from, to);
    if i < m.connections.len() {
        assert forall|x: int|
            0 <= x < m1.connections.len() implies #[trigger] m1.connections[x].id
            == m.connections[x].id && m1.connections[x].from == m.connections[x].from
            && m1.connections[x].to == m.connections[x].to by {
        }
        assert forall|a: int, b: int|
            0 <= a < b < m1.connections.len() implies !(#[trigger] m1.connections[a].from
            == #[trigger] m1.connections[b].from && m1.connections[a].to
            == m1.connections[b].to) by {
            assert(m1.connections[a].from == m.connections[a].from && m1.connections[a].to
                == m.connections[a].to);
            assert(m1.connections[b].from == m.connections[b].from && m1.connections[b].to
                == m.connections[b].to);
        }
    } else {
        let n = m.connections.len() as int;
        assert forall|a: int, b: int| 0 <= a < b < m1.connections.len() implies
            #[trigger] m1.connections[a].id != #[trigger] m1.connections[b].id by {
            if b == n {
                assert(m.connections[a].id <= m.id_counter);
            }
        }
        assert forall|a: int, b: int|
            0 <= a < b < m1.connections.len() implies !(#[trigger] m1.connections[a].from
            == #[trigger] m1.connections[b].from && m1.connections[a].to
            == m1.connections[b].to) by {
            if b == n {
                assert(!(m.connections[a].from == from && m.connections[a].to == to));
            }
        }
    }
}

/// A pushed node leaves every present id present.
pub proof fn lemma_push_keeps_ids(nodes: Seq<NodeModel>, nd: NodeModel, id: int)
    requires
        has_node_id(nodes, id),
    ensures
        has_node_id(nodes.push(nd), id),
{
    let w = choose|k: int| 0 <= k < nodes.len() && #[trigger] nodes[k].id == id;
    assert(nodes.push(nd)[w].id == id);
}

/// Exchanging two nodes preserves well-formedness.
pub proof fn lemma_wf_after_swap(m: AutomataModel, idx: int)
    requires
        wf_model(m),
        0 <= idx < m.nodes.len(),
    ensures
        wf_model(swap_first_model(m, idx)),
{
    let m1 = swap_first_model(m, idx);
    assert forall|i: int|
        0 <= i < m1.connections.len() implies has_node_id(
        m1.nodes,
        #[trigger] m1.connections[i].from,
    ) && has_node_id(m1.nodes, m1.connections[i].to) by {
        lemma_swap_keeps_ids(m, idx, m.connections[i].from);
        lemma_swap_keeps_ids(m, idx, m.connections[i].to);
    }
}

pub proof fn lemma_swap_keeps_ids(m: AutomataModel, idx: int, id: int)
    requires
        0 <= idx < m.nodes.len(),
        has_node_id(m.nodes, id),
    ensures
        has_node_id(swap_first_model(m, idx).nodes, id),
{
    let m1 = swap_first_model(m, idx);
    let w = choose|k: int| 0 <= k < m.nodes.len() && #[trigger] m.nodes[k].id == id;
    if w == 0 {
        assert(m1.nodes[idx].id == id);
    } else if w == idx {
        assert(m1.nodes[0].id == id);
    } else {
        assert(m1.nodes[w].id == id);
    }
}

} // verus!
