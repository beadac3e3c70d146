//! The nodes that take part.

use crate::lcb::config_error::{ConfigError, Fault};
use crate::lcb::text::{
    byte_views, is_text, lines_of, number_of, parse_number, split_lines, split_words,
    text_from_bytes, words_of,
};
use vstd::prelude::*;
use vstd::utf8::{decode_utf8, encode_utf8, encode_utf8_decode_utf8, valid_utf8};

verus! {

/// The id of a node.
pub type NodeID = u32;

/// One node: its id and where it listens.
#[derive(Debug, Clone)]
pub struct Node {
    pub id: NodeID,
    pub ip: String,
    pub port: u32,
}

/// A node as mathematical values.
pub struct NodeView {
    pub id: u32,
    pub ip: Seq<char>,
    pub port: u32,
}

impl View for Node {
    type V = NodeView;

    open spec fn view(&self) -> NodeView {
        NodeView { id: self.id, ip: self.ip@, port: self.port }
    }
}

impl Node {
    /// A copy with the same contents.
    pub fn duplicate(&self) -> (r: Node)
        ensures
            r@ == self@,
    {
        Node { id: self.id, ip: self.ip.clone(), port: self.port }
    }
}

/// The nodes after `node` has been put among them: in the place of each
/// node that had its id, or at the end.
pub open spec fn put_node(nodes: Seq<NodeView>, node: NodeView) -> Seq<NodeView> {
    if exists|i: int| 0 <= i < nodes.len() && (#[trigger] nodes[i]).id == node.id {
        nodes.map_values(|n: NodeView| if n.id == node.id { node } else { n })
    } else {
        nodes.push(node)
    }
}

/// The node that a line of the hosts file names: its id, its address and
/// its port are the first three words of the line.
pub open spec fn host_of(line: Seq<u8>) -> Result<NodeView, ConfigError> {
    let words = words_of(line);
    if words.len() < 1 {
        Err(ConfigError::InvalidHostsFile)
    } else {
        match number_of(words[0]) {
            Err(why) => Err(ConfigError::ParseInt(why)),
            Ok(id) => if words.len() < 2 || !valid_utf8(words[1]) || words.len() < 3 {
                Err(ConfigError::InvalidHostsFile)
            } else {
                match number_of(words[2]) {
                    Err(why) => Err(ConfigError::ParseInt(why)),
                    Ok(port) => Ok(NodeView { id, ip: decode_utf8(words[1]), port }),
                }
            },
        }
    }
}

/// The nodes that the lines name, or what is wrong with the first line
/// that names none: it is no text, or it lacks a word or a number. A later
/// line wins over an earlier one with its id.
pub open spec fn hosts_of(lines: Seq<Seq<u8>>) -> Result<Seq<NodeView>, Fault>
    decreases lines.len(),
{
    if lines.len() == 0 {
        Ok(Seq::empty())
    } else {
        match hosts_of(lines.drop_last()) {
            Err(fault) => Err(fault),
            Ok(before) => if !valid_utf8(lines.last()) {
                Err(Fault::Io)
            } else {
                match host_of(lines.last()) {
                    Err(e) => Err(e.fault()),
                    Ok(node) => Ok(put_node(before, node)),
                }
            },
        }
    }
}

/// Once a line names no node, the lines up to any later one name none, and
/// for the same reason.
proof fn lemma_hosts_error_stays(lines: Seq<Seq<u8>>, n: int)
    requires
        0 <= n <= lines.len(),
        hosts_of(lines.take(n)) is Err,
    ensures
        hosts_of(lines) == hosts_of(lines.take(n)),
    decreases lines.len() - n,
{
    if n == lines.len() {
        assert(lines.take(n) =~= lines);
    } else {
        assert(lines.take(n + 1).drop_last() =~= lines.take(n));
        lemma_hosts_error_stays(lines, n + 1);
    }
}

/// Reads the node that a line of the hosts file names.
pub fn read_host(line: &[u8]) -> (r: Result<Node, ConfigError>)
    ensures
        match r {
            Ok(node) => host_of(line@) == Ok::<NodeView, ConfigError>(node@),
            Err(e) => host_of(line@) == Err::<NodeView, ConfigError>(e),
        },
{
    let mut words = split_words(line);
    if words.len() < 1 {
        return Err(ConfigError::InvalidHostsFile);
    }
    assert(byte_views(words@)[0] == words@[0]@);
    let id = match parse_number(words[0].as_slice()) {
        Ok(n) => n,
        Err(why) => {
            return Err(ConfigError::ParseInt(why));
        },
    };
    if words.len() < 3 {
        if words.len() == 2 {
            assert(byte_views(words@)[1] == words@[1]@);
        }
        return Err(ConfigError::InvalidHostsFile);
    }
    assert(byte_views(words@)[1] == words@[1]@);
    assert(byte_views(words@)[2] == words@[2]@);
    let port = parse_number(words[2].as_slice());
    let ghost address = words@[1]@;
    let mut taken: Vec<u8> = Vec::new();
    taken.append(&mut words[1]);
    assert(taken@ =~= address);
    let ip = match text_from_bytes(taken) {
        Some(text) => text,
        None => {
            return Err(ConfigError::InvalidHostsFile);
        },
    };
    proof {
        encode_utf8_decode_utf8(ip@);
        vstd::utf8::encode_utf8_valid_utf8(ip@);
    }
    match port {
        Ok(port) => Ok(Node { id, ip, port }),
        Err(why) => Err(ConfigError::ParseInt(why)),
    }
}

/// Reads the nodes from the bytes of the hosts file, one node from each
/// line.
pub fn read_hosts(bytes: &[u8]) -> (r: Result<Nodes, ConfigError>)
    ensures
        match r {
            Ok(nodes) => nodes.wf() && hosts_of(lines_of(bytes@)) == Ok::<Seq<NodeView>, Fault>(
                nodes@,
            ),
            Err(e) => hosts_of(lines_of(bytes@)) is Err && e.is_fault(
                hosts_of(lines_of(bytes@))->Err_0,
            ),
        },
{
    let lines = split_lines(bytes);
    let ghost all = lines_of(bytes@);
    let mut nodes = Nodes::new();
    let mut k: usize = 0;
    assert(all.take(0) =~= Seq::<Seq<u8>>::empty());
    while k < lines.len()
        invariant
            k <= lines.len(),
            byte_views(lines@) == all,
            all == lines_of(bytes@),
            nodes.wf(),
            hosts_of(all.take(k as int)) == Ok::<Seq<NodeView>, Fault>(nodes@),
        decreases lines.len() - k,
    {
        assert(byte_views(lines@)[k as int] == lines@[k as int]@);
        assert(all.take(k + 1).drop_last() =~= all.take(k as int));
        assert(all.take(k + 1).last() == lines@[k as int]@);
        if !is_text(&lines[k]) {
            proof {
                lemma_hosts_error_stays(all, k + 1);
            }
            return Err(ConfigError::bad_text());
        }
        match read_host(lines[k].as_slice()) {
            Ok(node) => {
                nodes.insert(node);
            },
            Err(e) => {
                proof {
                    lemma_hosts_error_stays(all, k + 1);
                }
                return Err(e);
            },
        }
        k = k + 1;
    }
    assert(all.take(k as int) =~= all);
    Ok(nodes)
}

/// The nodes by id, in the order in which they were first named.
#[derive(Debug)]
pub struct Nodes {
    list: Vec<Node>,
}

impl View for Nodes {
    type V = Seq<NodeView>;

    closed spec fn view(&self) -> Seq<NodeView> {
        self.list@.map_values(|n: Node| n@)
    }
}

impl Nodes {
    /// No two nodes have the same id.
    pub open spec fn wf(&self) -> bool {
        forall|i: int, j: int|
            0 <= i < j < self@.len() ==> (#[trigger] self@[i]).id != (#[trigger] self@[j]).id
    }

    /// Whether a node has this id.
    pub open spec fn has(&self, id: u32) -> bool {
        exists|i: int| 0 <= i < self@.len() && (#[trigger] self@[i]).id == id
    }

    /// No nodes.
    pub fn new() -> (r: Self)
        ensures
            r@ == Seq::<NodeView>::empty(),
            r.wf(),
    {
        let r = Nodes { list: Vec::new() };
        assert(r@ =~= Seq::<NodeView>::empty());
        r
    }

    /// The number of nodes.
    pub fn len(&self) -> (r: usize)
        ensures
            r == self@.len(),
    {
        self.list.len()
    }

    /// The node at place `i`.
    pub fn at(&self, i: usize) -> (r: &Node)
        requires
            i < self@.len(),
        ensures
            r@ == self@[i as int],
    {
        &self.list[i]
    }

    /// The place of the node with this id.
    fn find(&self, id: u32) -> (r: Option<usize>)
        ensures
            match r {
                Some(i) => i < self@.len() && self@[i as int].id == id && forall|j: int|
                    0 <= j < i ==> (#[trigger] self@[j]).id != id,
                None => !self.has(id),
            },
    {
        let mut i: usize = 0;
        while i < self.list.len()
            invariant
                i <= self.list.len(),
                forall|j: int| 0 <= j < i ==> (#[trigger] self@[j]).id != id,
            decreases self.list.len() - i,
        {
            if self.list[i].id == id {
                return Some(i);
            }
            i = i + 1;
        }
        None
    }

    /// The node with this id.
    pub fn get(&self, id: u32) -> (r: Option<&Node>)
        ensures
            match r {
                Some(node) => self.has(id) && node@.id == id && exists|i: int|
                    0 <= i < self@.len() && self@[i] == node@,
                None => !self.has(id),
            },
    {
        match self.find(id) {
            Some(i) => {
                assert(self@[i as int] == self.list@[i as int]@);
                Some(&self.list[i])
            },
            None => None,
        }
    }

    /// Puts `node` among the nodes: in the place of the node that had its
    /// id, or at the end.
    pub fn insert(&mut self, node: Node)
        requires
            old(self).wf(),
        ensures
            final(self).wf(),
            final(self).has(node@.id),
            final(self)@ == put_node(old(self)@, node@),
    {
        let ghost before = self@;
        let ghost added = node@;
        match self.find(node.id) {
            Some(i) => {
                self.list.set(i, node);
                assert(self@ =~= before.update(i as int, added));
                assert(self@[i as int].id == added.id);
                assert forall|a: int, b: int| 0 <= a < b < self@.len() implies (#[trigger] self@[a]).id
                    != (#[trigger] self@[b]).id by {
                    assert(before[a].id != before[b].id);
                }
                assert forall|j: int| 0 <= j < before.len() implies #[trigger] self@[j] == if before[j].id
                    == added.id {
                    added
                } else {
                    before[j]
                } by {
                    if j != i {
                        if j < i {
                            assert(before[j].id != before[i as int].id);
                        } else {
                            assert(before[i as int].id != before[j].id);
                        }
                    }
                }
                assert(before[i as int].id == added.id);
                assert(self@ =~= put_node(before, added));
            },
            None => {
                self.list.push(node);
                assert(self@ =~= before.push(added));
                assert(self@ == put_node(before, added));
                assert(self@[before.len() as int].id == added.id);
                assert forall|a: int, b: int| 0 <= a < b < self@.len() implies (#[trigger] self@[a]).id
                    != (#[trigger] self@[b]).id by {
                    if b < before.len() {
                        assert(before[a].id != before[b].id);
                    } else {
                        assert(before[a].id != added.id);
                    }
                }
            },
        }
    }
}

} // verus!
