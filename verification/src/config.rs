//! The static description of the cluster and of this node, and the reader of
//! the line-oriented configuration text.

use crate::text::{
    ends_with, lemma_pieces, pieces, same_text, skip_chars, split_on, starts_with, trim, trimmed,
};
use vstd::prelude::*;
use vstd::string::*;

verus! {

/// One peer of the cluster, as configured. Ports are kept as written.
#[derive(Debug)]
pub struct ClusterNode {
    pub _id: String,
    pub host: String,
    pub port: String,
    pub gossip_port: String,
}

/// The mathematical content of a [`ClusterNode`].
pub struct ClusterNodeView {
    pub id: Seq<char>,
    pub host: Seq<char>,
    pub port: Seq<char>,
    pub gossip_port: Seq<char>,
}

impl View for ClusterNode {
    type V = ClusterNodeView;

    open spec fn view(&self) -> ClusterNodeView {
        ClusterNodeView {
            id: self._id@,
            host: self.host@,
            port: self.port@,
            gossip_port: self.gossip_port@,
        }
    }
}

impl DeepView for ClusterNode {
    type V = ClusterNodeView;

    open spec fn deep_view(&self) -> ClusterNodeView {
        self@
    }
}

impl Clone for ClusterNode {
    fn clone(&self) -> (out: Self)
        ensures
            out == *self,
    {
        ClusterNode {
            _id: self._id.clone(),
            host: self.host.clone(),
            port: self.port.clone(),
            gossip_port: self.gossip_port.clone(),
        }
    }
}

/// The index of the first node of `roster` whose identifier is `id`; the
/// length of `roster` if there is none.
pub open spec fn position(roster: Seq<ClusterNodeView>, id: Seq<char>) -> int
    decreases roster.len(),
{
    if roster.len() == 0 {
        0
    } else if roster[0].id == id {
        0
    } else {
        1 + position(roster.drop_first(), id)
    }
}

/// `position` is the one index before which no node has the identifier and
/// at which, if it lies in the roster, the node has it.
pub proof fn lemma_position(roster: Seq<ClusterNodeView>, id: Seq<char>, i: int)
    requires
        0 <= i <= roster.len(),
        forall|j: int| 0 <= j < i ==> (#[trigger] roster[j]).id != id,
        i < roster.len() ==> roster[i].id == id,
    ensures
        position(roster, id) == i,
    decreases roster.len(),
{
    if roster.len() > 0 && i > 0 {
        assert(roster[0].id != id);
        let rest = roster.drop_first();
        assert forall|j: int| 0 <= j < i - 1 implies (#[trigger] rest[j]).id != id by {
            assert(rest[j] == roster[j + 1]);
        }
        lemma_position(rest, id, i - 1);
    }
}

/// The index of the first node of `roster` whose identifier is `id`.
pub fn index_of(roster: &Vec<ClusterNode>, id: &str) -> (found: Option<usize>)
    ensures
        match found {
            Some(i) => i == position(roster.deep_view(), id@) && i < roster.len(),
            None => position(roster.deep_view(), id@) == roster.len(),
        },
{
    let mut i: usize = 0;
    while i < roster.len()
        invariant
            i <= roster.len(),
            forall|j: int| 0 <= j < i ==> (#[trigger] roster.deep_view()[j]).id != id@,
        decreases roster.len() - i,
    {
        if same_text(roster[i]._id.as_str(), id) {
            proof {
                lemma_position(roster.deep_view(), id@, i as int);
            }
            return Some(i);
        }
        i += 1;
    }
    proof {
        lemma_position(roster.deep_view(), id@, i as int);
    }
    None
}

/// A copy of a roster.
pub fn clone_nodes(roster: &Vec<ClusterNode>) -> (out: Vec<ClusterNode>)
    ensures
        out.deep_view() == roster.deep_view(),
{
    let mut out: Vec<ClusterNode> = Vec::new();
    let mut i: usize = 0;
    while i < roster.len()
        invariant
            i <= roster.len(),
            out.deep_view() == roster.deep_view().take(i as int),
        decreases roster.len() - i,
    {
        let ghost before = out.deep_view();
        out.push(roster[i].clone());
        assert(out.deep_view() == before.push(roster@[i as int]@));
        assert(roster.deep_view().take(i + 1) == roster.deep_view().take(i as int).push(
            roster@[i as int]@,
        ));
        i += 1;
    }
    assert(roster.deep_view().take(roster.len() as int) == roster.deep_view());
    out
}

/// What a node is configured with. Every value is kept as written.
#[derive(Debug)]
pub struct NodeConfig {
    pub host: String,
    pub port: String,
    pub storage: String,
    pub log_enabled: String,
    pub me: String,
    /// The roster, in the order in which the nodes were first named.
    pub cluster: Vec<ClusterNode>,
}

/// The mathematical content of a [`NodeConfig`].
#[verifier::ext_equal]
pub struct NodeConfigView {
    pub host: Seq<char>,
    pub port: Seq<char>,
    pub storage: Seq<char>,
    pub log_enabled: Seq<char>,
    pub me: Seq<char>,
    pub cluster: Seq<ClusterNodeView>,
}

impl View for NodeConfig {
    type V = NodeConfigView;

    open spec fn view(&self) -> NodeConfigView {
        NodeConfigView {
            host: self.host@,
            port: self.port@,
            storage: self.storage@,
            log_enabled: self.log_enabled@,
            me: self.me@,
            cluster: self.cluster.deep_view(),
        }
    }
}

impl Clone for NodeConfig {
    fn clone(&self) -> (out: Self)
        ensures
            out@ == self@,
    {
        NodeConfig {
            host: self.host.clone(),
            port: self.port.clone(),
            storage: self.storage.clone(),
            log_enabled: self.log_enabled.clone(),
            me: self.me.clone(),
            cluster: clone_nodes(&self.cluster),
        }
    }
}

/// The three things that are configured for each node of the cluster.
#[derive(Debug, Clone, Copy, PartialEq, Eq)]
pub enum NodeField {
    Host,
    Port,
    Gossip,
}

/// The configuration in which nothing is set.
pub open spec fn blank_config() -> NodeConfigView {
    NodeConfigView {
        host: Seq::empty(),
        port: Seq::empty(),
        storage: Seq::empty(),
        log_enabled: Seq::empty(),
        me: Seq::empty(),
        cluster: Seq::empty(),
    }
}

/// The node `id` of which nothing else is set.
pub open spec fn blank_node(id: Seq<char>) -> ClusterNodeView {
    ClusterNodeView { id, host: Seq::empty(), port: Seq::empty(), gossip_port: Seq::empty() }
}

/// `node` with one of its fields set to `value`.
pub open spec fn with_field(
    node: ClusterNodeView,
    field: NodeField,
    value: Seq<char>,
) -> ClusterNodeView {
    match field {
        NodeField::Host => ClusterNodeView { host: value, ..node },
        NodeField::Port => ClusterNodeView { port: value, ..node },
        NodeField::Gossip => ClusterNodeView { gossip_port: value, ..node },
    }
}

/// `roster` with the field set on its node `id`; a node that the roster does
/// not name yet joins it at the end.
pub open spec fn upserted(
    roster: Seq<ClusterNodeView>,
    id: Seq<char>,
    field: NodeField,
    value: Seq<char>,
) -> Seq<ClusterNodeView> {
    let at = position(roster, id);
    if at < roster.len() {
        roster.update(at, with_field(roster[at], field, value))
    } else {
        roster.push(with_field(blank_node(id), field, value))
    }
}

/// Whether no two nodes of `roster` have one identifier.
pub open spec fn distinct_ids(roster: Seq<ClusterNodeView>) -> bool {
    forall|i: int, j: int| 0 <= i < j < roster.len() ==> roster[i].id != roster[j].id
}

/// Builds a [`NodeConfig`] one setting at a time.
pub struct NodeConfigBuilder {
    pub config: NodeConfig,
}

impl NodeConfigBuilder {
    /// A builder in which nothing is set.
    pub fn new() -> (b: NodeConfigBuilder)
        ensures
            b.config@ == blank_config(),
    {
        let b = NodeConfigBuilder {
            config: NodeConfig {
                host: String::new(),
                port: String::new(),
                storage: String::new(),
                log_enabled: String::new(),
                me: String::new(),
                cluster: Vec::new(),
            },
        };
        assert(b.config@ =~= blank_config());
        b
    }

    /// The configuration as it stands.
    pub fn build(&self) -> (config: NodeConfig)
        ensures
            config@ == self.config@,
    {
        self.config.clone()
    }

    /// A builder that differs from this one in the client-facing host.
    pub fn with_host(&self, host: String) -> (b: NodeConfigBuilder)
        ensures
            b.config@ == (NodeConfigView { host: host@, ..self.config@ }),
    {
        let mut config = self.config.clone();
        config.host = host;
        NodeConfigBuilder { config }
    }

    /// A builder that differs from this one in the client-facing port.
    pub fn with_port(&self, port: String) -> (b: NodeConfigBuilder)
        ensures
            b.config@ == (NodeConfigView { port: port@, ..self.config@ }),
    {
        let mut config = self.config.clone();
        config.port = port;
        NodeConfigBuilder { config }
    }

    /// A builder that differs from this one in the tag of the storage engine.
    pub fn with_storage(&self, storage: String) -> (b: NodeConfigBuilder)
        ensures
            b.config@ == (NodeConfigView { storage: storage@, ..self.config@ }),
    {
        let mut config = self.config.clone();
        config.storage = storage;
        NodeConfigBuilder { config }
    }

    /// A builder that differs from this one in the logging switch.
    pub fn with_log_enabled(&self, log_enabled: String) -> (b: NodeConfigBuilder)
        ensures
            b.config@ == (NodeConfigView { log_enabled: log_enabled@, ..self.config@ }),
    {
        let mut config = self.config.clone();
        config.log_enabled = log_enabled;
        NodeConfigBuilder { config }
    }

    /// A builder that differs from this one in the node's own identifier.
    pub fn with_me(&self, me: String) -> (b: NodeConfigBuilder)
        ensures
            b.config@ == (NodeConfigView { me: me@, ..self.config@ }),
    {
        let mut config = self.config.clone();
        config.me = me;
        NodeConfigBuilder { config }
    }

    /// Sets one field of the node `node_id`, which joins the roster if it is
    /// not in it yet.
    pub fn with_cluster_field(&self, node_id: &str, field: NodeField, value: String) -> (b:
        NodeConfigBuilder)
        ensures
            b.config@ == (NodeConfigView {
                cluster: upserted(self.config@.cluster, node_id@, field, value@),
                ..self.config@
            }),
    {
        let mut config = self.config.clone();
        let ghost roster = config.cluster.deep_view();
        let mut node = match index_of(&config.cluster, node_id) {
            Some(at) => config.cluster[at].clone(),
            None => ClusterNode {
                _id: String::from_str(node_id),
                host: String::new(),
                port: String::new(),
                gossip_port: String::new(),
            },
        };
        match field {
            NodeField::Host => {
                node.host = value;
            },
            NodeField::Port => {
                node.port = value;
            },
            NodeField::Gossip => {
                node.gossip_port = value;
            },
        }
        match index_of(&config.cluster, node_id) {
            Some(at) => {
                config.cluster.set(at, node);
                assert(config.cluster.deep_view() == roster.update(at as int, node@));
            },
            None => {
                config.cluster.push(node);
                assert(config.cluster.deep_view() == roster.push(node@));
            },
        }
        NodeConfigBuilder { config }
    }

    /// A builder in which the node `node_id` of the roster has the host `node_host`.
    pub fn with_cluster_host(&self, node_id: &str, node_host: String) -> (b: NodeConfigBuilder)
        ensures
            b.config@ == (NodeConfigView {
                cluster: upserted(self.config@.cluster, node_id@, NodeField::Host, node_host@),
                ..self.config@
            }),
    {
        self.with_cluster_field(node_id, NodeField::Host, node_host)
    }

    /// A builder in which the node `node_id` of the roster has the client port `node_port`.
    pub fn with_cluster_port(&self, node_id: &str, node_port: String) -> (b: NodeConfigBuilder)
        ensures
            b.config@ == (NodeConfigView {
                cluster: upserted(self.config@.cluster, node_id@, NodeField::Port, node_port@),
                ..self.config@
            }),
    {
        self.with_cluster_field(node_id, NodeField::Port, node_port)
    }

    /// A builder in which the node `node_id` of the roster has the gossip port `gossip_port`.
    pub fn with_cluster_gossip(&self, node_id: &str, gossip_port: String) -> (b: NodeConfigBuilder)
        ensures
            b.config@ == (NodeConfigView {
                cluster: upserted(self.config@.cluster, node_id@, NodeField::Gossip, gossip_port@),
                ..self.config@
            }),
    {
        self.with_cluster_field(node_id, NodeField::Gossip, gossip_port)
    }
}

impl NodeConfig {
    /// A builder in which nothing is set.
    pub fn builder() -> (b: NodeConfigBuilder)
        ensures
            b.config@ == blank_config(),
    {
        NodeConfigBuilder::new()
    }

    /// The configuration of a single node on `localhost:8080`, with the
    /// engine in memory, logging on, the identifier `1` and an empty roster.
    pub fn default() -> (config: NodeConfig)
        ensures
            config@ == (NodeConfigView {
                host: "localhost"@,
                port: "8080"@,
                storage: "memory"@,
                log_enabled: "true"@,
                me: "1"@,
                cluster: Seq::empty(),
            }),
    {
        let config = NodeConfig {
            host: String::from_str("localhost"),
            port: String::from_str("8080"),
            storage: String::from_str("memory"),
            log_enabled: String::from_str("true"),
            me: String::from_str("1"),
            cluster: Vec::new(),
        };
        assert(config.cluster.deep_view() =~= Seq::<ClusterNodeView>::empty());
        config
    }
}

/// Why a configuration text was refused.
#[derive(Debug)]
pub enum ConfigError {
    /// A line sets a key that is not known.
    UnknownKey(String),
}

/// The field that a key of the form `cluster.node.<id>.<field>` sets.
pub open spec fn node_field_of(key: Seq<char>) -> Option<NodeField> {
    if !"cluster.node."@.is_prefix_of(key) {
        None
    } else if ".host"@.is_suffix_of(key) {
        Some(NodeField::Host)
    } else if ".port"@.is_suffix_of(key) {
        Some(NodeField::Port)
    } else if ".gossip"@.is_suffix_of(key) {
        Some(NodeField::Gossip)
    } else {
        None
    }
}

/// The node that a key of the form `cluster.node.<id>.<field>` names: what
/// stands between the second dot and the third.
pub open spec fn node_of(key: Seq<char>) -> Seq<char> {
    pieces(key.skip("cluster.node."@.len() as int), '.')[0]
}

/// `config` after `key` was set to `value`; the key, if it is not known.
pub open spec fn setting(config: NodeConfigView, key: Seq<char>, value: Seq<char>) -> Result<
    NodeConfigView,
    Seq<char>,
> {
    if key == "host"@ {
        Ok(NodeConfigView { host: value, ..config })
    } else if key == "port"@ {
        Ok(NodeConfigView { port: value, ..config })
    } else if key == "storage"@ {
        Ok(NodeConfigView { storage: value, ..config })
    } else if key == "log_enabled"@ {
        Ok(NodeConfigView { log_enabled: value, ..config })
    } else if key == "me"@ {
        Ok(NodeConfigView { me: value, ..config })
    } else {
        match node_field_of(key) {
            Some(field) => Ok(
                NodeConfigView {
                    cluster: upserted(config.cluster, node_of(key), field, value),
                    ..config
                },
            ),
            None => Err(key),
        }
    }
}

/// `config` after one line of the text. A line that is blank, begins with
/// `#` or holds no `=` changes nothing; any other sets what stands before
/// the first `=` to what stands behind it, both without surrounding white
/// space.
pub open spec fn line_applied(config: NodeConfigView, line: Seq<char>) -> Result<
    NodeConfigView,
    Seq<char>,
> {
    let text = trimmed(line);
    if text.len() == 0 || "#"@.is_prefix_of(text) {
        Ok(config)
    } else if pieces(text, '=').len() < 2 {
        Ok(config)
    } else {
        let name = pieces(text, '=')[0];
        setting(config, trimmed(name), trimmed(text.skip(name.len() as int + 1)))
    }
}

/// `config` after the lines were applied in order, up to the first that
/// sets an unknown key.
pub open spec fn lines_applied(config: NodeConfigView, lines: Seq<Seq<char>>) -> Result<
    NodeConfigView,
    Seq<char>,
>
    decreases lines.len(),
{
    if lines.len() == 0 {
        Ok(config)
    } else {
        match lines_applied(config, lines.drop_last()) {
            Ok(so_far) => line_applied(so_far, lines.last()),
            Err(key) => Err(key),
        }
    }
}

/// The configuration that a text describes.
pub open spec fn config_of(text: Seq<char>) -> Result<NodeConfigView, Seq<char>> {
    lines_applied(blank_config(), pieces(text, '\n'))
}

/// Once a line was refused, the text is refused for the same key.
pub proof fn lemma_refusal_stands(config: NodeConfigView, lines: Seq<Seq<char>>, upto: int)
    requires
        0 <= upto <= lines.len(),
        lines_applied(config, lines.take(upto)) is Err,
    ensures
        lines_applied(config, lines) == lines_applied(config, lines.take(upto)),
    decreases lines.len(),
{
    if upto < lines.len() {
        assert(lines.drop_last().take(upto) == lines.take(upto));
        lemma_refusal_stands(config, lines.drop_last(), upto);
    } else {
        assert(lines.take(upto) == lines);
    }
}

/// Applies one line of a configuration text.
pub fn apply_line(builder: NodeConfigBuilder, line: &str) -> (r: Result<
    NodeConfigBuilder,
    ConfigError,
>)
    ensures
        match line_applied(builder.config@, line@) {
            Ok(config) => r is Ok && r->Ok_0.config@ == config,
            Err(key) => r matches Err(ConfigError::UnknownKey(k)) && k@ == key,
        },
{
    let text = trim(line);
    if text.as_str().unicode_len() == 0 || starts_with(text.as_str(), "#") {
        return Ok(builder);
    }
    let parts = split_on(text.as_str(), '=');
    if parts.len() < 2 {
        return Ok(builder);
    }
    proof {
        lemma_pieces(text@, '=');
    }
    let name_len = parts[0].as_str().unicode_len();
    let key = trim(parts[0].as_str());
    let rest = skip_chars(text.as_str(), name_len + 1);
    let value = trim(rest.as_str());
    let k = key.as_str();
    if same_text(k, "host") {
        Ok(builder.with_host(value))
    } else if same_text(k, "port") {
        Ok(builder.with_port(value))
    } else if same_text(k, "storage") {
        Ok(builder.with_storage(value))
    } else if same_text(k, "log_enabled") {
        Ok(builder.with_log_enabled(value))
    } else if same_text(k, "me") {
        Ok(builder.with_me(value))
    } else if starts_with(k, "cluster.node.") {
        let field = if ends_with(k, ".host") {
            NodeField::Host
        } else if ends_with(k, ".port") {
            NodeField::Port
        } else if ends_with(k, ".gossip") {
            NodeField::Gossip
        } else {
            return Err(ConfigError::UnknownKey(key));
        };
        proof {
            reveal_strlit("cluster.node.");
            lemma_pieces(key@.skip(13), '.');
        }
        let tail = skip_chars(k, 13);
        let ids = split_on(tail.as_str(), '.');
        Ok(builder.with_cluster_field(ids[0].as_str(), field, value))
    } else {
        Err(ConfigError::UnknownKey(key))
    }
}

/// Reads a configuration text: lines of the form `key = value`.
pub fn parse_config(contents: &str) -> (r: Result<NodeConfig, ConfigError>)
    ensures
        match config_of(contents@) {
            Ok(config) => r is Ok && r->Ok_0@ == config,
            Err(key) => r matches Err(ConfigError::UnknownKey(k)) && k@ == key,
        },
{
    let lines = split_on(contents, '\n');
    let mut builder = NodeConfig::builder();
    let mut i: usize = 0;
    while i < lines.len()
        invariant
            i <= lines.len(),
            lines.deep_view() == pieces(contents@, '\n'),
            lines_applied(blank_config(), lines.deep_view().take(i as int)) == Ok::<
                NodeConfigView,
                Seq<char>,
            >(builder.config@),
        decreases lines.len() - i,
    {
        let ghost upto = lines.deep_view().take(i + 1);
        assert(upto.drop_last() == lines.deep_view().take(i as int));
        assert(upto.last() == lines@[i as int]@);
        match apply_line(builder, lines[i].as_str()) {
            Ok(next) => {
                builder = next;
            },
            Err(error) => {
                proof {
                    lemma_refusal_stands(blank_config(), lines.deep_view(), i + 1);
                }
                return Err(error);
            },
        }
        i += 1;
    }
    assert(lines.deep_view().take(lines.len() as int) == lines.deep_view());
    Ok(builder.build())
}

/// Before the index that `position` gives no node has the identifier; at
/// it, if it lies in the roster, the node has it.
pub proof fn lemma_position_bounds(roster: Seq<ClusterNodeView>, id: Seq<char>)
    ensures
        0 <= position(roster, id) <= roster.len(),
        forall|j: int| 0 <= j < position(roster, id) ==> (#[trigger] roster[j]).id != id,
        position(roster, id) < roster.len() ==> roster[position(roster, id)].id == id,
    decreases roster.len(),
{
    if roster.len() > 0 && roster[0].id != id {
        let rest = roster.drop_first();
        lemma_position_bounds(rest, id);
        assert forall|j: int| 0 <= j < position(roster, id) implies (#[trigger] roster[j]).id
            != id by {
            if j > 0 {
                assert(rest[j - 1] == roster[j]);
            }
        }
        if position(roster, id) < roster.len() {
            assert(rest[position(rest, id)] == roster[position(roster, id)]);
        }
    }
}

/// Setting a field of a node keeps the identifiers of the roster distinct.
pub proof fn lemma_upserted_keeps_ids_distinct(
    roster: Seq<ClusterNodeView>,
    id: Seq<char>,
    field: NodeField,
    value: Seq<char>,
)
    requires
        distinct_ids(roster),
    ensures
        distinct_ids(upserted(roster, id, field, value)),
{
    lemma_position_bounds(roster, id);
}

/// The roster that a configuration text describes names no node twice.
pub proof fn lemma_config_ids_distinct(text: Seq<char>)
    requires
        config_of(text) is Ok,
    ensures
        distinct_ids(config_of(text)->Ok_0.cluster),
{
    lemma_lines_keep_ids_distinct(blank_config(), pieces(text, '\n'));
}

/// Applying lines keeps the identifiers of the roster distinct.
pub proof fn lemma_lines_keep_ids_distinct(config: NodeConfigView, lines: Seq<Seq<char>>)
    requires
        distinct_ids(config.cluster),
        lines_applied(config, lines) is Ok,
    ensures
        distinct_ids(lines_applied(config, lines)->Ok_0.cluster),
    decreases lines.len(),
{
    if lines.len() > 0 {
        lemma_lines_keep_ids_distinct(config, lines.drop_last());
        let so_far = lines_applied(config, lines.drop_last())->Ok_0;
        let text = trimmed(lines.last());
        let name = pieces(text, '=')[0];
        let key = trimmed(name);
        let value = trimmed(text.skip(name.len() as int + 1));
        if node_field_of(key) is Some {
            lemma_upserted_keeps_ids_distinct(
                so_far.cluster,
                node_of(key),
                node_field_of(key)->Some_0,
                value,
            );
        }
    }
}

} // verus!
