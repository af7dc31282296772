//! How a node finds its peers.
use vstd::prelude::*;
use vstd::string::StrSliceExecFns;
use vstd::utf8;

use crate::cluster::raft_model;
use crate::engine::registry;
use crate::text;
use crate::text::{append_decimal, parse_number, same_text};

verus! {

#[derive(Debug, Clone)]
pub enum DiscoveryMode {
    /// Beacons over UDP broadcast, for nodes in one network.
    Broadcast { broadcast_port: u16 },
    /// Polling a DNS name that resolves to all the nodes.
    HeadlessDns { dns_host: String, port: u16, poll_interval_sec: u64 },
    /// A fixed list of nodes.
    StaticSeeds { seeds: Vec<String> },
}

/// The mathematical content of a [`DiscoveryMode`].
pub enum ModeView {
    Broadcast { broadcast_port: u16 },
    HeadlessDns { dns_host: Seq<char>, port: u16, poll_interval_sec: u64 },
    StaticSeeds { seeds: Seq<Seq<char>> },
}

impl View for DiscoveryMode {
    type V = ModeView;

    open spec fn view(&self) -> ModeView {
        match *self {
            DiscoveryMode::Broadcast { broadcast_port } => ModeView::Broadcast { broadcast_port },
            DiscoveryMode::HeadlessDns { dns_host, port, poll_interval_sec } =>
                ModeView::HeadlessDns { dns_host: dns_host@, port, poll_interval_sec },
            DiscoveryMode::StaticSeeds { seeds } => ModeView::StaticSeeds {
                seeds: registry::text_views(seeds@),
            },
        }
    }
}

/// The environment variables that choose how peers are found, as far as they are set.
#[derive(Debug)]
pub struct DiscoveryVars {
    pub headless_dns: Option<String>,
    pub server_port: Option<String>,
    pub tcp_port: Option<String>,
    pub poll_interval_sec: Option<String>,
    pub broadcast_port: Option<String>,
    pub seeds: Option<String>,
}

/// The number that a variable stands for, or a default.
pub open spec fn number_or(var: Option<String>, max: nat, default: nat) -> nat {
    match var {
        Some(value) => match text::number_value(value@, max) {
            Some(n) => n,
            None => default,
        },
        None => default,
    }
}

/// The parts of a text between commas.
pub open spec fn split_commas(value: Seq<char>) -> Seq<Seq<char>>
    decreases value.len(),
{
    if value.len() == 0 {
        seq![Seq::empty()]
    } else {
        let parts = split_commas(value.drop_last());
        if value.last() == ',' {
            parts.push(Seq::empty())
        } else {
            parts.drop_last().push(parts.last().push(value.last()))
        }
    }
}

/// The parts that are not empty, in order.
pub open spec fn non_empty(parts: Seq<Seq<char>>) -> Seq<Seq<char>>
    decreases parts.len(),
{
    if parts.len() == 0 {
        Seq::empty()
    } else {
        let rest = non_empty(parts.drop_last());
        if parts.last().len() == 0 {
            rest
        } else {
            rest.push(parts.last())
        }
    }
}

/// The nodes that a list of seeds names.
pub open spec fn seeds_of(value: Seq<char>) -> Seq<Seq<char>> {
    non_empty(split_commas(value))
}

/// The way of finding peers that the variables choose: DNS, a valid broadcast port, seeds
/// of which there is at least one, in this order; else broadcast on the default port.
pub open spec fn chosen_mode(vars: DiscoveryVars) -> ModeView {
    match vars.headless_dns {
        Some(dns) => ModeView::HeadlessDns {
            dns_host: dns@,
            port: number_or(
                if vars.server_port is Some {
                    vars.server_port
                } else {
                    vars.tcp_port
                },
                u16::MAX as nat,
                50051,
            ) as u16,
            poll_interval_sec: number_or(vars.poll_interval_sec, u64::MAX as nat, 3) as u64,
        },
        None => if vars.broadcast_port matches Some(port) && text::number_value(
            port@,
            u16::MAX as nat,
        ) is Some {
            ModeView::Broadcast { broadcast_port: number_or(vars.broadcast_port, u16::MAX as nat, 0) as u16 }
        } else if vars.seeds matches Some(seeds) && seeds_of(seeds@).len() > 0 {
            ModeView::StaticSeeds { seeds: seeds_of(vars.seeds.unwrap()@) }
        } else {
            ModeView::Broadcast { broadcast_port: 7001 }
        },
    }
}

fn parse_number_or(var: &Option<String>, max: u64, default: u64) -> (n: u64)
    requires
        default <= max,
    ensures
        n == number_or(*var, max as nat, default as nat),
        n <= max,
{
    match var {
        Some(value) => match parse_number(value.as_str(), max) {
            Some(n) => n,
            None => default,
        },
        None => default,
    }
}

/// The nodes that a list of seeds names, separated by commas.
pub fn parse_seeds(value: &str) -> (seeds: Vec<String>)
    ensures
        registry::text_views(seeds@) == seeds_of(value@),
{
    let n: usize = value.unicode_len();
    let mut seeds: Vec<String> = Vec::new();
    let mut start: usize = 0;
    let mut i: usize = 0;
    proof {
        assert(value@.take(0) =~= Seq::empty());
        assert(split_commas(value@.take(0)).drop_last() =~= Seq::empty());
        assert(registry::text_views(seeds@) =~= Seq::empty());
        assert(value@.subrange(0, 0) =~= Seq::empty());
    }
    while i < n
        invariant
            start <= i <= n,
            n == value@.len(),
            split_commas(value@.take(i as int)).len() > 0,
            registry::text_views(seeds@) == non_empty(split_commas(value@.take(i as int)).drop_last()),
            value@.subrange(start as int, i as int) == split_commas(value@.take(i as int)).last(),
        decreases n - i,
    {
        let ghost parts = split_commas(value@.take(i as int));
        let ghost next = split_commas(value@.take(i + 1));
        let ghost listed = seeds@;
        proof {
            assert(value@.take(i + 1).drop_last() =~= value@.take(i as int));
            assert(value@.take(i + 1).last() == value@[i as int]);
        }
        let c: char = value.get_char(i);
        if c == ',' {
            proof {
                assert(next.drop_last() =~= parts);
                assert(value@.subrange(i + 1, i + 1) =~= Seq::empty());
            }
            if start < i {
                seeds.push(value.substring_char(start, i).to_owned());
                proof {
                    assert(registry::text_views(seeds@) =~= registry::text_views(listed).push(parts.last()));
                }
            }
            start = i + 1;
        } else {
            proof {
                assert(next.drop_last() =~= parts.drop_last());
                assert(value@.subrange(start as int, i + 1) =~= value@.subrange(
                    start as int,
                    i as int,
                ).push(c));
            }
        }
        i += 1;
    }
    proof {
        assert(value@.take(i as int) =~= value@);
    }
    if start < n {
        let ghost listed = seeds@;
        let ghost parts = split_commas(value@);
        seeds.push(value.substring_char(start, n).to_owned());
        proof {
            assert(registry::text_views(seeds@) =~= registry::text_views(listed).push(parts.last()));
        }
    }
    seeds
}

impl DiscoveryMode {
    /// The way of finding peers that the environment chooses.
    pub fn from_env(vars: &DiscoveryVars) -> (mode: Self)
        ensures
            mode@ == chosen_mode(*vars),
    {
        match &vars.headless_dns {
            Some(dns) => {
                let port: u64 = if vars.server_port.is_some() {
                    parse_number_or(&vars.server_port, u16::MAX as u64, 50051)
                } else {
                    parse_number_or(&vars.tcp_port, u16::MAX as u64, 50051)
                };
                let poll_interval_sec: u64 = parse_number_or(&vars.poll_interval_sec, u64::MAX, 3);
                return DiscoveryMode::HeadlessDns {
                    dns_host: dns.clone(),
                    port: port as u16,
                    poll_interval_sec,
                };
            },
            None => {},
        }
        match &vars.broadcast_port {
            Some(value) => {
                match parse_number(value.as_str(), u16::MAX as u64) {
                    Some(port) => {
                        return DiscoveryMode::Broadcast { broadcast_port: port as u16 };
                    },
                    None => {},
                }
            },
            None => {},
        }
        match &vars.seeds {
            Some(value) => {
                let seeds: Vec<String> = parse_seeds(value.as_str());
                if !seeds.is_empty() {
                    return DiscoveryMode::StaticSeeds { seeds };
                }
            },
            None => {},
        }
        DiscoveryMode::Broadcast { broadcast_port: 7001 }
    }
}

/// What is to be done to find peers.
#[derive(Debug)]
pub enum DiscoveryPlan {
    /// These are the peers.
    Peers { peers: Vec<String> },
    /// A socket on the listening address sends the beacon to the target, and takes in the
    /// beacons of others.
    Beacon { listen_addr: String, beacon: String, target: String },
    /// The name is looked up at every interval.
    Lookup { query: String, poll_interval_sec: u64 },
}

/// The mathematical content of a [`DiscoveryPlan`].
pub enum PlanView {
    Peers { peers: Seq<Seq<char>> },
    Beacon { listen_addr: Seq<char>, beacon: Seq<char>, target: Seq<char> },
    Lookup { query: Seq<char>, poll_interval_sec: u64 },
}

impl View for DiscoveryPlan {
    type V = PlanView;

    open spec fn view(&self) -> PlanView {
        match *self {
            DiscoveryPlan::Peers { peers } => PlanView::Peers {
                peers: registry::text_views(peers@),
            },
            DiscoveryPlan::Beacon { listen_addr, beacon, target } => PlanView::Beacon {
                listen_addr: listen_addr@,
                beacon: beacon@,
                target: target@,
            },
            DiscoveryPlan::Lookup { query, poll_interval_sec } => PlanView::Lookup {
                query: query@,
                poll_interval_sec,
            },
        }
    }
}

/// A host and a port.
pub open spec fn endpoint(host: Seq<char>, port: u16) -> Seq<char> {
    host + ":"@ + text::decimal(port as nat)
}

/// The beacon of a node.
pub open spec fn beacon_of(node_id: Seq<char>) -> Seq<char> {
    "WALRQ_BEACON:"@ + node_id
}

/// The plan for a way of finding peers.
pub open spec fn plan_for(mode: ModeView, self_node_id: Seq<char>) -> PlanView {
    match mode {
        ModeView::StaticSeeds { seeds } => PlanView::Peers {
            peers: raft_model::texts_without(seeds, self_node_id),
        },
        ModeView::Broadcast { broadcast_port } => PlanView::Beacon {
            listen_addr: endpoint("0.0.0.0"@, broadcast_port),
            beacon: beacon_of(self_node_id),
            target: endpoint("255.255.255.255"@, broadcast_port),
        },
        ModeView::HeadlessDns { dns_host, port, poll_interval_sec } => PlanView::Lookup {
            query: endpoint(dns_host, port),
            poll_interval_sec,
        },
    }
}

/// The peer that a datagram announces: the name behind the beacon's prefix, unless it is
/// the node's own or the datagram is not text.
pub open spec fn announced_peer(datagram: Seq<u8>, self_node_id: Seq<char>) -> Option<Seq<char>> {
    if utf8::valid_utf8(datagram) {
        let t = utf8::decode_utf8(datagram);
        if t.len() >= 13 && t.take(13) == "WALRQ_BEACON:"@ && t.skip(13) != self_node_id {
            Some(t.skip(13))
        } else {
            None
        }
    } else {
        None
    }
}

/// Calls `std::str::from_utf8`, which takes valid UTF-8 as text and turns away anything
/// else. Where the data stops being valid is not kept.
#[verifier::external_body]
fn str_from_utf8(data: &[u8]) -> (res: Option<&str>)
    ensures
        match res {
            Some(t) => utf8::valid_utf8(data@) && t@ == utf8::decode_utf8(data@),
            None => !utf8::valid_utf8(data@),
        },
{
    std::str::from_utf8(data).ok()
}

fn format_endpoint(host: &str, port: u16) -> (res: String)
    ensures
        res@ == endpoint(host@, port),
{
    let mut res: String = host.to_owned();
    res.append(":");
    append_decimal(&mut res, port as u64);
    res
}

/// Finding peers.
pub struct DiscoveryEngine;

impl DiscoveryEngine {
    /// What is to be done to find peers.
    pub fn start(mode: &DiscoveryMode, self_node_id: &str) -> (plan: DiscoveryPlan)
        ensures
            plan@ == plan_for(mode@, self_node_id@),
    {
        match mode {
            DiscoveryMode::StaticSeeds { seeds } => DiscoveryPlan::Peers {
                peers: Self::other_nodes(seeds, self_node_id),
            },
            DiscoveryMode::Broadcast { broadcast_port } => {
                let mut beacon: String = "WALRQ_BEACON:".to_owned();
                beacon.append(self_node_id);
                DiscoveryPlan::Beacon {
                    listen_addr: format_endpoint("0.0.0.0", *broadcast_port),
                    beacon,
                    target: format_endpoint("255.255.255.255", *broadcast_port),
                }
            },
            DiscoveryMode::HeadlessDns { dns_host, port, poll_interval_sec } =>
                DiscoveryPlan::Lookup {
                    query: format_endpoint(dns_host.as_str(), *port),
                    poll_interval_sec: *poll_interval_sec,
                },
        }
    }

    /// The nodes other than this one.
    pub fn other_nodes(nodes: &Vec<String>, self_node_id: &str) -> (others: Vec<String>)
        ensures
            registry::text_views(others@) == raft_model::texts_without(
                registry::text_views(nodes@),
                self_node_id@,
            ),
    {
        let ghost views = registry::text_views(nodes@);
        let mut others: Vec<String> = Vec::new();
        let mut i: usize = 0;
        proof {
            assert(views.take(0) =~= Seq::empty());
            assert(registry::text_views(others@) =~= Seq::empty());
        }
        while i < nodes.len()
            invariant
                i <= nodes.len(),
                views == registry::text_views(nodes@),
                registry::text_views(others@) == raft_model::texts_without(
                    views.take(i as int),
                    self_node_id@,
                ),
            decreases nodes.len() - i,
        {
            let ghost listed = others@;
            proof {
                assert(views.take(i + 1).drop_last() =~= views.take(i as int));
                assert(views.take(i + 1).last() == nodes@[i as int]@);
            }
            if !same_text(nodes[i].as_str(), self_node_id) {
                others.push(nodes[i].clone());
                proof {
                    assert(registry::text_views(others@) =~= registry::text_views(listed).push(
                        nodes@[i as int]@,
                    ));
                }
            }
            i += 1;
        }
        proof {
            assert(views.take(i as int) =~= views);
        }
        others
    }

    /// The peer that a datagram announces.
    pub fn parse_beacon(datagram: &[u8], self_node_id: &str) -> (peer: Option<String>)
        ensures
            match peer {
                Some(p) => announced_peer(datagram@, self_node_id@) == Some(p@),
                None => announced_peer(datagram@, self_node_id@) is None,
            },
    {
        let msg: &str = match str_from_utf8(datagram) {
            Some(msg) => msg,
            None => {
                return None;
            },
        };
        let n: usize = msg.unicode_len();
        if n < 13 {
            return None;
        }
        let prefix: &str = msg.substring_char(0, 13);
        let rest: &str = msg.substring_char(13, n);
        proof {
            assert(msg@.take(13) =~= msg@.subrange(0, 13));
            assert(msg@.skip(13) =~= msg@.subrange(13, n as int));
        }
        if same_text(prefix, "WALRQ_BEACON:") && !same_text(rest, self_node_id) {
            Some(rest.to_owned())
        } else {
            None
        }
    }
}

/// A node's beacon announces it to every other node, and to itself nothing.
pub proof fn law_beacon_announces_its_node(node_id: Seq<char>, other: Seq<char>)
    ensures
        announced_peer(utf8::encode_utf8(beacon_of(node_id)), other) == if node_id == other {
            None
        } else {
            Some(node_id)
        },
{
    reveal_strlit("WALRQ_BEACON:");
    utf8::encode_utf8_valid_utf8(beacon_of(node_id));
    utf8::encode_utf8_decode_utf8(beacon_of(node_id));
    assert(beacon_of(node_id).take(13) =~= "WALRQ_BEACON:"@);
    assert(beacon_of(node_id).skip(13) =~= node_id);
}

/// How long a node that broadcasts waits for a first peer, in milliseconds.
pub const FIRST_PEER_WAIT_MS: u64 = 150;

/// Whether a node that has broadcast for `elapsed_ms` and knows `known` peers goes on waiting
/// for a first one.
pub fn wait_for_peer(elapsed_ms: u64, known: usize) -> (res: bool)
    ensures
        res == (elapsed_ms < 150 && known == 0),
{
    elapsed_ms < FIRST_PEER_WAIT_MS && known == 0
}

/// The text has no comma.
pub open spec fn has_no_comma(part: Seq<char>) -> bool {
    forall|i: int| 0 <= i < part.len() ==> #[trigger] part[i] != ','
}

/// The texts with a comma between each two.
pub open spec fn with_commas(parts: Seq<Seq<char>>) -> Seq<char>
    decreases parts.len(),
{
    if parts.len() == 0 {
        Seq::empty()
    } else if parts.len() == 1 {
        parts[0]
    } else {
        with_commas(parts.drop_last()) + seq![','] + parts.last()
    }
}

proof fn lemma_split_part(value: Seq<char>, part: Seq<char>)
    requires
        has_no_comma(part),
    ensures
        split_commas(value).len() > 0,
        split_commas(value + part) == split_commas(value).drop_last().push(
            split_commas(value).last() + part,
        ),
    decreases part.len(),
{
    lemma_split_some(value);
    let parts = split_commas(value);
    if part.len() == 0 {
        assert(value + part =~= value);
        assert(parts.last() + part =~= parts.last());
        assert(parts.drop_last().push(parts.last()) =~= parts);
    } else {
        let head = part.drop_last();
        assert forall|i: int| 0 <= i < head.len() implies #[trigger] head[i] != ',' by {
            assert(head[i] == part[i]);
        }
        lemma_split_part(value, head);
        assert((value + part).drop_last() =~= value + head);
        assert((value + part).last() == part[part.len() - 1]);
        let before = split_commas(value + head);
        assert(before.last() == parts.last() + head);
        assert(before.drop_last() =~= parts.drop_last());
        assert((parts.last() + head).push(part.last()) =~= parts.last() + part);
    }
}

proof fn lemma_split_some(value: Seq<char>)
    ensures
        split_commas(value).len() > 0,
    decreases value.len(),
{
    if value.len() > 0 {
        lemma_split_some(value.drop_last());
    }
}

/// Nodes whose names are not empty and have no comma are read back from a list in which commas
/// stand between them.
pub proof fn law_listed_seeds_are_read_back(seeds: Seq<Seq<char>>)
    requires
        forall|i: int|
            0 <= i < seeds.len() ==> has_no_comma(#[trigger] seeds[i]) && seeds[i].len() > 0,
    ensures
        seeds_of(with_commas(seeds)) == seeds,
{
    if seeds.len() == 0 {
        let parts = split_commas(Seq::empty());
        assert(parts.drop_last() =~= Seq::empty());
        assert(non_empty(parts.drop_last()) =~= Seq::empty());
        assert(seeds_of(with_commas(seeds)) =~= seeds);
    } else {
        lemma_split_listed(seeds);
        lemma_non_empty_all(seeds);
    }
}

proof fn lemma_split_listed(seeds: Seq<Seq<char>>)
    requires
        seeds.len() > 0,
        forall|i: int|
            0 <= i < seeds.len() ==> has_no_comma(#[trigger] seeds[i]) && seeds[i].len() > 0,
    ensures
        split_commas(with_commas(seeds)) == seeds,
    decreases seeds.len(),
{
    let last = seeds[seeds.len() - 1];
    if seeds.len() == 1 {
        let none = Seq::<char>::empty();
        lemma_split_part(none, last);
        assert(none + last =~= last);
        let parts = split_commas(none);
        assert(parts.drop_last().push(parts.last() + last) =~= seeds);
    } else {
        let head = seeds.drop_last();
        assert forall|i: int| 0 <= i < head.len() implies has_no_comma(#[trigger] head[i])
            && head[i].len() > 0 by {
            assert(head[i] == seeds[i]);
        }
        lemma_split_listed(head);
        let value = with_commas(head);
        let comma = value + seq![','];
        assert(comma.drop_last() =~= value);
        assert(split_commas(comma) == head.push(Seq::empty()));
        lemma_split_part(comma, last);
        let parts = split_commas(comma);
        assert(parts.drop_last() =~= head);
        assert(parts.last() + last =~= last);
        assert(head.push(last) =~= seeds);
    }
}

proof fn lemma_non_empty_all(parts: Seq<Seq<char>>)
    requires
        forall|i: int| 0 <= i < parts.len() ==> (#[trigger] parts[i]).len() > 0,
    ensures
        non_empty(parts) == parts,
    decreases parts.len(),
{
    if parts.len() > 0 {
        let head = parts.drop_last();
        assert forall|i: int| 0 <= i < head.len() implies (#[trigger] head[i]).len() > 0 by {
            assert(head[i] == parts[i]);
        }
        lemma_non_empty_all(head);
        assert(parts[parts.len() - 1].len() > 0);
        assert(head.push(parts.last()) =~= parts);
    } else {
        assert(non_empty(parts) =~= parts);
    }
}

/// Leaving a text out of a list leaves out every place of it and nothing else, and keeps the
/// order.
pub proof fn law_left_out_text_is_gone(texts: Seq<Seq<char>>, gone: Seq<char>)
    ensures
        raft_model::texts_without(texts, gone) == texts.filter(|t: Seq<char>| t != gone),
        !raft_model::texts_without(texts, gone).contains(gone),
        forall|t: Seq<char>|
            t != gone ==> (#[trigger] raft_model::texts_without(texts, gone).contains(t)
                == texts.contains(t)),
    decreases texts.len(),
{
    reveal(Seq::filter);
    if texts.len() > 0 {
        let head = texts.drop_last();
        let last = texts.last();
        law_left_out_text_is_gone(head, gone);
        let rest = raft_model::texts_without(head, gone);
        let all = raft_model::texts_without(texts, gone);
        assert(texts[texts.len() - 1] == last);
        assert forall|t: Seq<char>| texts.contains(t) == (head.contains(t) || t == last) by {
            if head.contains(t) {
                let i = choose|i: int| 0 <= i < head.len() && head[i] == t;
                assert(texts[i] == t);
            }
            if texts.contains(t) {
                let i = choose|i: int| 0 <= i < texts.len() && texts[i] == t;
                if i < head.len() {
                    assert(head[i] == t);
                }
            }
        }
        if last != gone {
            assert(all[rest.len() as int] == last);
            assert forall|t: Seq<char>| all.contains(t) == (rest.contains(t) || t == last) by {
                if rest.contains(t) {
                    let i = choose|i: int| 0 <= i < rest.len() && rest[i] == t;
                    assert(all[i] == t);
                }
                if all.contains(t) {
                    let i = choose|i: int| 0 <= i < all.len() && all[i] == t;
                    if i < rest.len() {
                        assert(rest[i] == t);
                    }
                }
            }
        }
    }
}

/// With seeds, the peers are all of them but the node itself.
pub proof fn law_seeds_are_the_peers(seeds: Seq<Seq<char>>, node_id: Seq<char>, name: Seq<char>)
    ensures
        ({
            let plan = plan_for(ModeView::StaticSeeds { seeds }, node_id);
            &&& plan is Peers
            &&& plan->peers.contains(name) <==> seeds.contains(name) && name != node_id
        }),
{
    law_left_out_text_is_gone(seeds, node_id);
}

/// The port stands in decimal behind the host and a colon.
pub proof fn law_endpoint_is_host_and_port(host: Seq<char>, port: u16)
    ensures
        ({
            let whole = endpoint(host, port);
            &&& whole.take(host.len() as int) == host
            &&& whole[host.len() as int] == ':'
            &&& text::number_value(whole.skip(host.len() as int + 1), u16::MAX as nat) == Some(
                port as nat,
            )
        }),
{
    reveal_strlit(":");
    text::law_decimal_is_read_back(port as nat, u16::MAX as nat);
    let whole = endpoint(host, port);
    assert(whole.take(host.len() as int) =~= host);
    assert(whole.skip(host.len() as int + 1) =~= text::decimal(port as nat));
}

/// A node that broadcasts listens on the port that it sends to, and its beacon announces it to
/// every other node that listens.
pub proof fn law_broadcast_reaches_other_nodes(port: u16, node_id: Seq<char>, other: Seq<char>)
    requires
        node_id != other,
    ensures
        ({
            let plan = plan_for(ModeView::Broadcast { broadcast_port: port }, node_id);
            let heard = plan_for(ModeView::Broadcast { broadcast_port: port }, other);
            &&& plan is Beacon
            &&& heard is Beacon
            &&& announced_peer(utf8::encode_utf8(plan->beacon), other) == Some(node_id)
            &&& plan->target == endpoint("255.255.255.255"@, port)
            &&& heard->listen_addr == endpoint("0.0.0.0"@, port)
        }),
{
    law_beacon_announces_its_node(node_id, other);
}

/// A host for DNS chooses DNS, whatever else is set, with the server's port before the TCP port.
/// Else a broadcast port that is one chooses broadcast, and else seeds do, if there are any.
pub proof fn law_variables_choose_the_mode(vars: DiscoveryVars, n: u16, secs: u64)
    ensures
        ({
            let mode = chosen_mode(vars);
            let names = |var: Option<String>, v: nat| var matches Some(t) && t@ == text::decimal(v);
            let is_port = vars.broadcast_port matches Some(t) && text::number_value(
                t@,
                u16::MAX as nat,
            ) is Some;
            let has_seed = vars.seeds matches Some(t) && seeds_of(t@).len() > 0;
            &&& vars.headless_dns is Some <==> mode is HeadlessDns
            &&& mode is HeadlessDns ==> mode->dns_host == vars.headless_dns.unwrap()@
            &&& mode is HeadlessDns && names(vars.server_port, n as nat) ==> mode->port == n
            &&& mode is HeadlessDns && vars.server_port is None && names(vars.tcp_port, n as nat)
                ==> mode->port == n
            &&& mode is HeadlessDns && vars.server_port is None && vars.tcp_port is None
                ==> mode->port == 50051
            &&& mode is HeadlessDns && names(vars.poll_interval_sec, secs as nat)
                ==> mode->poll_interval_sec == secs
            &&& mode is HeadlessDns && vars.poll_interval_sec is None ==> mode->poll_interval_sec
                == 3
            &&& vars.headless_dns is None && names(vars.broadcast_port, n as nat) ==> mode == (
            ModeView::Broadcast { broadcast_port: n })
            &&& vars.headless_dns is None && !is_port && has_seed ==> mode == (
            ModeView::StaticSeeds { seeds: seeds_of(vars.seeds.unwrap()@) })
            &&& vars.headless_dns is None && !is_port && !has_seed ==> mode == (
            ModeView::Broadcast { broadcast_port: 7001 })
        }),
{
    text::law_decimal_is_read_back(n as nat, u16::MAX as nat);
    text::law_decimal_is_read_back(secs as nat, u64::MAX as nat);
}

}
