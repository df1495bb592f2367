use crate::file_watcher::{dashed, label_matches};
use crate::graph_runtime::contains_string;
use crate::nrepl_eval::{namespace_of, node_namespace};
use crate::preprocessor::texts;
use crate::text::{
    chars_of, has_prefix, key_less, lemma_key_less_total, lemma_key_less_transitive, push_char, push_str, starts,
    string_from, text_eq, text_less,
};
use vstd::prelude::*;

verus! {

/// A node of a canvas as the delivery of a peer's values sees it: its id,
/// label, whether it stands for a peer's module, and the modules it imports.
pub struct NodeSummary {
    pub id: u64,
    pub label: String,
    pub phantom: bool,
    pub imports: Vec<String>,
}

/// What to do with the node standing for a peer's module.
pub struct PhantomUpdate {
    /// The node: the existing one, or a new one.
    pub id: u64,
    pub create: bool,
    /// The canvas's next node id afterwards.
    pub next_node_id: u64,
    /// Its outputs: the names of the values, without metadata, sorted.
    pub outputs: Vec<String>,
    /// The library template to register, as (key, category), where the
    /// values carry source code.
    pub template: Option<(String, String)>,
    /// The nodes to recompute: those importing the module, not pending.
    pub recompute: Vec<u64>,
}

/// What delivering a peer's values for a module to a canvas does.
pub struct DeliveryPlan {
    /// The name to remember for the peer, where the values carry one.
    pub peer_name: Option<String>,
    /// The node to update; none where the canvas has a local node of the
    /// module.
    pub node: Option<PhantomUpdate>,
}

/// The canvas has a local (not phantom) node of the module.
pub open spec fn has_local(nodes: Seq<NodeSummary>, module: Seq<char>) -> bool {
    exists|i: int| 0 <= i < nodes.len() && !nodes[i].phantom && dashed(#[trigger] nodes[i].label@) == module
}

/// The first phantom node labelled `module` from position `i` on.
pub open spec fn phantom_from(nodes: Seq<NodeSummary>, module: Seq<char>, i: int) -> Option<int>
    decreases nodes.len() - i,
{
    if i < 0 || i >= nodes.len() {
        None
    } else if nodes[i].phantom && nodes[i].label@ == module {
        Some(i)
    } else {
        phantom_from(nodes, module, i + 1)
    }
}

/// The ids of the nodes that import `module` and are not pending, in order.
pub open spec fn importers(nodes: Seq<NodeSummary>, module: Seq<char>, pending: Seq<u64>) -> Seq<u64>
    decreases nodes.len(),
{
    if nodes.len() == 0 {
        Seq::empty()
    } else {
        let r = importers(nodes.drop_last(), module, pending);
        let n = nodes.last();
        if !n.phantom && texts(n.imports@).contains(module) && !pending.contains(n.id) {
            r.push(n.id)
        } else {
            r
        }
    }
}

/// Strictly increasing texts.
pub open spec fn texts_sorted(v: Seq<Seq<char>>) -> bool {
    forall|i: int, j: int| 0 <= i < j < v.len() ==> key_less(#[trigger] v[i], #[trigger] v[j])
}

/// A value name that is metadata, not an output.
pub open spec fn is_metadata(name: Seq<char>) -> bool {
    starts(name, "__"@)
}

/// The name to remember for a peer: the one its values carry, if not empty.
pub open spec fn carried_name(peer_name: Option<&str>) -> Option<Seq<char>> {
    match peer_name {
        Some(n) => if n@.len() > 0 {
            Some(n@)
        } else {
            None
        },
        None => None,
    }
}

/// How a peer is shown: the name it carries, else the one known for it,
/// else its id.
pub open spec fn shown_name(peer: Seq<char>, peer_name: Option<&str>, known: Option<&str>) -> Seq<char> {
    match carried_name(peer_name) {
        Some(n) => n,
        None => match known {
            Some(k) => k@,
            None => peer,
        },
    }
}

/// Adds `c` to strictly sorted texts unless it is there.
fn insert_sorted(v: &mut Vec<String>, c: &String)
    requires
        texts_sorted(texts(old(v)@)),
    ensures
        texts_sorted(texts(final(v)@)),
        forall|x: Seq<char>| #[trigger] texts(final(v)@).contains(x) <==> texts(old(v)@).contains(x) || x == c@,
{
    let ghost w0 = texts(v@);
    let mut i: usize = 0;
    while i < v.len() && text_less(v[i].as_str(), c.as_str())
        invariant
            i <= v@.len(),
            v@ == old(v)@,
            w0 == texts(v@),
            forall|j: int| 0 <= j < i ==> key_less(#[trigger] w0[j], c@),
        decreases v@.len() - i,
    {
        i = i + 1;
    }
    if i < v.len() && text_eq(v[i].as_str(), c.as_str()) {
        assert(w0[i as int] == c@);
        return;
    }
    proof {
        if i < w0.len() {
            lemma_key_less_total(w0[i as int], c@);
        }
    }
    v.insert(i, c.clone());
    let ghost w = texts(v@);
    assert(w =~= w0.insert(i as int, c@));
    assert forall|a: int, b: int| 0 <= a < b < w.len() implies key_less(#[trigger] w[a], #[trigger] w[b]) by {
        if b == i {
            assert(w[a] == w0[a]);
        } else if a == i {
            assert(w[b] == w0[b - 1]);
            if b - 1 > i {
                lemma_key_less_transitive(c@, w0[i as int], w0[b - 1]);
            }
        } else if b < i {
            assert(w[a] == w0[a] && w[b] == w0[b]);
        } else if a < i {
            assert(w[a] == w0[a] && w[b] == w0[b - 1]);
            lemma_key_less_transitive(w0[a], c@, w0[i as int]);
            if b - 1 > i {
                lemma_key_less_transitive(w0[a], w0[i as int], w0[b - 1]);
            }
        } else {
            assert(w[a] == w0[a - 1] && w[b] == w0[b - 1]);
        }
    }
    assert forall|x: Seq<char>| #[trigger] w.contains(x) <==> w0.contains(x) || x == c@ by {
        if w.contains(x) {
            let a = choose|a: int| 0 <= a < w.len() && w[a] == x;
            if a < i {
                assert(w0[a] == x);
            } else if a > i {
                assert(w0[a - 1] == x);
            }
        }
        if w0.contains(x) {
            let a = choose|a: int| 0 <= a < w0.len() && w0[a] == x;
            if a < i {
                assert(w[a] == x);
            } else {
                assert(w[a + 1] == x);
            }
        }
        if x == c@ {
            assert(w[i as int] == x);
        }
    }
}

/// The names of the values, without metadata, sorted.
fn output_names(keys: &Vec<String>) -> (r: Vec<String>)
    ensures
        texts_sorted(texts(r@)),
        forall|x: Seq<char>| #[trigger] texts(r@).contains(x) <==> texts(keys@).contains(x) && !is_metadata(x),
{
    let mut out: Vec<String> = Vec::new();
    let mut i: usize = 0;
    while i < keys.len()
        invariant
            i <= keys@.len(),
            texts_sorted(texts(out@)),
            forall|x: Seq<char>| #[trigger] texts(out@).contains(x) <==> (exists|j: int|
                0 <= j < i && keys@[j]@ == x) && !is_metadata(x),
        decreases keys@.len() - i,
    {
        let cs = chars_of(keys[i].as_str());
        if !has_prefix(cs.as_slice(), "__") {
            insert_sorted(&mut out, &keys[i]);
        }
        assert forall|x: Seq<char>| #[trigger] texts(out@).contains(x) <==> (exists|j: int|
            0 <= j < i + 1 && keys@[j]@ == x) && !is_metadata(x) by {
            if x == keys@[i as int]@ {
                assert(0 <= i < i + 1 && keys@[i as int]@ == x);
            }
            if exists|j: int| 0 <= j < i + 1 && keys@[j]@ == x {
                let j = choose|j: int| 0 <= j < i + 1 && keys@[j]@ == x;
                if j < i {
                    assert(exists|j2: int| 0 <= j2 < i && keys@[j2]@ == x);
                }
            }
        }
        i = i + 1;
    }
    assert forall|x: Seq<char>| #[trigger] texts(keys@).contains(x) <==> exists|j: int| 0 <= j < keys@.len() && keys@[j]@ == x by {
        if texts(keys@).contains(x) {
            let j = choose|j: int| 0 <= j < texts(keys@).len() && texts(keys@)[j] == x;
            assert(keys@[j]@ == x);
        }
        if exists|j: int| 0 <= j < keys@.len() && keys@[j]@ == x {
            let j = choose|j: int| 0 <= j < keys@.len() && keys@[j]@ == x;
            assert(texts(keys@)[j] == x);
        }
    }
    out
}

fn u64_in(v: &Vec<u64>, x: u64) -> (r: bool)
    ensures
        r == v@.contains(x),
{
    let mut i: usize = 0;
    while i < v.len()
        invariant
            i <= v@.len(),
            forall|j: int| 0 <= j < i ==> v@[j] != x,
        decreases v@.len() - i,
    {
        if v[i] == x {
            assert(v@[i as int] == x);
            return true;
        }
        i = i + 1;
    }
    false
}

proof fn lemma_phantom_from(nodes: Seq<NodeSummary>, module: Seq<char>, i: int)
    requires
        0 <= i,
    ensures
        phantom_from(nodes, module, i) matches Some(c) ==> i <= c < nodes.len(),
    decreases nodes.len() - i,
{
    if i < nodes.len() && !(nodes[i].phantom && nodes[i].label@ == module) {
        lemma_phantom_from(nodes, module, i + 1);
    }
}

/// The id of the first phantom node labelled `module`.
fn find_phantom(nodes: &Vec<NodeSummary>, module: &str) -> (r: Option<u64>)
    ensures
        match phantom_from(nodes@, module@, 0) {
            Some(i) => 0 <= i < nodes@.len() && r == Some(nodes@[i].id),
            None => r is None,
        },
{
    proof {
        lemma_phantom_from(nodes@, module@, 0);
    }
    let mut k: usize = 0;
    while k < nodes.len()
        invariant
            k <= nodes@.len(),
            phantom_from(nodes@, module@, 0) == phantom_from(nodes@, module@, k as int),
        decreases nodes@.len() - k,
    {
        if nodes[k].phantom && text_eq(nodes[k].label.as_str(), module) {
            return Some(nodes[k].id);
        }
        k = k + 1;
    }
    None
}

/// Decides what delivering a peer's values for `module` to a canvas does:
/// the peer's name is remembered where the values carry a non-empty one;
/// nothing more happens where the canvas has a local node of the module;
/// otherwise the values go to the canvas's phantom node labelled `module`
/// (a new one, at the next node id, where there is none), whose outputs are
/// the value names without metadata, sorted; a template `peer/module` in the
/// peer's category is registered where the values carry source code; and
/// the nodes importing the module that are not pending recompute.
pub fn plan_delivery(
    nodes: &Vec<NodeSummary>,
    next_node_id: u64,
    peer: &str,
    module: &str,
    keys: &Vec<String>,
    has_source: bool,
    peer_name: Option<&str>,
    known_name: Option<&str>,
    pending: &Vec<u64>,
) -> (r: DeliveryPlan)
    requires
        !has_local(nodes@, module@) && phantom_from(nodes@, module@, 0) is None ==> next_node_id < u64::MAX,
    ensures
        (match r.peer_name {
            Some(n) => Some(n@),
            None => None,
        }) == carried_name(peer_name),
        r.node is None <==> has_local(nodes@, module@),
        r.node matches Some(p) ==> {
            &&& match phantom_from(nodes@, module@, 0) {
                Some(i) => p.id == nodes@[i].id && !p.create && p.next_node_id == next_node_id,
                None => p.id == next_node_id && p.create && p.next_node_id == next_node_id + 1,
            }
            &&& texts_sorted(texts(p.outputs@))
            &&& forall|x: Seq<char>| #[trigger] texts(p.outputs@).contains(x) <==> texts(keys@).contains(x) && !is_metadata(x)
            &&& (match p.template {
                Some((key, category)) => has_source && key@ == peer@ + "/"@ + module@ && category@ == shown_name(
                    peer@,
                    peer_name,
                    known_name,
                ),
                None => !has_source,
            })
            &&& p.recompute@ == importers(nodes@, module@, pending@)
        },
{
    let remembered = match peer_name {
        Some(n) => if chars_of(n).len() > 0 {
            Some(string_from(n))
        } else {
            None
        },
        None => None,
    };
    assert((match remembered {
        Some(n) => Some(n@),
        None => None,
    }) == carried_name(peer_name));
    let mut i: usize = 0;
    while i < nodes.len()
        invariant
            i <= nodes@.len(),
            forall|j: int| 0 <= j < i ==> !(!nodes@[j].phantom && dashed(#[trigger] nodes@[j].label@) == module@),
            (match remembered {
                Some(n) => Some(n@),
                None => None,
            }) == carried_name(peer_name),
        decreases nodes@.len() - i,
    {
        if label_matches(nodes[i].label.as_str(), nodes[i].phantom, module) {
            return DeliveryPlan { peer_name: remembered, node: None };
        }
        i = i + 1;
    }
    assert(!has_local(nodes@, module@));
    let phantom = find_phantom(nodes, module);
    let (id, create, next) = match phantom {
        Some(p) => (p, false, next_node_id),
        None => (next_node_id, true, next_node_id + 1),
    };
    let outputs = output_names(keys);
    let template = if has_source {
        let mut key = string_from(peer);
        push_char(&mut key, '/');
        push_str(&mut key, module);
        let category = match remembered {
            Some(ref n) => n.clone(),
            None => match known_name {
                Some(kn) => string_from(kn),
                None => string_from(peer),
            },
        };
        assert(key@ == peer@ + "/"@ + module@) by {
            reveal_strlit("/");
            assert(key@ =~= peer@ + "/"@ + module@);
        }
        Some((key, category))
    } else {
        None
    };
    let mut recompute: Vec<u64> = Vec::new();
    let mut j: usize = 0;
    assert(nodes@.take(0) =~= Seq::<NodeSummary>::empty());
    while j < nodes.len()
        invariant
            j <= nodes@.len(),
            recompute@ == importers(nodes@.take(j as int), module@, pending@),
        decreases nodes@.len() - j,
    {
        assert(nodes@.take(j + 1).drop_last() =~= nodes@.take(j as int));
        assert(nodes@.take(j + 1).last() == nodes@[j as int]);
        let n = &nodes[j];
        if !n.phantom && contains_string(&n.imports, module) && !u64_in(pending, n.id) {
            recompute.push(n.id);
        }
        j = j + 1;
    }
    assert(nodes@.take(j as int) =~= nodes@);
    DeliveryPlan {
        peer_name: remembered,
        node: Some(PhantomUpdate { id, create, next_node_id: next, outputs, template, recompute }),
    }
}



/// What publishing a node's values does.
pub struct Publication {
    /// The channel: the canvas and the node's module name.
    pub channel: String,
    /// The module name: the label with spaces as dashes.
    pub module: String,
    /// Whether the node's source code goes along.
    pub with_source: bool,
    /// Whether the user's name goes along.
    pub with_peer_name: bool,
    /// The other canvases, which get the values directly.
    pub loopback: Vec<String>,
}

/// The canvases other than `source`, in order.
pub open spec fn other_canvases(canvases: Seq<Seq<char>>, source: Seq<char>) -> Seq<Seq<char>>
    decreases canvases.len(),
{
    if canvases.len() == 0 {
        Seq::empty()
    } else {
        let r = other_canvases(canvases.drop_last(), source);
        if canvases.last() != source {
            r.push(canvases.last())
        } else {
            r
        }
    }
}

/// Decides whether and how a computed node publishes its values: a phantom
/// node, a node that exports nothing and a node whose module name is empty
/// do not; otherwise the values go out on `canvas/module`, with the source
/// code where the canvas shares code and the node has some, with the user's
/// name where it is not empty, and straight to every other canvas.
pub fn plan_publication(
    canvas: &str,
    label: &str,
    phantom: bool,
    exports_something: bool,
    share_code: bool,
    code: &str,
    user_name: &str,
    canvases: &Vec<String>,
) -> (r: Option<Publication>)
    ensures
        r is None <==> (phantom || !exports_something || label@.len() == 0),
        r matches Some(p) ==> {
            &&& p.channel@ == namespace_of(canvas@, label@)
            &&& p.module@ == dashed(label@)
            &&& p.with_source == (share_code && code@.len() > 0)
            &&& p.with_peer_name == (user_name@.len() > 0)
            &&& texts(p.loopback@) == other_canvases(texts(canvases@), canvas@)
        },
{
    if phantom || !exports_something {
        return None;
    }
    let label_chars = chars_of(label);
    if label_chars.len() == 0 {
        return None;
    }
    let channel = node_namespace(canvas, label);
    let mut module = String::new();
    let mut i: usize = 0;
    while i < label_chars.len()
        invariant
            i <= label_chars@.len(),
            label_chars@ == label@,
            module@ == dashed(label@.take(i as int)),
        decreases label_chars@.len() - i,
    {
        let c = if label_chars[i] == ' ' {
            '-'
        } else {
            label_chars[i]
        };
        push_char(&mut module, c);
        i = i + 1;
        assert(module@ =~= dashed(label@.take(i as int)));
    }
    assert(label@.take(i as int) =~= label@);
    let with_source = share_code && chars_of(code).len() > 0;
    let with_peer_name = chars_of(user_name).len() > 0;
    let ghost cs = texts(canvases@);
    let mut loopback: Vec<String> = Vec::new();
    let mut k: usize = 0;
    assert(cs.take(0) =~= Seq::<Seq<char>>::empty());
    assert(texts(loopback@) =~= Seq::<Seq<char>>::empty());
    while k < canvases.len()
        invariant
            k <= canvases@.len(),
            cs == texts(canvases@),
            texts(loopback@) == other_canvases(cs.take(k as int), canvas@),
        decreases canvases@.len() - k,
    {
        assert(cs.take(k + 1).drop_last() =~= cs.take(k as int));
        assert(cs.take(k + 1).last() == canvases@[k as int]@);
        if !text_eq(canvases[k].as_str(), canvas) {
            let ghost before = texts(loopback@);
            loopback.push(canvases[k].clone());
            assert(texts(loopback@) =~= before.push(canvases@[k as int]@));
        }
        k = k + 1;
    }
    assert(cs.take(k as int) =~= cs);
    Some(Publication { channel, module, with_source, with_peer_name, loopback })
}

} // verus!
