use ouisync_network::debug_payload::DebugRequest;
use ouisync_network::message::{BlockId, MultiBlockPresence, Request, ResponseDisambiguator};
use ouisync_network::request_tracker::graph::{Graph, Key};
use rand::Rng;
use std::collections::HashSet;

fn random_hash() -> ouisync_network::message::Hash {
    ouisync_network::message::Hash(rand::thread_rng().gen())
}

#[test]
fn child_request() {
    let mut graph = Graph::new();

    assert_eq!(graph.requests().len(), 0);

    let parent_request = Request::ChildNodes(
        random_hash(),
        ResponseDisambiguator::new(MultiBlockPresence::Full),
        DebugRequest::start(),
    );

    let parent_node_key = graph.get_or_insert(parent_request, MultiBlockPresence::Full, None, 1);

    assert_eq!(graph.requests().len(), 1);

    let Some(node) = graph.get(parent_node_key) else {
        unreachable!()
    };

    assert_eq!(*node.value(), 1);
    assert_eq!(node.children().len(), 0);
    assert_eq!(node.request(), &parent_request);

    let child_request = Request::ChildNodes(
        random_hash(),
        ResponseDisambiguator::new(MultiBlockPresence::Full),
        DebugRequest::start(),
    );

    let child_node_key = graph.get_or_insert(
        child_request,
        MultiBlockPresence::Full,
        Some(parent_node_key),
        2,
    );

    assert_eq!(graph.requests().len(), 2);

    let Some(node) = graph.get(child_node_key) else {
        unreachable!()
    };

    assert_eq!(*node.value(), 2);
    assert_eq!(node.children().len(), 0);
    assert_eq!(node.request(), &child_request);

    assert_eq!(graph.get(parent_node_key).unwrap().children(), vec![child_node_key]);

    graph.remove(child_node_key);

    assert_eq!(graph.get(parent_node_key).unwrap().children().len(), 0);
}

#[test]
fn duplicate_request() {
    let mut graph = Graph::new();

    assert_eq!(graph.requests().len(), 0);

    let request = Request::ChildNodes(
        random_hash(),
        ResponseDisambiguator::new(MultiBlockPresence::Full),
        DebugRequest::start(),
    );

    let node_key0 = graph.get_or_insert(request, MultiBlockPresence::Full, None, 1);
    assert_eq!(graph.requests().len(), 1);

    let node_key1 = graph.get_or_insert(request, MultiBlockPresence::Full, None, 1);
    assert_eq!(graph.requests().len(), 1);
    assert_eq!(node_key0, node_key1);
}

#[test]
fn multiple_parents() {
    let mut graph = Graph::new();

    let hash = random_hash();

    let parent_block_presence_0 = MultiBlockPresence::Absent;
    let parent_request_0 = Request::ChildNodes(
        hash,
        ResponseDisambiguator::new(parent_block_presence_0),
        DebugRequest::start(),
    );

    let parent_block_presence_1 = MultiBlockPresence::Full;
    let parent_request_1 = Request::ChildNodes(
        hash,
        ResponseDisambiguator::new(parent_block_presence_1),
        DebugRequest::start(),
    );

    let child_request = Request::Block(BlockId(rand::thread_rng().gen()), DebugRequest::start());

    let parent_key_0 = graph.get_or_insert(parent_request_0, parent_block_presence_0, None, 0);
    let parent_key_1 = graph.get_or_insert(parent_request_1, parent_block_presence_1, None, 1);

    let child_key_0 = graph.get_or_insert(
        child_request,
        MultiBlockPresence::Absent,
        Some(parent_key_0),
        2,
    );

    let child_key_1 = graph.get_or_insert(
        child_request,
        MultiBlockPresence::Absent,
        Some(parent_key_1),
        2,
    );

    assert_eq!(child_key_0, child_key_1);

    for parent_key in [parent_key_0, parent_key_1] {
        assert_eq!(
            graph
                .get(parent_key)
                .unwrap()
                .children()
                .into_iter()
                .collect::<HashSet<_>>(),
            HashSet::from([child_key_0])
        );
    }

    assert_eq!(
        graph
            .get(child_key_0)
            .unwrap()
            .parents()
            .into_iter()
            .collect::<HashSet<_>>(),
        HashSet::from([parent_key_0, parent_key_1])
    );

    graph.remove(parent_key_0);

    assert_eq!(
        graph
            .get(child_key_0)
            .unwrap()
            .parents()
            .into_iter()
            .collect::<HashSet<_>>(),
        HashSet::from([parent_key_1])
    );

    graph.remove(parent_key_1);

    assert_eq!(
        graph
            .get(child_key_0)
            .unwrap()
            .parents()
            .into_iter()
            .collect::<HashSet<_>>(),
        HashSet::default(),
    );
}

#[test]
fn multiple_children() {
    let mut graph = Graph::new();

    let parent_request = Request::ChildNodes(
        random_hash(),
        ResponseDisambiguator::new(MultiBlockPresence::Full),
        DebugRequest::start(),
    );

    let child_request_0 = Request::ChildNodes(
        random_hash(),
        ResponseDisambiguator::new(MultiBlockPresence::Full),
        DebugRequest::start(),
    );

    let child_request_1 = Request::ChildNodes(
        random_hash(),
        ResponseDisambiguator::new(MultiBlockPresence::Full),
        DebugRequest::start(),
    );

    let parent_key = graph.get_or_insert(parent_request, MultiBlockPresence::Full, None, 0);

    let child_key_0 = graph.get_or_insert(
        child_request_0,
        MultiBlockPresence::Full,
        Some(parent_key),
        1,
    );

    let child_key_1 = graph.get_or_insert(
        child_request_1,
        MultiBlockPresence::Full,
        Some(parent_key),
        2,
    );

    assert_eq!(
        graph
            .get(parent_key)
            .unwrap()
            .children()
            .into_iter()
            .collect::<HashSet<_>>(),
        HashSet::from([child_key_0, child_key_1])
    );

    for child_key in [child_key_0, child_key_1] {
        assert_eq!(
            graph
                .get(child_key)
                .unwrap()
                .parents()
                .into_iter()
                .collect::<HashSet<_>>(),
            HashSet::from([parent_key])
        );
    }

    graph.remove(child_key_0);

    assert_eq!(
        graph
            .get(parent_key)
            .unwrap()
            .children()
            .into_iter()
            .collect::<HashSet<_>>(),
        HashSet::from([child_key_1])
    );

    graph.remove(child_key_1);

    assert_eq!(
        graph
            .get(parent_key)
            .unwrap()
            .children()
            .into_iter()
            .collect::<HashSet<_>>(),
        HashSet::default()
    );
}

#[test]
fn graph_value_mut_changes_value_only() {
    let mut graph = Graph::new();
    let request = Request::ChildNodes(
        random_hash(),
        ResponseDisambiguator::new(MultiBlockPresence::Full),
        DebugRequest::start(),
    );
    let key = graph.get_or_insert(request, MultiBlockPresence::Full, None, 5);
    *graph.value_mut(key) = 7;
    let node = graph.get(key).unwrap();
    assert_eq!(*node.value(), 7);
    assert_eq!(node.request(), &request);
    assert_eq!(graph.len(), 1);
}

#[test]
fn graph_remove_missing_is_none() {
    let mut graph: Graph<MultiBlockPresence, u32> = Graph::new();
    let request = Request::Block(BlockId([1; 32]), DebugRequest::start());
    let key = graph.get_or_insert(request, MultiBlockPresence::Absent, None, 0);
    assert!(graph.remove(key).is_some());
    assert!(graph.remove(key).is_none());
    assert!(graph.get(key).is_none());
    assert_eq!(graph.len(), 0);
}

#[test]
fn parent_not_in_graph_is_kept() {
    let mut graph = Graph::new();
    let request = Request::ChildNodes(
        random_hash(),
        ResponseDisambiguator::new(MultiBlockPresence::Full),
        DebugRequest::start(),
    );
    let missing = Key(5);
    let key = graph.get_or_insert(request, MultiBlockPresence::Full, Some(missing), 1);
    assert_ne!(key, missing);
    assert_eq!(graph.get(key).unwrap().parents(), vec![missing]);
    assert!(graph.get(missing).is_none());
}

#[test]
fn duplicate_request_gains_parent() {
    let mut graph = Graph::new();
    let parent_request = Request::ChildNodes(
        random_hash(),
        ResponseDisambiguator::new(MultiBlockPresence::Full),
        DebugRequest::start(),
    );
    let parent = graph.get_or_insert(parent_request, MultiBlockPresence::Full, None, 0);
    let request = Request::ChildNodes(
        random_hash(),
        ResponseDisambiguator::new(MultiBlockPresence::Full),
        DebugRequest::start(),
    );
    let key0 = graph.get_or_insert(request, MultiBlockPresence::Full, None, 1);
    let key1 = graph.get_or_insert(request, MultiBlockPresence::Full, Some(parent), 2);
    assert_eq!(key0, key1);
    assert_eq!(graph.requests().len(), 2);
    assert_eq!(*graph.get(key0).unwrap().value(), 1);
    assert_eq!(graph.get(key0).unwrap().parents(), vec![parent]);
    assert_eq!(graph.get(parent).unwrap().children(), vec![key0]);
}

#[test]
fn removing_a_node_that_is_not_there_changes_nothing() {
    let mut graph: Graph<MultiBlockPresence, u32> = Graph::new();
    let request = Request::ChildNodes(
        random_hash(),
        ResponseDisambiguator::new(MultiBlockPresence::Full),
        DebugRequest::start(),
    );
    let key = graph.get_or_insert(request, MultiBlockPresence::Full, Some(Key(3)), 1);
    assert!(graph.remove(Key(3)).is_none());
    assert_eq!(graph.get(key).unwrap().parents(), vec![Key(3)]);
}
