use std::sync::Arc;

use multi_index_store::agent_map::MultiIndexAgentTaskMap;
use multi_index_store::agent_task::Activity;
use multi_index_store::agent_task::ActivitySender;
use multi_index_store::agent_task::AgentTask;

fn task(agent_id: u64, task_id: u64, sender: &ActivitySender) -> AgentTask {
    AgentTask {
        agent_id,
        task_id,
        agent_state: Arc::new(tokio::sync::RwLock::new("test".to_string())),
        sender: sender.clone(),
        stop_sender: Arc::new(tokio::sync::oneshot::channel::<anyhow::Result<()>>().0),
    }
}

fn state_of(t: &AgentTask) -> String {
    t.agent_state.try_read().unwrap().clone()
}

fn task_ids(ts: &[&AgentTask]) -> Vec<u64> {
    ts.iter().map(|t| t.task_id).collect()
}

fn sample() -> (MultiIndexAgentTaskMap, ActivitySender, tokio::sync::mpsc::Receiver<Activity>) {
    let (tx, rx) = tokio::sync::mpsc::channel::<Activity>(16);
    let mut map = MultiIndexAgentTaskMap::default();
    map.insert(task(1, 10, &tx));
    map.insert(task(2, 20, &tx));
    map.insert(task(1, 30, &tx));
    map.insert(task(3, 5, &tx));
    (map, tx, rx)
}

#[test]
fn insert_and_look_up() {
    let (map, _tx, _rx) = sample();
    assert_eq!(map.len(), 4);
    assert!(!map.is_empty());
    assert_eq!(map.get_by_task_id(&20).unwrap().agent_id, 2);
    assert!(map.get_by_task_id(&21).is_none());
    assert_eq!(task_ids(&map.get_by_agent_id(&1)), vec![10, 30]);
    assert!(map.get_by_agent_id(&9).is_empty());
}

#[test]
fn try_insert_refuses_a_taken_task_id() {
    let (mut map, tx, _rx) = sample();
    let refused = map.try_insert(task(7, 20, &tx));
    match refused {
        Err(e) => {
            assert_eq!(e.0.agent_id, 7);
            assert_eq!(e.0.task_id, 20);
        }
        Ok(_) => panic!("a taken task_id was accepted"),
    }
    assert_eq!(map.len(), 4);
    assert!(map.get_by_agent_id(&7).is_empty());
}

#[test]
fn iteration_orders() {
    let (map, _tx, _rx) = sample();
    assert_eq!(task_ids(&map.iter_by_task_id()), vec![5, 10, 20, 30]);
    let slots: Vec<u64> = map.iter().iter().map(|(_, t)| t.task_id).collect();
    assert_eq!(slots, vec![10, 20, 30, 5]);
    let by_agent: Vec<u64> = map.iter_by_agent_id().iter().map(|t| t.agent_id).collect();
    assert_eq!(by_agent.len(), 4);
    let mut groups: Vec<u64> = Vec::new();
    for a in by_agent {
        if groups.last() != Some(&a) {
            assert!(!groups.contains(&a));
            groups.push(a);
        }
    }
    assert_eq!(groups.len(), 3);
    let ones: Vec<u64> = map.iter_by_agent_id().iter().filter(|t| t.agent_id == 1).map(|t| t.task_id).collect();
    assert_eq!(ones, vec![10, 30]);
}

#[test]
fn removal_by_task_id_and_by_agent_id() {
    let (mut map, _tx, _rx) = sample();
    let t = map.remove_by_task_id(&10).unwrap();
    assert_eq!(t.agent_id, 1);
    assert!(map.remove_by_task_id(&10).is_none());
    assert_eq!(task_ids(&map.get_by_agent_id(&1)), vec![30]);
    let gone = map.remove_by_agent_id(&1);
    assert_eq!(gone.iter().map(|t| t.task_id).collect::<Vec<_>>(), vec![30]);
    assert!(map.get_by_agent_id(&1).is_empty());
    assert!(map.get_by_task_id(&30).is_none());
    assert_eq!(map.len(), 2);
    assert!(map.remove_by_agent_id(&1).is_empty());
}

#[test]
fn modify_by_task_id_refiles_both_indexes() {
    let (mut map, _tx, _rx) = sample();
    let t = map
        .modify_by_task_id(&20, |t| {
            t.task_id = 21;
            t.agent_id = 1;
        })
        .unwrap();
    assert_eq!(t.task_id, 21);
    assert!(map.get_by_task_id(&20).is_none());
    assert_eq!(map.get_by_task_id(&21).unwrap().agent_id, 1);
    assert_eq!(task_ids(&map.get_by_agent_id(&1)), vec![10, 21, 30]);
    assert!(map.get_by_agent_id(&2).is_empty());
    assert!(map.modify_by_task_id(&20, |t| t.agent_id = 0).is_none());
}

#[test]
fn modify_by_agent_id_changes_each_task_of_the_agent() {
    let (mut map, _tx, _rx) = sample();
    let changed = map.modify_by_agent_id(&1, |t| {
        t.task_id += 100;
        t.agent_id = 4;
    });
    assert_eq!(task_ids(&changed), vec![110, 130]);
    assert!(map.get_by_agent_id(&1).is_empty());
    assert_eq!(task_ids(&map.get_by_agent_id(&4)), vec![110, 130]);
    assert_eq!(task_ids(&map.iter_by_task_id()), vec![5, 20, 110, 130]);
}

#[test]
fn modify_by_agent_id2_changes_each_task_in_turn() {
    let (mut map, _tx, _rx) = sample();
    let changed = map.modify_by_agent_id2(&1, |t| t.task_id += 1);
    assert_eq!(task_ids(&changed), vec![11, 31]);
    assert_eq!(task_ids(&map.iter_by_task_id()), vec![5, 11, 20, 31]);
    assert!(map.modify_by_agent_id2(&9, |t| t.task_id += 1).is_empty());
}

#[test]
fn updates_touch_the_handles_only() {
    let (mut map, _tx, _rx) = sample();
    let t = map
        .update_by_task_id(&20, |state, _sender, _stop| {
            *state = Arc::new(tokio::sync::RwLock::new("changed".to_string()));
        })
        .unwrap();
    assert_eq!(state_of(t), "changed");
    assert!(map.update_by_task_id(&99, |_, _, _| {}).is_none());
    let updated = map.update_by_agent_id(&1, |state, _sender, _stop| {
        *state = Arc::new(tokio::sync::RwLock::new("agent one".to_string()));
    });
    assert_eq!(task_ids(&updated), vec![10, 30]);
    assert_eq!(state_of(map.get_by_task_id(&30).unwrap()), "agent one");
    assert_eq!(state_of(map.get_by_task_id(&5).unwrap()), "test");
}

#[test]
fn mutable_handles() {
    let (mut map, _tx, _rx) = sample();
    {
        let (state, _sender, _stop) = map.get_mut_by_task_id(&5).unwrap();
        *state = Arc::new(tokio::sync::RwLock::new("five".to_string()));
    }
    assert_eq!(state_of(map.get_by_task_id(&5).unwrap()), "five");
    assert!(map.get_mut_by_task_id(&6).is_none());
    {
        let handles = map.get_mut_by_agent_id(&1);
        assert_eq!(handles.len(), 2);
        for (state, _sender, _stop) in handles {
            *state = Arc::new(tokio::sync::RwLock::new("one".to_string()));
        }
    }
    assert_eq!(state_of(map.get_by_task_id(&10).unwrap()), "one");
    assert_eq!(state_of(map.get_by_task_id(&30).unwrap()), "one");
    assert_eq!(state_of(map.get_by_task_id(&20).unwrap()), "test");
    assert_eq!(map.iter_mut().len(), 4);
    for (state, _sender, _stop) in map.iter_mut() {
        *state = Arc::new(tokio::sync::RwLock::new("all".to_string()));
    }
    assert_eq!(state_of(map.get_by_task_id(&20).unwrap()), "all");
}

#[test]
fn sizes_and_clear() {
    let (tx, _rx) = tokio::sync::mpsc::channel::<Activity>(4);
    let mut map = MultiIndexAgentTaskMap::with_capacity(4);
    assert!(map.is_empty());
    assert!(map.capacity() >= 4);
    map.insert(task(1, 1, &tx));
    map.reserve(8);
    assert!(map.capacity() >= 9);
    map.shrink_to_fit();
    assert_eq!(map.len(), 1);
    map.clear();
    assert!(map.is_empty());
    assert!(map.get_by_agent_id(&1).is_empty());
    assert!(map.get_by_task_id(&1).is_none());
}

#[test]
fn activities_reach_the_agent() {
    let (map, _tx, mut rx) = sample();
    let t = map.get_by_task_id(&10).unwrap();
    t.sender.try_send(Activity(3)).unwrap();
    assert_eq!(rx.try_recv().unwrap().0, 3);
}

#[test]
fn removing_a_task_right_after_storing_it_restores_the_map() {
    let (mut map, tx, _rx) = sample();
    map.insert(task(2, 40, &tx));
    assert_eq!(task_ids(&map.get_by_agent_id(&2)), vec![20, 40]);
    let t = map.remove_by_task_id(&40).unwrap();
    assert_eq!(t.agent_id, 2);
    assert_eq!(map.len(), 4);
    assert_eq!(task_ids(&map.get_by_agent_id(&2)), vec![20]);
    assert_eq!(task_ids(&map.iter_by_task_id()), vec![5, 10, 20, 30]);
}

#[test]
fn modify_by_agent_id2_walks_the_agent_in_insertion_order() {
    let (tx, _rx) = tokio::sync::mpsc::channel::<Activity>(1);
    let mut m = MultiIndexAgentTaskMap::default();
    m.insert(task(5, 1, &tx));
    m.insert(task(7, 2, &tx));
    m.insert(task(7, 3, &tx));
    m.remove_by_task_id(&1);
    let mut seen = Vec::new();
    let r = m.modify_by_agent_id2(&7, |t| seen.push(t.task_id));
    assert_eq!(task_ids(&r), vec![2, 3]);
    assert_eq!(seen, vec![2, 3]);
    assert_eq!(m.len(), 2);
    assert_eq!(task_ids(&m.get_by_agent_id(&7)), vec![2, 3]);
}

#[test]
fn modify_by_agent_id_refiles_in_insertion_order() {
    let (tx, _rx) = tokio::sync::mpsc::channel::<Activity>(1);
    let mut m = MultiIndexAgentTaskMap::default();
    m.insert(task(5, 1, &tx));
    m.insert(task(7, 2, &tx));
    m.insert(task(7, 3, &tx));
    m.remove_by_task_id(&1);
    let r = m.modify_by_agent_id(&7, |t| t.agent_id = 8);
    assert_eq!(task_ids(&r), vec![2, 3]);
    assert!(r.iter().all(|t| t.agent_id == 8));
    assert!(m.get_by_agent_id(&7).is_empty());
    assert_eq!(task_ids(&m.get_by_agent_id(&8)), vec![2, 3]);
    assert!(m.get_by_task_id(&1).is_none());
    assert_eq!(m.len(), 2);
}
