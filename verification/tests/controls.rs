use giui::control::{next_generation, ControlBuilder, Controls, Id};

/// root -> [a -> [c], b]
fn tree() -> (Controls<u32>, Id, Id, Id) {
    let mut controls = Controls::new(0u32);
    let a = controls.reserve();
    let a = ControlBuilder::new(&controls, a, 1).build(&mut controls);
    let b = controls.reserve();
    let b = ControlBuilder::new(&controls, b, 2).build(&mut controls);
    let c = controls.reserve();
    let c = ControlBuilder::new(&controls, c, 3).parent(a).build(&mut controls);
    (controls, a, b, c)
}

#[test]
fn root_id() {
    let root = Id::root();
    assert_eq!(root.index(), 0);
    assert_eq!(root.generation(), 1);
    let controls = Controls::new(5u32);
    let r = controls.get(root).unwrap();
    assert_eq!(r.data, 5);
    assert!(r.active && r.really_active);
    assert_eq!(r.parent, None);
}

#[test]
fn reserve_and_build() {
    let (controls, a, b, c) = tree();
    assert_eq!(a, Id { index: 1, generation: 1 });
    assert_eq!(b.index(), 2);
    assert_eq!(c.index(), 3);
    assert_eq!(controls.get(Id::root()).unwrap().children, vec![a, b]);
    assert_eq!(controls.get(a).unwrap().children, vec![c]);
    assert_eq!(controls.get(c).unwrap().parent, Some(a));
    assert_eq!(controls.get(c).unwrap().data, 3);
    assert!(controls.is_child(a, c));
    assert!(!controls.is_child(b, c));
}

#[test]
fn reserved_id_is_not_a_control_yet() {
    let mut controls = Controls::new(0u32);
    let a = controls.reserve();
    assert!(controls.get(a).is_none());
    // a control built with a reserved parent becomes its child when the parent is built
    let c = controls.reserve();
    let c = ControlBuilder::new(&controls, c, 3).parent(a).build(&mut controls);
    let a = ControlBuilder::new(&controls, a, 1).build(&mut controls);
    assert_eq!(controls.get(a).unwrap().children, vec![c]);
}

#[test]
fn remove_invalidates_and_reuses_slot() {
    let (mut controls, a, b, _) = tree();
    controls.remove(b);
    assert!(controls.get(b).is_none());
    assert!(controls.get(a).is_some());
    let again = controls.reserve();
    assert_eq!(again.index(), b.index());
    assert_eq!(again.generation(), 2);
    let again = ControlBuilder::new(&controls, again, 9).build(&mut controls);
    assert!(controls.get(b).is_none());
    assert_eq!(controls.get(again).unwrap().data, 9);
}

#[test]
fn start_once() {
    let (mut controls, a, _, _) = tree();
    assert!(controls.start(a));
    assert!(!controls.start(a));
    assert!(!controls.start(Id { index: 42, generation: 1 }));
}

#[test]
fn descendants_and_stack() {
    let (controls, a, b, c) = tree();
    assert!(controls.is_descendant(a, c));
    assert!(controls.is_descendant(Id::root(), c));
    assert!(!controls.is_descendant(b, c));
    assert!(!controls.is_descendant(c, a));
    assert_eq!(controls.get_control_stack(c), Some(vec![c, a, Id::root()]));
    assert_eq!(controls.get_control_stack(Id { index: 9, generation: 1 }), None);
}

#[test]
fn lowest_common_ancestor() {
    let (controls, a, b, c) = tree();
    assert_eq!(controls.lowest_common_ancestor(c, b), Some(Id::root()));
    assert_eq!(controls.lowest_common_ancestor(c, a), Some(a));
    assert_eq!(controls.lowest_common_ancestor(c, c), Some(c));
    // the order of the two controls does not matter
    assert_eq!(controls.lowest_common_ancestor(b, c), Some(Id::root()));
    assert_eq!(controls.lowest_common_ancestor(a, c), Some(a));
    assert_eq!(controls.lowest_common_ancestor(c, Id { index: 9, generation: 1 }), None);
}

#[test]
fn removed_id_stays_invalid() {
    let (mut controls, a, _, _) = tree();
    controls.remove(a);
    for _ in 0..3 {
        let r = controls.reserve();
        let r = ControlBuilder::new(&controls, r, 5).build(&mut controls);
        assert_ne!(r, a);
        assert!(controls.get(a).is_none());
        controls.remove(r);
        assert!(controls.get(a).is_none());
    }
}

#[test]
fn move_to_front_and_back() {
    let (mut controls, a, b, _) = tree();
    controls.move_to_front(a);
    assert_eq!(controls.get(Id::root()).unwrap().children, vec![b, a]);
    controls.move_to_back(a);
    assert_eq!(controls.get(Id::root()).unwrap().children, vec![a, b]);
}

#[test]
fn children_lists() {
    let (mut controls, a, b, _) = tree();
    assert_eq!(controls.get_all_children(Id::root()), Some(&[a, b][..]));
    controls.get_mut(a).unwrap().active = false;
    assert_eq!(controls.get_active_children(Id::root()), Some(vec![b]));
    assert_eq!(controls.get_active_children(Id { index: 7, generation: 3 }), None);
}

#[test]
fn tree_walk_stacks() {
    let (controls, a, b, c) = tree();
    assert_eq!(controls.tree_starting_at(c), Some(vec![b, c]));
    assert_eq!(controls.tree_starting_at(a), Some(vec![b, a]));
    assert_eq!(controls.rev_tree_starting_at(b), Some(vec![a, b]));
    assert_eq!(controls.rev_tree_starting_at(c), Some(vec![c]));
}

#[test]
fn focus_change_between_branches() {
    let (controls, a, b, c) = tree();
    let (lost, gained) = controls.focus_change(Some(c), Some(b));
    assert_eq!(lost, vec![c, a]);
    assert_eq!(gained, vec![b, Id::root()]);
    let (lost, gained) = controls.focus_change(None, Some(c));
    assert!(lost.is_empty());
    assert_eq!(gained, vec![c, a, Id::root()]);
    let (lost, gained) = controls.focus_change(Some(a), None);
    assert_eq!(lost, vec![a, Id::root()]);
    assert!(gained.is_empty());
}

#[test]
fn next_generation_skips_zero() {
    let mut counter = 0u32;
    assert_eq!(next_generation(&mut counter), 1);
    assert_eq!(counter, 2);
    let mut counter = u32::MAX;
    assert_eq!(next_generation(&mut counter), u32::MAX);
    assert_eq!(counter, 0);
    assert_eq!(next_generation(&mut counter), 1);
}

#[test]
fn subtree_walks_depth_first() {
    let (mut controls, a, b, c) = tree();
    let d = controls.reserve();
    let d = ControlBuilder::new(&controls, d, 4).parent(a).build(&mut controls);
    assert_eq!(controls.subtree(Id::root(), false), vec![Id::root(), a, c, d, b]);
    assert_eq!(controls.subtree(a, false), vec![a, c, d]);
    controls.get_mut(c).unwrap().active = false;
    assert_eq!(controls.subtree(Id::root(), true), vec![Id::root(), a, d, b]);
    assert_eq!(controls.subtree(Id { index: 30, generation: 1 }, true), vec![Id { index: 30, generation: 1 }]);
}

#[test]
fn tab_moves_focus_in_tree_order() {
    let (controls, a, b, c) = tree();
    // every control can take the focus
    let all = vec![true; 4];
    assert_eq!(controls.next_focus(c, &all, false), Some(b));
    assert_eq!(controls.next_focus(a, &all, false), Some(b));
    assert_eq!(controls.next_focus(b, &all, false), None);
    assert_eq!(controls.next_focus(b, &all, true), Some(a));
    // only `c` can take the focus
    let only_c = vec![false, false, false, true];
    // going back from `b` reaches `a` first, then goes down into it
    assert_eq!(controls.next_focus(b, &only_c, true), Some(c));
    // the walk does not go down into the control it starts from
    assert_eq!(controls.next_focus(Id::root(), &only_c, false), None);
    assert_eq!(controls.next_focus(a, &only_c, false), None);
}

#[test]
fn activation_reaches_the_active_subtree() {
    let (mut controls, a, _, c) = tree();
    // built controls start active but not really active
    assert!(controls.get(a).unwrap().active);
    assert!(!controls.get(a).unwrap().really_active);
    assert_eq!(controls.activate(a), Vec::<Id>::new());
    assert_eq!(controls.deactivate(a), vec![a, c]);
    assert!(!controls.get(a).unwrap().active);
    assert_eq!(controls.activate(a), vec![a, c]);
    assert!(controls.get(a).unwrap().really_active);
    assert!(controls.get(c).unwrap().really_active);
    assert_eq!(controls.deactivate(Id { index: 30, generation: 1 }), Vec::<Id>::new());
}

#[test]
fn detach_takes_control_out_of_parent() {
    let (mut controls, a, b, c) = tree();
    controls.detach(a);
    assert_eq!(controls.get(Id::root()).unwrap().children, vec![b]);
    // the detached control keeps its own subtree and its parent link
    assert_eq!(controls.get(a).unwrap().children, vec![c]);
    assert_eq!(controls.get(a).unwrap().parent, Some(Id::root()));
    // the root has no parent: nothing changes
    controls.detach(Id::root());
    assert_eq!(controls.get(Id::root()).unwrap().children, vec![b]);
}

#[test]
fn hit_path_goes_down_into_the_front_child() {
    let (mut controls, a, b, c) = tree();
    // nothing under the pointer: only the root
    assert_eq!(controls.hit_path(&[]), vec![Id::root()]);
    // `a` and `b` overlap: `b`, the later child, is in front
    assert_eq!(controls.hit_path(&[true, true, true, true]), vec![Id::root(), b]);
    assert_eq!(controls.hit_path(&[false, true, false, true]), vec![Id::root(), a, c]);
    // an inactive control is not hit
    controls.get_mut(b).unwrap().active = false;
    assert_eq!(controls.hit_path(&[true, true, true, false]), vec![Id::root(), a]);
}

#[test]
fn child_reserved_builds_under_the_builder() {
    let mut controls = Controls::new(0u32);
    let a = controls.reserve();
    let c = controls.reserve();
    let child = ControlBuilder::new(&controls, c, 3);
    // the parent is still reserved: the child waits in its slot
    let a_builder = ControlBuilder::new(&controls, a, 1).child_reserved(child, &mut controls);
    assert_eq!(a_builder.id(), a);
    assert_eq!(controls.get(c).unwrap().parent, Some(a));
    assert!(controls.get(a).is_none());
    let a = a_builder.build(&mut controls);
    assert_eq!(controls.get(a).unwrap().children, vec![c]);
    assert_eq!(controls.get(Id::root()).unwrap().children, vec![a]);
}

#[test]
fn reserved_and_taken_slots() {
    let (mut controls, a, _, _) = tree();
    let r = controls.reserve();
    assert!(controls.is_reserved(r));
    assert!(!controls.is_reserved(a));
    assert!(!controls.is_reserved(Id { index: r.index, generation: r.generation + 1 }));
    assert!(controls.slot_taken(r.index));
    assert!(controls.slot_taken(a.index));
    assert!(!controls.slot_taken(40));
    controls.remove(a);
    assert!(!controls.slot_taken(a.index));
}
