use trace_core::query::activation::{
    ActivationBuilder, ConfirmedActivation, InsnFact, UnresolvedReason,
};

fn fact(seq: u32, pc: u64) -> InsnFact {
    InsnFact::new(seq, pc)
}

#[test]
fn simple_call_entry_exit_resume() {
    let mut b = ActivationBuilder::new();
    assert_eq!(b.on_insn(fact(0, 0x1000)), 0);
    assert_eq!(b.on_insn(fact(1, 0x1004)), 0);
    b.on_call(2, 0x1008);
    let child = b.on_insn(fact(3, 0x2000));
    assert_ne!(child, 0);
    b.on_insn(fact(4, 0x2004));
    b.on_insn(fact(5, 0x2008));
    b.on_insn(fact(6, 0x100C));
    let tree = b.finish(7);

    assert_eq!(tree.activations.len(), 2);
    let a = &tree.activations[1];
    assert_eq!(a.func_addr, 0x2000);
    assert_eq!(a.entry_seq, 3);
    assert_eq!(a.exit_seq, 5);
    assert_eq!(a.resume_seq, 6);
    assert!(a.unresolved_reason.is_none());
    assert!(tree.bypassed_calls.is_empty());
    assert_eq!(tree.activation_for_seq(4).map(|a| a.id), Some(1));
    assert_eq!(tree.activation_for_seq(1).map(|a| a.id), None);
}

#[test]
fn call_without_recorded_body_is_bypassed_not_fake_activation() {
    let mut b = ActivationBuilder::new();
    b.on_insn(fact(0, 0x1000));
    b.on_call(1, 0x1004);
    b.on_insn(fact(2, 0x1008));
    b.on_insn(fact(3, 0x100C));
    let tree = b.finish(4);

    assert_eq!(tree.activations.len(), 1);
    assert_eq!(tree.bypassed_calls.len(), 1);
    let c = &tree.bypassed_calls[0];
    assert_eq!(c.call_seq, 1);
    assert_eq!(c.call_pc, 0x1004);
    assert_eq!(c.expected_resume, 0x1008);
    assert_eq!(c.resume_seq, 2);
    assert_eq!(c.parent_id, None);
}

#[test]
fn recursive_callsite_pending_consumes_resume_before_parent() {
    let mut b = ActivationBuilder::new();
    b.on_insn(fact(0, 0x1000));
    b.on_call(1, 0x1004);
    let parent = b.on_insn(fact(2, 0x2000));
    b.on_call(3, 0x1004);
    let owner = b.on_insn(fact(4, 0x1008));
    assert_eq!(owner, parent);
    b.on_insn(fact(5, 0x200C));
    b.on_insn(fact(6, 0x1008));
    let tree = b.finish(7);

    let p = tree
        .activations
        .iter()
        .find(|a| a.id == parent)
        .expect("parent activation");
    assert!(p.unresolved_reason.is_none());
    assert_eq!(p.exit_seq, 5);
    assert_eq!(p.resume_seq, 6);
    assert_eq!(tree.bypassed_calls.len(), 1);
    assert_eq!(tree.bypassed_calls[0].call_seq, 3);
    assert_eq!(tree.bypassed_calls[0].resume_seq, 4);
    assert_eq!(tree.bypassed_calls[0].parent_id, Some(parent));
    assert_eq!(tree.activations.len(), 2, "root + parent");
}

#[test]
fn recursive_callsite_child_active_then_parent_resumes_late() {
    let mut b = ActivationBuilder::new();
    b.on_insn(fact(0, 0x1000));
    b.on_call(1, 0x1004);
    let parent = b.on_insn(fact(2, 0x2000));
    b.on_insn(fact(3, 0x2004));
    b.on_call(4, 0x1004);
    let child = b.on_insn(fact(5, 0x2100));
    assert_ne!(child, parent);
    b.on_insn(fact(6, 0x2104));
    let owner = b.on_insn(fact(7, 0x1008));
    assert_eq!(owner, parent);
    b.on_insn(fact(8, 0x2008));
    b.on_insn(fact(9, 0x1008));
    let tree = b.finish(10);

    let p = &tree.activations[parent as usize];
    let c = &tree.activations[child as usize];
    assert!(p.unresolved_reason.is_none());
    assert!(c.unresolved_reason.is_none());
    assert_eq!(c.exit_seq, 6);
    assert_eq!(c.resume_seq, 7);
    assert_eq!(p.exit_seq, 8);
    assert_eq!(p.resume_seq, 9);
}

#[test]
fn nested_calls_innermost_ownership() {
    let mut b = ActivationBuilder::new();
    b.on_insn(fact(0, 0x1000));
    b.on_call(1, 0x1004);
    let outer = b.on_insn(fact(2, 0x2000));
    b.on_insn(fact(3, 0x2004));
    b.on_call(4, 0x2008);
    let inner = b.on_insn(fact(5, 0x3000));
    assert_ne!(inner, outer);
    b.on_insn(fact(6, 0x3004));
    b.on_insn(fact(7, 0x200C));
    b.on_insn(fact(8, 0x2010));
    b.on_insn(fact(9, 0x1008));
    let tree = b.finish(10);

    assert_eq!(tree.activations.len(), 3);
    let o = &tree.activations[1];
    let i = &tree.activations[2];
    assert!(o.unresolved_reason.is_none());
    assert!(i.unresolved_reason.is_none());
    assert_eq!(i.entry_seq, 5);
    assert_eq!(i.exit_seq, 6);
    assert_eq!(i.resume_seq, 7);
    assert_eq!(o.exit_seq, 8);
    assert_eq!(tree.activation_for_seq(5).map(|a| a.id), Some(inner));
    assert_eq!(tree.activation_for_seq(8).map(|a| a.id), Some(outer));
    assert_eq!(tree.activation_for_seq(7).map(|a| a.id), Some(outer));
}

#[test]
fn b_br_ret_do_not_pop_activation() {
    let mut b = ActivationBuilder::new();
    b.on_insn(fact(0, 0x1000));
    b.on_call(1, 0x1004);
    b.on_insn(fact(2, 0x2000));
    b.on_insn(fact(3, 0x2F00));
    b.on_insn(fact(4, 0x2F04));
    assert_eq!(b.on_insn(fact(5, 0x2F08)), b.current_id());
    b.on_insn(fact(6, 0x1008));
    let tree = b.finish(7);

    let a = &tree.activations[1];
    assert!(a.unresolved_reason.is_none());
    assert_eq!(a.exit_seq, 5);
    assert_eq!(a.exit_pc, 0x2F08);
}

#[test]
fn trace_truncation_marks_reason() {
    let mut b = ActivationBuilder::new();
    b.on_insn(fact(0, 0x1000));
    b.on_call(1, 0x1004);
    b.on_insn(fact(2, 0x2000));
    b.on_insn(fact(3, 0x2004));
    let tree = b.finish(4);

    let a = &tree.activations[1];
    assert_eq!(
        a.unresolved_reason,
        Some(UnresolvedReason::TraceEndStillActive)
    );
    assert_eq!(a.exit_seq, 3);
}

#[test]
fn pending_candidate_at_trace_end_marks_no_next_insn() {
    let mut b = ActivationBuilder::new();
    b.on_insn(fact(0, 0x1000));
    b.on_call(1, 0x1004);
    let tree = b.finish(2);

    let a = &tree.activations[1];
    assert_eq!(a.unresolved_reason, Some(UnresolvedReason::NoNextInsn));
    assert_eq!(a.func_addr, 0);
}

#[test]
fn consecutive_calls_displace_pending() {
    let mut b = ActivationBuilder::new();
    b.on_insn(fact(0, 0x1000));
    b.on_call(1, 0x1004);
    b.on_call(2, 0x1008);
    b.on_insn(fact(3, 0x3000));
    b.on_insn(fact(4, 0x100C));
    let tree = b.finish(5);

    assert_eq!(
        tree.activations[1].unresolved_reason,
        Some(UnresolvedReason::DisplacedByAnotherCall)
    );
    assert!(tree.activations[2].unresolved_reason.is_none());
}

#[test]
fn special_lines_between_insns_do_not_break_exit() {
    let mut b = ActivationBuilder::new();
    b.on_insn(fact(0, 0x1000));
    b.on_call(1, 0x1004);
    b.on_insn(fact(2, 0x2000));
    b.on_insn(fact(4, 0x2004));
    b.on_insn(fact(6, 0x2008));
    b.on_insn(fact(8, 0x1008));
    let tree = b.finish(9);

    let a = &tree.activations[1];
    assert_eq!(a.exit_seq, 6);
    assert_eq!(a.resume_seq, 8);
}

#[test]
fn call_at_seq_zero_is_found() {
    let mut b = ActivationBuilder::new();
    b.on_call(0, 0x1000);
    let child = b.on_insn(fact(1, 0x2000));
    assert_ne!(child, 0);
    b.on_insn(fact(2, 0x2004));
    b.on_insn(fact(3, 0x1004));
    let tree = b.finish(4);

    let a = &tree.activations[1];
    assert_eq!(a.call_seq, 0);
    assert!(a.unresolved_reason.is_none());
    assert_eq!(tree.find_child_call(None, 0), Some(1));
}

#[test]
fn activation_for_seq_binary_search_on_many_activations() {
    let mut b = ActivationBuilder::new();
    b.on_insn(fact(0, 0x1000));
    let mut expected = Vec::new();
    for i in 0..1000u32 {
        let call_seq = 1 + i * 4;
        b.on_call(call_seq, 0x1004 + (i as u64) * 0x10);
        let id = b.on_insn(fact(call_seq + 1, 0x2000));
        b.on_insn(fact(call_seq + 2, 0x2004));
        let owner = b.on_insn(fact(call_seq + 3, 0x1004 + (i as u64) * 0x10 + 4));
        assert_eq!(owner, 0);
        expected.push((id, call_seq + 1, call_seq + 2));
    }
    let tree = b.finish(4002);

    for (id, entry, exit) in &expected {
        assert_eq!(tree.activation_for_seq(*entry).map(|a| a.id), Some(*id));
        assert_eq!(tree.activation_for_seq(*exit).map(|a| a.id), Some(*id));
    }
    assert_eq!(tree.activation_for_seq(0).map(|a| a.id), None);
    let x0 = expected[0].2;
    assert_eq!(tree.activation_for_seq(x0 + 1).map(|a| a.id), None);
}

#[test]
fn find_bypassed_by_call_seq_works() {
    let mut b = ActivationBuilder::new();
    for i in 0..100u32 {
        b.on_insn(fact(i * 3, 0x1000 + (i as u64) * 0x10));
        b.on_call(i * 3 + 1, 0x1004 + (i as u64) * 0x10);
        b.on_insn(fact(i * 3 + 2, 0x1008 + (i as u64) * 0x10));
    }
    let tree = b.finish(300);

    assert_eq!(tree.bypassed_calls.len(), 100);
    assert_eq!(tree.find_bypassed_by_call_seq(1), Some(0));
    assert_eq!(tree.find_bypassed_by_call_seq(4), Some(1));
    assert_eq!(tree.find_bypassed_by_call_seq(298), Some(99));
    assert_eq!(tree.find_bypassed_by_call_seq(2), None);
}

#[test]
fn activation_for_seq_matches_bruteforce_on_random_traces() {
    for seed in 0..200u64 {
        let mut b = ActivationBuilder::new();
        let mut rng = seed;
        let mut next_seq = 0u32;
        let mut stack: Vec<(u32, u64)> = vec![];
        b.on_insn(fact(next_seq, 0x1000));
        next_seq += 1;

        for _ in 0..30 {
            rng ^= rng << 13;
            rng ^= rng >> 7;
            rng ^= rng << 17;
            let choice = rng % 10;
            if choice < 3 {
                let callsite = 0x5000 + next_seq as u64 * 4;
                b.on_call(next_seq, callsite);
                next_seq += 1;
                if rng % 2 == 0 {
                    let id = b.on_insn(fact(next_seq, 0x9000 + next_seq as u64 * 4));
                    stack.push((id, callsite + 4));
                    next_seq += 1;
                } else {
                    b.on_insn(fact(next_seq, callsite + 4));
                    next_seq += 1;
                }
            } else if choice < 5 && !stack.is_empty() {
                let (_, er) = stack.pop().unwrap();
                b.on_insn(fact(next_seq, er));
                next_seq += 1;
            } else {
                b.on_insn(fact(next_seq, 0x7000 + next_seq as u64 * 4));
                next_seq += 1;
            }
        }
        let tree = b.finish(next_seq);

        for seq in 0..next_seq {
            let chain = tree.activation_for_seq(seq);
            let mut brute: Option<&ConfirmedActivation> = None;
            for a in &tree.activations[1..] {
                if a.unresolved_reason.is_some() {
                    continue;
                }
                if seq >= a.entry_seq && seq <= a.exit_seq {
                    let better = brute
                        .is_none_or(|bb| a.exit_seq - a.entry_seq < bb.exit_seq - bb.entry_seq);
                    if better {
                        brute = Some(a);
                    }
                }
            }
            assert_eq!(
                chain.map(|a| a.id),
                brute.map(|a| a.id),
                "seed={seed} seq={seq}: parent-chain != bruteforce"
            );
        }
    }
}


#[test]
fn every_call_is_an_activation_or_bypassed() {
    let mut b = ActivationBuilder::new();
    b.on_call(0, 0x1000);
    b.on_call(1, 0x1000);
    b.on_insn(fact(2, 0x1004));
    b.on_call(3, 0x1008);
    b.on_insn(fact(4, 0x2000));
    b.on_call(5, 0x2004);
    let tree = b.finish(6);

    assert_eq!(tree.activations.len() - 1 + tree.bypassed_calls.len(), 4);
    assert_eq!(tree.bypassed_calls[0].call_seq, 1);
    assert_eq!(tree.activations[1].call_seq, 0);
    assert_eq!(tree.activations[1].entry_seq, 1);
    assert_eq!(tree.activations[1].resume_seq, u32::MAX);
    assert_eq!(tree.activations[2].parent_id, None);
    assert_eq!(tree.activations[2].exit_seq, 5);
    assert_eq!(tree.activations[3].parent_id, Some(2));
    assert_eq!(tree.activations[2].children_ids, vec![3]);
    assert_eq!(tree.activations[0].children_ids, vec![1, 2]);
    assert_eq!(tree.activations[0].exit_seq, 5);
}

#[test]
fn resume_is_found_below_the_caller() {
    let mut b = ActivationBuilder::new();
    b.on_insn(fact(0, 0x1000));
    b.on_call(1, 0x1004);
    b.on_insn(fact(2, 0x2000));
    b.on_insn(fact(3, 0x1008));
    let tree = b.finish(4);

    assert_eq!(tree.find_child_resume(None, 3), Some(1));
    assert_eq!(tree.find_child_resume(None, 2), None);
    assert_eq!(tree.find_child_resume(tree.activation_for_seq(2), 3), None);
    assert_eq!(tree.find_child_call(None, 1), Some(1));
    assert_eq!(tree.find_child_call(None, 2), None);
}

#[test]
fn an_activation_nests_in_its_caller() {
    let mut b = ActivationBuilder::new();
    b.on_call(0, 0x1000);
    b.on_insn(fact(1, 0x2000));
    b.on_call(2, 0x2004);
    b.on_insn(fact(3, 0x3000));
    b.on_insn(fact(4, 0x2008));
    b.on_insn(fact(5, 0x1004));
    let tree = b.finish(6);

    let outer = &tree.activations[1];
    let inner = &tree.activations[2];
    assert_eq!((outer.entry_seq, outer.exit_seq, outer.resume_seq), (1, 4, 5));
    assert_eq!((inner.entry_seq, inner.exit_seq, inner.resume_seq), (3, 3, 4));
    assert_eq!(inner.parent_id, Some(1));
    assert_eq!(inner.expected_resume, inner.call_pc + 4);
    assert_eq!(inner.func_addr, inner.entry_pc);
}
