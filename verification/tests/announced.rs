use trace_core::query::announced::ActivationBuilder;

#[test]
fn simple_call_and_ret() {
    let mut b = ActivationBuilder::new();
    b.on_call(5, 0x1000, 0x2000);
    b.check_resume(0x2000, 6);
    b.on_ret(10);
    b.check_resume(0x1004, 11);
    let tree = b.finish(15);
    assert_eq!(tree.activations.len(), 2);
    assert_eq!(tree.activations[1].func_addr, 0x2000);
    assert_eq!(tree.activations[1].entry_seq, 6);
    assert_eq!(tree.activations[1].exit_seq, 10);
    assert_eq!(tree.activations[1].resume_seq, 11);
    assert!(!tree.activations[1].unresolved);
}

#[test]
fn call_without_recorded_body() {
    let mut b = ActivationBuilder::new();
    b.on_call(5, 0x1000, 0x2000);
    b.check_resume(0x1004, 6);
    let tree = b.finish(10);
    assert_eq!(tree.activations.len(), 2);
    assert_eq!(tree.activations[1].entry_seq, 6);
    assert_eq!(tree.activations[1].exit_seq, 6);
    assert_eq!(tree.activations[1].resume_seq, 6);
    assert!(!tree.activations[1].unresolved);
}

#[test]
fn nested_calls() {
    let mut b = ActivationBuilder::new();
    b.on_call(5, 0x1000, 0x2000);
    b.check_resume(0x2000, 6);
    b.on_call(10, 0x2000, 0x3000);
    b.check_resume(0x3000, 11);
    b.on_ret(15);
    b.check_resume(0x2004, 16);
    b.on_ret(20);
    b.check_resume(0x1004, 21);
    let tree = b.finish(25);
    assert_eq!(tree.activations.len(), 3);
    assert_eq!(tree.activations[1].func_addr, 0x2000);
    assert_eq!(tree.activations[2].func_addr, 0x3000);
    assert!(!tree.activations[1].unresolved);
    assert!(!tree.activations[2].unresolved);
}

#[test]
fn trace_truncation_marks_unresolved() {
    let mut b = ActivationBuilder::new();
    b.on_call(5, 0x1000, 0x2000);
    b.check_resume(0x2000, 6);
    let tree = b.finish(10);
    assert_eq!(tree.activations.len(), 2);
    assert!(tree.activations[1].unresolved);
    assert_eq!(tree.activations[1].exit_seq, 9);
}

#[test]
fn unconfirmed_candidate_marks_unresolved() {
    let mut b = ActivationBuilder::new();
    b.on_call(5, 0x1000, 0x2000);
    b.on_call(10, 0x3000, 0x4000);
    b.check_resume(0x4000, 11);
    let tree = b.finish(15);
    assert!(tree.activations[1].unresolved);
    assert_eq!(tree.activations[2].func_addr, 0x4000);
}

#[test]
fn root_takes_the_first_address() {
    let mut b = ActivationBuilder::new();
    b.set_root_addr(0x1234);
    let tree = b.finish(3);
    assert_eq!(tree.activations[0].func_addr, 0x1234);
    assert_eq!(tree.activations[0].exit_seq, 2);
}

#[test]
fn resume_is_reported_with_its_line() {
    let mut b = ActivationBuilder::default();
    assert_eq!(b.check_resume(0x1000, 0), None);
    b.on_call(1, 0x1000, 0x2000);
    assert_eq!(b.check_resume(0x2000, 2), None);
    assert_eq!(b.check_resume(0x2004, 3), None);
    assert_eq!(b.check_resume(0x1004, 4), Some(4));
    b.on_call(5, 0x1008, 0x3000);
    assert_eq!(b.check_resume(0x100C, 6), Some(6));
}

#[test]
fn the_last_record_at_a_line_is_named() {
    let mut b = ActivationBuilder::new();
    b.on_call(1, 0x1000, 0x2000);
    b.check_resume(0x2000, 2);
    b.update_current_func_addr(0x2222);
    b.set_func_name_by_entry_seq(2, "callee");
    b.set_func_name_by_entry_seq(9, "nobody");
    let tree = b.finish(3);
    assert_eq!(tree.activations[1].func_name, Some("callee".to_string()));
    assert_eq!(tree.activations[0].func_name, None);
    assert_eq!(tree.activations[1].func_addr, 0x2222);
}

#[test]
fn each_call_has_one_record() {
    let mut b = ActivationBuilder::new();
    for i in 0..5u32 {
        b.on_call(i, 0x1000, 0x2000);
    }
    let tree = b.finish(5);
    assert_eq!(tree.activations.len(), 6);
    assert!(tree.activations[1..].iter().all(|a| a.unresolved));
}

#[test]
fn lines_without_an_instruction_are_no_exit() {
    let mut b = ActivationBuilder::new();
    b.check_resume(0x1000, 1);
    b.on_call(1, 0x1000, 0x2000);
    b.check_resume(0x2000, 2);
    b.check_resume(0x2004, 4);
    b.check_resume(0x2008, 6);
    assert_eq!(b.check_resume(0x1004, 8), Some(8));
    let tree = b.finish(9);
    assert_eq!(tree.activations[1].entry_seq, 2);
    assert_eq!(tree.activations[1].exit_seq, 6);
    assert_eq!(tree.activations[1].resume_seq, 8);
}

#[test]
fn each_record_is_listed_once_by_its_parent() {
    let mut b = ActivationBuilder::new();
    b.on_call(1, 0x1000, 0x2000);
    b.check_resume(0x2000, 2);
    b.on_call(3, 0x2004, 0x3000);
    b.check_resume(0x2008, 4);
    b.on_call(5, 0x2010, 0x4000);
    b.check_resume(0x4000, 6);
    assert_eq!(b.check_resume(0x2014, 7), Some(7));
    assert_eq!(b.check_resume(0x1004, 8), Some(8));
    b.on_call(9, 0x1008, 0x2000);
    let tree = b.finish(10);
    let lists: Vec<&Vec<u32>> = tree.activations.iter().map(|a| &a.children_ids).collect();
    assert_eq!(lists, [&vec![1, 4], &vec![2, 3], &vec![], &vec![], &vec![]]);
    let parents: Vec<Option<u32>> = tree.activations.iter().map(|a| a.parent_id).collect();
    assert_eq!(parents, [None, Some(0), Some(1), Some(1), Some(0)]);
    // As many are resolved as resumes were reported.
    let resolved = tree.activations[1..].iter().filter(|a| !a.unresolved).count();
    assert_eq!(resolved, 3);
    assert!(!tree.activations[0].unresolved);
}

#[test]
fn a_displaced_call_keeps_its_record() {
    let mut b = ActivationBuilder::new();
    b.on_call(1, 0x1000, 0x2000);
    b.on_call(2, 0x3000, 0x4000);
    b.check_resume(0x4000, 3);
    b.check_resume(0x3004, 4);
    let tree = b.finish(5);
    let first = &tree.activations[1];
    assert_eq!((first.call_seq, first.expected_resume, first.parent_id), (1, 0x1004, Some(0)));
    assert!(first.unresolved);
    assert_eq!((first.exit_seq, first.resume_seq), (u32::MAX, u32::MAX));
    let second = &tree.activations[2];
    assert_eq!((second.call_seq, second.expected_resume, second.parent_id), (2, 0x3004, Some(0)));
    assert!(!second.unresolved);
    assert_eq!((second.exit_seq, second.resume_seq), (3, 4));
}

#[test]
fn returns_close_nothing() {
    let drive = |returns: bool| {
        let mut b = ActivationBuilder::new();
        let mut answers = vec![];
        b.on_call(0, 0x1000, 0x2000);
        for (pc, seq) in [(0x2000u64, 1u32), (0x2004, 2), (0x2008, 4), (0x1004, 5)] {
            answers.push(b.check_resume(pc, seq));
            if returns && pc != 0x2004 {
                b.on_ret(seq);
            }
        }
        let ends: Vec<(u32, u32, u32, bool)> = b
            .finish(6)
            .activations
            .iter()
            .map(|a| (a.entry_seq, a.exit_seq, a.resume_seq, a.unresolved))
            .collect();
        (answers, ends)
    };
    assert_eq!(drive(true), drive(false));
    assert_eq!(drive(true).1[1], (1, 4, 5, false));
}
