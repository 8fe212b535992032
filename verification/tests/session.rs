use flowgraph::session::{
    is_consistent, is_dual, project, GlobalOp, GlobalType, LocalOp, SessionError, SessionOp, SessionState, SessionType,
};

/// The fraction of the protocol passed, 1.0 for an empty protocol.
fn progress(s: &SessionState) -> f64 {
    let (done, total) = s.progress_parts();
    if total == 0 {
        return 1.0;
    }
    (done as f64) / (total as f64)
}


// ── is_dual ────────────────────────────────────────────────────────────

#[test]
fn is_dual_send_recv_same_type() {
    let a = SessionType::single(SessionOp::Send { ty: "T" });
    let b = SessionType::single(SessionOp::Recv { ty: "T" });
    assert!(is_dual(&a, &b));
}

#[test]
fn is_dual_recv_send_same_type() {
    let a = SessionType::single(SessionOp::Recv { ty: "T" });
    let b = SessionType::single(SessionOp::Send { ty: "T" });
    assert!(is_dual(&a, &b));
}

#[test]
fn is_dual_send_recv_different_type() {
    let a = SessionType::single(SessionOp::Send { ty: "A" });
    let b = SessionType::single(SessionOp::Recv { ty: "B" });
    assert!(!is_dual(&a, &b));
}

#[test]
fn is_dual_send_send() {
    let a = SessionType::single(SessionOp::Send { ty: "T" });
    let b = SessionType::single(SessionOp::Send { ty: "T" });
    assert!(!is_dual(&a, &b));
}

#[test]
fn is_dual_end_end() {
    let a = SessionType::end();
    let b = SessionType::end();
    assert!(is_dual(&a, &b));
}

#[test]
fn is_dual_end_empty() {
    // End ⊥ empty (and empty ⊥ End) — loose terminal matching.
    let a = SessionType::end();
    let b = SessionType::empty();
    assert!(is_dual(&a, &b));
    assert!(is_dual(&b, &a));
    // empty ⊥ empty
    assert!(is_dual(&SessionType::empty(), &SessionType::empty()));
}

#[test]
fn is_dual_select_choose_matching() {
    // Select ⊥ Choose: same branch count, each branch pair dual.
    let a = SessionType::single(SessionOp::Select {
        branches: vec![SessionType::single(SessionOp::Send { ty: "A" })],
    });
    let b = SessionType::single(SessionOp::Choose {
        branches: vec![SessionType::single(SessionOp::Recv { ty: "A" })],
    });
    assert!(is_dual(&a, &b));
    // Symmetric: Choose ⊥ Select.
    assert!(is_dual(&b, &a));
}

#[test]
fn is_dual_select_choose_mismatched_count() {
    let a = SessionType::single(SessionOp::Select {
        branches: vec![
            SessionType::single(SessionOp::Send { ty: "A" }),
            SessionType::single(SessionOp::Send { ty: "B" }),
        ],
    });
    let b = SessionType::single(SessionOp::Choose {
        branches: vec![SessionType::single(SessionOp::Recv { ty: "A" })],
    });
    assert!(!is_dual(&a, &b));
}

#[test]
fn is_dual_recurse_same_var() {
    // Recurse{var, body} ⊥ Recurse{var, dual_body}: same var, dual bodies.
    let a = SessionType::single(SessionOp::Recurse {
        var: "X",
        body: Box::new(SessionType::single(SessionOp::Send { ty: "A" })),
    });
    let b = SessionType::single(SessionOp::Recurse {
        var: "X",
        body: Box::new(SessionType::single(SessionOp::Recv { ty: "A" })),
    });
    assert!(is_dual(&a, &b));
}

#[test]
fn is_dual_recurse_different_var() {
    let a = SessionType::single(SessionOp::Recurse {
        var: "X",
        body: Box::new(SessionType::single(SessionOp::Send { ty: "A" })),
    });
    let b = SessionType::single(SessionOp::Recurse {
        var: "Y",
        body: Box::new(SessionType::single(SessionOp::Recv { ty: "A" })),
    });
    assert!(!is_dual(&a, &b));
}

#[test]
fn is_dual_sequence() {
    // [Send{A}, Recv{B}] ⊥ [Recv{A}, Send{B}] — element-wise duality.
    let a = SessionType::sequence(&[
        SessionOp::Send { ty: "A" },
        SessionOp::Recv { ty: "B" },
    ]);
    let b = SessionType::sequence(&[
        SessionOp::Recv { ty: "A" },
        SessionOp::Send { ty: "B" },
    ]);
    assert!(is_dual(&a, &b));
}

#[test]
fn is_dual_skip_transparent() {
    // Skip is transparent: [Skip, Send{A}] ⊥ [Recv{A}].
    let a = SessionType::sequence(&[
        SessionOp::Skip,
        SessionOp::Send { ty: "T" },
    ]);
    let b = SessionType::single(SessionOp::Recv { ty: "T" });
    assert!(is_dual(&a, &b));
}

// ── SessionState ───────────────────────────────────────────────────────

#[test]
fn session_state_advance_send_ok() {
    let proto = SessionType::single(SessionOp::Send { ty: "T" });
    let mut s = SessionState::new(&proto);
    assert!(s.can_send("T"));
    assert!(s.advance_send("T"));
    // Single op consumed → exhausted → complete, no error.
    assert!(s.is_complete());
    assert!(!s.is_error());
}

#[test]
fn session_state_advance_send_wrong_type() {
    let proto = SessionType::single(SessionOp::Send { ty: "T" });
    let mut s = SessionState::new(&proto);
    assert!(!s.advance_send("X"));
    assert!(s.is_error());
    assert!(!s.is_complete());
}

#[test]
fn session_state_advance_recv_ok() {
    let proto = SessionType::single(SessionOp::Recv { ty: "T" });
    let mut s = SessionState::new(&proto);
    assert!(s.can_recv("T"));
    assert!(s.advance_recv("T"));
    assert!(s.is_complete());
    assert!(!s.is_error());
}

#[test]
fn session_state_advance_when_complete() {
    let proto = SessionType::end();
    let mut s = SessionState::new(&proto);
    assert!(s.is_complete());
    // Already complete — cannot advance, enters error.
    assert!(!s.advance_send("T"));
    assert!(s.is_error());
}

#[test]
fn session_state_reset() {
    let proto = SessionType::sequence(&[
        SessionOp::Send { ty: "T" },
        SessionOp::Send { ty: "U" },
    ]);
    let mut s = SessionState::new(&proto);
    assert!(s.advance_send("T"));
    assert_eq!(progress(&s), 0.5);

    // Reset clears cursor and recomputes completion.
    s.reset();
    assert_eq!(progress(&s), 0.0);
    assert!(!s.is_complete());
    assert!(!s.is_error());

    // Reset also clears an error state.
    assert!(!s.advance_send("WRONG"));
    assert!(s.is_error());
    s.reset();
    assert!(!s.is_error());
}

#[test]
fn session_state_progress() {
    let proto = SessionType::sequence(&[
        SessionOp::Send { ty: "A" },
        SessionOp::Send { ty: "B" },
        SessionOp::Send { ty: "C" },
    ]);
    let mut s = SessionState::new(&proto);
    assert_eq!(progress(&s), 0.0);
    assert!(s.advance_send("A"));
    // 1 of 3 ops consumed ≈ 0.333.
    assert!((progress(&s) - 1.0 / 3.0).abs() < 1e-9);
}

#[test]
fn session_state_skip_auto_completes() {
    // [Send{A}, Skip, End]: advancing the Send auto-skips Skip to reach End.
    let proto = SessionType::sequence(&[
        SessionOp::Send { ty: "T" },
        SessionOp::Skip,
        SessionOp::End,
    ]);
    let mut s = SessionState::new(&proto);
    assert!(s.advance_send("T"));
    assert!(s.is_complete());
    assert!(!s.is_error());
}

// ── project ─────────────────────────────────────────────────────────────

#[test]
fn project_sender() {
    let global = GlobalType::sequence(&[GlobalOp::Message {
        from: "A",
        to: "B",
        label: "msg",
    }]);
    let local = project(&global, "A");
    assert_eq!(local.ops(), &[LocalOp::Send { to: "B", label: "msg" }]);
}

#[test]
fn project_receiver() {
    let global = GlobalType::sequence(&[GlobalOp::Message {
        from: "A",
        to: "B",
        label: "msg",
    }]);
    let local = project(&global, "B");
    assert_eq!(local.ops(), &[LocalOp::Recv { from: "A", label: "msg" }]);
}

#[test]
fn project_unrelated_role() {
    let global = GlobalType::sequence(&[GlobalOp::Message {
        from: "A",
        to: "B",
        label: "msg",
    }]);
    let local = project(&global, "C");
    assert_eq!(local.ops(), &[LocalOp::Skip]);
}

#[test]
fn project_choice_selector() {
    let branch1 = GlobalType::sequence(&[GlobalOp::Message {
        from: "A",
        to: "B",
        label: "x",
    }]);
    let branch2 = GlobalType::sequence(&[GlobalOp::Message {
        from: "A",
        to: "B",
        label: "y",
    }]);
    let global = GlobalType::empty().push(GlobalOp::Choice {
        selector: "A",
        branches: vec![branch1, branch2],
    });
    let local = project(&global, "A");
    // Selector → internal Select with both branches projected.
    assert_eq!(local.ops().len(), 1);
    let ops = local.ops();
    let LocalOp::Select { branches } = &ops[0] else {
        panic!("expected Select variant");
    };
    assert_eq!(branches.len(), 2);
    assert_eq!(branches[0].ops(), &[LocalOp::Send { to: "B", label: "x" }]);
    assert_eq!(branches[1].ops(), &[LocalOp::Send { to: "B", label: "y" }]);
}

#[test]
fn project_choice_non_selector() {
    let branch1 = GlobalType::sequence(&[GlobalOp::Message {
        from: "A",
        to: "B",
        label: "x",
    }]);
    let branch2 = GlobalType::sequence(&[GlobalOp::Message {
        from: "A",
        to: "B",
        label: "y",
    }]);
    let global = GlobalType::empty().push(GlobalOp::Choice {
        selector: "A",
        branches: vec![branch1, branch2],
    });
    let local = project(&global, "B");
    // Non-selector → external Choose.
    assert_eq!(local.ops().len(), 1);
    let ops = local.ops();
    let LocalOp::Choose { branches } = &ops[0] else {
        panic!("expected Choose variant");
    };
    assert_eq!(branches.len(), 2);
    assert_eq!(branches[0].ops(), &[LocalOp::Recv { from: "A", label: "x" }]);
    assert_eq!(branches[1].ops(), &[LocalOp::Recv { from: "A", label: "y" }]);
}

#[test]
fn project_inert_choice_collapses() {
    // Role C participates in no branch → inert → collapses to Skip.
    let branch1 = GlobalType::sequence(&[GlobalOp::Message {
        from: "A",
        to: "B",
        label: "x",
    }]);
    let global = GlobalType::empty().push(GlobalOp::Choice {
        selector: "A",
        branches: vec![branch1],
    });
    let local = project(&global, "C");
    assert_eq!(local.ops(), &[LocalOp::Skip]);
}

// ── is_consistent ──────────────────────────────────────────────────────

#[test]
fn is_consistent_simple() {
    let global = GlobalType::sequence(&[GlobalOp::Message {
        from: "A",
        to: "B",
        label: "msg",
    }]);
    assert!(is_consistent(&global));
}

#[test]
fn is_consistent_missing_receiver() {
    // `is_consistent` re-derives local types via `project()`, so every
    // well-formed Message yields a matching Send on `from` and Recv on `to`.
    // The one well-formed-looking case the checker flags as inconsistent is
    // a self-message (from == to): the `from == role` arm wins in
    // `project`, so the role's local type carries `Send` but no `Recv`,
    // and the receiver-side check fails.
    let global = GlobalType::sequence(&[GlobalOp::Message {
        from: "A",
        to: "A",
        label: "x",
    }]);
    assert!(!is_consistent(&global));
}

#[test]
fn is_consistent_three_party() {
    // A → B → C chain: each message has a matching sender/receiver pair.
    let global = GlobalType::sequence(&[
        GlobalOp::Message { from: "A", to: "B", label: "m1" },
        GlobalOp::Message { from: "B", to: "C", label: "m2" },
        GlobalOp::End,
    ]);
    assert!(is_consistent(&global));
}


// ── Further cases ──

#[test]
fn is_dual_is_symmetric_on_sequences() {
    let a = SessionType::sequence(&[SessionOp::Send { ty: "A" }, SessionOp::Recv { ty: "B" }]);
    let b = SessionType::sequence(&[SessionOp::Recv { ty: "A" }, SessionOp::Send { ty: "B" }]);
    assert_eq!(is_dual(&a, &b), is_dual(&b, &a));
}

#[test]
fn session_state_recv_on_send_step_is_error() {
    let proto = SessionType::single(SessionOp::Send { ty: "T" });
    let mut s = SessionState::new(&proto);
    assert!(!s.can_recv("T"));
    assert!(!s.advance_recv("T"));
    assert!(s.is_error());
}

#[test]
fn project_preserves_length() {
    let global = GlobalType::sequence(&[
        GlobalOp::Message { from: "A", to: "B", label: "m1" },
        GlobalOp::Message { from: "B", to: "C", label: "m2" },
        GlobalOp::End,
    ]);
    assert_eq!(project(&global, "A").ops().len(), global.ops().len());
    assert_eq!(project(&global, "C").ops(), &[LocalOp::Skip, LocalOp::Recv { from: "B", label: "m2" }, LocalOp::End]);
}

#[test]
fn not_dual_message_shows_both_types() {
    let a = SessionType::single(SessionOp::Send { ty: "T" });
    let b = SessionType::single(SessionOp::Send { ty: "U" });
    let expected = format!("session types are not dual: {:?} vs {:?}", a, b);
    let e = SessionError::NotDual { a, b };
    let m = e.message();
    assert_eq!(m, expected);
    assert!(m.contains("\"T\""));
    assert!(m.contains("\"U\""));
}
