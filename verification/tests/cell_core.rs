use flowgraph::cell_core::{
    assert_wiring, blueprint_is_zero_sized, drive, Blueprint, Broadcast, CellChain, Chain, Choice, ChoiceIn, ChoiceOut,
    DoesWire, Feedback, Link, Merge, Opt, PortCell, Rep, Slot, Static,
};


struct Inc;
struct Scaler;

impl PortCell for Inc {
    type In = i32;
    type Out = i32;
    type State = ();
    fn step_spec(s: (), x: i32) -> ((), i32) {
        (s, x + 1)
    }
    fn step(_: &mut (), x: i32) -> i32 {
        x + 1
    }
}

impl PortCell for Scaler {
    type In = i32;
    type Out = i32;
    type State = ();
    fn step_spec(s: (), x: i32) -> ((), i32) {
        (s, x * 2)
    }
    fn step(_: &mut (), x: i32) -> i32 {
        x * 2
    }
}

#[test]
fn link_fires_causal_flow() {
    let (mut as_, mut bs) = ((), ());
    // Inc.out(i32) -> Scaler.in(i32)：因果数据流，一次 fire。
    let out = Link::<Inc, Scaler>::fire(&mut as_, &mut bs, 5);
    assert_eq!(out, 12); // 5 -> 6 -> 12
}

#[test]
fn chain_nests_arbitrarily() {
    // CellChain<Inc, Scaler> 仍是端口体 (In=i32, Out=i32)。
    // 再链 Scaler：CellChain<CellChain<Inc,Scaler>, Scaler>
    type Three = CellChain<CellChain<Inc, Scaler>, Scaler>;
    let mut st = <Three as PortCell>::State::default();
    let out = drive::<Three>(&mut st, 2);
    // 2 -> Inc 3 -> Scaler 6 -> Scaler 12
    assert_eq!(out, 12);
}

#[test]
fn static_declaration_compiles() {
    // 静态性声明是可编译的、编译期定型的标记。
    let _ = Static::<CellChain<Inc, Scaler>>::declare();
}

#[test]
fn broadcast_fans_out_to_multiple_receivers() {
    // Inc.out(i32) 同时 -> Inc 与 Scaler（多对多 fan-out，无 Tee 树）。
    let (mut ss, mut sr1, mut sr2) = ((), (), ());
    // fire: src Inc(5->6); r1 Inc(6->7); r2 Scaler(6->12)
    let (o1, o2) = Broadcast::<Inc, Inc, Scaler>::fire(&mut ss, &mut sr1, &mut sr2, 5);
    assert_eq!((o1, o2), (7, 12));
}

#[test]
fn feedback_closes_causally_in_types() {
    // 环：BODY=Inc, FEED=Inc，类型闭合（i32->i32 -> i32->i32）。
    // tick(external=8): Inc 8->9; feed Inc 9->10; 再 Inc 10->11
    let (mut sb, mut sf) = ((), ());
    let out = Feedback::<Inc, Inc>::tick(&mut sb, &mut sf, 8);
    assert_eq!(out, 11);
}

#[test]
fn chained_relay_loop_in_types() {
    // 一个更真实的环：BODY 是一个两段链 Chain<Inc,Scaler>(i32->i32)，
    // FEED 是 Inc —— 展示"组合出的端口体仍旧可入环"，任意嵌套 + 环。
    type Body = CellChain<Inc, Scaler>;
    let (mut sb, mut sf) = (<Body as PortCell>::State::default(), ());
    // tick(external=1): Body 1->2->4; feed Inc 4->5; Body 5->6->12
    let out = Feedback::<Body, Inc>::tick(&mut sb, &mut sf, 1);
    assert_eq!(out, 12);
}

#[test]
fn blueprint_is_zero_sized_zero_runtime_object() {
    // 蓝图是零大小类型 → 运行时无对象（该"蓝图即类型"，无 JSON/值形态中间层）。
    type Top = CellChain<Inc, CellChain<Scaler, Inc>>;
    assert!(blueprint_is_zero_sized::<Top>());
    assert_eq!(core::mem::size_of::<Blueprint<Top>>(), 0);
}

#[test]
fn compile_time_wiring_verification() {
    // 编译期布线判定：Inc.out(i32) 布到 Scaler.in(i32) 合法（DoesWire 可构造）。
    // 这是"能力到编译期耗尽用于验证"的入口——运行期零开销。
    assert_wiring::<Inc, Scaler>();
    assert_wiring::<CellChain<Inc, Scaler>, Scaler>();
    // 一条合法布线的编译期证据存在（关联常量）。
    let _: bool = <() as DoesWire<Inc, Scaler>>::WIRES;
}

#[test]
fn choice_dispatches_by_input_tag() {
    // Choice<Inc, Scaler>：输入标号决定分支（纯、由输入决定）。
    // Inc(i32): +1；Scaler(i32): 已是标量语义（此处用其 state 宏）。
    type C = Choice<Inc, Scaler>;
    let mut st = <C as PortCell>::State::default();
    // A 分支：Inc(0).step(5) -> 6
    assert!(matches!(
        drive::<C>(&mut st, ChoiceIn::A(5)),
        ChoiceOut::A(6)
    ));
    // B 分支：Scaler 翻倍，Scaler(0).step(2) -> 4
    assert!(matches!(
        drive::<C>(&mut st, ChoiceIn::B(2)),
        ChoiceOut::B(4)
    ));
}

#[test]
fn opt_maps_option_identity_or_apply() {
    // Opt<Inc>：None 恒等；Some(x) 应用一次 Inc（Opt::State=Inc::State=()，无状态）。
    assert_eq!(drive::<Opt<Inc>>(&mut (), None), None);
    assert_eq!(drive::<Opt<Inc>>(&mut (), Some(5)), Some(6));
}

#[test]
fn choice_opt_compose_as_port_cells() {
    // Opt 可链：Opt<Inc>::Out = Option<i32> == Opt<Scaler>::In。
    type Body = Chain<Opt<Inc>, Opt<Scaler>>;
    let mut st = <Body as PortCell>::State::default();
    // None -> 双方均恒等；Some(5) -> Inc(6) -> Scaler(12)
    assert_eq!(drive::<Body>(&mut st, Some(5)), Some(12));
    assert_eq!(drive::<Body>(&mut st, None), None);
}

#[test]
fn recursive_cell_type_composes_with_t1() {
    // 代数（递归）schema 的 running 形态：用户自定义**递归** cell（内部可递归、
    // `step` 仍是全函数），并作为组合子参与既有组合（Chain）与编译期 T1 验证。
    // 结论（K）：递归/互递归图样无需新的核心组合子——由用户递归类型 + 既有组合子表达；
    // 无界的**生成性展开**（任意运行时计数）归 ∃/物理侧（见 runtime 的 drive_seq/泵）。
    struct Sum;
    impl PortCell for Sum {
        type In = Vec<i32>;
        type Out = i32;
        type State = ();
        fn step_spec(s: (), xs: Vec<i32>) -> ((), i32) {
            (s, xs.iter().sum())
        }
        fn step(_: &mut (), xs: Vec<i32>) -> i32 {
            fn rec(xs: &[i32], i: usize) -> i32 {
                if i >= xs.len() { 0 } else { xs[i] + rec(xs, i + 1) }
            }
            rec(&xs, 0)
        }
    }
    // 递归 cell 仍是 PortCell：可进 Chain、可做 T1 布线验证。
    assert_wiring::<Sum, Scaler>();
    type S = CellChain<Sum, Scaler>;
    let mut st = <S as PortCell>::State::default();
    // Sum([1,2,3])=6 -> Scaler(×2)=12
    assert_eq!(drive::<S>(&mut st, vec![1, 2, 3]), 12);
}

#[test]
fn merge_fans_in_multiple_sources() {
    // 两个计数器源合入一个加法接收者（fan-in 多对多）。
    // S1=Inc, S2=Scaler, DST=Accumulator-ish: 用 Counter 求和语义。
    struct Accum;
    impl PortCell for Accum {
        type In = i32;
        type Out = i32;
        type State = i32;
        fn step_spec(s: i32, x: i32) -> (i32, i32) {
            (s + x, s + x)
        }
        fn step(s: &mut i32, x: i32) -> i32 {
            *s += x;
            *s
        }
    }
    // S1=Inc(5->6), S2=Scaler(5->10); Accum 累加: 6 -> 16
    let (mut s1, mut s2, mut sdst) = ((), (), 0i32);
    let out = Merge::<Inc, Scaler, Accum>::join(&mut s1, &mut s2, &mut sdst, 5, 5);
    assert_eq!(out, 16);
}


// ── Further cases ──

#[test]
fn slot_declares_and_chain_fills_it() {
    let _ = Slot::<i32, i32>::declare();
    flowgraph::cell_core::assert_conforms::<Slot<i32, i32>, Inc>();
    flowgraph::cell_core::wired::<Inc, Scaler>();
    let _ = Blueprint::<Inc>::define();
}

#[test]
fn merge_keeps_first_source_state() {
    struct Accum;
    impl PortCell for Accum {
        type In = i32;
        type Out = i32;
        type State = i32;
        fn step_spec(s: i32, x: i32) -> (i32, i32) {
            (s + x, s + x)
        }
        fn step(s: &mut i32, x: i32) -> i32 {
            *s += x;
            *s
        }
    }
    let (mut s1, mut s2, mut sdst) = ((), (), 100i32);
    let out = Merge::<Scaler, Inc, Accum>::join(&mut s1, &mut s2, &mut sdst, 1, 1);
    assert_eq!(out, 104);
    assert_eq!(sdst, 104);
}

#[test]
fn rep_repeats_same_cell_n_times() {
    type R = Rep<3, Inc>;
    let mut st = <R as PortCell>::State::default();
    let out = drive::<R>(&mut st, 5);
    assert_eq!(out, 8);
}

#[test]
fn rep_zero_is_identity() {
    type R = Rep<0, Inc>;
    let mut st = <R as PortCell>::State::default();
    assert_eq!(drive::<R>(&mut st, 5), 5);
    assert_eq!(<R as PortCell>::State::default().len(), 0);
}

#[test]
fn rep_state_is_fixed_array_of_n() {
    type R = Rep<4, Inc>;
    assert_eq!(core::mem::size_of::<R>(), 0);
    let st = <R as PortCell>::State::default();
    assert_eq!(st.len(), 4);
}

#[test]
fn rep_wires_into_scaler_compile_time() {
    assert_wiring::<Rep<2, Inc>, Scaler>();
    type Body = CellChain<Rep<2, Inc>, Scaler>;
    let mut st = <Body as PortCell>::State::default();
    assert_eq!(drive::<Body>(&mut st, 5), 14);
}

#[test]
fn slot_declares_interface_and_conforms() {
    let _ = Slot::<i32, i32>::declare();
    type S = Slot<i32, i32>;
    flowgraph::cell_core::assert_conforms::<S, Inc>();
    flowgraph::cell_core::assert_conforms::<S, Rep<3, Inc>>();
    let _: bool = <Inc as flowgraph::cell_core::Conforms<S>>::OK;
}

#[test]
fn rep_keeps_each_repetition_state() {
    struct Count;
    impl PortCell for Count {
        type In = i32;
        type Out = i32;
        type State = i32;
        fn step_spec(s: i32, x: i32) -> (i32, i32) {
            (s + 1, x + s)
        }
        fn step(s: &mut i32, x: i32) -> i32 {
            let out = x + *s;
            *s += 1;
            out
        }
    }
    type R = Rep<2, Count>;
    let mut st = <R as PortCell>::State::default();
    assert_eq!(drive::<R>(&mut st, 10), 10);
    assert_eq!(st.0, [1, 1]);
    assert_eq!(drive::<R>(&mut st, 10), 12);
    assert_eq!(st.0, [2, 2]);
}
