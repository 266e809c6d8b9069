//! Unit checks of the plan generator, the kernel and the log helpers.

use federated_dfg::kernel::eval_instruction;
use federated_dfg::log::find_activities;
use federated_dfg::log::get_timestamp;
use federated_dfg::log::CaseTrace;
use federated_dfg::log::Event;
use federated_dfg::log::Log;
use federated_dfg::plan::gen_plan;
use federated_dfg::plan::Instruction;

#[test]
fn plan_shape() {
    // two foreign and one own event: the start and end probes, one
    // foreign-adjacent candidate, no own-adjacent candidate, and two
    // cross candidates in each direction
    let p = gen_plan(2, 1);
    assert_eq!(p.len(), 7);
    assert_eq!(p[0], Instruction::FindStart);
    assert_eq!(p[1], Instruction::FindEnd);
    assert_eq!(p[2], Instruction::InnerForeign { i: 0 });
    assert_eq!(p[3], Instruction::CrossForeignOwn { i: 0, j: 0 });
    assert_eq!(p[4], Instruction::CrossForeignOwn { i: 1, j: 0 });
    assert_eq!(p[5], Instruction::CrossOwnForeign { j: 0, i: 0 });
    assert_eq!(p[6], Instruction::CrossOwnForeign { j: 0, i: 1 });
}

#[test]
fn plan_empty_case() {
    let p = gen_plan(0, 0);
    assert_eq!(p.len(), 0);
}

#[test]
fn kernel_masks_invalid_candidates() {
    // foreign X@1 Y@3, own Z@2; indices: X=0 Y=1 Z=2, bottom=3 start=4 end=5
    let f_act = vec![0u16, 1];
    let f_ts = vec![1u32, 3];
    let o_act = vec![2u16];
    let o_ts = vec![2u32];
    let bot = 3u16;
    let start = 4u16;
    let end = 5u16;
    // the own event sits between the two foreign ones: masked
    let r = eval_instruction(
        &f_act,
        &f_ts,
        &o_act,
        &o_ts,
        Instruction::InnerForeign { i: 0 },
        bot,
        start,
        end,
    );
    assert_eq!(r, (bot, bot));
    // X is immediately followed by Z
    let r = eval_instruction(
        &f_act,
        &f_ts,
        &o_act,
        &o_ts,
        Instruction::CrossForeignOwn { i: 0, j: 0 },
        bot,
        start,
        end,
    );
    assert_eq!(r, (0, 2));
    // Z is immediately followed by Y
    let r = eval_instruction(
        &f_act,
        &f_ts,
        &o_act,
        &o_ts,
        Instruction::CrossOwnForeign { j: 0, i: 1 },
        bot,
        start,
        end,
    );
    assert_eq!(r, (2, 1));
    // Y is not immediately followed by Z
    let r = eval_instruction(
        &f_act,
        &f_ts,
        &o_act,
        &o_ts,
        Instruction::CrossOwnForeign { j: 0, i: 0 },
        bot,
        start,
        end,
    );
    assert_eq!(r, (bot, bot));
    // the start probe picks the earliest event
    let r = eval_instruction(
        &f_act,
        &f_ts,
        &o_act,
        &o_ts,
        Instruction::FindStart,
        bot,
        start,
        end,
    );
    assert_eq!(r, (start, 0));
    let r = eval_instruction(&f_act, &f_ts, &o_act, &o_ts, Instruction::FindEnd, bot, start, end);
    assert_eq!(r, (1, end));
}

#[test]
fn log_helpers() {
    let log = Log {
        cases: vec![
            CaseTrace {
                name: "c1".to_string(),
                events: vec![
                    Event { label: "X".to_string(), ts: 1 },
                    Event { label: "Y".to_string(), ts: 2 },
                ],
            },
            CaseTrace {
                name: "c2".to_string(),
                events: vec![Event { label: "X".to_string(), ts: 5 }],
            },
        ],
    };
    let acts = find_activities(&log);
    assert_eq!(acts.len(), 2);
    assert!(acts.contains(&"X".to_string()));
    assert!(acts.contains(&"Y".to_string()));
    assert_eq!(get_timestamp(&log.cases[0].events[1]), 2);
}
