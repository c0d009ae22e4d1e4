//! Whole runs: the driver stepped through a sequence of events, and what it
//! asks for and prints when the ring does all that it is asked.

use vstd::prelude::*;
use vstd::utf8::{decode_utf8, valid_utf8};

use crate::driver::{initial, spec_step, ActionView, DriverView, EventView, Phase};
use crate::error::Error;
use crate::layout::padding_for;
use crate::request::{zeros, RequestView};
use crate::text::{lemma_decode_padded, lemma_padded_valid, line_of, nuls};

verus! {

/// The driver stepped through `events` from state `s`: the state that it ends
/// in, and its answers, one for each event.
pub open spec fn run(s: DriverView, events: Seq<EventView>) -> (DriverView, Seq<ActionView>)
    decreases events.len(),
{
    if events.len() == 0 {
        (s, Seq::empty())
    } else {
        let first = spec_step(s, events[0]);
        let rest = run(first.0, events.drop_first());
        (rest.0, seq![first.1] + rest.1)
    }
}

/// What a caller that carries `actions` out prints: the texts of the
/// [`ActionView::Emit`] among them, in order.
pub open spec fn printed(actions: Seq<ActionView>) -> Seq<char>
    decreases actions.len(),
{
    if actions.len() == 0 {
        Seq::empty()
    } else {
        let rest = printed(actions.drop_first());
        match actions[0] {
            ActionView::Emit { text } => text + rest,
            _ => rest,
        }
    }
}

/// What the completion of one read reports, and what the read left in the
/// buffers.
pub struct Read {
    pub result: i32,
    pub data: Seq<u8>,
}

/// The events of a run in which nothing goes wrong, from the point at which
/// `trigger` makes the driver take up the first of `pending`, which it tags
/// `tag`: each read is submitted, completes under its own tag as `reads`
/// has it, and has its text printed. `reads` holds one entry for each of
/// `pending`; that of an empty file is not looked at.
pub open spec fn answers(
    pending: Seq<RequestView>,
    tag: nat,
    reads: Seq<Read>,
    trigger: EventView,
) -> Seq<EventView>
    decreases pending.len(),
{
    if pending.len() == 0 {
        seq![trigger]
    } else if pending[0].fsize == 0 {
        answers(pending.drop_first(), tag + 1, reads.drop_first(), trigger)
    } else {
        seq![
            trigger,
            EventView::Submitted,
            EventView::Completed {
                user_data: tag as u64,
                result: reads[0].result,
                data: reads[0].data,
            },
        ] + answers(pending.drop_first(), tag + 1, reads.drop_first(), EventView::Written)
    }
}

/// What the driver asks for in such a run: for each file that is not empty,
/// in order, one read of all its buffers from the start of the file, tagged
/// with the file's position; then to wait; then to print what the read left;
/// and to finish after the last.
pub open spec fn protocol(pending: Seq<RequestView>, tag: nat, reads: Seq<Read>) -> Seq<
    ActionView,
>
    decreases pending.len(),
{
    if pending.len() == 0 {
        seq![ActionView::Finish]
    } else if pending[0].fsize == 0 {
        protocol(pending.drop_first(), tag + 1, reads.drop_first())
    } else {
        seq![
            ActionView::Submit {
                fd: pending[0].fd,
                offset: 0,
                user_data: tag as u64,
                data: pending[0].blank(),
            },
            ActionView::Wait,
            ActionView::Emit { text: line_of(reads[0].data) },
        ] + protocol(pending.drop_first(), tag + 1, reads.drop_first())
    }
}

/// The events of a whole run in which nothing goes wrong.
pub open spec fn script(requests: Seq<RequestView>, reads: Seq<Read>) -> Seq<EventView> {
    seq![EventView::Start] + answers(requests, 0, reads, EventView::RingReady)
}

/// Every read that is looked at left valid UTF-8 behind.
pub open spec fn decodable(pending: Seq<RequestView>, reads: Seq<Read>) -> bool {
    forall|i: int|
        0 <= i < pending.len() && pending[i].fsize != 0 ==> valid_utf8((#[trigger] reads[i]).data)
}

/// Stepping through one sequence of events and then another is stepping
/// through the two joined.
pub proof fn lemma_run_concat(s: DriverView, first: Seq<EventView>, second: Seq<EventView>)
    ensures
        run(s, first + second) == (
            run(run(s, first).0, second).0,
            run(s, first).1 + run(run(s, first).0, second).1,
        ),
    decreases first.len(),
{
    if first.len() == 0 {
        assert(first + second =~= second);
        assert(run(s, first).1 + run(s, second).1 =~= run(s, second).1);
    } else {
        let next = spec_step(s, first[0]).0;
        lemma_run_concat(next, first.drop_first(), second);
        assert((first + second).drop_first() =~= first.drop_first() + second);
        assert(run(s, first + second).1 =~= run(s, first).1 + run(run(s, first).0, second).1);
    }
}

/// What two sequences of actions print is what the first prints, then what
/// the second prints.
pub proof fn lemma_printed_concat(first: Seq<ActionView>, second: Seq<ActionView>)
    ensures
        printed(first + second) == printed(first) + printed(second),
    decreases first.len(),
{
    if first.len() == 0 {
        assert(first + second =~= second);
        assert(printed(first) + printed(second) =~= printed(second));
    } else {
        lemma_printed_concat(first.drop_first(), second);
        assert((first + second).drop_first() =~= first.drop_first() + second);
        assert(printed(first + second) =~= printed(first) + printed(second));
    }
}

/// The first of the events of [`answers`] is the trigger.
proof fn lemma_answers_begin(
    pending: Seq<RequestView>,
    tag: nat,
    reads: Seq<Read>,
    trigger: EventView,
)
    ensures
        answers(pending, tag, reads, trigger).len() > 0,
        answers(pending, tag, reads, trigger)[0] == trigger,
    decreases pending.len(),
{
    if pending.len() != 0 && pending[0].fsize == 0 {
        lemma_answers_begin(pending.drop_first(), tag + 1, reads.drop_first(), trigger);
    }
}

/// When nothing goes wrong, the driver asks for exactly the actions of
/// [`protocol`], and ends with every request dealt with.
pub proof fn lemma_answers_give_protocol(s: DriverView, reads: Seq<Read>, trigger: EventView)
    requires
        (s.phase == Phase::SettingUp && trigger == EventView::RingReady) || (s.phase
            == Phase::Emitting && trigger == EventView::Written),
        s.next_tag + s.pending.len() <= u64::MAX,
        reads.len() == s.pending.len(),
        decodable(s.pending, reads),
    ensures
        run(s, answers(s.pending, s.next_tag, reads, trigger)).1 == protocol(
            s.pending,
            s.next_tag,
            reads,
        ),
        run(s, answers(s.pending, s.next_tag, reads, trigger)).0 == (DriverView {
            pending: Seq::empty(),
            next_tag: s.next_tag + s.pending.len(),
            phase: Phase::Finished,
        }),
    decreases s.pending.len(),
{
    let events = answers(s.pending, s.next_tag, reads, trigger);
    if s.pending.len() == 0 {
        assert(s.pending =~= Seq::empty());
        assert(events =~= seq![trigger]);
        lemma_run_one(s, trigger);
    } else {
        let rest = s.pending.drop_first();
        let later = reads.drop_first();
        assert forall|i: int| 0 <= i < rest.len() && rest[i].fsize != 0 implies valid_utf8(
            (#[trigger] later[i]).data,
        ) by {
            assert(later[i] == reads[i + 1]);
            assert(rest[i] == s.pending[i + 1]);
        }
        if s.pending[0].fsize == 0 {
            let skipped = DriverView { pending: rest, next_tag: s.next_tag + 1, ..s };
            lemma_answers_give_protocol(skipped, later, trigger);
            lemma_answers_begin(rest, s.next_tag + 1, later, trigger);
            assert(spec_step(s, trigger) == spec_step(skipped, trigger));
            assert(run(s, events) == run(skipped, events));
        } else {
            let turn = seq![
                trigger,
                EventView::Submitted,
                EventView::Completed {
                    user_data: s.next_tag as u64,
                    result: reads[0].result,
                    data: reads[0].data,
                },
            ];
            let tail = answers(rest, s.next_tag + 1, later, EventView::Written);
            let printing = DriverView {
                pending: rest,
                next_tag: s.next_tag + 1,
                phase: Phase::Emitting,
            };
            assert(run(s, turn) == (
                printing,
                seq![
                    ActionView::Submit {
                        fd: s.pending[0].fd,
                        offset: 0,
                        user_data: s.next_tag as u64,
                        data: s.pending[0].blank(),
                    },
                    ActionView::Wait,
                    ActionView::Emit { text: line_of(reads[0].data) },
                ],
            )) by {
                lemma_turn(s, reads[0], trigger);
            }
            lemma_run_concat(s, turn, tail);
            lemma_answers_give_protocol(printing, later, EventView::Written);
        }
    }
}

/// Stepping through one event is one step.
pub proof fn lemma_run_one(s: DriverView, event: EventView)
    ensures
        run(s, seq![event]) == (spec_step(s, event).0, seq![spec_step(s, event).1]),
{
    let next = spec_step(s, event);
    assert(seq![event].drop_first() =~= Seq::empty());
    assert(run(next.0, Seq::empty()) == (next.0, Seq::<ActionView>::empty()));
    assert(seq![next.1] + Seq::<ActionView>::empty() =~= seq![next.1]);
}

/// One read from submission to its text, when nothing goes wrong.
proof fn lemma_turn(s: DriverView, read: Read, trigger: EventView)
    requires
        (s.phase == Phase::SettingUp && trigger == EventView::RingReady) || (s.phase
            == Phase::Emitting && trigger == EventView::Written),
        s.pending.len() > 0,
        s.pending[0].fsize != 0,
        s.next_tag < u64::MAX,
        valid_utf8(read.data),
    ensures
        run(
            s,
            seq![
                trigger,
                EventView::Submitted,
                EventView::Completed {
                    user_data: s.next_tag as u64,
                    result: read.result,
                    data: read.data,
                },
            ],
        ) == (
            DriverView {
                pending: s.pending.drop_first(),
                next_tag: s.next_tag + 1,
                phase: Phase::Emitting,
            },
            seq![
                ActionView::Submit {
                    fd: s.pending[0].fd,
                    offset: 0,
                    user_data: s.next_tag as u64,
                    data: s.pending[0].blank(),
                },
                ActionView::Wait,
                ActionView::Emit { text: line_of(read.data) },
            ],
        ),
{
    let completed = EventView::Completed {
        user_data: s.next_tag as u64,
        result: read.result,
        data: read.data,
    };
    let e3 = seq![trigger, EventView::Submitted, completed];
    let e2 = seq![EventView::Submitted, completed];
    let e1 = seq![completed];
    assert(e3.drop_first() =~= e2);
    assert(e2.drop_first() =~= e1);
    assert(e1.drop_first() =~= Seq::empty());
    let s1 = spec_step(s, trigger);
    let s2 = spec_step(s1.0, EventView::Submitted);
    let s3 = spec_step(s2.0, completed);
    assert(run(s3.0, Seq::empty()) == (s3.0, Seq::<ActionView>::empty()));
    assert(run(s2.0, e1) == (s3.0, seq![s3.1] + Seq::<ActionView>::empty()));
    assert(run(s1.0, e2).1 =~= seq![s2.1, s3.1]);
    assert(run(s, e3).1 =~= seq![s1.1, s2.1, s3.1]);
}

/// What one file of `content` adds to the output. An empty file adds
/// nothing. Any other adds its text, one NUL character for each byte of
/// buffer that the file does not fill, and a newline.
pub open spec fn record(content: Seq<u8>) -> Seq<char> {
    if content.len() == 0 {
        Seq::empty()
    } else {
        decode_utf8(content) + nuls(padding_for(content.len())) + seq!['\n']
    }
}

/// The records of files of `contents`, in order.
pub open spec fn records(contents: Seq<Seq<u8>>) -> Seq<char>
    decreases contents.len(),
{
    if contents.len() == 0 {
        Seq::empty()
    } else {
        record(contents[0]) + records(contents.drop_first())
    }
}

/// Every one of `contents` is valid UTF-8.
pub open spec fn all_decodable(contents: Seq<Seq<u8>>) -> bool {
    forall|i: int| 0 <= i < contents.len() ==> valid_utf8(#[trigger] contents[i])
}

/// What a run over files of `contents` prints: their records in order, up
/// to the first file that is not valid UTF-8.
pub open spec fn output(contents: Seq<Seq<u8>>) -> Seq<char>
    decreases contents.len(),
{
    if contents.len() == 0 || !valid_utf8(contents[0]) {
        Seq::empty()
    } else {
        record(contents[0]) + output(contents.drop_first())
    }
}

/// `read` is what reading the file of `content` into the buffers of
/// `request` leaves behind: the content, then the zeros that the buffers
/// held before.
pub open spec fn reads_file(request: RequestView, content: Seq<u8>, read: Read) -> bool {
    &&& content.len() == request.fsize
    &&& read.data == content + zeros(padding_for(content.len()))
}

/// `reads` are the reads of the files of `contents` into the buffers of
/// `requests`, one for one.
pub open spec fn reads_files(
    requests: Seq<RequestView>,
    contents: Seq<Seq<u8>>,
    reads: Seq<Read>,
) -> bool {
    &&& contents.len() == requests.len()
    &&& reads.len() == requests.len()
    &&& forall|i: int|
        0 <= i < requests.len() ==> reads_file(#[trigger] requests[i], contents[i], reads[i])
}

/// A file whose size is a multiple of the chunk size fills its buffers: its
/// record is its text and a newline, with no padding between.
pub proof fn lemma_record_unpadded(content: Seq<u8>)
    requires
        content.len() > 0,
        content.len() % 512 == 0,
    ensures
        record(content) == decode_utf8(content) + seq!['\n'],
{
    assert(nuls(padding_for(content.len())) =~= Seq::<char>::empty());
    assert(decode_utf8(content) + Seq::<char>::empty() =~= decode_utf8(content));
}

/// Where every file is valid UTF-8, the output is every file's record.
pub proof fn lemma_output_in_full(contents: Seq<Seq<u8>>)
    requires
        all_decodable(contents),
    ensures
        output(contents) == records(contents),
    decreases contents.len(),
{
    if contents.len() != 0 {
        let rest = contents.drop_first();
        assert(valid_utf8(contents[0]));
        assert forall|i: int| 0 <= i < rest.len() implies valid_utf8(#[trigger] rest[i]) by {
            assert(rest[i] == contents[i + 1]);
        }
        lemma_output_in_full(rest);
    }
}

/// A driver that has given a run up stays as it is and has nothing more
/// printed, whatever it is told.
pub proof fn lemma_given_up(s: DriverView, events: Seq<EventView>)
    requires
        s.phase is Failed,
    ensures
        run(s, events).0 == s,
        printed(run(s, events).1) == Seq::<char>::empty(),
    decreases events.len(),
{
    if events.len() != 0 {
        let first = spec_step(s, events[0]);
        lemma_given_up(s, events.drop_first());
        let rest = run(s, events.drop_first());
        assert((seq![first.1] + rest.1).drop_first() =~= rest.1);
    }
}

/// One read from submission to the discovery that what it left behind cannot
/// be decoded.
proof fn lemma_turn_fails(s: DriverView, read: Read, trigger: EventView)
    requires
        (s.phase == Phase::SettingUp && trigger == EventView::RingReady) || (s.phase
            == Phase::Emitting && trigger == EventView::Written),
        s.pending.len() > 0,
        s.pending[0].fsize != 0,
        s.next_tag < u64::MAX,
        !valid_utf8(read.data),
    ensures
        run(
            s,
            seq![
                trigger,
                EventView::Submitted,
                EventView::Completed {
                    user_data: s.next_tag as u64,
                    result: read.result,
                    data: read.data,
                },
            ],
        ).0.phase == (Phase::Failed { error: Error::Decoding }),
        printed(
            run(
                s,
                seq![
                    trigger,
                    EventView::Submitted,
                    EventView::Completed {
                        user_data: s.next_tag as u64,
                        result: read.result,
                        data: read.data,
                    },
                ],
            ).1,
        ) == Seq::<char>::empty(),
{
    let completed = EventView::Completed {
        user_data: s.next_tag as u64,
        result: read.result,
        data: read.data,
    };
    let e3 = seq![trigger, EventView::Submitted, completed];
    let e2 = seq![EventView::Submitted, completed];
    let e1 = seq![completed];
    assert(e3.drop_first() =~= e2);
    assert(e2.drop_first() =~= e1);
    let s1 = spec_step(s, trigger);
    let s2 = spec_step(s1.0, EventView::Submitted);
    let s3 = spec_step(s2.0, completed);
    lemma_run_one(s2.0, completed);
    assert(run(s1.0, e2).1 =~= seq![s2.1, s3.1]);
    assert(run(s, e3).1 =~= seq![s1.1, s2.1, s3.1]);
    lemma_printed_three(s1.1, s2.1, s3.1);
    lemma_printed_one(s1.1);
    lemma_printed_one(s2.1);
    lemma_printed_one(s3.1);
    assert(printed(run(s, e3).1) =~= Seq::<char>::empty());
}

/// What one action prints.
proof fn lemma_printed_one(a: ActionView)
    ensures
        printed(seq![a]) == match a {
            ActionView::Emit { text } => text,
            _ => Seq::empty(),
        },
{
    assert(seq![a].drop_first() =~= Seq::empty());
    assert(printed(Seq::<ActionView>::empty()) =~= Seq::<char>::empty());
    match a {
        ActionView::Emit { text } => {
            assert(text + Seq::<char>::empty() =~= text);
        },
        _ => {},
    }
}

/// What three actions print.
proof fn lemma_printed_three(a: ActionView, b: ActionView, c: ActionView)
    ensures
        printed(seq![a, b, c]) == printed(seq![a]) + printed(seq![b]) + printed(seq![c]),
{
    lemma_printed_concat(seq![a, b], seq![c]);
    lemma_printed_concat(seq![a], seq![b]);
    assert(seq![a, b] + seq![c] =~= seq![a, b, c]);
    assert(seq![a] + seq![b] =~= seq![a, b]);
}

/// From the point at which the driver takes up its pending requests, a run
/// in which the ring does all that it is asked prints the output of the
/// files, and ends finished if every file could be decoded, and given up on
/// a decoding error if not.
pub proof fn lemma_answers_print(
    s: DriverView,
    contents: Seq<Seq<u8>>,
    reads: Seq<Read>,
    trigger: EventView,
)
    requires
        (s.phase == Phase::SettingUp && trigger == EventView::RingReady) || (s.phase
            == Phase::Emitting && trigger == EventView::Written),
        s.next_tag + s.pending.len() <= u64::MAX,
        reads_files(s.pending, contents, reads),
    ensures
        printed(run(s, answers(s.pending, s.next_tag, reads, trigger)).1) == output(contents),
        run(s, answers(s.pending, s.next_tag, reads, trigger)).0.phase == if all_decodable(
            contents,
        ) {
            Phase::Finished
        } else {
            Phase::Failed { error: Error::Decoding }
        },
    decreases s.pending.len(),
{
    let events = answers(s.pending, s.next_tag, reads, trigger);
    if s.pending.len() == 0 {
        assert(events =~= seq![trigger]);
        lemma_run_one(s, trigger);
        lemma_printed_one(ActionView::Finish);
    } else {
        let rest = s.pending.drop_first();
        let later = reads.drop_first();
        let others = contents.drop_first();
        assert(reads_file(s.pending[0], contents[0], reads[0]));
        assert(reads_files(rest, others, later)) by {
            assert forall|i: int| 0 <= i < rest.len() implies reads_file(
                #[trigger] rest[i],
                others[i],
                later[i],
            ) by {
                assert(reads_file(s.pending[i + 1], contents[i + 1], reads[i + 1]));
            }
        }
        assert(valid_utf8(contents[0]) ==> (all_decodable(contents) <==> all_decodable(others)))
            by {
            if valid_utf8(contents[0]) {
                if all_decodable(others) {
                    assert forall|i: int| 0 <= i < contents.len() implies valid_utf8(
                        #[trigger] contents[i],
                    ) by {
                        if i > 0 {
                            assert(contents[i] == others[i - 1]);
                        }
                    }
                }
                if all_decodable(contents) {
                    assert forall|i: int| 0 <= i < others.len() implies valid_utf8(
                        #[trigger] others[i],
                    ) by {
                        assert(others[i] == contents[i + 1]);
                    }
                }
            }
        }
        if s.pending[0].fsize == 0 {
            assert(valid_utf8(contents[0]));
            let skipped = DriverView { pending: rest, next_tag: s.next_tag + 1, ..s };
            lemma_answers_print(skipped, others, later, trigger);
            lemma_answers_begin(rest, s.next_tag + 1, later, trigger);
            assert(spec_step(s, trigger) == spec_step(skipped, trigger));
            assert(run(s, events) == run(skipped, events));
            assert(record(contents[0]) + output(others) =~= output(others));
        } else {
            let turn = seq![
                trigger,
                EventView::Submitted,
                EventView::Completed {
                    user_data: s.next_tag as u64,
                    result: reads[0].result,
                    data: reads[0].data,
                },
            ];
            let tail = answers(rest, s.next_tag + 1, later, EventView::Written);
            let padding = padding_for(contents[0].len());
            lemma_run_concat(s, turn, tail);
            lemma_printed_concat(run(s, turn).1, run(run(s, turn).0, tail).1);
            if valid_utf8(contents[0]) {
                lemma_decode_padded(contents[0], padding);
                lemma_turn(s, reads[0], trigger);
                let submit = run(s, turn).1[0];
                let emit = ActionView::Emit { text: line_of(reads[0].data) };
                lemma_printed_three(submit, ActionView::Wait, emit);
                lemma_printed_one(submit);
                lemma_printed_one(ActionView::Wait);
                lemma_printed_one(emit);
                assert(printed(run(s, turn).1) =~= record(contents[0]));
                lemma_answers_print(run(s, turn).0, others, later, EventView::Written);
            } else {
                if valid_utf8(reads[0].data) {
                    lemma_padded_valid(contents[0], padding);
                }
                lemma_turn_fails(s, reads[0], trigger);
                lemma_given_up(run(s, turn).0, tail);
                assert(!all_decodable(contents));
                assert(printed(run(s, events).1) =~= Seq::<char>::empty());
            }
        }
    }
}

/// A whole run in which the ring does all that it is asked prints the
/// output of the files: the record of each in the order of the file list, up
/// to the first that is not valid UTF-8. It ends finished if there is no such
/// file, and given up on a decoding error if there is one. Events that
/// follow the failure change nothing, so the script may hold them.
pub proof fn lemma_run_prints_files(
    requests: Seq<RequestView>,
    contents: Seq<Seq<u8>>,
    reads: Seq<Read>,
)
    requires
        requests.len() <= u32::MAX,
        reads_files(requests, contents, reads),
    ensures
        printed(run(initial(requests), script(requests, reads)).1) == output(contents),
        run(initial(requests), script(requests, reads)).0.phase == if all_decodable(contents) {
            Phase::Finished
        } else {
            Phase::Failed { error: Error::Decoding }
        },
{
    let begin = seq![EventView::Start];
    let then = answers(requests, 0, reads, EventView::RingReady);
    lemma_run_one(initial(requests), EventView::Start);
    lemma_run_concat(initial(requests), begin, then);
    let set_up = run(initial(requests), begin);
    lemma_answers_print(set_up.0, contents, reads, EventView::RingReady);
    lemma_printed_concat(set_up.1, run(set_up.0, then).1);
    lemma_printed_one(set_up.1[0]);
    assert(printed(set_up.1) + output(contents) =~= output(contents));
}

/// A whole run over files that are all valid UTF-8 prints every file in
/// full, in the order of the file list, and ends finished.
pub proof fn lemma_run_prints_every_file(
    requests: Seq<RequestView>,
    contents: Seq<Seq<u8>>,
    reads: Seq<Read>,
)
    requires
        requests.len() <= u32::MAX,
        reads_files(requests, contents, reads),
        all_decodable(contents),
    ensures
        printed(run(initial(requests), script(requests, reads)).1) == records(contents),
        run(initial(requests), script(requests, reads)).0.phase == Phase::Finished,
{
    lemma_run_prints_files(requests, contents, reads);
    lemma_output_in_full(contents);
}

/// Two runs over the same files print the same, whatever descriptors the
/// files were opened at and whatever the completions reported.
pub proof fn lemma_same_files_same_output(
    contents: Seq<Seq<u8>>,
    requests: Seq<RequestView>,
    reads: Seq<Read>,
    requests_again: Seq<RequestView>,
    reads_again: Seq<Read>,
)
    requires
        contents.len() <= u32::MAX,
        reads_files(requests, contents, reads),
        reads_files(requests_again, contents, reads_again),
    ensures
        printed(run(initial(requests), script(requests, reads)).1) == printed(
            run(initial(requests_again), script(requests_again, reads_again)).1,
        ),
        run(initial(requests), script(requests, reads)).0.phase == run(
            initial(requests_again),
            script(requests_again, reads_again),
        ).0.phase,
{
    lemma_run_prints_files(requests, contents, reads);
    lemma_run_prints_files(requests_again, contents, reads_again);
}

/// A whole run in which the ring does all that it is asked and every read
/// leaves valid UTF-8 behind: the driver asks for the ring, sized to the
/// number of requests, and then for exactly the actions of [`protocol`].
pub proof fn lemma_run_follows_protocol(requests: Seq<RequestView>, reads: Seq<Read>)
    requires
        requests.len() <= u32::MAX,
        reads.len() == requests.len(),
        decodable(requests, reads),
    ensures
        run(initial(requests), script(requests, reads)).1 == seq![
            ActionView::Setup { entries: requests.len() as u32 },
        ] + protocol(requests, 0, reads),
        run(initial(requests), script(requests, reads)).0.phase == Phase::Finished,
{
    let begin = seq![EventView::Start];
    let then = answers(requests, 0, reads, EventView::RingReady);
    lemma_run_one(initial(requests), EventView::Start);
    lemma_run_concat(initial(requests), begin, then);
    lemma_answers_give_protocol(run(initial(requests), begin).0, reads, EventView::RingReady);
}

} // verus!
