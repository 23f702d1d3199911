//! The streaming hierarchical flattener.
//!
//! One pass over the event stream threads a path stack and a record
//! accumulator through every event; each close of the configured
//! row-boundary element flushes the accumulated record into the output
//! sequence.  The pass is best-effort: a tokenizer failure stops
//! consumption but keeps every record completed before it, while a
//! structural mismatch or an undecodable text value aborts the pass.
//!
//! Record keys are rendered from the part of the path that starts at the
//! innermost enclosing row-boundary element, so every row's keys are
//! relative to its own boundary; a path with no boundary segment renders
//! whole.  An attribute's path is its element's path plus the attribute's
//! own name as one extra trailing segment.
use vstd::prelude::*;
use vstd::string::StringExecFns;

use crate::bytes_eq;
use crate::copy_bytes;
use crate::decode::attr_value_spec;
use crate::decode::decode_attr_value;
use crate::decode::trim_spec;
use crate::decode::trim_xml_ws;
use crate::decode::unescape_bytes;
use crate::decode::unescape_of;
use crate::decode::utf8_lossy;
use crate::events::is_terminal;
use crate::events::model_of;
use crate::events::terminated;
use crate::events::EventModel;
use crate::events::ParsedEvent;
use crate::events::tokenize;
use crate::events::tokens_of;
use crate::path_stack::join_from;
use crate::path_stack::key_of;
use crate::path_stack::lemma_key_of_push;
use crate::path_stack::segs_view;
use crate::path_stack::PathStack;
use crate::record::lemma_rec_of_per_key;
use crate::record::picked;
use crate::record::rec_add;
use crate::record::rec_of;
use crate::record::rec_size;
use crate::record::rec_wf;
use crate::record::values_for;
use crate::record::RecModel;
use crate::record::Record;

verus! {

/// The flattener's configuration: the string that joins path segments into
/// a record key, and the element name whose close ends one row.
pub struct FlattenConfig {
    pub key_separator: String,
    pub row_boundary: Vec<u8>,
}

/// The abstract state threaded through the pass.
pub struct FlatModel {
    /// The chain of open element names, outermost first.
    pub stack: Seq<Seq<u8>>,
    /// The in-progress record.
    pub rec: RecModel,
    /// The completed records, in document order.
    pub out: Seq<RecModel>,
}

/// The state before the first event.
pub open spec fn init_model() -> FlatModel {
    FlatModel { stack: Seq::empty(), rec: Seq::empty(), out: Seq::empty() }
}

/// The suffix of `stack` that begins at the innermost segment equal to
/// `boundary`; the whole of `stack` when no segment equals it.
pub open spec fn row_path(stack: Seq<Seq<u8>>, boundary: Seq<u8>) -> Seq<Seq<u8>>
    decreases stack.len(),
{
    if stack.len() == 0 {
        stack
    } else if stack.last() == boundary {
        seq![stack.last()]
    } else {
        row_path(stack.drop_last(), boundary).push(stack.last())
    }
}

proof fn lemma_row_path_whole(stack: Seq<Seq<u8>>, boundary: Seq<u8>)
    requires
        forall|j: int| 0 <= j < stack.len() ==> stack[j] != boundary,
    ensures
        row_path(stack, boundary) == stack,
    decreases stack.len(),
{
    if stack.len() > 0 {
        lemma_row_path_whole(stack.drop_last(), boundary);
        assert(row_path(stack, boundary) =~= stack);
    } else {
        assert(row_path(stack, boundary) =~= stack);
    }
}

proof fn lemma_row_path_suffix(stack: Seq<Seq<u8>>, boundary: Seq<u8>, i: int)
    requires
        0 <= i < stack.len(),
        stack[i] == boundary,
        forall|j: int| i < j < stack.len() ==> stack[j] != boundary,
    ensures
        row_path(stack, boundary) == stack.skip(i),
    decreases stack.len(),
{
    if i == stack.len() - 1 {
        assert(stack.last() == boundary);
        assert(row_path(stack, boundary) =~= stack.skip(i));
    } else {
        assert(stack.last() != boundary);
        let d = stack.drop_last();
        assert(d[i] == boundary);
        lemma_row_path_suffix(d, boundary, i);
        assert(d.skip(i).push(stack.last()) =~= stack.skip(i));
    }
}

/// The index in `path` at which the row-relative part of the path begins.
pub fn row_start(path: &[Vec<u8>], boundary: &[u8]) -> (i: usize)
    ensures
        i <= path@.len(),
        row_path(segs_view(path@), boundary@) == segs_view(path@).skip(i as int),
{
    let ghost sv = segs_view(path@);
    let n = path.len();
    let mut j: usize = n;
    while j > 0
        invariant
            j <= n == sv.len(),
            sv == segs_view(path@),
            forall|k: int| j <= k < n ==> sv[k] != boundary@,
        decreases j,
    {
        if bytes_eq(path[j - 1].as_slice(), boundary) {
            proof {
                assert(sv[j - 1] == boundary@);
                lemma_row_path_suffix(sv, boundary@, j - 1);
            }
            return j - 1;
        }
        j = j - 1;
    }
    proof {
        lemma_row_path_whole(sv, boundary@);
        assert(sv.skip(0) =~= sv);
    }
    0
}

/// The key an attribute of the element at the top of `stack2` records
/// under: the row-relative element path plus the attribute's own name.
pub open spec fn attr_key(
    stack2: Seq<Seq<u8>>,
    aname: Seq<u8>,
    sep: Seq<char>,
    b: Seq<u8>,
) -> Seq<char> {
    key_of(row_path(stack2, b).push(aname), sep)
}

/// The record after the attributes of one element-open event, in document
/// order, are recorded against the element path `stack2`.
pub open spec fn add_attrs(
    rec: RecModel,
    stack2: Seq<Seq<u8>>,
    attrs: Seq<(Seq<u8>, Seq<u8>)>,
    sep: Seq<char>,
    b: Seq<u8>,
) -> RecModel
    decreases attrs.len(),
{
    if attrs.len() == 0 {
        rec
    } else {
        add_attrs(
            rec_add(rec, attr_key(stack2, attrs[0].0, sep, b), attr_value_spec(attrs[0].1)),
            stack2,
            attrs.drop_first(),
            sep,
            b,
        )
    }
}

proof fn lemma_add_attrs_push(
    rec: RecModel,
    stack2: Seq<Seq<u8>>,
    pre: Seq<(Seq<u8>, Seq<u8>)>,
    a: (Seq<u8>, Seq<u8>),
    sep: Seq<char>,
    b: Seq<u8>,
)
    ensures
        add_attrs(rec, stack2, pre.push(a), sep, b) == rec_add(
            add_attrs(rec, stack2, pre, sep, b),
            attr_key(stack2, a.0, sep, b),
            attr_value_spec(a.1),
        ),
    decreases pre.len(),
{
    let p = pre.push(a);
    assert(p.len() == pre.len() + 1);
    if pre.len() == 0 {
        assert(p[0] == a);
        assert(p.drop_first() =~= Seq::<(Seq<u8>, Seq<u8>)>::empty());
        let r1 = rec_add(rec, attr_key(stack2, a.0, sep, b), attr_value_spec(a.1));
        assert(add_attrs(rec, stack2, p, sep, b) == add_attrs(r1, stack2, p.drop_first(), sep, b));
        assert(add_attrs(r1, stack2, p.drop_first(), sep, b) == r1);
        assert(add_attrs(rec, stack2, pre, sep, b) == rec);
    } else {
        assert(p[0] == pre[0]);
        assert(p.drop_first() =~= pre.drop_first().push(a));
        let r1 = rec_add(rec, attr_key(stack2, pre[0].0, sep, b), attr_value_spec(pre[0].1));
        assert(add_attrs(rec, stack2, p, sep, b) == add_attrs(r1, stack2, p.drop_first(), sep, b));
        assert(add_attrs(rec, stack2, pre, sep, b) == add_attrs(
            r1,
            stack2,
            pre.drop_first(),
            sep,
            b,
        ));
        lemma_add_attrs_push(r1, stack2, pre.drop_first(), a, sep, b);
    }
}

proof fn lemma_add_attrs_wf(
    rec: RecModel,
    stack2: Seq<Seq<u8>>,
    attrs: Seq<(Seq<u8>, Seq<u8>)>,
    sep: Seq<char>,
    b: Seq<u8>,
)
    requires
        rec_wf(rec),
    ensures
        rec_wf(add_attrs(rec, stack2, attrs, sep, b)),
    decreases attrs.len(),
{
    if attrs.len() > 0 {
        crate::record::lemma_rec_add_wf(
            rec,
            attr_key(stack2, attrs[0].0, sep, b),
            attr_value_spec(attrs[0].1),
        );
        lemma_add_attrs_wf(
            rec_add(rec, attr_key(stack2, attrs[0].0, sep, b), attr_value_spec(attrs[0].1)),
            stack2,
            attrs.drop_first(),
            sep,
            b,
        );
    }
}

proof fn lemma_add_attrs_never_shortens(
    rec: RecModel,
    stack2: Seq<Seq<u8>>,
    attrs: Seq<(Seq<u8>, Seq<u8>)>,
    sep: Seq<char>,
    b: Seq<u8>,
    key: Seq<char>,
)
    requires
        rec_wf(rec),
    ensures
        values_for(add_attrs(rec, stack2, attrs, sep, b), key).len() >= values_for(
            rec,
            key,
        ).len(),
    decreases attrs.len(),
{
    if attrs.len() > 0 {
        let k0 = attr_key(stack2, attrs[0].0, sep, b);
        let v0 = attr_value_spec(attrs[0].1);
        crate::record::lemma_record_value_appends(rec, k0, v0, key);
        crate::record::lemma_rec_add_wf(rec, k0, v0);
        lemma_add_attrs_never_shortens(rec_add(rec, k0, v0), stack2, attrs.drop_first(), sep, b, key);
    }
}

/// No value is ever lost by a step: an event that is not a close of the
/// row boundary leaves every key's value list in the in-progress record at
/// least as long as it was, and the close of the row boundary moves the
/// whole record, untouched, to the end of the output.  So a record's value
/// list for a key is never shorter than the number of occurrences recorded
/// into it during its row.
pub proof fn lemma_no_value_lost(
    m: FlatModel,
    ev: EventModel,
    sep: Seq<char>,
    b: Seq<u8>,
    m2: FlatModel,
    key: Seq<char>,
)
    requires
        rec_wf(m.rec),
        spec_step(m, ev, sep, b) == StepModel::Next(m2),
    ensures
        !(ev matches EventModel::End { name, position } && name == b) ==> values_for(
            m2.rec,
            key,
        ).len() >= values_for(m.rec, key).len(),
        (ev matches EventModel::End { name, position } && name == b) ==> m2.out == m.out.push(
            m.rec,
        ),
{
    match ev {
        EventModel::Start { name, attrs } => {
            lemma_add_attrs_never_shortens(m.rec, m.stack.push(name), attrs, sep, b, key);
        },
        EventModel::Text { raw, position } => {
            let t = trim_spec(raw);
            if t.len() != 0 {
                match unescape_of(t) {
                    Some(v) => {
                        crate::record::lemma_record_value_appends(
                            m.rec,
                            key_of(row_path(m.stack, b), sep),
                            v,
                            key,
                        );
                    },
                    None => {},
                }
            }
        },
        _ => {},
    }
}

/// What one event does to the state.
pub enum StepModel {
    /// The state after the event; the pass goes on.
    Next(FlatModel),
    /// An element-close did not match the top of the stack: structural
    /// mismatch, fatal.
    MismatchHalt { found: Seq<u8>, position: int },
    /// A non-whitespace text value could not be decoded: fatal.
    TextHalt { position: int },
    /// The stream ended, cleanly (`None`) or at a tokenizer failure at the
    /// given position; the state stands.
    DoneHalt { cutoff: Option<int> },
}

/// The transition of one event.
pub open spec fn spec_step(m: FlatModel, ev: EventModel, sep: Seq<char>, b: Seq<u8>) -> StepModel {
    match ev {
        EventModel::Start { name, attrs } => {
            let stack2 = m.stack.push(name);
            StepModel::Next(
                FlatModel { stack: stack2, rec: add_attrs(m.rec, stack2, attrs, sep, b), out: m.out },
            )
        },
        EventModel::End { name, position } => {
            if m.stack.len() == 0 || m.stack.last() != name {
                StepModel::MismatchHalt { found: name, position }
            } else if name == b {
                StepModel::Next(
                    FlatModel {
                        stack: m.stack.drop_last(),
                        rec: Seq::empty(),
                        out: m.out.push(m.rec),
                    },
                )
            } else {
                StepModel::Next(FlatModel { stack: m.stack.drop_last(), rec: m.rec, out: m.out })
            }
        },
        EventModel::Text { raw, position } => {
            let t = trim_spec(raw);
            if t.len() == 0 {
                StepModel::Next(m)
            } else {
                match unescape_of(t) {
                    Some(v) => StepModel::Next(
                        FlatModel {
                            stack: m.stack,
                            rec: rec_add(m.rec, key_of(row_path(m.stack, b), sep), v),
                            out: m.out,
                        },
                    ),
                    None => StepModel::TextHalt { position },
                }
            }
        },
        EventModel::Other => StepModel::Next(m),
        EventModel::Eof => StepModel::DoneHalt { cutoff: Option::None },
        EventModel::Malformed { position } => StepModel::DoneHalt {
            cutoff: Option::Some(position),
        },
    }
}

/// The outcome of a whole pass.
pub enum RunModel {
    /// The pass consumed the stream to its terminal event (or its end):
    /// the final state, and the failure position when the tokenizer cut
    /// the stream off.
    Done { st: FlatModel, cutoff: Option<int> },
    /// Aborted at a structural mismatch.
    MismatchFail { found: Seq<u8>, position: int },
    /// Aborted at an undecodable text value.
    TextFail { position: int },
}

/// The whole pass from state `m` over `evs`.
pub open spec fn spec_run(m: FlatModel, evs: Seq<EventModel>, sep: Seq<char>, b: Seq<u8>) -> RunModel
    decreases evs.len(),
{
    if evs.len() == 0 {
        RunModel::Done { st: m, cutoff: Option::None }
    } else {
        match spec_step(m, evs[0], sep, b) {
            StepModel::Next(m2) => spec_run(m2, evs.drop_first(), sep, b),
            StepModel::MismatchHalt { found, position } => RunModel::MismatchFail {
                found,
                position,
            },
            StepModel::TextHalt { position } => RunModel::TextFail { position },
            StepModel::DoneHalt { cutoff } => RunModel::Done { st: m, cutoff },
        }
    }
}

/// How many times the row-boundary element closes in the consumed part of
/// the stream: End events named `b`, up to the first terminal event.
pub open spec fn boundary_closes(evs: Seq<EventModel>, b: Seq<u8>) -> nat
    decreases evs.len(),
{
    if evs.len() == 0 {
        0
    } else if is_terminal(evs[0]) {
        0
    } else {
        (match evs[0] {
            EventModel::End { name, position } => if name == b {
                1nat
            } else {
                0nat
            },
            _ => 0nat,
        }) + boundary_closes(evs.drop_first(), b)
    }
}

proof fn lemma_run_count(
    m: FlatModel,
    evs: Seq<EventModel>,
    sep: Seq<char>,
    b: Seq<u8>,
    st: FlatModel,
    cutoff: Option<int>,
)
    requires
        spec_run(m, evs, sep, b) == (RunModel::Done { st, cutoff }),
    ensures
        st.out.len() == m.out.len() + boundary_closes(evs, b),
    decreases evs.len(),
{
    if evs.len() > 0 {
        match spec_step(m, evs[0], sep, b) {
            StepModel::Next(m2) => {
                lemma_run_count(m2, evs.drop_first(), sep, b, st, cutoff);
                assert(!is_terminal(evs[0]));
                assert(m2.out.len() == m.out.len() + (match evs[0] {
                    EventModel::End { name, position } => if name == b {
                        1nat
                    } else {
                        0nat
                    },
                    _ => 0nat,
                }));
            },
            StepModel::DoneHalt { cutoff: c } => {
                assert(is_terminal(evs[0]));
            },
            _ => {},
        }
    }
}

/// A pass that consumes its stream emits exactly one record per close of
/// the row-boundary element, in document order.
pub proof fn lemma_one_record_per_boundary_close(
    evs: Seq<EventModel>,
    sep: Seq<char>,
    b: Seq<u8>,
    st: FlatModel,
    cutoff: Option<int>,
)
    requires
        spec_run(init_model(), evs, sep, b) == (RunModel::Done { st, cutoff }),
    ensures
        st.out.len() == boundary_closes(evs, b),
{
    lemma_run_count(init_model(), evs, sep, b, st, cutoff);
}

/// The bare nesting discipline of the stream, independent of records:
/// every open pushes its name, every close must match the innermost open
/// name, and the stream is consumed up to its terminal event.  `None` when
/// some close mismatches.
pub open spec fn nest_run(stack: Seq<Seq<u8>>, evs: Seq<EventModel>) -> Option<Seq<Seq<u8>>>
    decreases evs.len(),
{
    if evs.len() == 0 {
        Option::Some(stack)
    } else {
        match evs[0] {
            EventModel::Start { name, attrs } => nest_run(stack.push(name), evs.drop_first()),
            EventModel::End { name, position } => if stack.len() > 0 && stack.last() == name {
                nest_run(stack.drop_last(), evs.drop_first())
            } else {
                Option::None
            },
            EventModel::Text { raw, position } => nest_run(stack, evs.drop_first()),
            EventModel::Other => nest_run(stack, evs.drop_first()),
            EventModel::Eof => Option::Some(stack),
            EventModel::Malformed { position } => Option::Some(stack),
        }
    }
}

/// The consumed stream is well-nested through to its end: every close
/// matches its open, and no element stays open.
pub open spec fn well_nested(evs: Seq<EventModel>) -> bool {
    nest_run(Seq::empty(), evs) == Option::Some(Seq::<Seq<u8>>::empty())
}

proof fn lemma_run_nest(
    m: FlatModel,
    evs: Seq<EventModel>,
    sep: Seq<char>,
    b: Seq<u8>,
    st: FlatModel,
    cutoff: Option<int>,
)
    requires
        spec_run(m, evs, sep, b) == (RunModel::Done { st, cutoff }),
    ensures
        nest_run(m.stack, evs) == Option::Some(st.stack),
    decreases evs.len(),
{
    if evs.len() > 0 {
        match spec_step(m, evs[0], sep, b) {
            StepModel::Next(m2) => {
                lemma_run_nest(m2, evs.drop_first(), sep, b, st, cutoff);
            },
            _ => {},
        }
    }
}

/// After a full pass the stack is empty iff the consumed stream was
/// well-nested through to its end.
pub proof fn lemma_stack_empty_iff_well_nested(
    evs: Seq<EventModel>,
    sep: Seq<char>,
    b: Seq<u8>,
    st: FlatModel,
    cutoff: Option<int>,
)
    requires
        spec_run(init_model(), evs, sep, b) == (RunModel::Done { st, cutoff }),
    ensures
        (st.stack.len() == 0) <==> well_nested(evs),
{
    lemma_run_nest(init_model(), evs, sep, b, st, cutoff);
    if st.stack.len() == 0 {
        assert(st.stack =~= Seq::<Seq<u8>>::empty());
    }
}

/// The total number of values across a sequence of records.
pub open spec fn out_size(out: Seq<RecModel>) -> nat
    decreases out.len(),
{
    if out.len() == 0 {
        0
    } else {
        rec_size(out[0]) + out_size(out.drop_first())
    }
}

proof fn lemma_out_size_push(out: Seq<RecModel>, rec: RecModel)
    ensures
        out_size(out.push(rec)) == out_size(out) + rec_size(rec),
    decreases out.len(),
{
    let p = out.push(rec);
    assert(p.len() == out.len() + 1);
    assert(out_size(p) == rec_size(p[0]) + out_size(p.drop_first()));
    if out.len() == 0 {
        assert(p[0] == rec);
        assert(p.drop_first() =~= Seq::<RecModel>::empty());
        assert(out_size(p.drop_first()) == 0);
    } else {
        assert(p[0] == out[0]);
        assert(out_size(out) == rec_size(out[0]) + out_size(out.drop_first()));
        assert(p.drop_first() =~= out.drop_first().push(rec));
        lemma_out_size_push(out.drop_first(), rec);
    }
}

proof fn lemma_add_attrs_size(
    rec: RecModel,
    stack2: Seq<Seq<u8>>,
    attrs: Seq<(Seq<u8>, Seq<u8>)>,
    sep: Seq<char>,
    b: Seq<u8>,
)
    requires
        rec_wf(rec),
    ensures
        rec_size(add_attrs(rec, stack2, attrs, sep, b)) == rec_size(rec) + attrs.len(),
    decreases attrs.len(),
{
    if attrs.len() > 0 {
        let k0 = attr_key(stack2, attrs[0].0, sep, b);
        let v0 = attr_value_spec(attrs[0].1);
        crate::record::lemma_rec_add_size(rec, k0, v0);
        crate::record::lemma_rec_add_wf(rec, k0, v0);
        lemma_add_attrs_size(rec_add(rec, k0, v0), stack2, attrs.drop_first(), sep, b);
    }
}

/// How many occurrences of the consumed stream contribute a value: one per
/// attribute of each element-open event, and one per text event whose
/// content is more than whitespace.
pub open spec fn contributions(evs: Seq<EventModel>) -> nat
    decreases evs.len(),
{
    if evs.len() == 0 {
        0
    } else if is_terminal(evs[0]) {
        0
    } else {
        (match evs[0] {
            EventModel::Start { name, attrs } => attrs.len(),
            EventModel::Text { raw, position } => if trim_spec(raw).len() == 0 {
                0nat
            } else {
                1nat
            },
            _ => 0nat,
        }) + contributions(evs.drop_first())
    }
}

proof fn lemma_run_conserves(
    m: FlatModel,
    evs: Seq<EventModel>,
    sep: Seq<char>,
    b: Seq<u8>,
    st: FlatModel,
    cutoff: Option<int>,
)
    requires
        rec_wf(m.rec),
        spec_run(m, evs, sep, b) == (RunModel::Done { st, cutoff }),
    ensures
        rec_size(st.rec) + out_size(st.out) == rec_size(m.rec) + out_size(m.out) + contributions(
            evs,
        ),
    decreases evs.len(),
{
    if evs.len() > 0 {
        match spec_step(m, evs[0], sep, b) {
            StepModel::Next(m2) => {
                assert(!is_terminal(evs[0]));
                match evs[0] {
                    EventModel::Start { name, attrs } => {
                        lemma_add_attrs_size(m.rec, m.stack.push(name), attrs, sep, b);
                        lemma_add_attrs_wf(m.rec, m.stack.push(name), attrs, sep, b);
                    },
                    EventModel::End { name, position } => {
                        if name == b {
                            lemma_out_size_push(m.out, m.rec);
                        }
                    },
                    EventModel::Text { raw, position } => {
                        let t = trim_spec(raw);
                        if t.len() != 0 {
                            match unescape_of(t) {
                                Some(v) => {
                                    crate::record::lemma_rec_add_size(
                                        m.rec,
                                        key_of(row_path(m.stack, b), sep),
                                        v,
                                    );
                                    crate::record::lemma_rec_add_wf(
                                        m.rec,
                                        key_of(row_path(m.stack, b), sep),
                                        v,
                                    );
                                },
                                None => {},
                            }
                        }
                    },
                    _ => {},
                }
                lemma_run_conserves(m2, evs.drop_first(), sep, b, st, cutoff);
            },
            StepModel::DoneHalt { cutoff: c } => {
                assert(is_terminal(evs[0]));
            },
            _ => {},
        }
    }
}

/// Values are conserved: after a pass that consumed its stream, the number
/// of values held by the completed records and the leftover record together
/// equals the number of contributing occurrences — attribute values and
/// non-whitespace text — in the consumed stream.  Nothing is dropped and
/// nothing is invented.
pub proof fn lemma_values_conserved(
    evs: Seq<EventModel>,
    sep: Seq<char>,
    b: Seq<u8>,
    st: FlatModel,
    cutoff: Option<int>,
)
    requires
        spec_run(init_model(), evs, sep, b) == (RunModel::Done { st, cutoff }),
    ensures
        rec_size(st.rec) + out_size(st.out) == contributions(evs),
{
    lemma_run_conserves(init_model(), evs, sep, b, st, cutoff);
}

/// The (key, value) pairs one event records, given the stack before it:
/// one pair per attribute of an element-open event, one for a text event
/// whose content is more than whitespace and decodes.
pub open spec fn step_contribs(
    stack: Seq<Seq<u8>>,
    ev: EventModel,
    sep: Seq<char>,
    b: Seq<u8>,
) -> Seq<(Seq<char>, Seq<char>)> {
    match ev {
        EventModel::Start { name, attrs } => attrs.map_values(
            |a: (Seq<u8>, Seq<u8>)| (attr_key(stack.push(name), a.0, sep, b), attr_value_spec(a.1)),
        ),
        EventModel::Text { raw, position } => {
            let t = trim_spec(raw);
            if t.len() == 0 {
                Seq::empty()
            } else {
                match unescape_of(t) {
                    Some(v) => seq![(key_of(row_path(stack, b), sep), v)],
                    None => Seq::empty(),
                }
            }
        },
        _ => Seq::empty(),
    }
}

/// The contribution traces of the consumed stream: the (key, value) pairs
/// of each completed row, in document order, and those of the row still in
/// progress when the stream ends.
pub open spec fn row_contribs(
    stack: Seq<Seq<u8>>,
    cur: Seq<(Seq<char>, Seq<char>)>,
    evs: Seq<EventModel>,
    sep: Seq<char>,
    b: Seq<u8>,
) -> (Seq<Seq<(Seq<char>, Seq<char>)>>, Seq<(Seq<char>, Seq<char>)>)
    decreases evs.len(),
{
    if evs.len() == 0 || is_terminal(evs[0]) {
        (Seq::empty(), cur)
    } else {
        match evs[0] {
            EventModel::Start { name, attrs } => row_contribs(
                stack.push(name),
                cur + step_contribs(stack, evs[0], sep, b),
                evs.drop_first(),
                sep,
                b,
            ),
            EventModel::End { name, position } => if stack.len() > 0 && stack.last() == name {
                if name == b {
                    let r = row_contribs(stack.drop_last(), Seq::empty(), evs.drop_first(), sep, b);
                    (seq![cur] + r.0, r.1)
                } else {
                    row_contribs(stack.drop_last(), cur, evs.drop_first(), sep, b)
                }
            } else {
                (Seq::empty(), cur)
            },
            EventModel::Text { raw, position } => row_contribs(
                stack,
                cur + step_contribs(stack, evs[0], sep, b),
                evs.drop_first(),
                sep,
                b,
            ),
            _ => row_contribs(stack, cur, evs.drop_first(), sep, b),
        }
    }
}

proof fn lemma_rec_of_concat_attrs(
    cur: Seq<(Seq<char>, Seq<char>)>,
    stack2: Seq<Seq<u8>>,
    attrs: Seq<(Seq<u8>, Seq<u8>)>,
    sep: Seq<char>,
    b: Seq<u8>,
)
    ensures
        rec_of(
            cur + attrs.map_values(
                |a: (Seq<u8>, Seq<u8>)| (attr_key(stack2, a.0, sep, b), attr_value_spec(a.1)),
            ),
        ) == add_attrs(rec_of(cur), stack2, attrs, sep, b),
    decreases attrs.len(),
{
    let f = |a: (Seq<u8>, Seq<u8>)| (attr_key(stack2, a.0, sep, b), attr_value_spec(a.1));
    let pairs = attrs.map_values(f);
    if attrs.len() == 0 {
        assert(cur + pairs =~= cur);
        assert(add_attrs(rec_of(cur), stack2, attrs, sep, b) == rec_of(cur));
    } else {
        let pre = attrs.drop_last();
        let a = attrs.last();
        lemma_rec_of_concat_attrs(cur, stack2, pre, sep, b);
        lemma_add_attrs_push(rec_of(cur), stack2, pre, a, sep, b);
        assert(attrs =~= pre.push(a));
        assert(pairs =~= pre.map_values(f).push(f(a)));
        let whole = cur + pairs;
        assert(whole =~= (cur + pre.map_values(f)).push(f(a)));
        assert(whole.drop_last() =~= cur + pre.map_values(f));
        assert(whole.last() == f(a));
        assert(rec_of(whole) == rec_add(rec_of(cur + pre.map_values(f)), f(a).0, f(a).1));
    }
}

proof fn lemma_run_rows(
    m: FlatModel,
    evs: Seq<EventModel>,
    sep: Seq<char>,
    b: Seq<u8>,
    st: FlatModel,
    cutoff: Option<int>,
    cur: Seq<(Seq<char>, Seq<char>)>,
)
    requires
        spec_run(m, evs, sep, b) == (RunModel::Done { st, cutoff }),
        m.rec == rec_of(cur),
    ensures
        ({
            let rl = row_contribs(m.stack, cur, evs, sep, b);
            &&& st.out == m.out + rl.0.map_values(|cs: Seq<(Seq<char>, Seq<char>)>| rec_of(cs))
            &&& st.rec == rec_of(rl.1)
        }),
    decreases evs.len(),
{
    let g = |cs: Seq<(Seq<char>, Seq<char>)>| rec_of(cs);
    let rl = row_contribs(m.stack, cur, evs, sep, b);
    if evs.len() == 0 || is_terminal(evs[0]) {
        assert(st == m);
        assert(rl == (Seq::<Seq<(Seq<char>, Seq<char>)>>::empty(), cur));
        assert(m.out + Seq::<Seq<(Seq<char>, Seq<char>)>>::empty().map_values(g) =~= m.out);
    } else {
        match spec_step(m, evs[0], sep, b) {
            StepModel::Next(m2) => {
                match evs[0] {
                    EventModel::Start { name, attrs } => {
                        lemma_rec_of_concat_attrs(cur, m.stack.push(name), attrs, sep, b);
                        lemma_run_rows(
                            m2,
                            evs.drop_first(),
                            sep,
                            b,
                            st,
                            cutoff,
                            cur + step_contribs(m.stack, evs[0], sep, b),
                        );
                    },
                    EventModel::End { name, position } => {
                        if name == b {
                            lemma_run_rows(
                                m2,
                                evs.drop_first(),
                                sep,
                                b,
                                st,
                                cutoff,
                                Seq::empty(),
                            );
                            let r = row_contribs(
                                m.stack.drop_last(),
                                Seq::empty(),
                                evs.drop_first(),
                                sep,
                                b,
                            );
                            assert(rl.0 == seq![cur] + r.0);
                            assert((seq![cur] + r.0).map_values(g) =~= seq![rec_of(cur)]
                                + r.0.map_values(g));
                            assert(m2.out == m.out.push(rec_of(cur)));
                            assert(m.out + (seq![rec_of(cur)] + r.0.map_values(g)) =~= m.out.push(
                                rec_of(cur),
                            ) + r.0.map_values(g));
                        } else {
                            lemma_run_rows(m2, evs.drop_first(), sep, b, st, cutoff, cur);
                        }
                    },
                    EventModel::Text { raw, position } => {
                        let cs = step_contribs(m.stack, evs[0], sep, b);
                        let t = trim_spec(raw);
                        if t.len() == 0 {
                            assert(cur + cs =~= cur);
                        } else {
                            let v = unescape_of(t)->Some_0;
                            let pair = (key_of(row_path(m.stack, b), sep), v);
                            assert(cur + cs =~= cur.push(pair));
                            assert((cur + cs).drop_last() =~= cur);
                            assert(m2.rec == rec_of(cur + cs));
                        }
                        lemma_run_rows(m2, evs.drop_first(), sep, b, st, cutoff, cur + cs);
                    },
                    _ => {
                        lemma_run_rows(m2, evs.drop_first(), sep, b, st, cutoff, cur);
                    },
                }
            },
            _ => {},
        }
    }
}

/// Each emitted record holds, under each key, exactly the decoded values
/// of the occurrences that contributed to that key in its own row, in
/// stream order — not deduplicated, not sorted; the leftover record holds
/// those of the row still in progress when the stream ended.
pub proof fn lemma_rows_hold_exact_contributions(
    evs: Seq<EventModel>,
    sep: Seq<char>,
    b: Seq<u8>,
    st: FlatModel,
    cutoff: Option<int>,
    key: Seq<char>,
)
    requires
        spec_run(init_model(), evs, sep, b) == (RunModel::Done { st, cutoff }),
    ensures
        ({
            let rl = row_contribs(Seq::empty(), Seq::empty(), evs, sep, b);
            &&& st.out.len() == rl.0.len()
            &&& forall|j: int|
                0 <= j < rl.0.len() ==> values_for(#[trigger] st.out[j], key) == picked(
                    rl.0[j],
                    key,
                )
            &&& values_for(st.rec, key) == picked(rl.1, key)
        }),
{
    let g = |cs: Seq<(Seq<char>, Seq<char>)>| rec_of(cs);
    let rl = row_contribs(Seq::empty(), Seq::empty(), evs, sep, b);
    assert(init_model().rec == rec_of(Seq::empty()));
    lemma_run_rows(init_model(), evs, sep, b, st, cutoff, Seq::empty());
    assert(st.out =~= rl.0.map_values(g));
    assert forall|j: int|
        0 <= j < rl.0.len() implies values_for(#[trigger] st.out[j], key) == picked(
        rl.0[j],
        key,
    ) by {
        assert(st.out[j] == rec_of(rl.0[j]));
        lemma_rec_of_per_key(rl.0[j], key);
    }
    lemma_rec_of_per_key(rl.1, key);
}

/// Flattening is a pure function of the event content and the
/// configuration: two passes over the same stream have the same outcome,
/// record for record and value for value.
pub proof fn lemma_rerun_identical(
    evs: Seq<EventModel>,
    sep: Seq<char>,
    b: Seq<u8>,
    r1: RunModel,
    r2: RunModel,
)
    requires
        r1 == spec_run(init_model(), evs, sep, b),
        r2 == spec_run(init_model(), evs, sep, b),
    ensures
        r1 == r2,
{
}

/// Whitespace-only text is a structural event, not a value: it leaves the
/// state — and so every record — exactly as it was, and in particular
/// creates no key.
pub proof fn lemma_whitespace_only_text_ignored(
    m: FlatModel,
    raw: Seq<u8>,
    position: int,
    sep: Seq<char>,
    b: Seq<u8>,
)
    requires
        trim_spec(raw).len() == 0,
    ensures
        spec_step(m, (EventModel::Text { raw, position }), sep, b) == StepModel::Next(m),
{
}

/// Why one exec step stopped or went on; mirrors [`StepModel`].
pub enum StepVerdict {
    Proceed,
    Finished { cutoff: Option<usize> },
    Mismatch { found: Vec<u8>, position: usize },
    TextFail { position: usize },
}

/// The flattener: the live path, the in-progress record, and the completed
/// records, threaded through one sequential pass.
pub struct Flattener {
    pub stack: PathStack,
    pub rec: Record,
    pub out: Vec<Record>,
}

impl View for Flattener {
    type V = FlatModel;

    open spec fn view(&self) -> FlatModel {
        FlatModel { stack: self.stack@, rec: self.rec@, out: self.out.deep_view() }
    }
}

impl Flattener {
    /// The in-progress record and every completed record have pairwise
    /// distinct keys.
    pub open spec fn wf(&self) -> bool {
        &&& self.rec.wf()
        &&& forall|i: int| 0 <= i < self.out@.len() ==> (#[trigger] self.out@[i]).wf()
    }

    /// A flattener before its first event.
    pub fn new() -> (f: Self)
        ensures
            f@ == init_model(),
            f.wf(),
    {
        let f = Flattener { stack: PathStack::new(), rec: Record::new(), out: Vec::new() };
        proof {
            assert(f@.out =~= Seq::<RecModel>::empty());
            assert(f@ =~= init_model());
        }
        f
    }

    /// Records the attributes of the element-open event whose name is
    /// already on top of the stack.
    fn record_attrs(&mut self, attrs: &Vec<(Vec<u8>, Vec<u8>)>, config: &FlattenConfig)
        requires
            old(self).wf(),
            old(self)@.stack.len() > 0,
        ensures
            final(self).wf(),
            final(self)@.stack == old(self)@.stack,
            final(self)@.out == old(self)@.out,
            final(self)@.rec == add_attrs(
                old(self)@.rec,
                old(self)@.stack,
                attrs.deep_view(),
                config.key_separator@,
                config.row_boundary@,
            ),
    {
        let ghost stack2 = self@.stack;
        let ghost rec0 = self@.rec;
        let ghost am = attrs.deep_view();
        let ghost sep = config.key_separator@;
        let ghost b = config.row_boundary@;
        let start_idx = row_start(self.stack.current_path(), config.row_boundary.as_slice());
        let ghost suffix = row_path(stack2, b);
        let base = join_from(self.stack.current_path(), start_idx, config.key_separator.as_str());
        proof {
            assert(suffix.len() > 0);
        }
        let mut i: usize = 0;
        while i < attrs.len()
            invariant
                i <= attrs@.len(),
                am == attrs.deep_view(),
                am.len() == attrs@.len(),
                sep == config.key_separator@,
                b == config.row_boundary@,
                suffix == row_path(stack2, b),
                suffix.len() > 0,
                base@ == key_of(suffix, sep),
                self.wf(),
                self@.stack == stack2,
                self@.out == old(self)@.out,
                self@.rec == add_attrs(rec0, stack2, am.take(i as int), sep, b),
            decreases attrs@.len() - i,
        {
            let ghost pre = am.take(i as int);
            let aname = utf8_lossy(attrs[i].0.as_slice());
            let mut key = base.clone();
            key.append(config.key_separator.as_str());
            key.append(aname.as_str());
            proof {
                assert(am[i as int] == attrs@[i as int].deep_view());
                assert(attrs@[i as int].0.deep_view() =~= attrs@[i as int].0@);
                assert(attrs@[i as int].1.deep_view() =~= attrs@[i as int].1@);
                lemma_key_of_push(suffix, am[i as int].0, sep);
                assert(key@ == attr_key(stack2, am[i as int].0, sep, b));
            }
            let value = decode_attr_value(attrs[i].1.as_slice());
            proof {
                assert(value@ == attr_value_spec(am[i as int].1));
            }
            self.rec.push_value(key, value);
            proof {
                assert(am.take(i + 1) =~= pre.push(am[i as int]));
                lemma_add_attrs_push(rec0, stack2, pre, am[i as int], sep, b);
            }
            i = i + 1;
        }
        proof {
            assert(am.take(am.len() as int) =~= am);
        }
    }

    /// Consumes one event: the stack and/or record are updated, a close of
    /// the row boundary flushes the record into the output, and the verdict
    /// says whether the pass goes on, finished, or failed.
    pub fn step(&mut self, ev: &ParsedEvent, config: &FlattenConfig) -> (r: StepVerdict)
        requires
            old(self).wf(),
        ensures
            final(self).wf(),
            match spec_step(old(self)@, model_of(*ev), config.key_separator@, config.row_boundary@) {
                StepModel::Next(m2) => r is Proceed && final(self)@ == m2,
                StepModel::MismatchHalt { found, position } => (r matches StepVerdict::Mismatch {
                    found: f,
                    position: p,
                } && f@ == found && p as int == position),
                StepModel::TextHalt { position } => (r matches StepVerdict::TextFail {
                    position: p,
                } && p as int == position),
                StepModel::DoneHalt { cutoff } => (r matches StepVerdict::Finished { cutoff: c }
                    && (c is Some <==> cutoff is Some) && (c matches Some(p) ==> cutoff
                    == Option::Some(p as int)) && final(self)@ == old(self)@),
            },
    {
        let ghost m0 = self@;
        let ghost sep = config.key_separator@;
        let ghost b = config.row_boundary@;
        match ev {
            ParsedEvent::Start { name, attrs } => {
                self.stack.push(copy_bytes(name.as_slice()));
                proof {
                    assert(self@.stack == m0.stack.push(name@));
                    assert(self@.out =~= m0.out);
                }
                self.record_attrs(attrs, config);
                StepVerdict::Proceed
            },
            ParsedEvent::End { name, position } => {
                match self.stack.pop(name.as_slice()) {
                    Err(_) => {
                        proof {
                            assert(m0.stack.len() == 0 || m0.stack.last() != name@);
                        }
                        StepVerdict::Mismatch {
                            found: copy_bytes(name.as_slice()),
                            position: *position,
                        }
                    },
                    Ok(_) => {
                        if bytes_eq(name.as_slice(), config.row_boundary.as_slice()) {
                            let ghost out0 = self.out.deep_view();
                            let flushed = self.rec.flush();
                            self.out.push(flushed);
                            proof {
                                assert(self.out.deep_view() =~= out0.push(m0.rec));
                            }
                        }
                        StepVerdict::Proceed
                    },
                }
            },
            ParsedEvent::Text { raw, position } => {
                let t = trim_xml_ws(raw.as_slice());
                if t.len() == 0 {
                    StepVerdict::Proceed
                } else {
                    match unescape_bytes(t.as_slice()) {
                        Some(v) => {
                            let start_idx = row_start(
                                self.stack.current_path(),
                                config.row_boundary.as_slice(),
                            );
                            let key = join_from(
                                self.stack.current_path(),
                                start_idx,
                                config.key_separator.as_str(),
                            );
                            self.rec.push_value(key, v);
                            StepVerdict::Proceed
                        },
                        None => StepVerdict::TextFail { position: *position },
                    }
                }
            },
            ParsedEvent::Other => StepVerdict::Proceed,
            ParsedEvent::Eof => StepVerdict::Finished { cutoff: Option::None },
            ParsedEvent::Malformed { position } => StepVerdict::Finished {
                cutoff: Option::Some(*position),
            },
        }
    }
}

/// A completed pass: the records of every row whose boundary closed, in
/// document order; whatever was accumulated but never flushed, with the
/// leftover open-element path, for diagnostics; and the byte position of
/// the tokenizer failure when the stream was cut off.
#[derive(Debug)]
pub struct FlattenOutput {
    pub records: Vec<Record>,
    pub leftover: Record,
    pub leftover_stack: Vec<Vec<u8>>,
    pub truncated: Option<usize>,
}

/// A fatal failure of the pass: the flattener's own bookkeeping cannot be
/// trusted past it, so nothing is returned.
#[derive(Debug)]
pub enum FlattenError {
    /// An element-close did not match the innermost open element; `found`
    /// is the closing name and `position` the byte offset after it.
    StructuralMismatch { found: Vec<u8>, position: usize },
    /// A non-whitespace text value could not be unescaped; `position` is
    /// the byte offset after the text event.
    TextDecodeFailure { position: usize },
}

/// Whether the exec result `r` is exactly what the model run over `evs`
/// prescribes.
pub open spec fn run_matches(
    r: Result<FlattenOutput, FlattenError>,
    evs: Seq<EventModel>,
    sep: Seq<char>,
    b: Seq<u8>,
) -> bool {
    match spec_run(init_model(), evs, sep, b) {
        RunModel::Done { st, cutoff } => r matches Ok(o) && o.records.deep_view() == st.out
            && o.leftover@ == st.rec && segs_view(o.leftover_stack@) == st.stack && (o.truncated
            is Some <==> cutoff is Some) && (o.truncated matches Some(p) ==> cutoff == Option::Some(
            p as int,
        )),
        RunModel::MismatchFail { found, position } => r matches Err(
            FlattenError::StructuralMismatch { found: f, position: p },
        ) && f@ == found && p as int == position,
        RunModel::TextFail { position } => r matches Err(FlattenError::TextDecodeFailure {
            position: p,
        }) && p as int == position,
    }
}

/// Flattens a whole event stream: one record per row-boundary close, in
/// document order, exactly as the model run prescribes.
pub fn flatten_events(events: &Vec<ParsedEvent>, config: &FlattenConfig) -> (r: Result<
    FlattenOutput,
    FlattenError,
>)
    ensures
        run_matches(
            r,
            events@.map_values(|e: ParsedEvent| model_of(e)),
            config.key_separator@,
            config.row_boundary@,
        ),
        r matches Ok(o) ==> o.leftover.wf() && (forall|i: int|
            0 <= i < o.records@.len() ==> (#[trigger] o.records@[i]).wf()),
{
    let ghost ms = events@.map_values(|e: ParsedEvent| model_of(e));
    let ghost sep = config.key_separator@;
    let ghost b = config.row_boundary@;
    let mut fl = Flattener::new();
    let mut i: usize = 0;
    let mut cutoff: Option<usize> = Option::None;
    proof {
        assert(ms.skip(0) =~= ms);
    }
    while i < events.len()
        invariant_except_break
            i <= events@.len(),
            ms == events@.map_values(|e: ParsedEvent| model_of(e)),
            ms.len() == events@.len(),
            sep == config.key_separator@,
            b == config.row_boundary@,
            fl.wf(),
            cutoff is None,
            spec_run(init_model(), ms, sep, b) == spec_run(fl@, ms.skip(i as int), sep, b),
            i == events@.len() ==> ms.skip(i as int) == Seq::<EventModel>::empty(),
        ensures
            fl.wf(),
            spec_run(init_model(), ms, sep, b) == (RunModel::Done {
                st: fl@,
                cutoff: match cutoff {
                    Option::Some(p) => Option::Some(p as int),
                    Option::None => Option::None,
                },
            }),
        decreases events@.len() - i,
    {
        let ghost rest = ms.skip(i as int);
        let ghost flm = fl@;
        proof {
            assert(rest.len() > 0);
            assert(rest[0] == ms[i as int]);
            assert(rest[0] == model_of(events@[i as int]));
            assert(rest.drop_first() =~= ms.skip(i + 1));
        }
        let verdict = fl.step(&events[i], config);
        let ghost stepped = spec_step(flm, rest[0], sep, b);
        match verdict {
            StepVerdict::Proceed => {
                proof {
                    assert(stepped is Next);
                    assert(spec_run(flm, rest, sep, b) == spec_run(
                        stepped->Next_0,
                        rest.drop_first(),
                        sep,
                        b,
                    ));
                }
            },
            StepVerdict::Finished { cutoff: c } => {
                proof {
                    assert(stepped is DoneHalt);
                    assert(spec_run(flm, rest, sep, b) == (RunModel::Done {
                        st: flm,
                        cutoff: stepped->DoneHalt_cutoff,
                    }));
                }
                cutoff = c;
                break ;
            },
            StepVerdict::Mismatch { found, position } => {
                proof {
                    assert(stepped is MismatchHalt);
                    assert(spec_run(flm, rest, sep, b) == (RunModel::MismatchFail {
                        found: stepped->MismatchHalt_found,
                        position: stepped->MismatchHalt_position,
                    }));
                }
                return Err(FlattenError::StructuralMismatch { found, position });
            },
            StepVerdict::TextFail { position } => {
                proof {
                    assert(stepped is TextHalt);
                    assert(spec_run(flm, rest, sep, b) == (RunModel::TextFail {
                        position: stepped->TextHalt_position,
                    }));
                }
                return Err(FlattenError::TextDecodeFailure { position });
            },
        }
        i = i + 1;
        proof {
            if i == events@.len() {
                assert(ms.skip(i as int) =~= Seq::<EventModel>::empty());
            }
        }
    }
    let Flattener { stack, rec, out: recs } = fl;
    let out = FlattenOutput {
        records: recs,
        leftover: rec,
        leftover_stack: stack.into_segments(),
        truncated: cutoff,
    };
    Ok(out)
}

/// Tokenizes `input` and flattens its event stream: the result is exactly
/// the flattening of the event stream that these bytes yield.
pub fn flatten_bytes(input: &[u8], config: &FlattenConfig) -> (r: Result<
    FlattenOutput,
    FlattenError,
>)
    ensures
        run_matches(r, tokens_of(input@), config.key_separator@, config.row_boundary@),
        terminated(tokens_of(input@)),
        r matches Ok(o) ==> o.leftover.wf() && (forall|i: int|
            0 <= i < o.records@.len() ==> (#[trigger] o.records@[i]).wf()),
{
    let events = tokenize(input);
    let r = flatten_events(&events, config);
    proof {
        assert(events@.map_values(|e: ParsedEvent| model_of(e)) == tokens_of(input@));
    }
    r
}

} // verus!
