//! The `config.pbtxt` reader: a line-oriented state machine over the
//! protobuf text format that Triton model repositories use.
use vstd::prelude::*;
use vstd::utf8::{decode_utf8, valid_utf8};

use crate::config_types::{
    data_type_from_chars, data_type_named, group_views, is_literal, kv_views, step_views,
    tensor_views, ConfigError, DataType, DynamicBatching, DynamicBatchingView, EnsembleScheduling,
    EnsembleSchedulingView, EnsembleStep, EnsembleStepView, InstanceGroup, InstanceGroupView,
    KeyValue, KeyValueView, ModelConfig, ModelConfigView, TensorDef, TensorDefView,
};
use crate::text::{
    chars_of, contains_char, ends_with_char, fault_at, int_literal, utf8_fault,
    lemma_split_on_len, parse_i32, parse_i64, parse_int_in, split_chars, split_on, starts_with, strip_end,
    string_of, strip_around, strip_leading, strip_prefix, strip_trailing, trim, trim_chars, views,
};

verus! {

/// The block kinds that the reader tracks.
#[derive(Debug, Clone, Copy, PartialEq, Eq, Structural)]
pub enum Section {
    Input,
    Output,
    InstanceGroup,
    DynamicBatching,
    VersionPolicy,
    EnsembleScheduling,
    Step,
    InputMap,
    OutputMap,
    /// A block the reader does not model (such as `model_warmup` or
    /// `version_policy: {`): its contents are skipped.
    Other,
}

/// The keyword that opens a block of the given kind.
pub open spec fn section_word(s: Section) -> Seq<char> {
    match s {
        Section::Input => "input"@,
        Section::Output => "output"@,
        Section::InstanceGroup => "instance_group"@,
        Section::DynamicBatching => "dynamic_batching"@,
        Section::VersionPolicy => "version_policy"@,
        Section::EnsembleScheduling => "ensemble_scheduling"@,
        Section::Step => "step"@,
        Section::InputMap => "input_map"@,
        Section::OutputMap => "output_map"@,
        Section::Other => Seq::empty(),
    }
}

/// An open block: its kind, the brace depth at which it opened, and whether
/// it opened a `[` list.
pub struct FrameView {
    pub section: Section,
    pub depth: int,
    pub in_list: bool,
}

/// Everything the reader knows between two lines.
pub struct ParseView {
    pub cfg: ModelConfigView,
    pub frames: Seq<FrameView>,
    pub depth: int,
    pub step: Option<EnsembleStepView>,
    pub key: Seq<char>,
    pub value: Seq<char>,
}

pub open spec fn empty_step() -> EnsembleStepView {
    EnsembleStepView {
        model_name: Seq::empty(),
        model_version: -1i32,
        input_map: Seq::empty(),
        output_map: Seq::empty(),
    }
}

/// The configuration before any line is read.
pub open spec fn initial_config() -> ModelConfigView {
    ModelConfigView {
        name: Seq::empty(),
        platform: "onnxruntime_onnx"@,
        max_batch_size: 1,
        inputs: Seq::empty(),
        outputs: Seq::empty(),
        instance_groups: Seq::empty(),
        dynamic_batching: None,
        ensemble_scheduling: None,
    }
}

pub open spec fn initial_state() -> ParseView {
    ParseView {
        cfg: initial_config(),
        frames: Seq::empty(),
        depth: 0,
        step: None,
        key: Seq::empty(),
        value: Seq::empty(),
    }
}

/// The innermost open block, if any.
pub open spec fn current(st: ParseView) -> Option<Section> {
    if st.frames.len() == 0 {
        None
    } else {
        Some(st.frames.last().section)
    }
}

/// Whether the innermost open block is a `[` list.
pub open spec fn listing(st: ParseView) -> bool {
    st.frames.len() > 0 && st.frames.last().in_list
}

/// `line` begins with the keyword `w`, followed by nothing, a space or `[`.
pub open spec fn starts_word(line: Seq<char>, w: Seq<char>) -> bool {
    &&& w.is_prefix_of(line)
    &&& (line.len() == w.len() || line[w.len() as int] == ' ' || line[w.len() as int] == '[')
}

/// The top-level block that `line` opens, tried in a fixed order.
pub open spec fn top_section(line: Seq<char>) -> Option<Section> {
    if starts_word(line, section_word(Section::Input)) {
        Some(Section::Input)
    } else if starts_word(line, section_word(Section::Output)) {
        Some(Section::Output)
    } else if starts_word(line, section_word(Section::InstanceGroup)) {
        Some(Section::InstanceGroup)
    } else if starts_word(line, section_word(Section::DynamicBatching)) {
        Some(Section::DynamicBatching)
    } else if starts_word(line, section_word(Section::VersionPolicy)) {
        Some(Section::VersionPolicy)
    } else if starts_word(line, section_word(Section::EnsembleScheduling)) {
        Some(Section::EnsembleScheduling)
    } else {
        None
    }
}

/// The block that `line` opens in state `st`: a top-level block anywhere, a
/// `step` inside `ensemble_scheduling`, a map inside a `step`.
pub open spec fn opened_section(st: ParseView, line: Seq<char>) -> Option<Section> {
    match top_section(line) {
        Some(s) => Some(s),
        None => if current(st) == Some(Section::EnsembleScheduling) {
            if starts_word(line, section_word(Section::Step)) {
                Some(Section::Step)
            } else {
                None
            }
        } else if current(st) == Some(Section::Step) {
            if starts_word(line, section_word(Section::InputMap)) {
                Some(Section::InputMap)
            } else if starts_word(line, section_word(Section::OutputMap)) {
                Some(Section::OutputMap)
            } else {
                None
            }
        } else {
            None
        },
    }
}

pub open spec fn open_section(
    st: ParseView,
    sec: Section,
    line: Seq<char>,
    raw: Seq<char>,
) -> ParseView {
    let frame = FrameView {
        section: sec,
        depth: st.depth,
        in_list: line.len() > 0 && line.last() == '[',
    };
    let st1 = ParseView { frames: st.frames.push(frame), ..st };
    let st2 = if sec == Section::Step {
        ParseView { step: Some(empty_step()), ..st1 }
    } else if sec == Section::InputMap || sec == Section::OutputMap {
        ParseView { key: Seq::empty(), value: Seq::empty(), ..st1 }
    } else {
        st1
    };
    if raw.contains('{') {
        ParseView { depth: st2.depth + 1, ..st2 }
    } else {
        st2
    }
}

/// `cfg` with `s` appended to its ensemble steps.
pub open spec fn push_step(cfg: ModelConfigView, s: EnsembleStepView) -> ModelConfigView {
    let steps = match cfg.ensemble_scheduling {
        Some(e) => e.steps,
        None => Seq::empty(),
    };
    ModelConfigView {
        ensemble_scheduling: Some(EnsembleSchedulingView { steps: steps.push(s) }),
        ..cfg
    }
}

/// A line holding only `}`.
pub open spec fn close_brace(st: ParseView) -> ParseView {
    let st0 = ParseView { depth: st.depth - 1, ..st };
    if st.frames.len() == 0 || st.frames.last().depth != st.depth - 1 {
        st0
    } else {
        let top = st.frames.last();
        let lst = top.in_list;
        let kv = KeyValueView { key: st.key, value: st.value };
        let st1 = match top.section {
            Section::InputMap => match st.step {
                Some(s) => ParseView {
                    step: Some(EnsembleStepView { input_map: s.input_map.push(kv), ..s }),
                    key: Seq::empty(),
                    value: Seq::empty(),
                    ..st0
                },
                None => st0,
            },
            Section::OutputMap => match st.step {
                Some(s) => ParseView {
                    step: Some(EnsembleStepView { output_map: s.output_map.push(kv), ..s }),
                    key: Seq::empty(),
                    value: Seq::empty(),
                    ..st0
                },
                None => st0,
            },
            Section::Step => if lst {
                ParseView {
                    cfg: match st.step {
                        Some(s) => push_step(st.cfg, s),
                        None => st.cfg,
                    },
                    step: Some(empty_step()),
                    ..st0
                }
            } else {
                st0
            },
            _ => st0,
        };
        if !lst {
            let st2 = ParseView { frames: st1.frames.drop_last(), ..st1 };
            if top.section == Section::Step {
                match st2.step {
                    Some(s) => ParseView { cfg: push_step(st2.cfg, s), step: None, ..st2 },
                    None => st2,
                }
            } else {
                st2
            }
        } else {
            st1
        }
    }
}

/// A line holding only `]`: it closes the innermost block when that is a list.
pub open spec fn close_bracket(st: ParseView) -> ParseView {
    if listing(st) {
        ParseView { frames: st.frames.drop_last(), ..st }
    } else {
        st
    }
}

/// The trimmed text after `key` when `line` starts with `key`.
pub open spec fn field(line: Seq<char>, key: Seq<char>) -> Option<Seq<char>> {
    if key.is_prefix_of(line) {
        Some(trim(line.skip(key.len() as int)))
    } else {
        None
    }
}

/// A value with blanks and surrounding double quotes removed.
pub open spec fn unquote(s: Seq<char>) -> Seq<char> {
    strip_trailing(strip_leading(trim(s), '"'), '"')
}

/// The integers of a comma-separated list, skipping empty and unreadable items.
pub open spec fn read_items(items: Seq<Seq<char>>) -> Seq<i64>
    decreases items.len(),
{
    if items.len() == 0 {
        Seq::empty()
    } else {
        let prev = read_items(items.drop_last());
        let item = trim(items.last());
        if item.len() == 0 {
            prev
        } else {
            match parse_i64(item) {
                Some(n) => prev.push(n),
                None => prev,
            }
        }
    }
}

/// A list such as `[1, -1, 30]`.
pub open spec fn num_list(s: Seq<char>) -> Seq<i64> {
    read_items(split_on(strip_trailing(strip_leading(trim(s), '['), ']'), ','))
}

pub open spec fn tensor_field(defs: Seq<TensorDefView>, line: Seq<char>) -> Seq<TensorDefView> {
    match field(line, "name:"@) {
        Some(v) => defs.push(
            TensorDefView { name: unquote(v), data_type: DataType::Invalid, dims: Seq::empty() },
        ),
        None => match field(line, "data_type:"@) {
            Some(v) => if defs.len() > 0 {
                defs.update(
                    defs.len() - 1,
                    TensorDefView { data_type: data_type_named(trim(v)), ..defs.last() },
                )
            } else {
                defs
            },
            None => match field(line, "dims:"@) {
                Some(v) => if defs.len() > 0 {
                    defs.update(defs.len() - 1, TensorDefView { dims: num_list(v), ..defs.last() })
                } else {
                    defs
                },
                None => defs,
            },
        },
    }
}

pub open spec fn group_field(gs: Seq<InstanceGroupView>, line: Seq<char>) -> Seq<InstanceGroupView> {
    match field(line, "count:"@) {
        Some(v) => match parse_i32(trim(v)) {
            Some(c) => gs.push(
                InstanceGroupView {
                    count: if c >= 1 {
                        c
                    } else {
                        1
                    },
                    kind: "KIND_CPU"@,
                },
            ),
            None => gs,
        },
        None => match field(line, "kind:"@) {
            Some(v) => if gs.len() > 0 {
                gs.update(gs.len() - 1, InstanceGroupView { kind: unquote(v), ..gs.last() })
            } else {
                gs
            },
            None => gs,
        },
    }
}

pub open spec fn as_i32s(ns: Seq<i64>) -> Seq<i32> {
    ns.map_values(|n: i64| n as i32)
}

pub open spec fn batching_field(
    db: Option<DynamicBatchingView>,
    line: Seq<char>,
) -> DynamicBatchingView {
    let d = match db {
        Some(d) => d,
        None => DynamicBatchingView { preferred_batch_size: Seq::empty(), max_queue_delay_us: 0 },
    };
    match field(line, "preferred_batch_size:"@) {
        Some(v) => DynamicBatchingView {
            preferred_batch_size: d.preferred_batch_size + as_i32s(num_list(v)),
            ..d
        },
        None => match field(line, "max_queue_delay_microseconds:"@) {
            Some(v) => match parse_i64(trim(v)) {
                Some(n) => DynamicBatchingView { max_queue_delay_us: n, ..d },
                None => d,
            },
            None => d,
        },
    }
}

pub open spec fn step_field(s: EnsembleStepView, line: Seq<char>) -> EnsembleStepView {
    match field(line, "model_name:"@) {
        Some(v) => EnsembleStepView { model_name: unquote(v), ..s },
        None => match field(line, "model_version:"@) {
            Some(v) => EnsembleStepView {
                model_version: match parse_i32(trim(v)) {
                    Some(n) => n,
                    None => -1i32,
                },
                ..s
            },
            None => s,
        },
    }
}

pub open spec fn top_field(cfg: ModelConfigView, line: Seq<char>) -> ModelConfigView {
    match field(line, "name:"@) {
        Some(v) => ModelConfigView { name: unquote(v), ..cfg },
        None => match field(line, "platform:"@) {
            Some(v) => ModelConfigView { platform: unquote(v), ..cfg },
            None => match field(line, "max_batch_size:"@) {
                Some(v) => match parse_i32(trim(v)) {
                    Some(n) => ModelConfigView {
                        max_batch_size: if n >= 1 {
                            n
                        } else {
                            1
                        },
                        ..cfg
                    },
                    None => cfg,
                },
                None => cfg,
            },
        },
    }
}

/// A line that opens no block, read as a `key: value` field of the innermost block.
pub open spec fn apply_field(st: ParseView, line: Seq<char>) -> ParseView {
    match current(st) {
        Some(Section::Input) => ParseView {
            cfg: ModelConfigView { inputs: tensor_field(st.cfg.inputs, line), ..st.cfg },
            ..st
        },
        Some(Section::Output) => ParseView {
            cfg: ModelConfigView { outputs: tensor_field(st.cfg.outputs, line), ..st.cfg },
            ..st
        },
        Some(Section::InstanceGroup) => ParseView {
            cfg: ModelConfigView {
                instance_groups: group_field(st.cfg.instance_groups, line),
                ..st.cfg
            },
            ..st
        },
        Some(Section::DynamicBatching) => ParseView {
            cfg: ModelConfigView {
                dynamic_batching: Some(batching_field(st.cfg.dynamic_batching, line)),
                ..st.cfg
            },
            ..st
        },
        Some(Section::Step) => match st.step {
            Some(s) => ParseView { step: Some(step_field(s, line)), ..st },
            None => st,
        },
        Some(Section::InputMap) | Some(Section::OutputMap) => match field(line, "key:"@) {
            Some(v) => ParseView { key: unquote(v), ..st },
            None => match field(line, "value:"@) {
                Some(v) => ParseView { value: unquote(v), ..st },
                None => st,
            },
        },
        Some(_) => st,
        None => if st.depth == 0 {
            ParseView { cfg: top_field(st.cfg, line), ..st }
        } else {
            st
        },
    }
}

/// What is left of a line once an unquoted `#` and everything after it is
/// dropped; `quoted` tells whether the line starts inside a `"` string.
pub open spec fn uncomment_from(s: Seq<char>, quoted: bool) -> Seq<char>
    decreases s.len(),
{
    if s.len() == 0 {
        s
    } else if s[0] == '#' && !quoted {
        Seq::empty()
    } else {
        seq![s[0]] + uncomment_from(
            s.drop_first(),
            if s[0] == '"' {
                !quoted
            } else {
                quoted
            },
        )
    }
}

/// A raw line without its comment (`#` up to the end of the line, outside
/// quotes).
pub open spec fn uncomment(s: Seq<char>) -> Seq<char> {
    uncomment_from(s, false)
}

/// A line without one trailing `,` or `;` separator.
pub open spec fn sans_separator(l: Seq<char>) -> Seq<char> {
    if l.len() > 0 && (l.last() == ',' || l.last() == ';') {
        l.drop_last()
    } else {
        l
    }
}

/// The text of a raw line that the reader acts on: without its comment,
/// blanks at either end and a trailing separator.
pub open spec fn line_text(raw: Seq<char>) -> Seq<char> {
    trim(sans_separator(trim(uncomment(raw))))
}

/// The effect of one raw line.
pub open spec fn step_line(st: ParseView, raw: Seq<char>) -> ParseView {
    let text = uncomment(raw);
    let line = line_text(raw);
    if line.len() == 0 {
        st
    } else if line =~= seq!['{'] {
        ParseView { depth: st.depth + 1, ..st }
    } else if line =~= seq!['}'] {
        close_brace(st)
    } else {
        let l2 = trim(strip_trailing(line, '{'));
        if l2 =~= seq![']'] {
            close_bracket(st)
        } else {
            match opened_section(st, l2) {
                Some(sec) => open_section(st, sec, l2, text),
                None => if line.last() == '{' || line.last() == '[' {
                    open_section(st, Section::Other, l2, text)
                } else {
                    apply_field(st, l2)
                },
            }
        }
    }
}

/// The state after reading `lines` in order from `st`.
pub open spec fn read_lines(st: ParseView, lines: Seq<Seq<char>>) -> ParseView
    decreases lines.len(),
{
    if lines.len() == 0 {
        st
    } else {
        step_line(read_lines(st, lines.drop_last()), lines.last())
    }
}

/// The reader's state at the end of `text`.
pub open spec fn read_config(text: Seq<char>) -> ParseView {
    read_lines(initial_state(), split_on(text, '\n'))
}

pub open spec fn opt_view(o: Option<Vec<char>>) -> Option<Seq<char>> {
    match o {
        Some(v) => Some(v@),
        None => None,
    }
}

fn section_keyword(s: Section) -> (r: &'static str)
    ensures
        r@ == section_word(s),
{
    match s {
        Section::Input => "input",
        Section::Output => "output",
        Section::InstanceGroup => "instance_group",
        Section::DynamicBatching => "dynamic_batching",
        Section::VersionPolicy => "version_policy",
        Section::EnsembleScheduling => "ensemble_scheduling",
        Section::Step => "step",
        Section::InputMap => "input_map",
        Section::OutputMap => "output_map",
        Section::Other => {
            proof {
                reveal_strlit("");
            }
            ""
        },
    }
}

fn starts_word_exec(line: &[char], s: Section) -> (r: bool)
    ensures
        r == starts_word(line@, section_word(s)),
{
    let w = chars_of(section_keyword(s));
    if !starts_with(line, w.as_slice()) {
        return false;
    }
    let k = w.len();
    line.len() == k || line[k] == ' ' || line[k] == '['
}

fn top_section_exec(line: &[char]) -> (r: Option<Section>)
    ensures
        r == top_section(line@),
{
    if starts_word_exec(line, Section::Input) {
        Some(Section::Input)
    } else if starts_word_exec(line, Section::Output) {
        Some(Section::Output)
    } else if starts_word_exec(line, Section::InstanceGroup) {
        Some(Section::InstanceGroup)
    } else if starts_word_exec(line, Section::DynamicBatching) {
        Some(Section::DynamicBatching)
    } else if starts_word_exec(line, Section::VersionPolicy) {
        Some(Section::VersionPolicy)
    } else if starts_word_exec(line, Section::EnsembleScheduling) {
        Some(Section::EnsembleScheduling)
    } else {
        None
    }
}

/// `str::strip_prefix(key)` followed by `str::trim`.
fn field_exec(line: &[char], key: &str) -> (r: Option<Vec<char>>)
    ensures
        opt_view(r) == field(line@, key@),
{
    let k = chars_of(key);
    match strip_prefix(line, k.as_slice()) {
        Some(rest) => Some(trim_chars(rest.as_slice())),
        None => None,
    }
}

fn unquote_exec(v: &[char]) -> (r: Vec<char>)
    ensures
        r@ == unquote(v@),
{
    let t = trim_chars(v);
    strip_around(t.as_slice(), '"', '"')
}

fn parse_i64_exec(v: &[char]) -> (r: Option<i64>)
    ensures
        r == parse_i64(v@),
{
    match parse_int_in(v, i64::MIN as i128, i64::MAX as i128) {
        Some(n) => Some(n as i64),
        None => None,
    }
}

fn parse_i32_exec(v: &[char]) -> (r: Option<i32>)
    ensures
        r == parse_i32(v@),
{
    match parse_int_in(v, i32::MIN as i128, i32::MAX as i128) {
        Some(n) => Some(n as i32),
        None => None,
    }
}

fn num_list_exec(v: &[char]) -> (r: Vec<i64>)
    ensures
        r@ == num_list(v@),
{
    let t = trim_chars(v);
    let inner = strip_around(t.as_slice(), '[', ']');
    let items = split_chars(inner.as_slice(), ',');
    let mut out: Vec<i64> = Vec::new();
    let mut i: usize = 0;
    assert(views(items@).take(0) =~= Seq::<Seq<char>>::empty());
    while i < items.len()
        invariant
            i <= items@.len(),
            out@ == read_items(views(items@).take(i as int)),
        decreases items.len() - i,
    {
        let ghost its = views(items@).take(i + 1);
        assert(its.drop_last() =~= views(items@).take(i as int));
        assert(its.last() == items@[i as int]@);
        let item = trim_chars(items[i].as_slice());
        if item.len() > 0 {
            match parse_i64_exec(item.as_slice()) {
                Some(n) => {
                    out.push(n);
                },
                None => {},
            }
        }
        i = i + 1;
    }
    assert(views(items@).take(items@.len() as int) =~= views(items@));
    out
}

fn tensor_field_exec(defs: &mut Vec<TensorDef>, line: &[char])
    ensures
        tensor_views(final(defs)@) == tensor_field(tensor_views(old(defs)@), line@),
{
    let ghost before = tensor_views(defs@);
    if let Some(v) = field_exec(line, "name:") {
        let name = unquote_exec(v.as_slice());
        let t = TensorDef { name: string_of(name.as_slice()), data_type: DataType::Invalid, dims: Vec::new() };
        defs.push(t);
        assert(tensor_views(defs@) =~= before.push(t@));
    } else if let Some(v) = field_exec(line, "data_type:") {
        if defs.len() > 0 {
            let tv = trim_chars(v.as_slice());
            let dt = data_type_from_chars(tv.as_slice());
            let mut t = defs.pop().unwrap();
            t.data_type = dt;
            defs.push(t);
            assert(tensor_views(defs@) =~= before.update(
                before.len() - 1,
                TensorDefView { data_type: data_type_named(trim(v@)), ..before.last() },
            ));
        }
    } else if let Some(v) = field_exec(line, "dims:") {
        if defs.len() > 0 {
            let dims = num_list_exec(v.as_slice());
            let mut t = defs.pop().unwrap();
            t.dims = dims;
            defs.push(t);
            assert(tensor_views(defs@) =~= before.update(
                before.len() - 1,
                TensorDefView { dims: num_list(v@), ..before.last() },
            ));
        }
    }
}

fn group_field_exec(gs: &mut Vec<InstanceGroup>, line: &[char])
    ensures
        group_views(final(gs)@) == group_field(group_views(old(gs)@), line@),
{
    let ghost before = group_views(gs@);
    if let Some(v) = field_exec(line, "count:") {
        let tv = trim_chars(v.as_slice());
        if let Some(c) = parse_i32_exec(tv.as_slice()) {
            let kind = chars_of("KIND_CPU");
            let g = InstanceGroup {
                count: if c >= 1 {
                    c
                } else {
                    1
                },
                kind: string_of(kind.as_slice()),
            };
            gs.push(g);
            assert(group_views(gs@) =~= before.push(g@));
        }
    } else if let Some(v) = field_exec(line, "kind:") {
        if gs.len() > 0 {
            let kind = unquote_exec(v.as_slice());
            let mut g = gs.pop().unwrap();
            g.kind = string_of(kind.as_slice());
            gs.push(g);
            assert(group_views(gs@) =~= before.update(
                before.len() - 1,
                InstanceGroupView { kind: unquote(v@), ..before.last() },
            ));
        }
    }
}

fn batching_field_exec(db: Option<DynamicBatching>, line: &[char]) -> (r: DynamicBatching)
    ensures
        r@ == batching_field(crate::config_types::batching_view(db), line@),
{
    let mut d = match db {
        Some(d) => d,
        None => DynamicBatching { preferred_batch_size: Vec::new(), max_queue_delay_us: 0 },
    };
    let ghost start = d@;
    if let Some(v) = field_exec(line, "preferred_batch_size:") {
        let ns = num_list_exec(v.as_slice());
        let mut i: usize = 0;
        while i < ns.len()
            invariant
                i <= ns@.len(),
                d@.max_queue_delay_us == start.max_queue_delay_us,
                d@.preferred_batch_size == start.preferred_batch_size + as_i32s(ns@.take(i as int)),
            decreases ns.len() - i,
        {
            d.preferred_batch_size.push(ns[i] as i32);
            assert(as_i32s(ns@.take(i + 1)) =~= as_i32s(ns@.take(i as int)).push(ns@[i as int] as i32));
            assert(d@.preferred_batch_size =~= start.preferred_batch_size + as_i32s(ns@.take(i + 1)));
            i = i + 1;
        }
        assert(ns@.take(ns@.len() as int) =~= ns@);
    } else if let Some(v) = field_exec(line, "max_queue_delay_microseconds:") {
        let tv = trim_chars(v.as_slice());
        if let Some(n) = parse_i64_exec(tv.as_slice()) {
            d.max_queue_delay_us = n;
        }
    }
    d
}

fn step_field_exec(s: &mut EnsembleStep, line: &[char])
    ensures
        final(s)@ == step_field(old(s)@, line@),
{
    if let Some(v) = field_exec(line, "model_name:") {
        let name = unquote_exec(v.as_slice());
        s.model_name = string_of(name.as_slice());
    } else if let Some(v) = field_exec(line, "model_version:") {
        let tv = trim_chars(v.as_slice());
        s.model_version = match parse_i32_exec(tv.as_slice()) {
            Some(n) => n,
            None => -1,
        };
    }
}

fn top_field_exec(cfg: &mut ModelConfig, line: &[char])
    ensures
        final(cfg)@ == top_field(old(cfg)@, line@),
{
    if let Some(v) = field_exec(line, "name:") {
        let name = unquote_exec(v.as_slice());
        cfg.name = string_of(name.as_slice());
    } else if let Some(v) = field_exec(line, "platform:") {
        let p = unquote_exec(v.as_slice());
        cfg.platform = string_of(p.as_slice());
    } else if let Some(v) = field_exec(line, "max_batch_size:") {
        let tv = trim_chars(v.as_slice());
        if let Some(n) = parse_i32_exec(tv.as_slice()) {
            cfg.max_batch_size = if n >= 1 {
                n
            } else {
                1
            };
        }
    }
}

struct Frame {
    section: Section,
    depth: i32,
    in_list: bool,
}

/// The reader's working state.
struct Reader {
    cfg: ModelConfig,
    frames: Vec<Frame>,
    depth: i32,
    step: Option<EnsembleStep>,
    key: String,
    value: String,
}

spec fn frame_views(fs: Seq<Frame>) -> Seq<FrameView> {
    fs.map_values(|f: Frame| FrameView { section: f.section, depth: f.depth as int, in_list: f.in_list })
}

pub open spec fn step_view(o: Option<EnsembleStep>) -> Option<EnsembleStepView> {
    match o {
        Some(s) => Some(s@),
        None => None,
    }
}

impl Reader {
    spec fn view(&self) -> ParseView {
        ParseView {
            cfg: self.cfg@,
            frames: frame_views(self.frames@),
            depth: self.depth as int,
            step: step_view(self.step),
            key: self.key@,
            value: self.value@,
        }
    }

    fn new() -> (r: Self)
        ensures
            r.view() == initial_state(),
    {
        let platform = chars_of("onnxruntime_onnx");
        let r = Reader {
            cfg: ModelConfig {
                name: std::string::String::new(),
                platform: string_of(platform.as_slice()),
                max_batch_size: 1,
                inputs: Vec::new(),
                outputs: Vec::new(),
                instance_groups: Vec::new(),
                dynamic_batching: None,
                ensemble_scheduling: None,
            },
            frames: Vec::new(),
            depth: 0,
            step: None,
            key: std::string::String::new(),
            value: std::string::String::new(),
        };
        assert(r.view().cfg.inputs =~= Seq::<TensorDefView>::empty());
        assert(r.view().cfg.outputs =~= Seq::<TensorDefView>::empty());
        assert(r.view().cfg.instance_groups =~= Seq::<InstanceGroupView>::empty());
        assert(r.view().frames =~= Seq::<FrameView>::empty());
        r
    }
}

fn new_step() -> (s: EnsembleStep)
    ensures
        s@ == empty_step(),
{
    let s = EnsembleStep {
        model_name: std::string::String::new(),
        model_version: -1,
        input_map: Vec::new(),
        output_map: Vec::new(),
    };
    assert(s@.input_map =~= Seq::<KeyValueView>::empty());
    assert(s@.output_map =~= Seq::<KeyValueView>::empty());
    s
}

fn push_step_exec(cfg: &mut ModelConfig, s: EnsembleStep)
    ensures
        final(cfg)@ == push_step(old(cfg)@, s@),
{
    let mut ens = match cfg.ensemble_scheduling.take() {
        Some(e) => e,
        None => EnsembleScheduling { steps: Vec::new() },
    };
    let ghost before = step_views(ens.steps@);
    assert(before == match old(cfg)@.ensemble_scheduling {
        Some(e) => e.steps,
        None => Seq::<EnsembleStepView>::empty(),
    });
    ens.steps.push(s);
    assert(step_views(ens.steps@) =~= before.push(s@));
    cfg.ensemble_scheduling = Some(ens);
}

fn take_string(s: &mut std::string::String) -> (r: std::string::String)
    ensures
        r@ == old(s)@,
        final(s)@ == Seq::<char>::empty(),
{
    let mut r = std::string::String::new();
    std::mem::swap(&mut r, s);
    r
}

fn close_brace_exec(rd: &mut Reader)
    requires
        old(rd).depth > i32::MIN,
    ensures
        final(rd).view() == close_brace(old(rd).view()),
{
    let ghost st = rd.view();
    rd.depth = rd.depth - 1;
    let n = rd.frames.len();
    if n == 0 || rd.frames[n - 1].depth != rd.depth {
        return;
    }
    let sec = rd.frames[n - 1].section;
    let lst = rd.frames[n - 1].in_list;
    assert(st.frames.last() == FrameView { section: sec, depth: rd.frames@[n - 1].depth as int, in_list: lst });
    match sec {
        Section::InputMap => {
            if rd.step.is_some() {
                let k = take_string(&mut rd.key);
                let v = take_string(&mut rd.value);
                let mut s = rd.step.take().unwrap();
                let ghost sv = s@;
                let kv = KeyValue { key: k, value: v };
                s.input_map.push(kv);
                assert(kv_views(s.input_map@) =~= sv.input_map.push(kv@));
                rd.step = Some(s);
            }
        },
        Section::OutputMap => {
            if rd.step.is_some() {
                let k = take_string(&mut rd.key);
                let v = take_string(&mut rd.value);
                let mut s = rd.step.take().unwrap();
                let ghost sv = s@;
                let kv = KeyValue { key: k, value: v };
                s.output_map.push(kv);
                assert(kv_views(s.output_map@) =~= sv.output_map.push(kv@));
                rd.step = Some(s);
            }
        },
        Section::Step => {
            if lst {
                match rd.step.take() {
                    Some(s) => push_step_exec(&mut rd.cfg, s),
                    None => {},
                }
                rd.step = Some(new_step());
            }
        },
        _ => {},
    }
    if !lst {
        let ghost fs = rd.frames@;
        rd.frames.pop();
        assert(frame_views(rd.frames@) =~= frame_views(fs).drop_last());
        if sec == Section::Step {
            match rd.step.take() {
                Some(s) => push_step_exec(&mut rd.cfg, s),
                None => {},
            }
        }
    }
}

fn close_bracket_exec(rd: &mut Reader)
    ensures
        final(rd).view() == close_bracket(old(rd).view()),
{
    let n = rd.frames.len();
    if n > 0 && rd.frames[n - 1].in_list {
        let ghost fs = rd.frames@;
        rd.frames.pop();
        assert(frame_views(rd.frames@) =~= frame_views(fs).drop_last());
    }
}

fn current_exec(rd: &Reader) -> (r: Option<Section>)
    ensures
        r == current(rd.view()),
{
    let n = rd.frames.len();
    if n == 0 {
        None
    } else {
        Some(rd.frames[n - 1].section)
    }
}

fn open_section_exec(rd: &mut Reader, sec: Section, line: &[char], raw: &[char])
    requires
        raw@.contains('{') ==> old(rd).depth < i32::MAX,
    ensures
        final(rd).view() == open_section(old(rd).view(), sec, line@, raw@),
{
    let ghost fs = rd.frames@;
    let f = Frame { section: sec, depth: rd.depth, in_list: ends_with_char(line, '[') };
    rd.frames.push(f);
    assert(frame_views(rd.frames@) =~= frame_views(fs).push(
        FrameView { section: sec, depth: old(rd).depth as int, in_list: line@.len() > 0 && line@.last() == '[' },
    ));
    if sec == Section::Step {
        rd.step = Some(new_step());
    } else if sec == Section::InputMap || sec == Section::OutputMap {
        rd.key = std::string::String::new();
        rd.value = std::string::String::new();
    }
    if contains_char(raw, '{') {
        rd.depth = rd.depth + 1;
    }
}

fn apply_field_exec(rd: &mut Reader, line: &[char])
    ensures
        final(rd).view() == apply_field(old(rd).view(), line@),
{
    match current_exec(rd) {
        Some(Section::Input) => tensor_field_exec(&mut rd.cfg.inputs, line),
        Some(Section::Output) => tensor_field_exec(&mut rd.cfg.outputs, line),
        Some(Section::InstanceGroup) => group_field_exec(&mut rd.cfg.instance_groups, line),
        Some(Section::DynamicBatching) => {
            let db = rd.cfg.dynamic_batching.take();
            let d = batching_field_exec(db, line);
            rd.cfg.dynamic_batching = Some(d);
        },
        Some(Section::Step) => {
            match rd.step.take() {
                Some(mut s) => {
                    step_field_exec(&mut s, line);
                    rd.step = Some(s);
                },
                None => {},
            }
        },
        Some(Section::InputMap) | Some(Section::OutputMap) => {
            if let Some(v) = field_exec(line, "key:") {
                let k = unquote_exec(v.as_slice());
                rd.key = string_of(k.as_slice());
            } else if let Some(v) = field_exec(line, "value:") {
                let w = unquote_exec(v.as_slice());
                rd.value = string_of(w.as_slice());
            }
        },
        Some(_) => {},
        None => {
            if rd.depth == 0 {
                top_field_exec(&mut rd.cfg, line);
            }
        },
    }
}

fn opened_section_exec(rd: &Reader, line: &[char]) -> (r: Option<Section>)
    ensures
        r == opened_section(rd.view(), line@),
{
    match top_section_exec(line) {
        Some(s) => Some(s),
        None => {
            let cur = current_exec(rd);
            if cur == Some(Section::EnsembleScheduling) {
                if starts_word_exec(line, Section::Step) {
                    Some(Section::Step)
                } else {
                    None
                }
            } else if cur == Some(Section::Step) {
                if starts_word_exec(line, Section::InputMap) {
                    Some(Section::InputMap)
                } else if starts_word_exec(line, Section::OutputMap) {
                    Some(Section::OutputMap)
                } else {
                    None
                }
            } else {
                None
            }
        },
    }
}

fn uncomment_exec(raw: &[char]) -> (r: Vec<char>)
    ensures
        r@ == uncomment(raw@),
{
    let mut r: Vec<char> = Vec::new();
    let mut quoted = false;
    let mut i: usize = 0;
    assert(raw@.skip(0) =~= raw@);
    while i < raw.len()
        invariant
            i <= raw@.len(),
            uncomment(raw@) == r@ + uncomment_from(raw@.skip(i as int), quoted),
        decreases raw.len() - i,
    {
        let c = raw[i];
        assert(raw@.skip(i as int)[0] == c);
        if c == '#' && !quoted {
            assert(r@ + Seq::<char>::empty() =~= r@);
            return r;
        }
        assert(raw@.skip(i as int).drop_first() =~= raw@.skip(i + 1));
        let ghost before = r@;
        r.push(c);
        assert(before + (seq![c] + uncomment_from(raw@.skip(i + 1), if c == '"' { !quoted } else { quoted }))
            =~= r@ + uncomment_from(raw@.skip(i + 1), if c == '"' { !quoted } else { quoted }));
        if c == '"' {
            quoted = !quoted;
        }
        i = i + 1;
    }
    assert(raw@.skip(i as int) =~= Seq::<char>::empty());
    assert(r@ + Seq::<char>::empty() =~= r@);
    r
}

fn sans_separator_exec(l: &[char]) -> (r: Vec<char>)
    ensures
        r@ == sans_separator(l@),
{
    let n = l.len();
    if n > 0 && (l[n - 1] == ',' || l[n - 1] == ';') {
        let r = crate::text::copy_range(l, 0, n - 1);
        assert(r@ =~= l@.drop_last());
        r
    } else {
        let r = crate::text::copy_range(l, 0, n);
        assert(r@ =~= l@);
        r
    }
}

fn step_line_exec(rd: &mut Reader, raw: &[char])
    requires
        i32::MIN <= step_line(old(rd).view(), raw@).depth <= i32::MAX,
    ensures
        final(rd).view() == step_line(old(rd).view(), raw@),
{
    let text = uncomment_exec(raw);
    let t1 = trim_chars(text.as_slice());
    let t2 = sans_separator_exec(t1.as_slice());
    let line = trim_chars(t2.as_slice());
    assert(line@ == line_text(raw@));
    if line.len() == 0 {
        return;
    }
    if line.len() == 1 && line[0] == '{' {
        assert(line@ =~= seq!['{']);
        rd.depth = rd.depth + 1;
        return;
    }
    if line.len() == 1 && line[0] == '}' {
        assert(line@ =~= seq!['}']);
        close_brace_exec(rd);
        return;
    }
    assert(!(line@ =~= seq!['{']) && !(line@ =~= seq!['}'])) by {
        if line@ =~= seq!['{'] || line@ =~= seq!['}'] {
            assert(line@.len() == 1);
        }
    }
    let cut = strip_end(line.as_slice(), '{');
    let l2 = trim_chars(cut.as_slice());
    if l2.len() == 1 && l2[0] == ']' {
        assert(l2@ =~= seq![']']);
        close_bracket_exec(rd);
        return;
    }
    assert(!(l2@ =~= seq![']'])) by {
        if l2@ =~= seq![']'] {
            assert(l2@.len() == 1);
        }
    }
    match opened_section_exec(rd, l2.as_slice()) {
        Some(sec) => open_section_exec(rd, sec, l2.as_slice(), text.as_slice()),
        None => {
            let last = line[line.len() - 1];
            if last == '{' || last == '[' {
                open_section_exec(rd, Section::Other, l2.as_slice(), text.as_slice());
            } else {
                apply_field_exec(rd, l2.as_slice());
            }
        },
    }
}

/// One line moves the brace depth by at most one.
proof fn lemma_step_depth(st: ParseView, raw: Seq<char>)
    ensures
        st.depth - 1 <= step_line(st, raw).depth <= st.depth + 1,
{
    let line = line_text(raw);
    if line.len() == 0 {
    } else if line =~= seq!['{'] {
    } else if line =~= seq!['}'] {
        assert(close_brace(st).depth == st.depth - 1);
    } else {
        let l2 = trim(strip_trailing(line, '{'));
        if l2 =~= seq![']'] {
        } else {
            match opened_section(st, l2) {
                Some(sec) => {},
                None => {
                    assert(apply_field(st, l2).depth == st.depth);
                },
            }
        }
    }
}

/// The bounds the reader keeps on every configuration: a batch size of at
/// least one, and at least one instance in every instance group.
pub open spec fn counts_positive(c: ModelConfigView) -> bool {
    &&& c.max_batch_size >= 1
    &&& forall|i: int| 0 <= i < c.instance_groups.len() ==> (#[trigger] c.instance_groups[i]).count >= 1
}

proof fn lemma_push_step_counts(c: ModelConfigView, s: EnsembleStepView)
    requires
        counts_positive(c),
    ensures
        counts_positive(push_step(c, s)),
{
}

proof fn lemma_step_line_counts(st: ParseView, raw: Seq<char>)
    requires
        counts_positive(st.cfg),
    ensures
        counts_positive(step_line(st, raw).cfg),
{
    let line = line_text(raw);
    if line.len() == 0 {
    } else if line =~= seq!['{'] {
    } else if line =~= seq!['}'] {
        match st.step {
            Some(s) => lemma_push_step_counts(st.cfg, s),
            None => {},
        }
        let st1 = close_brace(st);
        if st.frames.len() > 0 && st.frames.last().depth == st.depth - 1 {
            let top = st.frames.last();
            if top.section == Section::Step && top.in_list {
                match st.step {
                    Some(s) => lemma_push_step_counts(st.cfg, s),
                    None => {},
                }
            }
        }
    } else {
        let l2 = trim(strip_trailing(line, '{'));
        if l2 =~= seq![']'] {
        } else {
            match opened_section(st, l2) {
                Some(sec) => {},
                None => {
                    let gs = st.cfg.instance_groups;
                    let ng = group_field(gs, l2);
                    assert forall|i: int| 0 <= i < ng.len() implies (#[trigger] ng[i]).count >= 1 by {
                        if i < gs.len() {
                            assert(gs[i].count >= 1);
                        }
                    }
                },
            }
        }
    }
}

proof fn lemma_read_lines_counts(st: ParseView, lines: Seq<Seq<char>>)
    requires
        counts_positive(st.cfg),
    ensures
        counts_positive(read_lines(st, lines).cfg),
    decreases lines.len(),
{
    if lines.len() > 0 {
        lemma_read_lines_counts(st, lines.drop_last());
        lemma_step_line_counts(read_lines(st, lines.drop_last()), lines.last());
    }
}

/// Whatever the text, the configuration read from it has a batch size of at
/// least one and at least one instance in each instance group (smaller
/// values are raised to one).
pub proof fn law_counts_positive(text: Seq<char>)
    ensures
        counts_positive(read_config(text).cfg),
{
    lemma_read_lines_counts(initial_state(), split_on(text, '\n'));
}

/// Reading `a + b` is reading `a`, then `b` from where `a` left off.
proof fn lemma_read_lines_concat(st: ParseView, a: Seq<Seq<char>>, b: Seq<Seq<char>>)
    ensures
        read_lines(st, a + b) == read_lines(read_lines(st, a), b),
    decreases b.len(),
{
    if b.len() == 0 {
        assert(a + b =~= a);
    } else {
        assert((a + b).drop_last() =~= a + b.drop_last());
        lemma_read_lines_concat(st, a, b.drop_last());
    }
}

/// A line that holds nothing but blanks, a comment or a separator.
pub open spec fn ignorable(raw: Seq<char>) -> bool {
    line_text(raw).len() == 0
}

/// Blank lines and comment lines change nothing: inserting one anywhere
/// leaves the configuration and the reader's state as they were.
pub proof fn law_ignorable_lines(st: ParseView, a: Seq<Seq<char>>, x: Seq<char>, b: Seq<Seq<char>>)
    requires
        ignorable(x),
    ensures
        read_lines(st, a.push(x) + b) == read_lines(st, a + b),
{
    lemma_read_lines_concat(st, a.push(x), b);
    lemma_read_lines_concat(st, a, b);
    assert(a.push(x).drop_last() =~= a);
}

/// The model's own fields are set only by lines outside every block at
/// brace depth zero: a line read inside any block, modelled or not (a
/// `name:` inside `model_warmup`, say), leaves the model's name, platform
/// and batch size as they were.
pub proof fn law_nested_lines_keep_top_fields(st: ParseView, raw: Seq<char>)
    requires
        st.frames.len() > 0 || st.depth != 0,
    ensures
        step_line(st, raw).cfg.name == st.cfg.name,
        step_line(st, raw).cfg.platform == st.cfg.platform,
        step_line(st, raw).cfg.max_batch_size == st.cfg.max_batch_size,
{
    let line = line_text(raw);
    if line.len() == 0 {
    } else if line =~= seq!['{'] {
    } else if line =~= seq!['}'] {
        assert(close_brace(st).cfg.name == st.cfg.name);
    } else {
        let l2 = trim(strip_trailing(line, '{'));
        if l2 =~= seq![']'] {
        } else {
            match opened_section(st, l2) {
                Some(sec) => {},
                None => {
                    assert(apply_field(st, l2).cfg.name == st.cfg.name);
                },
            }
        }
    }
}

proof fn lemma_uncomment_plain(v: Seq<char>, w: Seq<char>, q: bool)
    requires
        !v.contains('#'),
        !v.contains('"'),
    ensures
        uncomment_from(v + w, q) == v + uncomment_from(w, q),
    decreases v.len(),
{
    if v.len() == 0 {
        assert(v + w =~= w);
        assert(v + uncomment_from(w, q) =~= uncomment_from(w, q));
    } else {
        assert(v[0] != '#' && v[0] != '"') by {
            if v[0] == '#' || v[0] == '"' {
                assert(v.contains(v[0]));
            }
        }
        let d = v.drop_first();
        assert(!d.contains('#') && !d.contains('"')) by {
            if d.contains('#') {
                let i = choose|i: int| 0 <= i < d.len() && d[i] == '#';
                assert(v[i + 1] == '#');
            }
            if d.contains('"') {
                let i = choose|i: int| 0 <= i < d.len() && d[i] == '"';
                assert(v[i + 1] == '"');
            }
        }
        assert((v + w).drop_first() =~= d + w);
        assert((v + w)[0] == v[0]);
        lemma_uncomment_plain(d, w, q);
        assert(seq![v[0]] + (d + uncomment_from(w, q)) =~= v + uncomment_from(w, q));
    }
}

/// A trailing comment changes nothing: a line `v # ...` (where `v` holds no
/// `#` and no quote) is read exactly as `v`, so `dims: [ -1, 512 ]  # note`
/// gives the dimensions `[-1, 512]`.
pub proof fn law_trailing_comment(st: ParseView, v: Seq<char>, c: Seq<char>)
    requires
        !v.contains('#'),
        !v.contains('"'),
    ensures
        step_line(st, v + seq!['#'] + c) == step_line(st, v),
{
    assert(v + seq!['#'] + c =~= v + (seq!['#'] + c));
    lemma_uncomment_plain(v, seq!['#'] + c, false);
    lemma_uncomment_plain(v, Seq::empty(), false);
    assert(v + Seq::<char>::empty() =~= v);
    assert((seq!['#'] + c)[0] == '#');
    assert(uncomment_from(seq!['#'] + c, false) == Seq::<char>::empty());
    assert(v + Seq::<char>::empty() =~= v);
    assert(uncomment(v + seq!['#'] + c) == uncomment(v));
}

/// The reader counts the brace depth in an `i32`: over the whole text the
/// depth stays within its range.
pub open spec fn depth_fits(text: Seq<char>) -> bool {
    forall|k: int|
        0 <= k <= split_on(text, '\n').len() ==> i32::MIN <= #[trigger] read_lines(
            initial_state(),
            split_on(text, '\n').take(k),
        ).depth <= i32::MAX
}

proof fn lemma_depth_bounded(lines: Seq<Seq<char>>)
    ensures
        -lines.len() <= read_lines(initial_state(), lines).depth <= lines.len(),
    decreases lines.len(),
{
    if lines.len() > 0 {
        lemma_depth_bounded(lines.drop_last());
        lemma_step_depth(read_lines(initial_state(), lines.drop_last()), lines.last());
    }
}

/// A text shorter than `i32::MAX` characters never takes the depth out of
/// range (each line moves it by at most one).
pub proof fn lemma_short_text_depth_fits(text: Seq<char>)
    requires
        text.len() < i32::MAX,
    ensures
        depth_fits(text),
{
    let ls = split_on(text, '\n');
    lemma_split_on_len(text, '\n');
    assert forall|k: int| 0 <= k <= ls.len() implies i32::MIN <= #[trigger] read_lines(
        initial_state(),
        ls.take(k),
    ).depth <= i32::MAX by {
        lemma_depth_bounded(ls.take(k));
    }
}

/// Reads a `config.pbtxt` model configuration.
///
/// The bytes must be UTF-8; each line is read as the state machine of
/// `step_line` prescribes, and the configuration is accepted when it names
/// its model.
pub fn parse_model_config(content: &[u8]) -> (r: Result<ModelConfig, ConfigError>)
    requires
        valid_utf8(content@) ==> depth_fits(decode_utf8(content@)),
    ensures
        !valid_utf8(content@) ==> (r matches Err(ConfigError::InvalidUtf8 { valid_up_to, error_len })
            && fault_at(content@, valid_up_to as int)
            && (error_len matches Some(k) ==> 1 <= k && valid_up_to + k <= content@.len())),
        valid_utf8(content@) ==> {
            let st = read_config(decode_utf8(content@));
            &&& (r is Ok <==> st.cfg.name.len() > 0)
            &&& (r matches Ok(c) ==> c@ == st.cfg && counts_positive(c@))
            &&& (r is Err ==> r == Err::<ModelConfig, ConfigError>(ConfigError::MissingName))
        },
{
    let text = match core::str::from_utf8(content) {
        Ok(t) => t,
        Err(_) => {
            return match utf8_fault(content) {
                Some(f) => Err(ConfigError::InvalidUtf8 { valid_up_to: f.valid_up_to, error_len: f.error_len }),
                None => Err(ConfigError::InvalidUtf8 { valid_up_to: 0, error_len: None }),
            };
        },
    };
    let chars = chars_of(text);
    let lines = split_chars(chars.as_slice(), '\n');
    proof {
        assert(views(lines@).len() == lines@.len());
    }
    let mut rd = Reader::new();
    let mut i: usize = 0;
    assert(views(lines@).take(0) =~= Seq::<Seq<char>>::empty());
    while i < lines.len()
        invariant
            i <= lines@.len(),
            views(lines@) == split_on(chars@, '\n'),
            depth_fits(chars@),
            rd.view() == read_lines(initial_state(), views(lines@).take(i as int)),
        decreases lines.len() - i,
    {
        let ghost ls = views(lines@).take(i + 1);
        assert(ls.drop_last() =~= views(lines@).take(i as int));
        assert(ls.last() == lines@[i as int]@);
        assert(read_lines(initial_state(), ls) == step_line(rd.view(), lines@[i as int]@));
        assert(i32::MIN <= read_lines(initial_state(), split_on(chars@, '\n').take(i + 1)).depth <= i32::MAX);
        step_line_exec(&mut rd, lines[i].as_slice());
        i = i + 1;
    }
    assert(views(lines@).take(lines@.len() as int) =~= views(lines@));
    proof {
        law_counts_positive(decode_utf8(content@));
    }
    crate::config_types::require_name(rd.cfg)
}

} // verus!
