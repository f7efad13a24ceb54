//! Binding records as read from configuration, and their interpretation.
use vstd::prelude::*;

verus! {

/// The kind of output a remapped key (or the effective identity of an
/// opposed key) is emitted as.
#[derive(Clone, Copy, Debug, PartialEq, Eq, Structural)]
pub enum TargetKind {
    Keyboard,
    FaceButton,
}

/// What a binding does with its source key.
#[derive(Debug)]
pub enum Action {
    /// Replace the source key with `target`, emitted as `kind`.
    Remap { kind: TargetKind, target: String },
    /// Pair the source key with `opposite` for SOCD resolution.
    Socd { opposite: String },
}

/// One declaration of the binding list.
#[derive(Debug)]
pub struct Binding {
    pub source_key: String,
    pub action: Action,
}

pub enum ActionModel {
    Remap(TargetKind, Seq<char>),
    Socd(Seq<char>),
}

pub struct BindingModel {
    pub source: Seq<char>,
    pub action: ActionModel,
}

impl View for Action {
    type V = ActionModel;

    open spec fn view(&self) -> ActionModel {
        match self {
            Action::Remap { kind, target } => ActionModel::Remap(*kind, target@),
            Action::Socd { opposite } => ActionModel::Socd(opposite@),
        }
    }
}

impl View for Binding {
    type V = BindingModel;

    open spec fn view(&self) -> BindingModel {
        BindingModel { source: self.source_key@, action: self.action@ }
    }
}

/// A raw configuration record: a source key name, a result type
/// (`"keyboard"`, `"face_button"` or `"socd"`) and a result value (the
/// target key name, or the opposing key name for `"socd"`).
#[derive(Debug)]
pub struct BindingRecord {
    pub keycode: String,
    pub result_type: String,
    pub result_value: String,
}

/// Whether the two key names of a record name real keys. Key names are
/// checked by the host, which owns the platform's key table.
#[derive(Clone, Copy, Debug, PartialEq, Eq, Structural)]
pub struct KeyCheck {
    pub source_known: bool,
    pub value_known: bool,
}

/// What is wrong with one record.
#[derive(Clone, Copy, Debug, PartialEq, Eq, Structural)]
pub enum RecordFault {
    UnknownSourceKey,
    UnknownResultType,
    UnknownResultValue,
}

/// A configuration that cannot be loaded: the first faulty record and its fault.
#[derive(Clone, Copy, Debug, PartialEq, Eq, Structural)]
pub struct ConfigError {
    pub record: usize,
    pub fault: RecordFault,
}

pub enum ResultType {
    Remap(TargetKind),
    Socd,
}

/// The meaning of a result-type word, if it is one of the three accepted.
pub open spec fn result_type_of(word: Seq<char>) -> Option<ResultType> {
    if word == "keyboard"@ {
        Some(ResultType::Remap(TargetKind::Keyboard))
    } else if word == "face_button"@ {
        Some(ResultType::Remap(TargetKind::FaceButton))
    } else if word == "socd"@ {
        Some(ResultType::Socd)
    } else {
        None
    }
}

/// The fault of a record, if any; the source key is checked first, then the
/// result type, then the result value.
pub open spec fn fault_of(rec: BindingRecord, check: KeyCheck) -> Option<RecordFault> {
    if !check.source_known {
        Some(RecordFault::UnknownSourceKey)
    } else if result_type_of(rec.result_type@) is None {
        Some(RecordFault::UnknownResultType)
    } else if !check.value_known {
        Some(RecordFault::UnknownResultValue)
    } else {
        None
    }
}

/// The binding that a fault-free record declares.
pub open spec fn binding_of(rec: BindingRecord) -> BindingModel {
    BindingModel {
        source: rec.keycode@,
        action: match result_type_of(rec.result_type@) {
            Some(ResultType::Remap(kind)) => ActionModel::Remap(kind, rec.result_value@),
            _ => ActionModel::Socd(rec.result_value@),
        },
    }
}

fn text_is(s: &String, word: &str) -> (r: bool)
    ensures
        r == (s@ == word@),
{
    let w = word.to_owned();
    *s == w
}

/// Interprets one record whose key names have been checked.
pub fn parse_binding(rec: &BindingRecord, check: KeyCheck) -> (r: Result<Binding, RecordFault>)
    ensures
        match r {
            Ok(b) => fault_of(*rec, check) is None && b@ == binding_of(*rec),
            Err(f) => fault_of(*rec, check) == Some(f),
        },
{
    if !check.source_known {
        return Err(RecordFault::UnknownSourceKey);
    }
    let action = if text_is(&rec.result_type, "keyboard") {
        Action::Remap { kind: TargetKind::Keyboard, target: rec.result_value.clone() }
    } else if text_is(&rec.result_type, "face_button") {
        Action::Remap { kind: TargetKind::FaceButton, target: rec.result_value.clone() }
    } else if text_is(&rec.result_type, "socd") {
        Action::Socd { opposite: rec.result_value.clone() }
    } else {
        return Err(RecordFault::UnknownResultType);
    };
    if !check.value_known {
        return Err(RecordFault::UnknownResultValue);
    }
    Ok(Binding { source_key: rec.keycode.clone(), action })
}

/// Whether every record of a configuration is fault-free.
pub open spec fn all_fault_free(recs: Seq<BindingRecord>, checks: Seq<KeyCheck>) -> bool {
    forall|i: int| 0 <= i < recs.len() ==> fault_of(#[trigger] recs[i], checks[i]) is None
}

/// Interprets a whole configuration: all of it, or nothing.
pub fn parse_bindings(recs: &Vec<BindingRecord>, checks: &Vec<KeyCheck>) -> (r: Result<Vec<Binding>, ConfigError>)
    requires
        checks@.len() == recs@.len(),
    ensures
        match r {
            Ok(bs) => all_fault_free(recs@, checks@) && bs@.len() == recs@.len()
                && forall|i: int| 0 <= i < recs@.len() ==> #[trigger] bs@[i]@ == binding_of(recs@[i]),
            Err(e) => e.record < recs@.len()
                && fault_of(recs@[e.record as int], checks@[e.record as int]) == Some(e.fault)
                && all_fault_free(recs@.take(e.record as int), checks@.take(e.record as int)),
        },
{
    let mut out: Vec<Binding> = Vec::new();
    let mut i: usize = 0;
    while i < recs.len()
        invariant
            i <= recs@.len(),
            checks@.len() == recs@.len(),
            out@.len() == i,
            forall|j: int| 0 <= j < i ==> fault_of(#[trigger] recs@[j], checks@[j]) is None,
            forall|j: int| 0 <= j < i ==> #[trigger] out@[j]@ == binding_of(recs@[j]),
        decreases recs@.len() - i,
    {
        match parse_binding(&recs[i], checks[i]) {
            Ok(b) => out.push(b),
            Err(fault) => {
                let e = ConfigError { record: i, fault };
                assert(all_fault_free(recs@.take(i as int), checks@.take(i as int)));
                return Err(e);
            },
        }
        i += 1;
    }
    Ok(out)
}

} // verus!

verus! {

pub open spec fn bindings_view(v: Seq<Binding>) -> Seq<BindingModel> {
    v.map_values(|b: Binding| b@)
}

} // verus!
